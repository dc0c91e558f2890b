//! Decoding of raw bytecode into a linear sequence of instructions.
use vstd::prelude::*;

verus! {

/// The opcode that widens the argument of the instruction after it.
pub const EXTENDED_ARG: u8 = 68;

/// Why a byte buffer could not be decoded.
#[derive(Debug, Clone, Copy, PartialEq, Eq, Structural)]
pub enum ParseError {
    /// Every instruction takes two bytes, so the buffer length must be even.
    OddByteCount,
    /// The buffer holds an opcode outside the supported set.
    UnknownOpcode(u8),
}

/// The supported opcodes.
#[derive(Debug, Clone, Copy, PartialEq, Eq, Structural)]
pub enum ParseInstrKind {
    Cache,
    EndFor,
    GetIter,
    MakeFunction,
    Nop,
    NotTaken,
    PopIter,
    PopTop,
    ReturnValue,
    ToBool,
    BinaryOp,
    Call,
    CompareOp,
    ExtendedArg,
    ForIter,
    JumpBackward,
    JumpForward,
    LoadConst,
    LoadFast,
    LoadFastChecked,
    LoadFastLoadFast,
    LoadGlobal,
    LoadSmallInt,
    PopJumpIfFalse,
    PopJumpIfNone,
    PopJumpIfNotNone,
    PopJumpIfTrue,
    StoreFast,
    StoreGlobal,
    Resume,
}

/// The opcode table: the kind that each numeric opcode stands for.
pub open spec fn kind_of_opcode(op: u8) -> Option<ParseInstrKind> {
    if op == 0 { Some(ParseInstrKind::Cache) }
    else if op == 9 { Some(ParseInstrKind::EndFor) }
    else if op == 16 { Some(ParseInstrKind::GetIter) }
    else if op == 23 { Some(ParseInstrKind::MakeFunction) }
    else if op == 27 { Some(ParseInstrKind::Nop) }
    else if op == 28 { Some(ParseInstrKind::NotTaken) }
    else if op == 30 { Some(ParseInstrKind::PopIter) }
    else if op == 31 { Some(ParseInstrKind::PopTop) }
    else if op == 35 { Some(ParseInstrKind::ReturnValue) }
    else if op == 39 { Some(ParseInstrKind::ToBool) }
    else if op == 44 { Some(ParseInstrKind::BinaryOp) }
    else if op == 51 { Some(ParseInstrKind::Call) }
    else if op == 56 { Some(ParseInstrKind::CompareOp) }
    else if op == 68 { Some(ParseInstrKind::ExtendedArg) }
    else if op == 69 { Some(ParseInstrKind::ForIter) }
    else if op == 74 { Some(ParseInstrKind::JumpBackward) }
    else if op == 76 { Some(ParseInstrKind::JumpForward) }
    else if op == 81 { Some(ParseInstrKind::LoadConst) }
    else if op == 83 { Some(ParseInstrKind::LoadFast) }
    else if op == 85 { Some(ParseInstrKind::LoadFastChecked) }
    else if op == 86 { Some(ParseInstrKind::LoadFastLoadFast) }
    else if op == 89 { Some(ParseInstrKind::LoadGlobal) }
    else if op == 91 { Some(ParseInstrKind::LoadSmallInt) }
    else if op == 97 { Some(ParseInstrKind::PopJumpIfFalse) }
    else if op == 98 { Some(ParseInstrKind::PopJumpIfNone) }
    else if op == 99 { Some(ParseInstrKind::PopJumpIfNotNone) }
    else if op == 100 { Some(ParseInstrKind::PopJumpIfTrue) }
    else if op == 109 { Some(ParseInstrKind::StoreFast) }
    else if op == 112 { Some(ParseInstrKind::StoreGlobal) }
    else if op == 149 { Some(ParseInstrKind::Resume) }
    else { None }
}

impl ParseInstrKind {
    /// Looks an opcode up in the opcode table.
    pub fn from_opcode(op: u8) -> (r: Option<ParseInstrKind>)
        ensures
            r == kind_of_opcode(op),
    {
        match op {
            0 => Some(ParseInstrKind::Cache),
            9 => Some(ParseInstrKind::EndFor),
            16 => Some(ParseInstrKind::GetIter),
            23 => Some(ParseInstrKind::MakeFunction),
            27 => Some(ParseInstrKind::Nop),
            28 => Some(ParseInstrKind::NotTaken),
            30 => Some(ParseInstrKind::PopIter),
            31 => Some(ParseInstrKind::PopTop),
            35 => Some(ParseInstrKind::ReturnValue),
            39 => Some(ParseInstrKind::ToBool),
            44 => Some(ParseInstrKind::BinaryOp),
            51 => Some(ParseInstrKind::Call),
            56 => Some(ParseInstrKind::CompareOp),
            68 => Some(ParseInstrKind::ExtendedArg),
            69 => Some(ParseInstrKind::ForIter),
            74 => Some(ParseInstrKind::JumpBackward),
            76 => Some(ParseInstrKind::JumpForward),
            81 => Some(ParseInstrKind::LoadConst),
            83 => Some(ParseInstrKind::LoadFast),
            85 => Some(ParseInstrKind::LoadFastChecked),
            86 => Some(ParseInstrKind::LoadFastLoadFast),
            89 => Some(ParseInstrKind::LoadGlobal),
            91 => Some(ParseInstrKind::LoadSmallInt),
            97 => Some(ParseInstrKind::PopJumpIfFalse),
            98 => Some(ParseInstrKind::PopJumpIfNone),
            99 => Some(ParseInstrKind::PopJumpIfNotNone),
            100 => Some(ParseInstrKind::PopJumpIfTrue),
            109 => Some(ParseInstrKind::StoreFast),
            112 => Some(ParseInstrKind::StoreGlobal),
            149 => Some(ParseInstrKind::Resume),
            _ => None,
        }
    }
}

/// One decoded instruction: its kind and its signed argument.
#[derive(Debug, Clone, Copy, PartialEq, Eq, Structural)]
pub struct ParseInstr {
    pub kind: ParseInstrKind,
    pub arg: i16,
}

/// The kinds that end a block and may continue at either of two places.
pub open spec fn is_cond_jump_kind(k: ParseInstrKind) -> bool {
    match k {
        ParseInstrKind::ForIter | ParseInstrKind::PopJumpIfFalse | ParseInstrKind::PopJumpIfTrue
        | ParseInstrKind::PopJumpIfNone | ParseInstrKind::PopJumpIfNotNone => true,
        _ => false,
    }
}

/// The kinds that carry a relative jump target.
pub open spec fn is_jump_kind(k: ParseInstrKind) -> bool {
    is_cond_jump_kind(k) || k == ParseInstrKind::JumpForward || k == ParseInstrKind::JumpBackward
}

/// The kinds that have no effect at all.
pub open spec fn is_nop_kind(k: ParseInstrKind) -> bool {
    k == ParseInstrKind::Cache || k == ParseInstrKind::NotTaken || k == ParseInstrKind::Nop
}

/// The kinds that must end a block: every jump, and the return.
pub open spec fn is_terminal_kind(k: ParseInstrKind) -> bool {
    is_jump_kind(k) || k == ParseInstrKind::ReturnValue
}

/// The offset, in instruction slots, from a jump to its target.
pub open spec fn jump_offset(i: ParseInstr) -> Option<int> {
    if i.kind == ParseInstrKind::JumpBackward {
        Some(2 - i.arg)
    } else if is_jump_kind(i.kind) {
        Some(i.arg + 1)
    } else {
        None
    }
}

impl ParseInstr {
    /// Builds an instruction from a known opcode and its argument.
    pub fn new(opcode: u8, arg: i16) -> (r: ParseInstr)
        requires
            kind_of_opcode(opcode) is Some,
        ensures
            r == (ParseInstr { kind: kind_of_opcode(opcode)->0, arg }),
    {
        let kind = ParseInstrKind::from_opcode(opcode);
        match kind {
            Some(kind) => ParseInstr { kind, arg },
            None => ParseInstr { kind: ParseInstrKind::Nop, arg },
        }
    }

    /// The offset, in instruction slots, from this instruction to its jump
    /// target: `arg + 1` for forward jumps, `2 - arg` for a backward jump,
    /// nothing for any other instruction.
    pub fn jump(&self) -> (r: Option<i32>)
        ensures
            r matches Some(d) ==> jump_offset(*self) == Some(d as int),
            r is None <==> jump_offset(*self) is None,
    {
        match self.kind {
            ParseInstrKind::ForIter
            | ParseInstrKind::PopJumpIfFalse
            | ParseInstrKind::PopJumpIfTrue
            | ParseInstrKind::PopJumpIfNone
            | ParseInstrKind::PopJumpIfNotNone
            | ParseInstrKind::JumpForward => Some(self.arg as i32 + 1),
            ParseInstrKind::JumpBackward => Some(2 - self.arg as i32),
            _ => None,
        }
    }

    /// Whether this instruction is a conditional jump.
    pub fn is_cond_jump(&self) -> (r: bool)
        ensures
            r == is_cond_jump_kind(self.kind),
    {
        match self.kind {
            ParseInstrKind::ForIter
            | ParseInstrKind::PopJumpIfFalse
            | ParseInstrKind::PopJumpIfTrue
            | ParseInstrKind::PopJumpIfNone
            | ParseInstrKind::PopJumpIfNotNone => true,
            _ => false,
        }
    }

    /// Whether this instruction has no effect.
    pub fn is_nop(&self) -> (r: bool)
        ensures
            r == is_nop_kind(self.kind),
    {
        match self.kind {
            ParseInstrKind::Cache | ParseInstrKind::NotTaken | ParseInstrKind::Nop => true,
            _ => false,
        }
    }

    /// Whether this instruction must end a block.
    pub fn is_terminal(&self) -> (r: bool)
        ensures
            r == is_terminal_kind(self.kind),
    {
        match self.kind {
            ParseInstrKind::ForIter
            | ParseInstrKind::PopJumpIfFalse
            | ParseInstrKind::PopJumpIfTrue
            | ParseInstrKind::PopJumpIfNone
            | ParseInstrKind::PopJumpIfNotNone
            | ParseInstrKind::JumpForward
            | ParseInstrKind::JumpBackward
            | ParseInstrKind::ReturnValue => true,
            _ => false,
        }
    }
}

/// A byte read as a two's-complement signed value.
pub open spec fn signed(b: u8) -> int {
    if b < 128 { b as int } else { b as int - 256 }
}

/// An integer brought into the range of `i16` by wrapping around.
pub open spec fn wrap_i16(x: int) -> int {
    if x < -32768 { x + 65536 } else if x > 32767 { x - 65536 } else { x }
}

/// The argument `(e << 8) + a` of an instruction behind an extension prefix.
pub open spec fn extended_arg(e: u8, a: u8) -> int {
    wrap_i16(signed(e) * 256 + signed(a))
}

/// Whether the buffer starts with an extension prefix that is followed by
/// another instruction.
pub open spec fn starts_with_prefix(b: Seq<u8>) -> bool {
    b.len() >= 4 && b[0] == EXTENDED_ARG
}

/// How many bytes the first decoded instruction takes.
pub open spec fn front_width(b: Seq<u8>) -> int {
    if starts_with_prefix(b) { 4 } else { 2 }
}

/// The opcode and argument of the first decoded instruction.
pub open spec fn front(b: Seq<u8>) -> (u8, int) {
    if starts_with_prefix(b) { (b[2], extended_arg(b[1], b[3])) } else { (b[0], signed(b[1])) }
}

/// The instructions that a buffer of pairs decodes to, or the first unknown
/// opcode in it.
pub open spec fn decode(b: Seq<u8>) -> Result<Seq<ParseInstr>, ParseError>
    decreases b.len(),
{
    if b.len() < 2 {
        Ok(Seq::empty())
    } else {
        let (op, arg) = front(b);
        match kind_of_opcode(op) {
            None => Err(ParseError::UnknownOpcode(op)),
            Some(kind) => match decode(b.subrange(front_width(b), b.len() as int)) {
                Ok(rest) => Ok(seq![ParseInstr { kind, arg: arg as i16 }] + rest),
                Err(e) => Err(e),
            },
        }
    }
}

/// What decoding a whole buffer gives: an odd length is refused first.
pub open spec fn parse_spec(b: Seq<u8>) -> Result<Seq<ParseInstr>, ParseError> {
    if b.len() % 2 == 1 { Err(ParseError::OddByteCount) } else { decode(b) }
}

/// How many extension prefixes are folded into the instruction after them.
pub open spec fn prefix_count(b: Seq<u8>) -> int
    decreases b.len(),
{
    if b.len() < 2 {
        0
    } else {
        (if starts_with_prefix(b) { 1int } else { 0int }) + prefix_count(
            b.subrange(front_width(b), b.len() as int),
        )
    }
}

/// Whether every opcode position (each even offset) holds a known opcode.
pub open spec fn all_opcodes_known(b: Seq<u8>) -> bool {
    forall|i: int| 0 <= i && 2 * i < b.len() ==> (#[trigger] kind_of_opcode(b[2 * i])) is Some
}

proof fn lemma_known_suffix(b: Seq<u8>, k: int)
    requires
        all_opcodes_known(b),
        0 <= k <= b.len(),
        k % 2 == 0,
    ensures
        all_opcodes_known(b.subrange(k, b.len() as int)),
{
    let s = b.subrange(k, b.len() as int);
    assert forall|i: int| 0 <= i && 2 * i < s.len() implies (#[trigger] kind_of_opcode(s[2 * i])) is Some by {
        assert(s[2 * i] == b[2 * (i + k / 2)]);
        assert(kind_of_opcode(b[2 * (i + k / 2)]) is Some);
    }
}

/// Decoding succeeds on every even-length buffer whose opcodes are all known,
/// and yields one instruction per byte pair, less one per extension prefix.
pub proof fn lemma_decode_count(b: Seq<u8>)
    requires
        b.len() % 2 == 0,
        all_opcodes_known(b),
    ensures
        parse_spec(b) is Ok,
        parse_spec(b)->Ok_0.len() == b.len() / 2 - prefix_count(b),
    decreases b.len(),
{
    if b.len() >= 2 {
        let w = front_width(b);
        let rest = b.subrange(w, b.len() as int);
        lemma_known_suffix(b, w);
        lemma_decode_count(rest);
        assert(kind_of_opcode(b[2 * 0int]) is Some);
        if starts_with_prefix(b) {
            assert(kind_of_opcode(b[2 * 1int]) is Some);
        }
    }
}

/// Decoding yields at most one instruction per byte pair.
pub proof fn lemma_decode_len(b: Seq<u8>)
    requires
        decode(b) is Ok,
    ensures
        decode(b)->Ok_0.len() <= b.len() / 2,
    decreases b.len(),
{
    if b.len() >= 2 {
        lemma_decode_len(b.subrange(front_width(b), b.len() as int));
    }
}

/// Decodes the instruction that starts at byte `at`, returning the position
/// after it together with the instruction.
pub fn parse_next(code: &[u8], at: usize) -> (r: Result<(usize, ParseInstr), ParseError>)
    requires
        at + 2 <= code@.len(),
    ensures
        ({
            let b = code@.subrange(at as int, code@.len() as int);
            match kind_of_opcode(front(b).0) {
                None => r == Err::<(usize, ParseInstr), ParseError>(ParseError::UnknownOpcode(front(b).0)),
                Some(kind) => r == Ok::<(usize, ParseInstr), ParseError>(
                    ((at + front_width(b)) as usize, ParseInstr { kind, arg: front(b).1 as i16 }),
                ),
            }
        }),
{
    let ghost b = code@.subrange(at as int, code@.len() as int);
    let (opcode, arg, next) = if code[at] == EXTENDED_ARG && code.len() - at >= 4 {
        let e = signed_byte(code[at + 1]) as i32;
        let a = signed_byte(code[at + 3]) as i32;
        let v: i32 = e * 256 + a;
        let arg: i16 = if v < -32768 { (v + 65536) as i16 } else { v as i16 };
        (code[at + 2], arg, at + 4)
    } else {
        (code[at], signed_byte(code[at + 1]), at + 2)
    };
    assert(b[0] == code@[at as int]);
    match ParseInstrKind::from_opcode(opcode) {
        None => Err(ParseError::UnknownOpcode(opcode)),
        Some(kind) => Ok((next, ParseInstr { kind, arg })),
    }
}

fn signed_byte(b: u8) -> (r: i16)
    ensures
        r as int == signed(b),
{
    if b < 128 { b as i16 } else { b as i16 - 256 }
}

/// Decodes a buffer of (opcode, signed argument) byte pairs.
pub fn parse(code: &[u8]) -> (r: Result<Vec<ParseInstr>, ParseError>)
    ensures
        match r {
            Ok(v) => parse_spec(code@) == Ok::<Seq<ParseInstr>, ParseError>(v@),
            Err(e) => parse_spec(code@) == Err::<Seq<ParseInstr>, ParseError>(e),
        },
{
    if code.len() % 2 == 1 {
        return Err(ParseError::OddByteCount);
    }
    let mut acc: Vec<ParseInstr> = Vec::new();
    let mut at: usize = 0;
    assert(code@.subrange(0, code@.len() as int) =~= code@);
    proof {
        match decode(code@) {
            Ok(rest) => {
                assert(acc@ + rest =~= rest);
            },
            Err(_) => {},
        }
    }
    while at < code.len()
        invariant
            at <= code@.len(),
            at % 2 == 0,
            code@.len() % 2 == 0,
            decode(code@) == match decode(code@.subrange(at as int, code@.len() as int)) {
                Ok(rest) => Ok::<Seq<ParseInstr>, ParseError>(acc@ + rest),
                Err(e) => Err(e),
            },
        decreases code@.len() - at,
    {
        let ghost b = code@.subrange(at as int, code@.len() as int);
        let step = parse_next(code, at);
        assert(b.subrange(front_width(b), b.len() as int) =~= code@.subrange(
            at + front_width(b),
            code@.len() as int,
        ));
        match step {
            Err(e) => {
                return Err(e);
            },
            Ok((next, instr)) => {
                proof {
                    let tail = code@.subrange(next as int, code@.len() as int);
                    match decode(tail) {
                        Ok(rest) => {
                            assert(acc@.push(instr) + rest =~= acc@ + (seq![instr] + rest));
                        },
                        Err(_) => {},
                    }
                }
                acc.push(instr);
                at = next;
            },
        }
    }
    assert(code@.subrange(at as int, code@.len() as int) =~= Seq::<u8>::empty());
    assert(acc@ + Seq::<ParseInstr>::empty() =~= acc@);
    Ok(acc)
}

} // verus!
