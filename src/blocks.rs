//! Splitting a decoded instruction stream into basic blocks.
use vstd::prelude::*;

use crate::parse::{
    is_cond_jump_kind, is_jump_kind, is_nop_kind, is_terminal_kind, jump_offset, ParseInstr,
    ParseInstrKind,
};
use crate::codegen::{nat_text, push_index};
use crate::symbolic_evaluation::SymbolicEvaluationError;

verus! {

/// Names a basic block by the index of its first instruction.
#[derive(Debug, Clone, Copy, PartialEq, Eq, Structural, Hash)]
pub struct BasicBlockToken(pub usize);

impl BasicBlockToken {
    /// The token of the entry block.
    pub fn zero() -> (r: BasicBlockToken)
        ensures
            r.0 == 0,
    {
        BasicBlockToken(0)
    }
}

/// The blocks that control may pass to from the end of a block.
#[derive(Debug, Clone, Copy, PartialEq, Eq, Structural)]
pub enum BasicBlockChildren {
    /// A conditional jump: to `cond_met` when it is taken, else to `otherwise`.
    CondJump { cond_met: BasicBlockToken, otherwise: BasicBlockToken },
    /// An unconditional jump, or falling through into the next block.
    LeadsTo(BasicBlockToken),
    /// The block returns, loops on itself, or runs off the end of the code.
    Diverges,
}

/// A maximal run of instructions that only its last instruction may leave.
#[derive(Debug)]
pub struct BasicBlock {
    /// Index of the first instruction.
    pub at: usize,
    /// Index one past the last instruction.
    pub to: usize,
    /// The instructions of `at..to`, without the ones that have no effect.
    pub code: Vec<ParseInstr>,
    pub children: BasicBlockChildren,
}

/// The block map: slot `t` holds the block that starts at instruction `t`.
pub type BlockMap = Vec<Option<BasicBlock>>;

impl BasicBlock {
    /// The single successor of a block that jumps or falls through.
    pub fn get1(&self) -> (r: Result<BasicBlockToken, SymbolicEvaluationError>)
        ensures
            match self.children {
                BasicBlockChildren::LeadsTo(t) => r == Ok::<BasicBlockToken, SymbolicEvaluationError>(t),
                _ => r == Err::<BasicBlockToken, SymbolicEvaluationError>(SymbolicEvaluationError::WrongBlockChildCount),
            },
    {
        match self.children {
            BasicBlockChildren::LeadsTo(token) => Ok(token),
            _ => Err(SymbolicEvaluationError::WrongBlockChildCount),
        }
    }

    /// The two successors `(cond_met, otherwise)` of a conditional block.
    pub fn get2(&self) -> (r: Result<(BasicBlockToken, BasicBlockToken), SymbolicEvaluationError>)
        ensures
            match self.children {
                BasicBlockChildren::CondJump { cond_met, otherwise } => r == Ok::<(BasicBlockToken, BasicBlockToken), SymbolicEvaluationError>((cond_met, otherwise)),
                _ => r == Err::<(BasicBlockToken, BasicBlockToken), SymbolicEvaluationError>(SymbolicEvaluationError::WrongBlockChildCount),
            },
    {
        match self.children {
            BasicBlockChildren::CondJump { cond_met, otherwise } => Ok((cond_met, otherwise)),
            _ => Err(SymbolicEvaluationError::WrongBlockChildCount),
        }
    }

    /// Succeeds on a block without successors.
    pub fn get0(&self) -> (r: Result<(), SymbolicEvaluationError>)
        ensures
            r is Ok <==> self.children is Diverges,
            r matches Err(e) ==> e == SymbolicEvaluationError::WrongBlockChildCount,
    {
        match self.children {
            BasicBlockChildren::Diverges => Ok(()),
            _ => Err(SymbolicEvaluationError::WrongBlockChildCount),
        }
    }

    /// A one-line summary of where control goes after this block.
    pub fn describe(&self) -> (r: String)
        ensures
            r@ == match self.children {
                BasicBlockChildren::Diverges => "Block diverges"@,
                BasicBlockChildren::LeadsTo(t) => "Block->"@ + nat_text(t.0 as nat),
                BasicBlockChildren::CondJump { cond_met, otherwise } => "Block->(met: "@ + nat_text(cond_met.0 as nat)
                    + ", other: "@ + nat_text(otherwise.0 as nat) + ")"@,
            },
    {
        let mut out = String::new();
        match self.children {
            BasicBlockChildren::Diverges => out.append("Block diverges"),
            BasicBlockChildren::LeadsTo(t) => {
                out.append("Block->");
                push_index(&mut out, t.0);
            },
            BasicBlockChildren::CondJump { cond_met, otherwise } => {
                out.append("Block->(met: ");
                push_index(&mut out, cond_met.0);
                out.append(", other: ");
                push_index(&mut out, otherwise.0);
                out.append(")");
            },
        }
        assert(out@ =~= match self.children {
            BasicBlockChildren::Diverges => "Block diverges"@,
            BasicBlockChildren::LeadsTo(t) => "Block->"@ + nat_text(t.0 as nat),
            BasicBlockChildren::CondJump { cond_met, otherwise } => "Block->(met: "@ + nat_text(cond_met.0 as nat)
                + ", other: "@ + nat_text(otherwise.0 as nat) + ")"@,
        });
        out
    }

    /// The token that names this block.
    pub fn get_token(&self) -> (r: BasicBlockToken)
        ensures
            r.0 == self.at,
    {
        BasicBlockToken(self.at)
    }
}

/// The index that the jump at `i` leads to.
pub open spec fn target_of(instrs: Seq<ParseInstr>, i: int) -> int {
    i + jump_offset(instrs[i])->0
}

/// Whether every jump leads into the code, and every conditional jump has an
/// instruction after it to fall through to.
pub open spec fn jumps_in_range(instrs: Seq<ParseInstr>) -> bool {
    forall|i: int|
        0 <= i < instrs.len() && is_jump_kind(#[trigger] instrs[i].kind) ==> {
            &&& 0 <= target_of(instrs, i) < instrs.len()
            &&& is_cond_jump_kind(instrs[i].kind) ==> i + 1 < instrs.len()
        }
}

/// Whether the instruction at `i` forces a block to start at `k`: `k` is its
/// jump target, or `i` is terminal and `k` comes right after it.
pub open spec fn splits_at(instrs: Seq<ParseInstr>, i: int, k: int) -> bool {
    ||| is_jump_kind(instrs[i].kind) && target_of(instrs, i) == k
    ||| is_terminal_kind(instrs[i].kind) && k == i + 1
}

/// Whether a block boundary lies at `k`: the end of the code, or a place that
/// some instruction splits at.
pub open spec fn is_boundary(instrs: Seq<ParseInstr>, k: int) -> bool {
    ||| k == instrs.len()
    ||| exists|i: int| 0 <= i < instrs.len() && #[trigger] splits_at(instrs, i, k)
}

/// Whether a block starts at `t`.
pub open spec fn is_block_start(instrs: Seq<ParseInstr>, t: int) -> bool {
    0 <= t < instrs.len() && (t == 0 || is_boundary(instrs, t))
}

/// Whether `to` is the first boundary after `at`.
pub open spec fn next_boundary(instrs: Seq<ParseInstr>, at: int, to: int) -> bool {
    &&& at < to <= instrs.len()
    &&& is_boundary(instrs, to)
    &&& forall|k: int| at < k < to ==> !is_boundary(instrs, k)
}

/// The instructions of `s` that have an effect, in order.
pub open spec fn drop_nops(s: Seq<ParseInstr>) -> Seq<ParseInstr>
    decreases s.len(),
{
    if s.len() == 0 {
        s
    } else {
        let r = drop_nops(s.drop_last());
        if is_nop_kind(s.last().kind) { r } else { r.push(s.last()) }
    }
}

/// Where control goes after the block `at..to`.
pub open spec fn children_of(instrs: Seq<ParseInstr>, at: int, to: int) -> BasicBlockChildren {
    let last = instrs[to - 1];
    if last.kind == ParseInstrKind::ReturnValue {
        BasicBlockChildren::Diverges
    } else if is_jump_kind(last.kind) {
        let t = target_of(instrs, to - 1);
        if is_cond_jump_kind(last.kind) {
            BasicBlockChildren::CondJump {
                cond_met: BasicBlockToken(t as usize),
                otherwise: BasicBlockToken(to as usize),
            }
        } else if at <= t < to {
            BasicBlockChildren::Diverges
        } else {
            BasicBlockChildren::LeadsTo(BasicBlockToken(t as usize))
        }
    } else if to == instrs.len() {
        BasicBlockChildren::Diverges
    } else {
        BasicBlockChildren::LeadsTo(BasicBlockToken(to as usize))
    }
}

/// The tokens that a block may pass control to.
pub open spec fn child_tokens(c: BasicBlockChildren) -> Set<int> {
    match c {
        BasicBlockChildren::CondJump { cond_met, otherwise } => set![cond_met.0 as int, otherwise.0 as int],
        BasicBlockChildren::LeadsTo(t) => set![t.0 as int],
        BasicBlockChildren::Diverges => Set::empty(),
    }
}

/// Whether at most the last instruction of `code` is terminal.
pub open spec fn terminal_only_last(code: Seq<ParseInstr>) -> bool {
    forall|j: int| 0 <= j < code.len() && is_terminal_kind(#[trigger] code[j].kind) ==> j == code.len() - 1
}

/// The block that `create_blocks` builds at `t`, given the first boundary `to` after it.
pub open spec fn block_matches(instrs: Seq<ParseInstr>, t: int, b: BasicBlock) -> bool {
    &&& b.at == t
    &&& next_boundary(instrs, t, b.to as int)
    &&& b.code@ == drop_nops(instrs.subrange(t, b.to as int))
    &&& b.children == children_of(instrs, t, b.to as int)
}

/// What a successful `create_blocks` returns: a slot per instruction, filled
/// exactly at the block starts, each with its block.
pub open spec fn block_map_of(instrs: Seq<ParseInstr>, m: Seq<Option<BasicBlock>>) -> bool {
    &&& m.len() == instrs.len()
    &&& forall|t: int| 0 <= t < m.len() ==> ((#[trigger] m[t]) is Some <==> is_block_start(instrs, t))
    &&& forall|t: int| 0 <= t < m.len() && (#[trigger] m[t]) is Some ==> block_matches(instrs, t, m[t]->0)
}

/// `i + d` when it indexes one of `n` instructions.
fn checked_target(i: usize, d: i32, n: usize) -> (r: Option<usize>)
    requires
        i < n,
        -65536 < d < 65536,
    ensures
        r matches Some(t) ==> t as int == i + d,
        r is Some <==> 0 <= i + d < n,
{
    if d < 0 {
        let back = (0 - d) as usize;
        if back > i { None } else { Some(i - back) }
    } else {
        let fwd = d as usize;
        if fwd >= n - i { None } else { Some(i + fwd) }
    }
}

/// The instructions of `code[at..to]` that have an effect, in order.
pub fn remove_nops(code: &[ParseInstr], at: usize, to: usize) -> (r: Vec<ParseInstr>)
    requires
        at <= to <= code@.len(),
    ensures
        r@ == drop_nops(code@.subrange(at as int, to as int)),
{
    let mut acc: Vec<ParseInstr> = Vec::new();
    let mut j: usize = at;
    assert(code@.subrange(at as int, at as int) =~= Seq::<ParseInstr>::empty());
    while j < to
        invariant
            at <= j <= to <= code@.len(),
            acc@ == drop_nops(code@.subrange(at as int, j as int)),
        decreases to - j,
    {
        assert(code@.subrange(at as int, j + 1).drop_last() =~= code@.subrange(at as int, j as int));
        if !code[j].is_nop() {
            acc.push(code[j]);
        }
        j += 1;
    }
    acc
}

/// Where control goes after the block `at..to`.
fn block_children(instrs: &[ParseInstr], at: usize, to: usize) -> (r: BasicBlockChildren)
    requires
        at < to <= instrs@.len(),
        jumps_in_range(instrs@),
    ensures
        r == children_of(instrs@, at as int, to as int),
{
    let last = instrs[to - 1];
    if last.kind == ParseInstrKind::ReturnValue {
        return BasicBlockChildren::Diverges;
    }
    match last.jump() {
        Some(d) => {
            assert(is_jump_kind(instrs@[to - 1].kind));
            let t = checked_target(to - 1, d, instrs.len());
            match t {
                Some(t) => {
                    if last.is_cond_jump() {
                        BasicBlockChildren::CondJump {
                            cond_met: BasicBlockToken(t),
                            otherwise: BasicBlockToken(to),
                        }
                    } else if at <= t && t < to {
                        BasicBlockChildren::Diverges
                    } else {
                        BasicBlockChildren::LeadsTo(BasicBlockToken(t))
                    }
                },
                None => BasicBlockChildren::Diverges,
            }
        },
        None => {
            if to == instrs.len() {
                BasicBlockChildren::Diverges
            } else {
                BasicBlockChildren::LeadsTo(BasicBlockToken(to))
            }
        },
    }
}

/// Splits the instruction stream into basic blocks. Fails when a jump leads
/// outside the code, or a conditional jump is the last instruction.
pub fn create_blocks(instrs: &[ParseInstr]) -> (r: Result<BlockMap, SymbolicEvaluationError>)
    requires
        instrs@.len() < usize::MAX,
    ensures
        r is Ok <==> jumps_in_range(instrs@),
        r matches Err(e) ==> e == SymbolicEvaluationError::OutOfBoundsJump,
        r matches Ok(m) ==> block_map_of(instrs@, m@),
{
    let n = instrs.len();
    let ghost s = instrs@;
    let mut marks: Vec<bool> = Vec::new();
    while marks.len() <= n
        invariant
            marks.len() <= n + 1,
            forall|k: int| 0 <= k < marks.len() ==> !(#[trigger] marks@[k]),
        decreases n + 1 - marks.len(),
    {
        marks.push(false);
    }
    marks.set(n, true);
    let mut i: usize = 0;
    while i < n
        invariant
            n == s.len(),
            s == instrs@,
            i <= n,
            marks.len() == n + 1,
            forall|k: int|
                0 <= k <= n ==> (#[trigger] marks@[k] <==> (k == n || exists|j: int|
                    0 <= j < i && #[trigger] splits_at(s, j, k))),
            forall|j: int|
                0 <= j < i && is_jump_kind(#[trigger] s[j].kind) ==> {
                    &&& 0 <= target_of(s, j) < n
                    &&& is_cond_jump_kind(s[j].kind) ==> j + 1 < n
                },
        decreases n - i,
    {
        let ghost old_marks = marks@;
        let instr = instrs[i];
        match instr.jump() {
            Some(d) => {
                let t = checked_target(i, d, n);
                match t {
                    None => {
                        return Err(SymbolicEvaluationError::OutOfBoundsJump);
                    },
                    Some(t) => {
                        if instr.is_cond_jump() && i + 1 >= n {
                            return Err(SymbolicEvaluationError::OutOfBoundsJump);
                        }
                        marks.set(t, true);
                        marks.set(i + 1, true);
                    },
                }
            },
            None => {
                if instr.is_terminal() {
                    marks.set(i + 1, true);
                }
            },
        }
        assert forall|k: int|
            0 <= k <= n implies (#[trigger] marks@[k] <==> (k == n || exists|j: int|
                0 <= j < i + 1 && #[trigger] splits_at(s, j, k))) by {
            if splits_at(s, i as int, k) {
                assert(marks@[k]);
            }
            if marks@[k] && !old_marks[k] && k != n {
                assert(splits_at(s, i as int, k));
            }
            if exists|j: int| 0 <= j < i + 1 && #[trigger] splits_at(s, j, k) {
                let j = choose|j: int| 0 <= j < i + 1 && #[trigger] splits_at(s, j, k);
                if j < i {
                    assert(old_marks[k]);
                }
            }
        }
        i += 1;
    }
    assert forall|k: int| 0 <= k <= n implies (#[trigger] marks@[k] <==> is_boundary(s, k)) by {
        if marks@[k] && k != n {
            let j = choose|j: int| 0 <= j < n && #[trigger] splits_at(s, j, k);
        }
    }
    let mut blocks: BlockMap = Vec::new();
    while blocks.len() < n
        invariant
            blocks.len() <= n,
            forall|t: int| 0 <= t < blocks.len() ==> (#[trigger] blocks@[t]) is None,
        decreases n - blocks.len(),
    {
        blocks.push(None);
    }
    if n == 0 {
        return Ok(blocks);
    }
    let mut prev: usize = 0;
    let mut b: usize = 1;
    while b <= n
        invariant
            n == s.len(),
            s == instrs@,
            jumps_in_range(s),
            0 < n,
            marks.len() == n + 1,
            forall|k: int| 0 <= k <= n ==> (#[trigger] marks@[k] <==> is_boundary(s, k)),
            1 <= b <= n + 1,
            prev < b,
            prev <= n,
            prev < n ==> (prev == 0 || is_boundary(s, prev as int)),
            forall|k: int| prev < k < b ==> !is_boundary(s, k),
            blocks.len() == n,
            forall|t: int|
                0 <= t < prev ==> ((#[trigger] blocks@[t]) is Some <==> is_block_start(s, t)),
            forall|t: int|
                0 <= t < prev && (#[trigger] blocks@[t]) is Some ==> block_matches(s, t, blocks@[t]->0),
            forall|t: int| prev <= t < n ==> (#[trigger] blocks@[t]) is None,
        decreases n + 1 - b,
    {
        if marks[b] {
            let code = remove_nops(instrs, prev, b);
            let children = block_children(instrs, prev, b);
            let block = BasicBlock { at: prev, to: b, code, children };
            assert(block_matches(s, prev as int, block));
            blocks.set(prev, Some(block));
            prev = b;
        }
        b += 1;
    }
    assert(is_boundary(s, n as int));
    assert(prev == n);
    Ok(blocks)
}

proof fn lemma_drop_nops_no_terminal(s: Seq<ParseInstr>)
    requires
        forall|j: int| 0 <= j < s.len() ==> !is_terminal_kind(#[trigger] s[j].kind),
    ensures
        forall|j: int| 0 <= j < drop_nops(s).len() ==> !is_terminal_kind(#[trigger] drop_nops(s)[j].kind),
    decreases s.len(),
{
    if s.len() > 0 {
        let p = s.drop_last();
        assert forall|j: int| 0 <= j < p.len() implies !is_terminal_kind(#[trigger] p[j].kind) by {
            assert(p[j] == s[j]);
        }
        lemma_drop_nops_no_terminal(p);
    }
}

proof fn lemma_drop_nops_terminal_last(s: Seq<ParseInstr>)
    requires
        forall|j: int| 0 <= j < s.len() - 1 ==> !is_terminal_kind(#[trigger] s[j].kind),
    ensures
        terminal_only_last(drop_nops(s)),
{
    if s.len() > 0 {
        let p = s.drop_last();
        assert forall|j: int| 0 <= j < p.len() implies !is_terminal_kind(#[trigger] p[j].kind) by {
            assert(p[j] == s[j]);
        }
        lemma_drop_nops_no_terminal(p);
    }
}

/// Whether `p` is a path of the block map: each step goes from a block to
/// one of its successors.
pub open spec fn is_path(m: Seq<Option<BasicBlock>>, p: Seq<int>) -> bool {
    &&& p.len() > 0
    &&& forall|i: int|
        0 <= i < p.len() - 1 ==> 0 <= #[trigger] p[i] < m.len() && m[p[i]] is Some && child_tokens(
            m[p[i]]->0.children,
        ).contains(p[i + 1])
}

/// Whether block `b` can be reached from block `a` along successors.
pub open spec fn reaches(m: Seq<Option<BasicBlock>>, a: int, b: int) -> bool {
    exists|p: Seq<int>| #[trigger] is_path(m, p) && p[0] == a && p.last() == b
}

/// A successor of a reachable block is reachable.
pub proof fn lemma_reaches_step(m: Seq<Option<BasicBlock>>, a: int, t: int, c: int)
    requires
        reaches(m, a, t),
        0 <= t < m.len(),
        m[t] is Some,
        child_tokens(m[t]->0.children).contains(c),
    ensures
        reaches(m, a, c),
{
    let p = choose|p: Seq<int>| #[trigger] is_path(m, p) && p[0] == a && p.last() == t;
    let q = p.push(c);
    assert forall|i: int| 0 <= i < q.len() - 1 implies 0 <= #[trigger] q[i] < m.len() && m[q[i]] is Some && child_tokens(
        m[q[i]]->0.children,
    ).contains(q[i + 1]) by {
        if i < p.len() - 1 {
            assert(q[i] == p[i] && q[i + 1] == p[i + 1]);
        }
    }
    assert(is_path(m, q));
}

/// Any two block maps of the same code agree, slot by slot, on which blocks
/// exist and on their instructions and successors.
pub proof fn lemma_block_maps_agree(instrs: Seq<ParseInstr>, m1: Seq<Option<BasicBlock>>, m2: Seq<Option<BasicBlock>>, t: int)
    requires
        block_map_of(instrs, m1),
        block_map_of(instrs, m2),
        0 <= t < m1.len(),
    ensures
        m1[t] is Some <==> m2[t] is Some,
        m1[t] is Some ==> m1[t]->0.code@ == m2[t]->0.code@ && m1[t]->0.children == m2[t]->0.children,
{
    if m1[t] is Some {
        assert(m2[t] is Some);
        let b1 = m1[t]->0;
        let b2 = m2[t]->0;
        assert(block_matches(instrs, t, b1));
        assert(block_matches(instrs, t, b2));
        if b1.to < b2.to {
            assert(!is_boundary(instrs, b1.to as int));
        } else if b2.to < b1.to {
            assert(!is_boundary(instrs, b2.to as int));
        }
    }
}

/// Every non-empty block map has a block at token 0, the entry.
pub proof fn lemma_entry_present(instrs: Seq<ParseInstr>, m: Seq<Option<BasicBlock>>)
    requires
        block_map_of(instrs, m),
        instrs.len() > 0,
    ensures
        m[0] is Some,
{
    assert(is_block_start(instrs, 0));
}

/// Every successor of every block is itself a block of the map.
pub proof fn lemma_children_present(instrs: Seq<ParseInstr>, m: Seq<Option<BasicBlock>>, t: int, c: int)
    requires
        block_map_of(instrs, m),
        jumps_in_range(instrs),
        instrs.len() < usize::MAX,
        0 <= t < m.len(),
        m[t] is Some,
        child_tokens(m[t]->0.children).contains(c),
    ensures
        0 <= c < m.len(),
        m[c] is Some,
{
    let b = m[t]->0;
    assert(block_matches(instrs, t, b));
    let to = b.to as int;
    let i = to - 1;
    let last = instrs[i];
    if last.kind != ParseInstrKind::ReturnValue && is_jump_kind(last.kind) {
        let g = target_of(instrs, i);
        assert(splits_at(instrs, i, g));
        assert(0 <= g < instrs.len());
        if g != 0 {
            assert(is_boundary(instrs, g));
        }
        assert(is_block_start(instrs, g));
        if is_cond_jump_kind(last.kind) {
            assert(splits_at(instrs, i, to));
            assert(to < instrs.len());
            assert(is_block_start(instrs, to));
            assert(child_tokens(b.children) =~= set![g, to]);
        } else {
            assert(!(t <= g < to) ==> child_tokens(b.children) =~= set![g]);
        }
    } else if last.kind != ParseInstrKind::ReturnValue && to != instrs.len() {
        assert(is_block_start(instrs, to));
        assert(child_tokens(b.children) =~= set![to]);
    }
    assert(is_block_start(instrs, c));
}

/// In every block only the last instruction may be terminal, so a block holds
/// at most one terminal instruction.
pub proof fn lemma_terminal_last(instrs: Seq<ParseInstr>, m: Seq<Option<BasicBlock>>, t: int)
    requires
        block_map_of(instrs, m),
        0 <= t < m.len(),
        m[t] is Some,
    ensures
        terminal_only_last(m[t]->0.code@),
{
    let b = m[t]->0;
    assert(block_matches(instrs, t, b));
    let s = instrs.subrange(t, b.to as int);
    assert forall|j: int| 0 <= j < s.len() - 1 implies !is_terminal_kind(#[trigger] s[j].kind) by {
        if is_terminal_kind(s[j].kind) {
            assert(splits_at(instrs, t + j, t + j + 1));
            assert(is_boundary(instrs, t + j + 1));
        }
    }
    lemma_drop_nops_terminal_last(s);
}

} // verus!
