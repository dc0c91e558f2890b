//! The values that symbolic evaluation recovers from bytecode.
use vstd::prelude::*;

verus! {

/// The arithmetic and bitwise operators of the binary-op instruction, plain
/// and in-place (augmented assignment).
#[derive(Debug, Clone, Copy, PartialEq, Eq, Structural)]
pub enum BinaryOp {
    Plus,
    Minus,
    Times,
    Div,
    TrueDiv,
    Mod,
    MatMul,
    StarStar,
    ShiftLeft,
    ShiftRight,
    And,
    Or,
    Xor,
    PlusEquals,
    MinusEquals,
    TimesEquals,
    DivEquals,
    TrueDivEquals,
    ModEquals,
    MatMulEquals,
    StarStarEquals,
    ShiftLeftEquals,
    ShiftRightEquals,
    AndEquals,
    OrEquals,
    XorEquals,
}

/// The operator that a binary-op tag byte stands for.
pub open spec fn binary_op_of(tag: u8) -> Option<BinaryOp> {
    if tag == 0 { Some(BinaryOp::Plus) }
    else if tag == 1 { Some(BinaryOp::And) }
    else if tag == 2 { Some(BinaryOp::TrueDiv) }
    else if tag == 3 { Some(BinaryOp::ShiftLeft) }
    else if tag == 4 { Some(BinaryOp::MatMul) }
    else if tag == 5 { Some(BinaryOp::Times) }
    else if tag == 6 { Some(BinaryOp::Mod) }
    else if tag == 7 { Some(BinaryOp::Or) }
    else if tag == 8 { Some(BinaryOp::StarStar) }
    else if tag == 9 { Some(BinaryOp::ShiftRight) }
    else if tag == 10 { Some(BinaryOp::Minus) }
    else if tag == 11 { Some(BinaryOp::Div) }
    else if tag == 12 { Some(BinaryOp::Xor) }
    else if tag == 13 { Some(BinaryOp::PlusEquals) }
    else if tag == 14 { Some(BinaryOp::AndEquals) }
    else if tag == 15 { Some(BinaryOp::TrueDivEquals) }
    else if tag == 16 { Some(BinaryOp::ShiftLeftEquals) }
    else if tag == 17 { Some(BinaryOp::MatMulEquals) }
    else if tag == 18 { Some(BinaryOp::TimesEquals) }
    else if tag == 19 { Some(BinaryOp::ModEquals) }
    else if tag == 20 { Some(BinaryOp::OrEquals) }
    else if tag == 21 { Some(BinaryOp::StarStarEquals) }
    else if tag == 22 { Some(BinaryOp::ShiftRightEquals) }
    else if tag == 23 { Some(BinaryOp::MinusEquals) }
    else if tag == 24 { Some(BinaryOp::DivEquals) }
    else if tag == 25 { Some(BinaryOp::XorEquals) }
    else { None }
}

/// Whether an operator is the in-place form that rebinds its left operand.
pub open spec fn is_in_place(op: BinaryOp) -> bool {
    match op {
        BinaryOp::PlusEquals | BinaryOp::MinusEquals | BinaryOp::TimesEquals
        | BinaryOp::DivEquals | BinaryOp::TrueDivEquals | BinaryOp::ModEquals
        | BinaryOp::MatMulEquals | BinaryOp::StarStarEquals | BinaryOp::ShiftLeftEquals
        | BinaryOp::ShiftRightEquals | BinaryOp::AndEquals | BinaryOp::OrEquals
        | BinaryOp::XorEquals => true,
        _ => false,
    }
}

/// How an operator is written in source text.
pub open spec fn binary_op_text(op: BinaryOp) -> Seq<char> {
    match op {
        BinaryOp::Plus => "+"@,
        BinaryOp::Minus => "-"@,
        BinaryOp::Times => "*"@,
        BinaryOp::Div => "/"@,
        BinaryOp::TrueDiv => "//"@,
        BinaryOp::Mod => "%"@,
        BinaryOp::MatMul => "@"@,
        BinaryOp::StarStar => "**"@,
        BinaryOp::ShiftLeft => "<<"@,
        BinaryOp::ShiftRight => ">>"@,
        BinaryOp::And => "&"@,
        BinaryOp::Or => "|"@,
        BinaryOp::Xor => "^"@,
        BinaryOp::PlusEquals => "+="@,
        BinaryOp::MinusEquals => "-="@,
        BinaryOp::TimesEquals => "*="@,
        BinaryOp::DivEquals => "/="@,
        BinaryOp::TrueDivEquals => "//="@,
        BinaryOp::ModEquals => "%="@,
        BinaryOp::MatMulEquals => "@="@,
        BinaryOp::StarStarEquals => "**="@,
        BinaryOp::ShiftLeftEquals => "<<="@,
        BinaryOp::ShiftRightEquals => ">>="@,
        BinaryOp::AndEquals => "&="@,
        BinaryOp::OrEquals => "|="@,
        BinaryOp::XorEquals => "^="@,
    }
}

impl BinaryOp {
    /// Whether this is the in-place form of an operator.
    pub fn in_place(&self) -> (r: bool)
        ensures
            r == is_in_place(*self),
    {
        match self {
            BinaryOp::PlusEquals
            | BinaryOp::MinusEquals
            | BinaryOp::TimesEquals
            | BinaryOp::DivEquals
            | BinaryOp::TrueDivEquals
            | BinaryOp::ModEquals
            | BinaryOp::MatMulEquals
            | BinaryOp::StarStarEquals
            | BinaryOp::ShiftLeftEquals
            | BinaryOp::ShiftRightEquals
            | BinaryOp::AndEquals
            | BinaryOp::OrEquals
            | BinaryOp::XorEquals => true,
            _ => false,
        }
    }

    /// Reads a binary-op tag byte.
    pub fn try_from_tag(tag: u8) -> (r: Option<BinaryOp>)
        ensures
            r == binary_op_of(tag),
    {
        match tag {
            0 => Some(BinaryOp::Plus),
            1 => Some(BinaryOp::And),
            2 => Some(BinaryOp::TrueDiv),
            3 => Some(BinaryOp::ShiftLeft),
            4 => Some(BinaryOp::MatMul),
            5 => Some(BinaryOp::Times),
            6 => Some(BinaryOp::Mod),
            7 => Some(BinaryOp::Or),
            8 => Some(BinaryOp::StarStar),
            9 => Some(BinaryOp::ShiftRight),
            10 => Some(BinaryOp::Minus),
            11 => Some(BinaryOp::Div),
            12 => Some(BinaryOp::Xor),
            13 => Some(BinaryOp::PlusEquals),
            14 => Some(BinaryOp::AndEquals),
            15 => Some(BinaryOp::TrueDivEquals),
            16 => Some(BinaryOp::ShiftLeftEquals),
            17 => Some(BinaryOp::MatMulEquals),
            18 => Some(BinaryOp::TimesEquals),
            19 => Some(BinaryOp::ModEquals),
            20 => Some(BinaryOp::OrEquals),
            21 => Some(BinaryOp::StarStarEquals),
            22 => Some(BinaryOp::ShiftRightEquals),
            23 => Some(BinaryOp::MinusEquals),
            24 => Some(BinaryOp::DivEquals),
            25 => Some(BinaryOp::XorEquals),
            _ => None,
        }
    }

    /// How this operator is written in source text.
    pub fn text(&self) -> (r: &'static str)
        ensures
            r@ == binary_op_text(*self),
    {
        match self {
            BinaryOp::Plus => "+",
            BinaryOp::Minus => "-",
            BinaryOp::Times => "*",
            BinaryOp::Div => "/",
            BinaryOp::TrueDiv => "//",
            BinaryOp::Mod => "%",
            BinaryOp::MatMul => "@",
            BinaryOp::StarStar => "**",
            BinaryOp::ShiftLeft => "<<",
            BinaryOp::ShiftRight => ">>",
            BinaryOp::And => "&",
            BinaryOp::Or => "|",
            BinaryOp::Xor => "^",
            BinaryOp::PlusEquals => "+=",
            BinaryOp::MinusEquals => "-=",
            BinaryOp::TimesEquals => "*=",
            BinaryOp::DivEquals => "/=",
            BinaryOp::TrueDivEquals => "//=",
            BinaryOp::ModEquals => "%=",
            BinaryOp::MatMulEquals => "@=",
            BinaryOp::StarStarEquals => "**=",
            BinaryOp::ShiftLeftEquals => "<<=",
            BinaryOp::ShiftRightEquals => ">>=",
            BinaryOp::AndEquals => "&=",
            BinaryOp::OrEquals => "|=",
            BinaryOp::XorEquals => "^=",
        }
    }
}

/// The relations of the compare-op instruction.
#[derive(Debug, Clone, Copy, PartialEq, Eq, Structural)]
pub enum ComparisonOpKind {
    LessThan,
    LessThanEquals,
    Equals,
    NotEqual,
    GreaterThan,
    GreaterThanEquals,
}

/// A comparison: its relation, and whether the result is forced to a boolean.
#[derive(Debug, Clone, Copy, PartialEq, Eq, Structural)]
pub struct ComparisonOp {
    pub kind: ComparisonOpKind,
    pub force_convert: bool,
}

/// The comparison that a compare-op tag byte stands for: bit 4 forces a
/// boolean, bits 5 to 7 give the relation.
pub open spec fn comparison_op_of(tag: u8) -> Option<ComparisonOp> {
    let force_convert = (tag / 16) % 2 == 1;
    let rel = tag / 32;
    if rel > 5 {
        None
    } else {
        let kind = if rel == 0 { ComparisonOpKind::LessThan }
            else if rel == 1 { ComparisonOpKind::LessThanEquals }
            else if rel == 2 { ComparisonOpKind::Equals }
            else if rel == 3 { ComparisonOpKind::NotEqual }
            else if rel == 4 { ComparisonOpKind::GreaterThan }
            else { ComparisonOpKind::GreaterThanEquals };
        Some(ComparisonOp { kind, force_convert })
    }
}

/// How a relation is written in source text.
pub open spec fn comparison_text(k: ComparisonOpKind) -> Seq<char> {
    match k {
        ComparisonOpKind::LessThan => "<"@,
        ComparisonOpKind::LessThanEquals => "<="@,
        ComparisonOpKind::Equals => "=="@,
        ComparisonOpKind::NotEqual => "!="@,
        ComparisonOpKind::GreaterThan => ">"@,
        ComparisonOpKind::GreaterThanEquals => ">="@,
    }
}

impl ComparisonOp {
    /// Reads a compare-op tag byte.
    pub fn try_from_tag(tag: u8) -> (r: Option<ComparisonOp>)
        ensures
            r == comparison_op_of(tag),
    {
        let force_convert = (tag / 16) % 2 == 1;
        let kind = match tag / 32 {
            0 => ComparisonOpKind::LessThan,
            1 => ComparisonOpKind::LessThanEquals,
            2 => ComparisonOpKind::Equals,
            3 => ComparisonOpKind::NotEqual,
            4 => ComparisonOpKind::GreaterThan,
            5 => ComparisonOpKind::GreaterThanEquals,
            _ => {
                return None;
            },
        };
        Some(ComparisonOp { kind, force_convert })
    }

    /// How this comparison's relation is written in source text.
    pub fn text(&self) -> (r: &'static str)
        ensures
            r@ == comparison_text(self.kind),
    {
        match self.kind {
            ComparisonOpKind::LessThan => "<",
            ComparisonOpKind::LessThanEquals => "<=",
            ComparisonOpKind::Equals => "==",
            ComparisonOpKind::NotEqual => "!=",
            ComparisonOpKind::GreaterThan => ">",
            ComparisonOpKind::GreaterThanEquals => ">=",
        }
    }
}

/// An interned constant of a code object.
#[derive(Debug)]
pub enum PyConstInner {
    Int(i64),
    /// An integer too large for `i64`, as its decimal digits.
    BigInt(String),
    StringLiteral(String),
    CodeObject(CodeObject),
    NoneValue,
}

/// A compiled function: its names, its bytecode and its tables.
#[derive(Debug)]
pub struct CodeObject {
    pub name: String,
    pub fqn: String,
    pub arg_count: usize,
    pub pos_arg_count: usize,
    pub kw_arg_count: usize,
    pub locals: Vec<String>,
    pub cell_vars: Vec<String>,
    pub free_vars: Vec<String>,
    pub code: Vec<u8>,
    pub consts: Vec<PyConstInner>,
    pub globals: Vec<String>,
    pub filename: String,
}

/// A value on the abstract operand stack. Names and constants are referred
/// to by their index in the code object's tables.
#[derive(Debug)]
pub enum StackItem {
    /// A value computed by a recovered expression.
    Derived(Box<Instr>),
    Local(usize),
    Global(usize),
    Const(usize),
    Int(i64),
    /// The padding slot pushed beside a callable that has no receiver.
    Null,
    /// The live iterator of a for-loop.
    DummyIter,
}

/// A recovered statement or expression.
#[derive(Debug)]
pub enum Instr {
    StoreFast(usize, StackItem),
    StoreGlobal(usize, StackItem),
    Call { obj: StackItem, meth: StackItem, args: Vec<StackItem> },
    BinaryOp(BinaryOp, StackItem, StackItem),
    CompareOp(ComparisonOp, StackItem, StackItem),
    GetIter(StackItem),
    ToBool(StackItem),
    /// The next value drawn from an iterator by a for-loop.
    ForIterNext(StackItem),
}

/// Whether two stack items have the same structure and contents.
pub open spec fn same_item(a: StackItem, b: StackItem) -> bool
    decreases a, 0nat,
{
    match a {
        StackItem::Derived(x) => match b {
            StackItem::Derived(y) => same_instr(*x, *y),
            _ => false,
        },
        _ => a == b,
    }
}

/// Whether two argument lists agree from position `k` on.
pub open spec fn same_args(a: Vec<StackItem>, b: Vec<StackItem>, k: int) -> bool
    decreases a, a@.len() - k,
{
    if k < 0 || k >= a@.len() {
        a@.len() == b@.len()
    } else {
        a@.len() == b@.len() && same_item(a@[k], b@[k]) && same_args(a, b, k + 1)
    }
}

/// Whether two statements or expressions have the same structure and contents.
pub open spec fn same_instr(a: Instr, b: Instr) -> bool
    decreases a, 0nat,
{
    match a {
        Instr::StoreFast(n, v) => b matches Instr::StoreFast(m, w) && n == m && same_item(v, w),
        Instr::StoreGlobal(n, v) => b matches Instr::StoreGlobal(m, w) && n == m && same_item(v, w),
        Instr::Call { obj, meth, args } => b matches Instr::Call { obj: o, meth: m, args: r } && same_item(obj, o)
            && same_item(meth, m) && same_args(args, r, 0),
        Instr::BinaryOp(op, l, r) => b matches Instr::BinaryOp(op2, l2, r2) && op == op2 && same_item(l, l2)
            && same_item(r, r2),
        Instr::CompareOp(op, l, r) => b matches Instr::CompareOp(op2, l2, r2) && op == op2 && same_item(l, l2)
            && same_item(r, r2),
        Instr::GetIter(v) => b matches Instr::GetIter(w) && same_item(v, w),
        Instr::ToBool(v) => b matches Instr::ToBool(w) && same_item(v, w),
        Instr::ForIterNext(v) => b matches Instr::ForIterNext(w) && same_item(v, w),
    }
}

/// A copy of a stack item.
pub fn duplicate_item(x: &StackItem) -> (r: StackItem)
    ensures
        same_item(*x, r),
    decreases x,
{
    match x {
        StackItem::Derived(b) => StackItem::Derived(Box::new(duplicate_instr(&**b))),
        StackItem::Local(i) => StackItem::Local(*i),
        StackItem::Global(i) => StackItem::Global(*i),
        StackItem::Const(i) => StackItem::Const(*i),
        StackItem::Int(n) => StackItem::Int(*n),
        StackItem::Null => StackItem::Null,
        StackItem::DummyIter => StackItem::DummyIter,
    }
}

/// A copy of a recovered statement or expression.
pub fn duplicate_instr(x: &Instr) -> (r: Instr)
    ensures
        same_instr(*x, r),
    decreases x,
{
    match x {
        Instr::StoreFast(n, v) => Instr::StoreFast(*n, duplicate_item(v)),
        Instr::StoreGlobal(n, v) => Instr::StoreGlobal(*n, duplicate_item(v)),
        Instr::Call { obj, meth, args } => {
            let mut copied: Vec<StackItem> = Vec::new();
            let mut k: usize = 0;
            while k < args.len()
                invariant
                    k <= args@.len(),
                    copied@.len() == k,
                    x is Call && x->Call_args == *args,
                    forall|i: int| 0 <= i < k ==> same_item(#[trigger] args@[i], copied@[i]),
                decreases args@.len() - k,
            {
                proof {
                    broadcast use vstd::std_specs::vec::axiom_vec_index_decreases;
                    assert(decreases_to!(*x => x->Call_args));
                    assert(decreases_to!(*x => args@[k as int]));
                }
                copied.push(duplicate_item(&args[k]));
                k += 1;
            }
            proof {
                lemma_same_args_from(*args, copied, 0);
            }
            Instr::Call { obj: duplicate_item(obj), meth: duplicate_item(meth), args: copied }
        },
        Instr::BinaryOp(op, l, r) => Instr::BinaryOp(*op, duplicate_item(l), duplicate_item(r)),
        Instr::CompareOp(op, l, r) => Instr::CompareOp(*op, duplicate_item(l), duplicate_item(r)),
        Instr::GetIter(v) => Instr::GetIter(duplicate_item(v)),
        Instr::ToBool(v) => Instr::ToBool(duplicate_item(v)),
        Instr::ForIterNext(v) => Instr::ForIterNext(duplicate_item(v)),
    }
}

proof fn lemma_same_args_from(a: Vec<StackItem>, b: Vec<StackItem>, k: int)
    requires
        a@.len() == b@.len(),
        0 <= k,
        forall|i: int| 0 <= i < a@.len() ==> same_item(#[trigger] a@[i], b@[i]),
    ensures
        same_args(a, b, k),
    decreases a@.len() - k,
{
    if k < a@.len() {
        lemma_same_args_from(a, b, k + 1);
    }
}

/// A copy of an operand stack, of the same length.
pub fn duplicate_stack(s: &Vec<StackItem>) -> (r: Vec<StackItem>)
    ensures
        r@.len() == s@.len(),
        forall|k: int| 0 <= k < s@.len() ==> same_item(#[trigger] s@[k], r@[k]),
{
    let mut out: Vec<StackItem> = Vec::new();
    let mut k: usize = 0;
    while k < s.len()
        invariant
            k <= s@.len(),
            out@.len() == k,
            forall|i: int| 0 <= i < k ==> same_item(#[trigger] s@[i], out@[i]),
        decreases s@.len() - k,
    {
        out.push(duplicate_item(&s[k]));
        k += 1;
    }
    out
}

} // verus!
