//! Symbolic evaluation of basic blocks against an abstract operand stack.
use vstd::prelude::*;

use crate::defs::{
    binary_op_of, comparison_op_of, BinaryOp, ComparisonOp, Instr, PyConstInner, StackItem,
};
use crate::blocks::{
    block_map_of, child_tokens, create_blocks, is_path, jumps_in_range, lemma_block_maps_agree, lemma_children_present,
    lemma_reaches_step, reaches,
    lemma_terminal_last, terminal_only_last, BasicBlock, BasicBlockChildren, BasicBlockToken,
    BlockMap,
};
use crate::defs::{duplicate_stack, same_instr, same_item};
use crate::parse::{is_terminal_kind, ParseInstr, ParseInstrKind};

verus! {

/// Why symbolic evaluation failed.
#[derive(Debug, Clone, Copy, PartialEq, Eq, Structural)]
pub enum SymbolicEvaluationError {
    /// A jump leads outside the code.
    OutOfBoundsJump,
    /// An instruction needed more operands than the stack held.
    MissingStackItem,
    /// A binary-op, compare-op or call argument is not a valid tag or count.
    InvalidOperationTag,
    /// A block's successors do not fit the instruction that ends it.
    WrongBlockChildCount,
    /// A for-loop body does not begin by storing the loop variable.
    MissingForAssign,
    /// A local, global or constant index is outside its table.
    OutOfBoundsIndex,
    /// A function is made from something other than a constant code object.
    NotACodeObject,
}

fn is_code_object(c: &PyConstInner) -> (r: bool)
    ensures
        r == c is CodeObject,
{
    match c {
        PyConstInner::CodeObject(_) => true,
        _ => false,
    }
}

/// The operand stack and the tables that instruction arguments index.
pub struct Context<'a> {
    pub stack: Vec<StackItem>,
    pub locals: &'a [String],
    pub globals: &'a [String],
    pub consts: &'a [PyConstInner],
}

impl<'a> Context<'a> {
    /// A context with a copy of this operand stack, for one branch of a fork.
    pub fn fork(&self) -> (r: Context<'a>)
        ensures
            r.stack@.len() == self.stack@.len(),
            forall|k: int| 0 <= k < self.stack@.len() ==> same_item(#[trigger] self.stack@[k], r.stack@[k]),
            shapes(r.stack@) == shapes(self.stack@),
            r.locals == self.locals,
            r.globals == self.globals,
            r.consts == self.consts,
    {
        let stack = duplicate_stack(&self.stack);
        assert forall|k: int| 0 <= k < stack@.len() implies shape_of(#[trigger] stack@[k]) == shape_of(self.stack@[k]) by {
            lemma_same_shape(self.stack@[k], stack@[k]);
        }
        assert(shapes(stack@) =~= shapes(self.stack@));
        Context { stack, locals: self.locals, globals: self.globals, consts: self.consts }
    }
}

/// The low byte of an argument, which holds an operator tag.
pub open spec fn low_byte(arg: i16) -> u8 {
    ((arg + 65536) % 256) as u8
}

/// Whether a stack item is a constant that holds a code object.
pub open spec fn is_code_const(consts: Seq<PyConstInner>, x: StackItem) -> bool {
    match x {
        StackItem::Const(k) => k < consts.len() && consts[k as int] is CodeObject,
        _ => false,
    }
}

/// The error that a non-terminal instruction raises on a stack of `depth`
/// items whose top is (`top_is_code`) or is not a constant code object.
pub open spec fn fault(
    i: ParseInstr,
    n_locals: int,
    n_globals: int,
    consts: Seq<PyConstInner>,
    depth: int,
    top_is_code: bool,
) -> Option<SymbolicEvaluationError> {
    let a = i.arg as int;
    match i.kind {
        ParseInstrKind::LoadConst => if a < 0 || a >= consts.len() {
            Some(SymbolicEvaluationError::OutOfBoundsIndex)
        } else {
            None
        },
        ParseInstrKind::LoadGlobal => if a < 0 || a / 2 >= n_globals {
            Some(SymbolicEvaluationError::OutOfBoundsIndex)
        } else {
            None
        },
        ParseInstrKind::LoadFast | ParseInstrKind::LoadFastChecked => if a < 0 || a >= n_locals {
            Some(SymbolicEvaluationError::OutOfBoundsIndex)
        } else {
            None
        },
        ParseInstrKind::LoadFastLoadFast => if a < 0 || a / 16 >= n_locals || a % 16 >= n_locals {
            Some(SymbolicEvaluationError::OutOfBoundsIndex)
        } else {
            None
        },
        ParseInstrKind::StoreFast => if depth == 0 {
            Some(SymbolicEvaluationError::MissingStackItem)
        } else if a < 0 || a >= n_locals {
            Some(SymbolicEvaluationError::OutOfBoundsIndex)
        } else {
            None
        },
        ParseInstrKind::StoreGlobal => if depth == 0 {
            Some(SymbolicEvaluationError::MissingStackItem)
        } else if a < 0 || a >= n_globals {
            Some(SymbolicEvaluationError::OutOfBoundsIndex)
        } else {
            None
        },
        ParseInstrKind::PopTop | ParseInstrKind::GetIter | ParseInstrKind::ToBool => if depth == 0 {
            Some(SymbolicEvaluationError::MissingStackItem)
        } else {
            None
        },
        ParseInstrKind::BinaryOp => if depth < 2 {
            Some(SymbolicEvaluationError::MissingStackItem)
        } else if binary_op_of(low_byte(i.arg)) is None {
            Some(SymbolicEvaluationError::InvalidOperationTag)
        } else {
            None
        },
        ParseInstrKind::CompareOp => if depth < 2 {
            Some(SymbolicEvaluationError::MissingStackItem)
        } else if comparison_op_of(low_byte(i.arg)) is None {
            Some(SymbolicEvaluationError::InvalidOperationTag)
        } else {
            None
        },
        ParseInstrKind::MakeFunction => if depth == 0 {
            Some(SymbolicEvaluationError::MissingStackItem)
        } else if !top_is_code {
            Some(SymbolicEvaluationError::NotACodeObject)
        } else {
            None
        },
        ParseInstrKind::Call => if a < 0 {
            Some(SymbolicEvaluationError::InvalidOperationTag)
        } else if depth < a + 2 {
            Some(SymbolicEvaluationError::MissingStackItem)
        } else {
            None
        },
        _ => None,
    }
}

/// The error that evaluating a non-terminal instruction raises on stack `st`, if any.
pub open spec fn step_error(
    i: ParseInstr,
    n_locals: int,
    n_globals: int,
    consts: Seq<PyConstInner>,
    st: Seq<StackItem>,
) -> Option<SymbolicEvaluationError> {
    fault(i, n_locals, n_globals, consts, st.len() as int, st.len() > 0 && is_code_const(consts, st.last()))
}

/// Whether `top` is the derived value `e`.
pub open spec fn derives(top: StackItem, e: Instr) -> bool {
    match top {
        StackItem::Derived(b) => *b == e,
        _ => false,
    }
}

/// Whether `top` is a call of `meth` on `obj` with the arguments `args`.
pub open spec fn derives_call(top: StackItem, obj: StackItem, meth: StackItem, args: Seq<StackItem>) -> bool {
    match top {
        StackItem::Derived(b) => match *b {
            Instr::Call { obj: o, meth: m, args: a } => o == obj && m == meth && a@ == args,
            _ => false,
        },
        _ => false,
    }
}

/// The effect of a non-terminal instruction that raised no error: `st` and
/// `body` are the stack and the statements before it, `st2` and `body2` after.
pub open spec fn step_effect(
    i: ParseInstr,
    st: Seq<StackItem>,
    body: Seq<Instr>,
    st2: Seq<StackItem>,
    body2: Seq<Instr>,
) -> bool {
    let a = i.arg as int;
    let n = st.len() as int;
    match i.kind {
        ParseInstrKind::LoadConst => st2 == st.push(StackItem::Const(a as usize)) && body2 == body,
        ParseInstrKind::LoadSmallInt => st2 == st.push(StackItem::Int(a as i64)) && body2 == body,
        ParseInstrKind::LoadGlobal => {
            let padded = if a % 2 == 1 { st.push(StackItem::Null) } else { st };
            st2 == padded.push(StackItem::Global((a / 2) as usize)) && body2 == body
        },
        ParseInstrKind::LoadFast | ParseInstrKind::LoadFastChecked => st2 == st.push(
            StackItem::Local(a as usize),
        ) && body2 == body,
        ParseInstrKind::LoadFastLoadFast => st2 == st.push(StackItem::Local((a / 16) as usize)).push(
            StackItem::Local((a % 16) as usize),
        ) && body2 == body,
        ParseInstrKind::StoreFast => st2 == st.drop_last() && body2 == body.push(
            Instr::StoreFast(a as usize, st.last()),
        ),
        ParseInstrKind::StoreGlobal => st2 == st.drop_last() && body2 == body.push(
            Instr::StoreGlobal(a as usize, st.last()),
        ),
        ParseInstrKind::PopTop => st2 == st.drop_last() && body2 == match st.last() {
            StackItem::Derived(b) => if *b is Call { body.push(*b) } else { body },
            _ => body,
        },
        ParseInstrKind::GetIter => st2.drop_last() == st.drop_last() && st2.len() == n
            && derives(st2.last(), Instr::GetIter(st.last())) && body2 == body,
        ParseInstrKind::ToBool => st2.drop_last() == st.drop_last() && st2.len() == n
            && derives(st2.last(), Instr::ToBool(st.last())) && body2 == body,
        ParseInstrKind::BinaryOp => st2.drop_last() == st.subrange(0, n - 2) && st2.len() == n - 1
            && derives(
            st2.last(),
            Instr::BinaryOp(binary_op_of(low_byte(i.arg))->0, st[n - 2], st[n - 1]),
        ) && body2 == body,
        ParseInstrKind::CompareOp => st2.drop_last() == st.subrange(0, n - 2) && st2.len() == n - 1
            && derives(
            st2.last(),
            Instr::CompareOp(comparison_op_of(low_byte(i.arg))->0, st[n - 2], st[n - 1]),
        ) && body2 == body,
        ParseInstrKind::MakeFunction => st2 == st.drop_last() && body2 == body,
        ParseInstrKind::Call => st2.drop_last() == st.subrange(0, n - a - 2) && st2.len() == n - a - 1
            && derives_call(st2.last(), st[n - a - 2], st[n - a - 1], st.subrange(n - a, n))
            && body2 == body,
        _ => st2 == st && body2 == body,
    }
}

/// What evaluation needs to know of a stack item to decide success: whether
/// it is a constant (and which), a recovered call, or anything else.
#[derive(Debug, Clone, Copy, PartialEq, Eq, Structural)]
pub enum StackShape {
    Const(usize),
    Call,
    Other,
}

/// The shape of a stack item.
pub open spec fn shape_of(x: StackItem) -> StackShape {
    match x {
        StackItem::Const(k) => StackShape::Const(k),
        StackItem::Derived(b) => if *b is Call { StackShape::Call } else { StackShape::Other },
        _ => StackShape::Other,
    }
}

/// The shapes of a stack's items, bottom first.
pub open spec fn shapes(st: Seq<StackItem>) -> Seq<StackShape> {
    st.map_values(|x: StackItem| shape_of(x))
}

/// Whether the top of a stack of shapes is a constant code object.
pub open spec fn top_is_code(consts: Seq<PyConstInner>, s: Seq<StackShape>) -> bool {
    s.len() > 0 && match s.last() {
        StackShape::Const(k) => k < consts.len() && consts[k as int] is CodeObject,
        _ => false,
    }
}

/// The shapes after a non-terminal instruction that raised no error, and how
/// many statements it completed.
pub open spec fn shape_step(i: ParseInstr, s: Seq<StackShape>) -> (Seq<StackShape>, nat) {
    let a = i.arg as int;
    let n = s.len() as int;
    match i.kind {
        ParseInstrKind::LoadConst => (s.push(StackShape::Const(a as usize)), 0),
        ParseInstrKind::LoadGlobal => (
            (if a % 2 == 1 { s.push(StackShape::Other) } else { s }).push(StackShape::Other),
            0,
        ),
        ParseInstrKind::LoadSmallInt | ParseInstrKind::LoadFast | ParseInstrKind::LoadFastChecked => (
            s.push(StackShape::Other),
            0,
        ),
        ParseInstrKind::LoadFastLoadFast => (s.push(StackShape::Other).push(StackShape::Other), 0),
        ParseInstrKind::StoreFast | ParseInstrKind::StoreGlobal => (s.drop_last(), 1),
        ParseInstrKind::PopTop => (s.drop_last(), if s.last() == StackShape::Call { 1 } else { 0 }),
        ParseInstrKind::GetIter | ParseInstrKind::ToBool => (s.drop_last().push(StackShape::Other), 0),
        ParseInstrKind::BinaryOp | ParseInstrKind::CompareOp => (s.subrange(0, n - 2).push(StackShape::Other), 0),
        ParseInstrKind::MakeFunction => (s.drop_last(), 0),
        ParseInstrKind::Call => (s.subrange(0, n - a - 2).push(StackShape::Call), 0),
        _ => (s, 0),
    }
}

/// Evaluating `code` from position `k` on a stack of shapes `s`: the first
/// error, or the final shapes and the number of statements completed.
pub open spec fn shape_run(
    code: Seq<ParseInstr>,
    n_locals: int,
    n_globals: int,
    consts: Seq<PyConstInner>,
    s: Seq<StackShape>,
    k: int,
) -> Result<(Seq<StackShape>, nat), SymbolicEvaluationError>
    decreases code.len() - k,
{
    if k < 0 || k >= code.len() {
        Ok((s, 0))
    } else {
        match fault(code[k], n_locals, n_globals, consts, s.len() as int, top_is_code(consts, s)) {
            Some(e) => Err(e),
            None => {
                let (s2, c) = shape_step(code[k], s);
                match shape_run(code, n_locals, n_globals, consts, s2, k + 1) {
                    Ok((s3, c2)) => Ok((s3, c + c2)),
                    Err(e) => Err(e),
                }
            },
        }
    }
}

proof fn lemma_same_shape(a: StackItem, b: StackItem)
    requires
        same_item(a, b),
    ensures
        shape_of(a) == shape_of(b),
{
}

proof fn lemma_shapes_error(i: ParseInstr, n_locals: int, n_globals: int, consts: Seq<PyConstInner>, st: Seq<StackItem>)
    ensures
        step_error(i, n_locals, n_globals, consts, st) == fault(
            i, n_locals, n_globals, consts, shapes(st).len() as int, top_is_code(consts, shapes(st))),
{
    if st.len() > 0 {
        assert(shapes(st).last() == shape_of(st.last()));
    }
}

proof fn lemma_shapes_step(i: ParseInstr, st: Seq<StackItem>, body: Seq<Instr>, st2: Seq<StackItem>, body2: Seq<Instr>)
    requires
        !is_terminal_kind(i.kind),
        step_effect(i, st, body, st2, body2),
        match i.kind {
            ParseInstrKind::StoreFast | ParseInstrKind::StoreGlobal | ParseInstrKind::PopTop
            | ParseInstrKind::GetIter | ParseInstrKind::ToBool | ParseInstrKind::MakeFunction => st.len() >= 1,
            ParseInstrKind::BinaryOp | ParseInstrKind::CompareOp => st.len() >= 2,
            ParseInstrKind::Call => i.arg >= 0 && st.len() >= i.arg + 2,
            _ => true,
        },
    ensures
        shapes(st2) == shape_step(i, shapes(st)).0,
        body2.len() == body.len() + shape_step(i, shapes(st)).1,
{
    let s = shapes(st);
    let n = st.len() as int;
    let a = i.arg as int;
    match i.kind {
        ParseInstrKind::GetIter | ParseInstrKind::ToBool => {
            assert(st2 =~= st2.drop_last().push(st2.last()));
        },
        ParseInstrKind::BinaryOp | ParseInstrKind::CompareOp => {
            assert(st2 =~= st2.drop_last().push(st2.last()));
        },
        ParseInstrKind::Call => {
            assert(st2 =~= st2.drop_last().push(st2.last()));
        },
        ParseInstrKind::PopTop => {
            assert(s.last() == shape_of(st.last()));
        },
        _ => {},
    }
    assert(shapes(st2) =~= shape_step(i, s).0);
}

/// Applies the stack effect of one non-terminal instruction, appending any
/// statement it completes to `body`.
pub fn eval_instr(instr: ParseInstr, ctx: &mut Context, body: &mut Vec<Instr>) -> (r: Result<(), SymbolicEvaluationError>)
    requires
        !is_terminal_kind(instr.kind),
    ensures
        final(ctx).locals == old(ctx).locals,
        final(ctx).globals == old(ctx).globals,
        final(ctx).consts == old(ctx).consts,
        match step_error(instr, old(ctx).locals@.len() as int, old(ctx).globals@.len() as int, old(ctx).consts@, old(ctx).stack@) {
            Some(e) => r == Err::<(), SymbolicEvaluationError>(e),
            None => r is Ok && step_effect(instr, old(ctx).stack@, old(body)@, final(ctx).stack@, final(body)@),
        },
{
    let a = instr.arg;
    let ghost st0 = ctx.stack@;
    match instr.kind {
        ParseInstrKind::LoadConst => {
            if a < 0 || a as usize >= ctx.consts.len() {
                return Err(SymbolicEvaluationError::OutOfBoundsIndex);
            }
            ctx.stack.push(StackItem::Const(a as usize));
        },
        ParseInstrKind::LoadSmallInt => {
            ctx.stack.push(StackItem::Int(a as i64));
        },
        ParseInstrKind::LoadGlobal => {
            if a < 0 || (a / 2) as usize >= ctx.globals.len() {
                return Err(SymbolicEvaluationError::OutOfBoundsIndex);
            }
            if a % 2 == 1 {
                ctx.stack.push(StackItem::Null);
            }
            ctx.stack.push(StackItem::Global((a / 2) as usize));
        },
        ParseInstrKind::LoadFast | ParseInstrKind::LoadFastChecked => {
            if a < 0 || a as usize >= ctx.locals.len() {
                return Err(SymbolicEvaluationError::OutOfBoundsIndex);
            }
            ctx.stack.push(StackItem::Local(a as usize));
        },
        ParseInstrKind::LoadFastLoadFast => {
            if a < 0 || (a / 16) as usize >= ctx.locals.len() || (a % 16) as usize >= ctx.locals.len() {
                return Err(SymbolicEvaluationError::OutOfBoundsIndex);
            }
            ctx.stack.push(StackItem::Local((a / 16) as usize));
            ctx.stack.push(StackItem::Local((a % 16) as usize));
        },
        ParseInstrKind::StoreFast | ParseInstrKind::StoreGlobal => {
            let is_fast = instr.kind == ParseInstrKind::StoreFast;
            let table_len = if is_fast { ctx.locals.len() } else { ctx.globals.len() };
            match ctx.stack.pop() {
                None => {
                    return Err(SymbolicEvaluationError::MissingStackItem);
                },
                Some(top) => {
                    if a < 0 || a as usize >= table_len {
                        return Err(SymbolicEvaluationError::OutOfBoundsIndex);
                    }
                    if is_fast {
                        body.push(Instr::StoreFast(a as usize, top));
                    } else {
                        body.push(Instr::StoreGlobal(a as usize, top));
                    }
                },
            }
        },
        ParseInstrKind::PopTop => {
            match ctx.stack.pop() {
                None => {
                    return Err(SymbolicEvaluationError::MissingStackItem);
                },
                Some(top) => {
                    if let StackItem::Derived(b) = top {
                        if let Instr::Call { .. } = *b {
                            body.push(*b);
                        }
                    }
                },
            }
        },
        ParseInstrKind::GetIter | ParseInstrKind::ToBool => {
            match ctx.stack.pop() {
                None => {
                    return Err(SymbolicEvaluationError::MissingStackItem);
                },
                Some(top) => {
                    let e = if instr.kind == ParseInstrKind::GetIter {
                        Instr::GetIter(top)
                    } else {
                        Instr::ToBool(top)
                    };
                    ctx.stack.push(StackItem::Derived(Box::new(e)));
                    assert(ctx.stack@.drop_last() =~= st0.drop_last());
                },
            }
        },
        ParseInstrKind::BinaryOp | ParseInstrKind::CompareOp => {
            if ctx.stack.len() < 2 {
                return Err(SymbolicEvaluationError::MissingStackItem);
            }
            let tag = ((a as i32 + 65536) % 256) as u8;
            let e_kind: Option<BinaryOp> = if instr.kind == ParseInstrKind::BinaryOp {
                BinaryOp::try_from_tag(tag)
            } else {
                None
            };
            let c_kind: Option<ComparisonOp> = if instr.kind == ParseInstrKind::CompareOp {
                ComparisonOp::try_from_tag(tag)
            } else {
                None
            };
            if e_kind.is_none() && c_kind.is_none() {
                return Err(SymbolicEvaluationError::InvalidOperationTag);
            }
            let ghost st = ctx.stack@;
            let rhs = ctx.stack.pop().unwrap();
            let lhs = ctx.stack.pop().unwrap();
            assert(rhs == st[st.len() - 1] && lhs == st[st.len() - 2]);
            assert(ctx.stack@ =~= st.subrange(0, st.len() - 2));
            let e = match e_kind {
                Some(op) => Instr::BinaryOp(op, lhs, rhs),
                None => Instr::CompareOp(c_kind.unwrap(), lhs, rhs),
            };
            ctx.stack.push(StackItem::Derived(Box::new(e)));
            assert(ctx.stack@.drop_last() =~= st.subrange(0, st.len() - 2));
        },
        ParseInstrKind::MakeFunction => {
            match ctx.stack.pop() {
                None => {
                    return Err(SymbolicEvaluationError::MissingStackItem);
                },
                Some(f) => {
                    let ok = match f {
                        StackItem::Const(k) => k < ctx.consts.len() && is_code_object(&ctx.consts[k]),
                        _ => false,
                    };
                    if !ok {
                        return Err(SymbolicEvaluationError::NotACodeObject);
                    }
                },
            }
        },
        ParseInstrKind::Call => {
            if a < 0 {
                return Err(SymbolicEvaluationError::InvalidOperationTag);
            }
            let n = a as usize;
            if ctx.stack.len() < n + 2 {
                return Err(SymbolicEvaluationError::MissingStackItem);
            }
            let ghost st = ctx.stack@;
            let at = ctx.stack.len() - n;
            let args = ctx.stack.split_off(at);
            let meth = ctx.stack.pop().unwrap();
            let obj = ctx.stack.pop().unwrap();
            assert(ctx.stack@ =~= st.subrange(0, st.len() - n - 2));
            assert(args@ =~= st.subrange(st.len() - n, st.len() as int));
            assert(meth == st[st.len() - n - 1]);
            assert(obj == st[st.len() - n - 2]);
            ctx.stack.push(StackItem::Derived(Box::new(Instr::Call { obj, meth, args })));
            assert(ctx.stack@.drop_last() =~= st.subrange(0, st.len() - n - 2));
        },
        // The loop exit's end-for and pop-iter find nothing of the loop on
        // the stack: the exhausted branch continues from the stack without
        // the iterator, so they, like resume and the no-ops, change nothing.
        _ => {},
    }
    Ok(())
}

/// Which outcome of the condition a conditional jump takes.
#[derive(Debug, Clone, Copy, PartialEq, Eq, Structural)]
pub enum ConditionKind {
    False,
    True,
    IsNone,
    NotNone,
}

/// The condition of a conditional jump: when it jumps, and on what value.
#[derive(Debug)]
pub struct ConditionalJump {
    pub kind: ConditionKind,
    pub cond: StackItem,
}

/// How control leaves an evaluated block.
#[derive(Debug)]
pub enum ControlFlowTag {
    FallsThrough(BasicBlockToken),
    JumpBack(BasicBlockToken),
    JumpForward(BasicBlockToken),
    ConditionalJump { jump: ConditionalJump, met: BasicBlockToken, otherwise: BasicBlockToken },
    ForIter { assignment: Instr, found: BasicBlockToken, exhausted: BasicBlockToken },
    Returns(StackItem),
    /// Marks a block whose evaluation is still under way.
    Dummy,
}

/// A basic block with the statements recovered from it and how it is left.
#[derive(Debug)]
pub struct AnnotatedBlock {
    pub body: Vec<Instr>,
    pub cf_tag: ControlFlowTag,
}

impl AnnotatedBlock {
    /// How control leaves this block.
    pub fn tag(&self) -> (r: &ControlFlowTag)
        ensures
            *r == self.cf_tag,
    {
        &self.cf_tag
    }
}

/// The evaluated graph: slot `t` holds the evaluated block that starts at `t`.
pub type AnnotatedMap = Vec<Option<AnnotatedBlock>>;

/// The blocks that a tag passes control to.
pub open spec fn tag_targets(tag: ControlFlowTag) -> Set<int> {
    match tag {
        ControlFlowTag::FallsThrough(t) => set![t.0 as int],
        ControlFlowTag::JumpBack(t) => set![t.0 as int],
        ControlFlowTag::JumpForward(t) => set![t.0 as int],
        ControlFlowTag::ConditionalJump { met, otherwise, .. } => set![met.0 as int, otherwise.0 as int],
        ControlFlowTag::ForIter { found, exhausted, .. } => set![found.0 as int, exhausted.0 as int],
        _ => Set::empty(),
    }
}

/// The condition kind of a pop-jump instruction.
pub open spec fn condition_kind_of(k: ParseInstrKind) -> ConditionKind {
    match k {
        ParseInstrKind::PopJumpIfFalse => ConditionKind::False,
        ParseInstrKind::PopJumpIfTrue => ConditionKind::True,
        ParseInstrKind::PopJumpIfNone => ConditionKind::IsNone,
        _ => ConditionKind::NotNone,
    }
}

/// Whether `tag` is how the block `b` is left: it follows the block's last
/// instruction and names the block's successors.
pub open spec fn tag_fits(tag: ControlFlowTag, b: BasicBlock) -> bool {
    let code = b.code@;
    if code.len() == 0 || !is_terminal_kind(code.last().kind) {
        tag matches ControlFlowTag::FallsThrough(t) && b.children == BasicBlockChildren::LeadsTo(t)
    } else {
        match code.last().kind {
            ParseInstrKind::ForIter => tag matches ControlFlowTag::ForIter { found, exhausted, .. }
                && b.children == (BasicBlockChildren::CondJump { cond_met: exhausted, otherwise: found }),
            ParseInstrKind::JumpBackward => tag matches ControlFlowTag::JumpBack(t)
                && b.children == BasicBlockChildren::LeadsTo(t),
            ParseInstrKind::JumpForward => tag matches ControlFlowTag::JumpForward(t)
                && b.children == BasicBlockChildren::LeadsTo(t),
            ParseInstrKind::ReturnValue => tag is Returns && b.children is Diverges,
            k => tag matches ControlFlowTag::ConditionalJump { jump, met, otherwise }
                && jump.kind == condition_kind_of(k)
                && b.children == (BasicBlockChildren::CondJump { cond_met: met, otherwise }),
        }
    }
}

/// Whether every block of the map starts where its token says, ends with its
/// only terminal instruction, and leads only to blocks of the map.
pub open spec fn well_formed_blocks(m: Seq<Option<BasicBlock>>) -> bool {
    forall|t: int|
        0 <= t < m.len() && (#[trigger] m[t]) is Some ==> {
            &&& m[t]->0.at == t
            &&& terminal_only_last(m[t]->0.code@)
            &&& forall|c: int|
                #[trigger] child_tokens(m[t]->0.children).contains(c) ==> 0 <= c < m.len() && m[c] is Some
        }
}

/// How many slots of the memo are still empty.
pub open spec fn unvisited(s: Seq<Option<AnnotatedBlock>>) -> nat
    decreases s.len(),
{
    if s.len() == 0 {
        0
    } else {
        unvisited(s.drop_last()) + if s.last() is None { 1nat } else { 0nat }
    }
}

proof fn lemma_unvisited_update(s: Seq<Option<AnnotatedBlock>>, i: int, v: Option<AnnotatedBlock>)
    requires
        0 <= i < s.len(),
    ensures
        unvisited(s.update(i, v)) + (if s[i] is None { 1nat } else { 0nat })
            == unvisited(s) + (if v is None { 1nat } else { 0nat }),
    decreases s.len(),
{
    let u = s.update(i, v);
    if i < s.len() - 1 {
        assert(u.drop_last() =~= s.drop_last().update(i, v));
        lemma_unvisited_update(s.drop_last(), i, v);
    } else {
        assert(u.drop_last() =~= s.drop_last());
    }
}

/// Whether evaluating from the memo `pre` produced the memo `post`: slots
/// only fill, and a finished slot is never changed again.
pub open spec fn memo_grows(
    blocks: Seq<Option<BasicBlock>>,
    pre: Seq<Option<AnnotatedBlock>>,
    post: Seq<Option<AnnotatedBlock>>,
) -> bool {
    &&& post.len() == pre.len()
    &&& unvisited(post) <= unvisited(pre)
    &&& forall|t: int| 0 <= t < post.len() && (#[trigger] post[t]) is Some ==> blocks[t] is Some
    &&& forall|t: int|
        0 <= t < pre.len() && (#[trigger] pre[t]) is Some ==> post[t] is Some && (pre[t]->0.cf_tag is Dummy
            || post[t] == pre[t])
}

proof fn lemma_memo_chain(
    blocks: Seq<Option<BasicBlock>>,
    a: Seq<Option<AnnotatedBlock>>,
    b: Seq<Option<AnnotatedBlock>>,
    c: Seq<Option<AnnotatedBlock>>,
)
    requires
        memo_grows(blocks, a, b),
        memo_grows(blocks, b, c),
    ensures
        memo_grows(blocks, a, c),
        filled_well(blocks, a, b) && filled_well(blocks, b, c) ==> filled_well(blocks, a, c),
{
    assert forall|t: int| 0 <= t < a.len() && (#[trigger] a[t]) is Some implies c[t] is Some && (a[t]->0.cf_tag is Dummy
        || c[t] == a[t]) by {
        assert(b[t] is Some);
    }
    if filled_well(blocks, a, b) && filled_well(blocks, b, c) {
        assert forall|t: int| 0 <= t < c.len() && a[t] is None && (#[trigger] c[t]) is Some implies {
            &&& tag_fits(c[t]->0.cf_tag, blocks[t]->0)
            &&& forall|x: int| #[trigger] tag_targets(c[t]->0.cf_tag).contains(x) ==> 0 <= x < c.len() && c[x] is Some
        } by {
            if b[t] is Some {
                assert(tag_fits(b[t]->0.cf_tag, blocks[t]->0));
                assert(!(b[t]->0.cf_tag is Dummy));
                assert(c[t]->0.cf_tag == b[t]->0.cf_tag);
                assert forall|x: int| #[trigger] tag_targets(c[t]->0.cf_tag).contains(x) implies 0 <= x < c.len() && c[x] is Some by {
                    assert(tag_targets(b[t]->0.cf_tag).contains(x));
                    assert(b[x] is Some);
                }
            }
        }
    }
}

/// Whether every slot that was empty in `pre` and is filled in `post` holds a
/// tag that fits its block, and leads only to filled slots.
pub open spec fn filled_well(
    blocks: Seq<Option<BasicBlock>>,
    pre: Seq<Option<AnnotatedBlock>>,
    post: Seq<Option<AnnotatedBlock>>,
) -> bool {
    forall|t: int|
        0 <= t < post.len() && pre[t] is None && (#[trigger] post[t]) is Some ==> {
            &&& tag_fits(post[t]->0.cf_tag, blocks[t]->0)
            &&& forall|c: int| #[trigger] tag_targets(post[t]->0.cf_tag).contains(c) ==> 0 <= c < post.len() && post[c] is Some
        }
}

/// Whether an executable result agrees with a specified outcome: success
/// with success, and the same error.
pub open spec fn agrees<T>(r: Result<T, SymbolicEvaluationError>, o: Result<(), SymbolicEvaluationError>) -> bool {
    match o {
        Ok(()) => r is Ok,
        Err(e) => r is Err && r->Err_0 == e,
    }
}

/// What evaluation reads of a block: its instructions and its successors.
pub open spec fn views(m: Seq<Option<BasicBlock>>) -> Seq<Option<(Seq<ParseInstr>, BasicBlockChildren)>> {
    m.map_values(|o: Option<BasicBlock>| match o {
        Some(b) => Some((b.code@, b.children)),
        None => None,
    })
}

/// An empty memo of `n` slots.
pub open spec fn no_memo(n: nat) -> Seq<Option<nat>> {
    Seq::new(n, |i: int| None)
}

/// The outcome of evaluating `instrs` from the entry block on an empty stack,
/// read from a block map `m` of `instrs`.
pub open spec fn eval_outcome(
    instrs: Seq<ParseInstr>,
    m: Seq<Option<BasicBlock>>,
    n_locals: int,
    n_globals: int,
    consts: Seq<PyConstInner>,
) -> Result<(), SymbolicEvaluationError> {
    eval_dfs(views(m), n_locals, n_globals, consts, 0, Seq::empty(), no_memo(instrs.len())).0
}

/// What evaluation's outcome depends on in the memo: which slots are filled,
/// and how many statements each holds.
pub open spec fn amemo(out: Seq<Option<AnnotatedBlock>>) -> Seq<Option<nat>> {
    out.map_values(|o: Option<AnnotatedBlock>| match o {
        Some(ab) => Some(ab.body@.len()),
        None => None,
    })
}

/// How many slots are empty.
pub open spec fn holes(m: Seq<Option<nat>>) -> nat
    decreases m.len(),
{
    if m.len() == 0 {
        0
    } else {
        holes(m.drop_last()) + if m.last() is None { 1nat } else { 0nat }
    }
}

proof fn lemma_holes_update(m: Seq<Option<nat>>, i: int, v: Option<nat>)
    requires
        0 <= i < m.len(),
    ensures
        holes(m.update(i, v)) + (if m[i] is None { 1nat } else { 0nat }) == holes(m) + (if v is None { 1nat } else { 0nat }),
    decreases m.len(),
{
    let u = m.update(i, v);
    if i < m.len() - 1 {
        assert(u.drop_last() =~= m.drop_last().update(i, v));
        lemma_holes_update(m.drop_last(), i, v);
    } else {
        assert(u.drop_last() =~= m.drop_last());
    }
}

proof fn lemma_holes_amemo(s: Seq<Option<AnnotatedBlock>>)
    ensures
        holes(amemo(s)) == unvisited(s),
    decreases s.len(),
{
    if s.len() > 0 {
        assert(amemo(s).drop_last() =~= amemo(s.drop_last()));
        lemma_holes_amemo(s.drop_last());
    }
}

/// The outcome of evaluating block `t` on a stack of shapes `s` with memo
/// `m`, depth first as `eval_block` does: the error, if any, and the memo
/// after it. A filled block is skipped. A block is recorded before the
/// blocks it leads to are evaluated; a for-loop head first evaluates its
/// body, which must not have been evaluated yet and must complete at least
/// one statement, the loop variable's assignment, which it then loses.
pub open spec fn eval_dfs(
    v: Seq<Option<(Seq<ParseInstr>, BasicBlockChildren)>>,
    nl: int,
    ng: int,
    cs: Seq<PyConstInner>,
    t: int,
    s: Seq<StackShape>,
    m: Seq<Option<nat>>,
) -> (Result<(), SymbolicEvaluationError>, Seq<Option<nat>>)
    decreases holes(m), 0nat,
    via eval_dfs_decreases
{
    if !(0 <= t < v.len()) || m.len() != v.len() || m[t] is Some || v[t] is None {
        (Ok(()), m)
    } else {
        let (code, ch) = v[t]->0;
        match shape_run(straight_code(code), nl, ng, cs, s, 0) {
            Err(e) => (Err(e), m),
            Ok((s1, cnt)) => match exit_fault(code, ch, s1.len() as int) {
                Some(e) => (Err(e), m),
                None => {
                    let s2 = if exit_pops(code) { s1.drop_last() } else { s1 };
                    if is_for_head(code) {
                        let m1 = m.update(t, Some(0nat));
                        let found = ch->otherwise.0 as int;
                        let (r2, m2) = for_body_outcome(v, nl, ng, cs, found, s2.push(StackShape::Other).push(StackShape::Other), m1);
                        if r2 is Err {
                            (r2, m2)
                        } else {
                            let m3 = m2.update(t, Some(cnt));
                            if m3.len() == m.len() && holes(m3) < holes(m) {
                                eval_next(v, nl, ng, cs, ch, s2, m3)
                            } else {
                                (Ok(()), m3)
                            }
                        }
                    } else {
                        eval_next(v, nl, ng, cs, ch, s2, m.update(t, Some(cnt)))
                    }
                },
            },
        }
    }
}

/// Evaluating the body `found` of a for-loop: it must be unevaluated, and
/// it loses its first statement, the loop variable's assignment.
pub open spec fn for_body_outcome(
    v: Seq<Option<(Seq<ParseInstr>, BasicBlockChildren)>>,
    nl: int,
    ng: int,
    cs: Seq<PyConstInner>,
    found: int,
    s: Seq<StackShape>,
    m: Seq<Option<nat>>,
) -> (Result<(), SymbolicEvaluationError>, Seq<Option<nat>>)
    decreases holes(m), 2nat,
{
    if !(0 <= found < m.len()) || m[found] is Some {
        (Err(SymbolicEvaluationError::MissingForAssign), m)
    } else {
        let (r, m2) = eval_dfs(v, nl, ng, cs, found, s, m);
        if r is Err {
            (r, m2)
        } else if m2.len() == m.len() && m2[found] is Some && m2[found]->0 > 0 {
            (Ok(()), m2.update(found, Some((m2[found]->0 - 1) as nat)))
        } else {
            (Err(SymbolicEvaluationError::MissingForAssign), m2)
        }
    }
}

/// Evaluating the successors of a block, first the jump target of a
/// conditional and then its fall-through, each on the same stack.
pub open spec fn eval_next(
    v: Seq<Option<(Seq<ParseInstr>, BasicBlockChildren)>>,
    nl: int,
    ng: int,
    cs: Seq<PyConstInner>,
    ch: BasicBlockChildren,
    s: Seq<StackShape>,
    m: Seq<Option<nat>>,
) -> (Result<(), SymbolicEvaluationError>, Seq<Option<nat>>)
    decreases holes(m), 1nat,
{
    match ch {
        BasicBlockChildren::CondJump { cond_met, otherwise } => {
            let (r, ma) = eval_dfs(v, nl, ng, cs, cond_met.0 as int, s, m);
            if r is Err {
                (r, ma)
            } else if holes(ma) <= holes(m) {
                eval_dfs(v, nl, ng, cs, otherwise.0 as int, s, ma)
            } else {
                (Ok(()), ma)
            }
        },
        BasicBlockChildren::LeadsTo(x) => eval_dfs(v, nl, ng, cs, x.0 as int, s, m),
        BasicBlockChildren::Diverges => (Ok(()), m),
    }
}

#[via_fn]
proof fn eval_dfs_decreases(
    v: Seq<Option<(Seq<ParseInstr>, BasicBlockChildren)>>,
    nl: int,
    ng: int,
    cs: Seq<PyConstInner>,
    t: int,
    s: Seq<StackShape>,
    m: Seq<Option<nat>>,
) {
    if 0 <= t < m.len() && m[t] is None {
        lemma_holes_fill(m, t);
    }
}

proof fn lemma_holes_fill(m: Seq<Option<nat>>, t: int)
    requires
        0 <= t < m.len(),
        m[t] is None,
    ensures
        forall|x: nat| #[trigger] holes(m.update(t, Some(x))) < holes(m),
{
    assert forall|x: nat| #[trigger] holes(m.update(t, Some(x))) < holes(m) by {
        lemma_holes_update(m, t, Some(x));
    }
}

/// The condition kind of a pop-jump instruction.
fn condition_kind(k: ParseInstrKind) -> (r: ConditionKind)
    ensures
        r == condition_kind_of(k),
{
    match k {
        ParseInstrKind::PopJumpIfFalse => ConditionKind::False,
        ParseInstrKind::PopJumpIfTrue => ConditionKind::True,
        ParseInstrKind::PopJumpIfNone => ConditionKind::IsNone,
        _ => ConditionKind::NotNone,
    }
}

/// The instructions of a block before its terminal instruction.
pub open spec fn straight_code(code: Seq<ParseInstr>) -> Seq<ParseInstr> {
    if code.len() > 0 && is_terminal_kind(code.last().kind) { code.drop_last() } else { code }
}

/// Whether `tr` records a run of `code` without error: state `j` (a stack
/// and the statements so far) is the state before instruction `j`.
pub open spec fn is_run(
    code: Seq<ParseInstr>,
    n_locals: int,
    n_globals: int,
    consts: Seq<PyConstInner>,
    tr: Seq<(Seq<StackItem>, Seq<Instr>)>,
) -> bool {
    &&& tr.len() == code.len() + 1
    &&& forall|j: int|
        0 <= j < code.len() ==> step_error(#[trigger] code[j], n_locals, n_globals, consts, tr[j].0) is None
            && step_effect(code[j], tr[j].0, tr[j].1, tr[j + 1].0, tr[j + 1].1)
}

/// Evaluates the instructions of a block up to its terminal instruction,
/// returning the statements they complete. On success the run starts from
/// the old stack with no statements and ends at the new stack with them.
fn eval_straight(block: &BasicBlock, ctx: &mut Context) -> (r: Result<Vec<Instr>, SymbolicEvaluationError>)
    requires
        terminal_only_last(block.code@),
    ensures
        final(ctx).locals == old(ctx).locals,
        final(ctx).globals == old(ctx).globals,
        final(ctx).consts == old(ctx).consts,
        r matches Ok(body) ==> exists|tr: Seq<(Seq<StackItem>, Seq<Instr>)>| {
            &&& #[trigger] is_run(straight_code(block.code@), old(ctx).locals@.len() as int,
                old(ctx).globals@.len() as int, old(ctx).consts@, tr)
            &&& tr[0] == (old(ctx).stack@, Seq::<Instr>::empty())
            &&& tr.last() == (final(ctx).stack@, body@)
        },
        match shape_run(straight_code(block.code@), old(ctx).locals@.len() as int, old(ctx).globals@.len() as int,
            old(ctx).consts@, shapes(old(ctx).stack@), 0) {
            Err(e) => r == Err::<Vec<Instr>, SymbolicEvaluationError>(e),
            Ok((s2, c)) => r is Ok && shapes(final(ctx).stack@) == s2 && r->Ok_0@.len() == c,
        },
{
    let mut acc: Vec<Instr> = Vec::new();
    let n = block.code.len();
    let ghost code = straight_code(block.code@);
    let ghost nl = ctx.locals@.len() as int;
    let ghost ng = ctx.globals@.len() as int;
    let ghost cs = ctx.consts@;
    let ghost mut tr: Seq<(Seq<StackItem>, Seq<Instr>)> = seq![(ctx.stack@, acc@)];
    let mut j: usize = 0;
    while j < n
        invariant
            j <= n == block.code@.len(),
            terminal_only_last(block.code@),
            code == straight_code(block.code@),
            j <= code.len(),
            forall|i: int| 0 <= i < j ==> code[i] == block.code@[i],
            ctx.locals == old(ctx).locals,
            ctx.globals == old(ctx).globals,
            ctx.consts == old(ctx).consts,
            nl == old(ctx).locals@.len(),
            ng == old(ctx).globals@.len(),
            cs == old(ctx).consts@,
            tr.len() == j + 1,
            j > 0 ==> !is_terminal_kind(block.code@[j - 1].kind),
            tr[0] == (old(ctx).stack@, Seq::<Instr>::empty()),
            tr.last() == (ctx.stack@, acc@),
            forall|i: int|
                0 <= i < j ==> step_error(#[trigger] code[i], nl, ng, cs, tr[i].0) is None
                    && step_effect(code[i], tr[i].0, tr[i].1, tr[i + 1].0, tr[i + 1].1),
            shape_run(code, nl, ng, cs, shapes(old(ctx).stack@), 0) == match shape_run(code, nl, ng, cs, shapes(ctx.stack@), j as int) {
                Ok((s3, c2)) => Ok::<(Seq<StackShape>, nat), SymbolicEvaluationError>((s3, acc@.len() + c2)),
                Err(e) => Err(e),
            },
        ensures
            j == code.len(),
        decreases n - j,
    {
        let instr = block.code[j];
        if instr.is_terminal() {
            assert(j == n - 1);
            assert(j == code.len());
            break;
        }
        assert(code[j as int] == instr);
        let ghost pre_st = ctx.stack@;
        let ghost pre_acc = acc@;
        proof {
            lemma_shapes_error(instr, nl, ng, cs, pre_st);
        }
        match eval_instr(instr, ctx, &mut acc) {
            Err(e) => {
                return Err(e);
            },
            Ok(()) => {},
        }
        proof {
            lemma_shapes_step(instr, pre_st, pre_acc, ctx.stack@, acc@);
            tr = tr.push((ctx.stack@, acc@));
        }
        j += 1;
    }
    assert(j == code.len());
    assert(is_run(code, nl, ng, cs, tr));
    assert(acc@.len() + 0 == acc@.len());
    Ok(acc)
}

/// The error that leaving a block that ends with `code` on a stack of `depth`
/// items raises, if any: a return, a conditional jump or a for-loop head
/// needs a value on the stack, and the block's successors must fit its last
/// instruction.
pub open spec fn exit_fault(code: Seq<ParseInstr>, children: BasicBlockChildren, depth: int) -> Option<SymbolicEvaluationError> {
    if code.len() == 0 || !is_terminal_kind(code.last().kind) {
        if children is LeadsTo { None } else { Some(SymbolicEvaluationError::WrongBlockChildCount) }
    } else {
        match code.last().kind {
            ParseInstrKind::JumpBackward | ParseInstrKind::JumpForward => if children is LeadsTo {
                None
            } else {
                Some(SymbolicEvaluationError::WrongBlockChildCount)
            },
            ParseInstrKind::ReturnValue => if depth == 0 {
                Some(SymbolicEvaluationError::MissingStackItem)
            } else if !(children is Diverges) {
                Some(SymbolicEvaluationError::WrongBlockChildCount)
            } else {
                None
            },
            _ => if depth == 0 {
                Some(SymbolicEvaluationError::MissingStackItem)
            } else if !(children is CondJump) {
                Some(SymbolicEvaluationError::WrongBlockChildCount)
            } else {
                None
            },
        }
    }
}

/// The error that leaving block `b` on stack `st` raises, if any.
pub open spec fn exit_error(b: BasicBlock, st: Seq<StackItem>) -> Option<SymbolicEvaluationError> {
    exit_fault(b.code@, b.children, st.len() as int)
}

/// Whether leaving a block that ends with `code` takes a value off the stack.
pub open spec fn exit_pops(code: Seq<ParseInstr>) -> bool {
    code.len() > 0 && is_terminal_kind(code.last().kind) && code.last().kind != ParseInstrKind::JumpForward
        && code.last().kind != ParseInstrKind::JumpBackward
}

/// Whether a block that ends with `code` heads a for-loop.
pub open spec fn is_for_head(code: Seq<ParseInstr>) -> bool {
    code.len() > 0 && code.last().kind == ParseInstrKind::ForIter
}

/// Whether leaving a block with `tag` took its value off the stack `st`,
/// leaving `st2`: a return or a condition takes the top, a jump takes nothing.
pub open spec fn exit_takes(tag: ControlFlowTag, st: Seq<StackItem>, st2: Seq<StackItem>) -> bool {
    match tag {
        ControlFlowTag::Returns(v) => st.len() > 0 && v == st.last() && st2 == st.drop_last(),
        ControlFlowTag::ConditionalJump { jump, .. } => st.len() > 0 && jump.cond == st.last() && st2 == st.drop_last(),
        _ => st2 == st,
    }
}

/// Whether `a` is `b`, or `b` without its first statement (the assignment
/// that a for-loop lifts out of its body).
pub open spec fn is_run_body(a: Seq<Instr>, b: Seq<Instr>) -> bool {
    a == b || (b.len() > 0 && a == b.subrange(1, b.len() as int))
}

/// Whether the value that `tag` holds was the top of the stack `st` that the
/// block's instructions left: the returned value, the condition, or the
/// iterator of a for-loop.
pub open spec fn value_taken(tag: ControlFlowTag, st: Seq<StackItem>) -> bool {
    match tag {
        ControlFlowTag::Returns(v) => st.len() > 0 && v == st.last(),
        ControlFlowTag::ConditionalJump { jump, .. } => st.len() > 0 && jump.cond == st.last(),
        ControlFlowTag::ForIter { .. } => st.len() > 0,
        _ => true,
    }
}

/// Whether the evaluated block `ab` comes from running the instructions of
/// block `b` from some stack: its statements are those the run completes
/// (less the first, for a for-loop body), and its tag holds the value the
/// run left on top.
pub open spec fn from_run(b: BasicBlock, ab: AnnotatedBlock, n_locals: int, n_globals: int, consts: Seq<PyConstInner>) -> bool {
    exists|tr: Seq<(Seq<StackItem>, Seq<Instr>)>| {
        &&& #[trigger] is_run(straight_code(b.code@), n_locals, n_globals, consts, tr)
        &&& tr[0].1 == Seq::<Instr>::empty()
        &&& is_run_body(ab.body@, tr.last().1)
        &&& value_taken(ab.cf_tag, tr.last().0)
    }
}

/// Whether the evaluated block `ab` comes from running the instructions of
/// block `b` from the stack `st`: its statements are exactly those the run
/// completes, and its tag holds the value the run left on top.
pub open spec fn runs_exactly(
    b: BasicBlock,
    ab: AnnotatedBlock,
    st: Seq<StackItem>,
    n_locals: int,
    n_globals: int,
    consts: Seq<PyConstInner>,
) -> bool {
    exists|tr: Seq<(Seq<StackItem>, Seq<Instr>)>| {
        &&& #[trigger] is_run(straight_code(b.code@), n_locals, n_globals, consts, tr)
        &&& tr[0] == (st, Seq::<Instr>::empty())
        &&& ab.body@ == tr.last().1
        &&& value_taken(ab.cf_tag, tr.last().0)
    }
}

/// Whether `aug` is a copy of the stack `st` with a for-loop's iterator
/// sentinel and the next value drawn from `iter` pushed on it.
pub open spec fn loop_entry(st: Seq<StackItem>, iter: StackItem, aug: Seq<StackItem>) -> bool {
    &&& aug.len() == st.len() + 2
    &&& forall|k: int| 0 <= k < st.len() ==> same_item(#[trigger] st[k], aug[k])
    &&& aug[st.len() as int] == StackItem::DummyIter
    &&& derives(aug.last(), Instr::ForIterNext(iter))
}

/// Whether a for-loop body `b`, run from the loop's entry stack `aug`,
/// completed `a` first and then exactly the statements `ab` holds.
pub open spec fn lifted(
    b: BasicBlock,
    ab: AnnotatedBlock,
    a: Instr,
    aug: Seq<StackItem>,
    n_locals: int,
    n_globals: int,
    consts: Seq<PyConstInner>,
) -> bool {
    exists|tr: Seq<(Seq<StackItem>, Seq<Instr>)>| {
        &&& #[trigger] is_run(straight_code(b.code@), n_locals, n_globals, consts, tr)
        &&& tr[0] == (aug, Seq::<Instr>::empty())
        &&& tr.last().1.len() > 0
        &&& a == tr.last().1[0]
        &&& ab.body@ == tr.last().1.subrange(1, tr.last().1.len() as int)
    }
}

/// Whether every slot of the memo holds a block reachable from the entry.
pub open spec fn memo_reachable(blocks: Seq<Option<BasicBlock>>, out: Seq<Option<AnnotatedBlock>>) -> bool {
    forall|t: int| 0 <= t < out.len() && (#[trigger] out[t]) is Some ==> reaches(blocks, 0, t)
}

/// Whether every finished block of the memo comes from a run of its block.
pub open spec fn memo_from_runs(
    blocks: Seq<Option<BasicBlock>>,
    out: Seq<Option<AnnotatedBlock>>,
    n_locals: int,
    n_globals: int,
    consts: Seq<PyConstInner>,
) -> bool {
    forall|t: int|
        0 <= t < out.len() && (#[trigger] out[t]) is Some && !(out[t]->0.cf_tag is Dummy) ==> blocks[t] is Some
            && from_run(blocks[t]->0, out[t]->0, n_locals, n_globals, consts)
}

/// How a block that is not a for-loop head is left, taking the condition or
/// the returned value off the stack.
fn exit_tag(block: &BasicBlock, ctx: &mut Context) -> (r: Result<ControlFlowTag, SymbolicEvaluationError>)
    requires
        block.code@.len() > 0 && is_terminal_kind(block.code@.last().kind) ==> block.code@.last().kind != ParseInstrKind::ForIter,
    ensures
        final(ctx).locals == old(ctx).locals,
        final(ctx).globals == old(ctx).globals,
        final(ctx).consts == old(ctx).consts,
        match exit_error(*block, old(ctx).stack@) {
            Some(e) => r == Err::<ControlFlowTag, SymbolicEvaluationError>(e),
            None => r is Ok,
        },
        r matches Ok(tag) ==> tag_fits(tag, *block) && exit_takes(tag, old(ctx).stack@, final(ctx).stack@),
        r is Ok ==> shapes(final(ctx).stack@) == if exit_pops(block.code@) {
            shapes(old(ctx).stack@).drop_last()
        } else {
            shapes(old(ctx).stack@)
        },
{
    let n = block.code.len();
    if n == 0 || !block.code[n - 1].is_terminal() {
        return match block.get1() {
            Ok(t) => Ok(ControlFlowTag::FallsThrough(t)),
            Err(e) => Err(e),
        };
    }
    let kind = block.code[n - 1].kind;
    match kind {
        ParseInstrKind::JumpBackward => match block.get1() {
            Ok(t) => Ok(ControlFlowTag::JumpBack(t)),
            Err(e) => Err(e),
        },
        ParseInstrKind::JumpForward => match block.get1() {
            Ok(t) => Ok(ControlFlowTag::JumpForward(t)),
            Err(e) => Err(e),
        },
        ParseInstrKind::ReturnValue => {
            let ret = match ctx.stack.pop() {
                Some(x) => x,
                None => {
                    return Err(SymbolicEvaluationError::MissingStackItem);
                },
            };
            match block.get0() {
                Ok(()) => Ok(ControlFlowTag::Returns(ret)),
                Err(e) => Err(e),
            }
        },
        _ => {
            let cond = match ctx.stack.pop() {
                Some(x) => x,
                None => {
                    return Err(SymbolicEvaluationError::MissingStackItem);
                },
            };
            match block.get2() {
                Ok((met, otherwise)) => Ok(ControlFlowTag::ConditionalJump {
                    jump: ConditionalJump { kind: condition_kind(kind), cond },
                    met,
                    otherwise,
                }),
                Err(e) => Err(e),
            }
        },
    }
}

/// Evaluates the body `found` of a for-loop whose iterator is `iter`, on the
/// stack of `ctx` with the loop's iterator and next value pushed, then takes
/// the body's first statement out as the loop variable's assignment. A body
/// already evaluated on another path has no fresh assignment to give, and
/// neither has one that completes no statement: both fail.
fn eval_for_body(
    found: BasicBlockToken,
    iter: StackItem,
    ctx: &Context,
    blocks: &BlockMap,
    out: &mut AnnotatedMap,
) -> (r: Result<Instr, SymbolicEvaluationError>)
    requires
        well_formed_blocks(blocks@),
        old(out)@.len() == blocks@.len(),
        found.0 < blocks@.len(),
        blocks@[found.0 as int] is Some,
        forall|t: int| 0 <= t < old(out)@.len() && (#[trigger] old(out)@[t]) is Some ==> blocks@[t] is Some,
        memo_from_runs(blocks@, old(out)@, ctx.locals@.len() as int, ctx.globals@.len() as int, ctx.consts@),
        memo_reachable(blocks@, old(out)@),
        reaches(blocks@, 0, found.0 as int),
    ensures
        memo_grows(blocks@, old(out)@, final(out)@),
        memo_from_runs(blocks@, final(out)@, ctx.locals@.len() as int, ctx.globals@.len() as int, ctx.consts@),
        memo_reachable(blocks@, final(out)@),
        r is Ok ==> final(out)@[found.0 as int] is Some,
        r is Ok ==> filled_well(blocks@, old(out)@, final(out)@),
        agrees(r, for_body_outcome(views(blocks@), ctx.locals@.len() as int, ctx.globals@.len() as int, ctx.consts@,
            found.0 as int, shapes(ctx.stack@).push(StackShape::Other).push(StackShape::Other), amemo(old(out)@)).0),
        amemo(final(out)@) == for_body_outcome(views(blocks@), ctx.locals@.len() as int, ctx.globals@.len() as int,
            ctx.consts@, found.0 as int, shapes(ctx.stack@).push(StackShape::Other).push(StackShape::Other), amemo(old(out)@)).1,
        r matches Ok(a) ==> exists|aug: Seq<StackItem>| #[trigger] loop_entry(ctx.stack@, iter, aug) && lifted(
            blocks@[found.0 as int]->0, final(out)@[found.0 as int]->0, a, aug, ctx.locals@.len() as int,
            ctx.globals@.len() as int, ctx.consts@),
    decreases unvisited(old(out)@), 1nat,
{
    let ghost s0 = out@;
    let ghost fi = found.0 as int;
    if out[found.0].is_some() {
        return Err(SymbolicEvaluationError::MissingForAssign);
    }
    let ghost iter_g = iter;
    let mut inner = ctx.fork();
    inner.stack.push(StackItem::DummyIter);
    inner.stack.push(StackItem::Derived(Box::new(Instr::ForIterNext(iter))));
    assert(shapes(inner.stack@) =~= shapes(ctx.stack@).push(StackShape::Other).push(StackShape::Other));
    let ghost aug = inner.stack@;
    assert(aug[ctx.stack@.len() as int] == StackItem::DummyIter);
    match eval_block(found, inner, blocks, out) {
        Err(e) => {
            return Err(e);
        },
        Ok(()) => {},
    }
    let ghost s1 = out@;
    let entry = out.remove(found.0);
    let (mut fb, ftag) = match entry {
        Some(AnnotatedBlock { body, cf_tag }) => (body, cf_tag),
        None => {
            proof {
                assert(false);
            }
            return Err(SymbolicEvaluationError::MissingForAssign);
        },
    };
    if fb.len() == 0 {
        out.insert(found.0, Some(AnnotatedBlock { body: fb, cf_tag: ftag }));
        assert(out@ =~= s1);
        assert(amemo(s1)[fi] == Some(0nat));
        return Err(SymbolicEvaluationError::MissingForAssign);
    }
    let ghost old_body = fb@;
    let assignment = fb.remove(0);
    out.insert(found.0, Some(AnnotatedBlock { body: fb, cf_tag: ftag }));
    proof {
        let s2 = out@;
        let nl = ctx.locals@.len() as int;
        let ng = ctx.globals@.len() as int;
        let cs = ctx.consts@;
        assert(s1[fi]->0.body@ == old_body);
        let fbk = blocks@[fi]->0;
        let tr = choose|tr: Seq<(Seq<StackItem>, Seq<Instr>)>| {
            &&& #[trigger] is_run(straight_code(fbk.code@), nl, ng, cs, tr)
            &&& tr[0] == (aug, Seq::<Instr>::empty())
            &&& s1[fi]->0.body@ == tr.last().1
            &&& value_taken(s1[fi]->0.cf_tag, tr.last().0)
        };
        assert(fb@ =~= tr.last().1.subrange(1, tr.last().1.len() as int));
        assert(is_run_body(fb@, tr.last().1));
        assert(from_run(fbk, s2[fi]->0, nl, ng, cs));
        assert(lifted(fbk, s2[fi]->0, assignment, aug, nl, ng, cs));
        assert(loop_entry(ctx.stack@, iter_g, aug));
        assert(memo_from_runs(blocks@, s2, nl, ng, cs));
        assert(s2 =~= s1.update(fi, s2[fi]));
        assert(amemo(s2) =~= amemo(s1).update(fi, Some((amemo(s1)[fi]->0 - 1) as nat)));
        lemma_unvisited_update(s1, fi, s2[fi]);
        assert(memo_grows(blocks@, s0, s2));
        assert(filled_well(blocks@, s0, s1));
        assert forall|t: int| 0 <= t < s2.len() && s0[t] is None && (#[trigger] s2[t]) is Some implies {
            &&& tag_fits(s2[t]->0.cf_tag, blocks@[t]->0)
            &&& forall|c: int| #[trigger] tag_targets(s2[t]->0.cf_tag).contains(c) ==> 0 <= c < s2.len() && s2[c] is Some
        } by {
            assert(s1[t] is Some);
            assert forall|c: int| #[trigger] tag_targets(s2[t]->0.cf_tag).contains(c) implies 0 <= c < s2.len() && s2[c] is Some by {
                assert(tag_targets(s1[t]->0.cf_tag).contains(c));
            }
        }
    }
    Ok(assignment)
}

/// Evaluates the successors of the recorded block `token` on the operand
/// stack of `ctx`: for a conditional, the jump target on a copy of the
/// stack and then the fall-through.
fn eval_children(token: BasicBlockToken, ctx: Context, blocks: &BlockMap, out: &mut AnnotatedMap) -> (r: Result<(), SymbolicEvaluationError>)
    requires
        well_formed_blocks(blocks@),
        old(out)@.len() == blocks@.len(),
        token.0 < blocks@.len(),
        blocks@[token.0 as int] is Some,
        forall|t: int| 0 <= t < old(out)@.len() && (#[trigger] old(out)@[t]) is Some ==> blocks@[t] is Some,
        memo_from_runs(blocks@, old(out)@, ctx.locals@.len() as int, ctx.globals@.len() as int, ctx.consts@),
        memo_reachable(blocks@, old(out)@),
        reaches(blocks@, 0, token.0 as int),
    ensures
        memo_grows(blocks@, old(out)@, final(out)@),
        memo_from_runs(blocks@, final(out)@, ctx.locals@.len() as int, ctx.globals@.len() as int, ctx.consts@),
        memo_reachable(blocks@, final(out)@),
        r is Ok ==> filled_well(blocks@, old(out)@, final(out)@),
        r is Ok ==> forall|c: int| #[trigger] child_tokens(blocks@[token.0 as int]->0.children).contains(c)
            ==> 0 <= c < final(out)@.len() && final(out)@[c] is Some,
        agrees(r, eval_next(views(blocks@), ctx.locals@.len() as int, ctx.globals@.len() as int, ctx.consts@,
            blocks@[token.0 as int]->0.children, shapes(ctx.stack@), amemo(old(out)@)).0),
        amemo(final(out)@) == eval_next(views(blocks@), ctx.locals@.len() as int, ctx.globals@.len() as int,
            ctx.consts@, blocks@[token.0 as int]->0.children, shapes(ctx.stack@), amemo(old(out)@)).1,
    decreases unvisited(old(out)@), 2nat,
{
    let ghost s4 = out@;
    let ghost tk = token.0 as int;
    let children = match &blocks[token.0] {
        Some(b) => b.children,
        None => {
            return Ok(());
        },
    };
    assert(children == blocks@[tk]->0.children);
    match children {
        BasicBlockChildren::CondJump { cond_met, otherwise } => {
            assert(child_tokens(children).contains(cond_met.0 as int));
            assert(child_tokens(children).contains(otherwise.0 as int));
            proof {
                lemma_reaches_step(blocks@, 0, tk, cond_met.0 as int);
                lemma_reaches_step(blocks@, 0, tk, otherwise.0 as int);
                lemma_holes_amemo(s4);
            }
            let fork = ctx.fork();
            match eval_block(cond_met, fork, blocks, out) {
                Err(e) => {
                    return Err(e);
                },
                Ok(()) => {},
            }
            let ghost s5 = out@;
            proof {
                lemma_holes_amemo(s5);
            }
            match eval_block(otherwise, ctx, blocks, out) {
                Err(e) => {
                    proof { lemma_memo_chain(blocks@, s4, s5, out@); }
                    return Err(e);
                },
                Ok(()) => {},
            }
            proof {
                lemma_memo_chain(blocks@, s4, s5, out@);
            }
            assert(child_tokens(children) =~= set![cond_met.0 as int, otherwise.0 as int]);
        },
        BasicBlockChildren::LeadsTo(t) => {
            assert(child_tokens(children).contains(t.0 as int));
            proof {
                lemma_reaches_step(blocks@, 0, tk, t.0 as int);
            }
            match eval_block(t, ctx, blocks, out) {
                Err(e) => {
                    return Err(e);
                },
                Ok(()) => {},
            }
            assert(child_tokens(children) =~= set![t.0 as int]);
        },
        BasicBlockChildren::Diverges => {
            assert(child_tokens(children) =~= Set::<int>::empty());
        },
    }
    Ok(())
}

/// Evaluates the block `token` on the operand stack of `ctx`, records it in
/// `out`, then evaluates the blocks it leads to. A block that `out` already
/// holds is not evaluated again, so every block is evaluated at most once.
#[verifier::rlimit(60)]
pub fn eval_block(token: BasicBlockToken, ctx: Context, blocks: &BlockMap, out: &mut AnnotatedMap) -> (r: Result<(), SymbolicEvaluationError>)
    requires
        well_formed_blocks(blocks@),
        old(out)@.len() == blocks@.len(),
        token.0 < blocks@.len(),
        blocks@[token.0 as int] is Some,
        forall|t: int| 0 <= t < old(out)@.len() && (#[trigger] old(out)@[t]) is Some ==> blocks@[t] is Some,
        memo_from_runs(blocks@, old(out)@, ctx.locals@.len() as int, ctx.globals@.len() as int, ctx.consts@),
        memo_reachable(blocks@, old(out)@),
        reaches(blocks@, 0, token.0 as int),
    ensures
        old(out)@[token.0 as int] is Some ==> r is Ok && final(out)@ == old(out)@,
        memo_grows(blocks@, old(out)@, final(out)@),
        memo_from_runs(blocks@, final(out)@, ctx.locals@.len() as int, ctx.globals@.len() as int, ctx.consts@),
        memo_reachable(blocks@, final(out)@),
        r is Ok ==> final(out)@[token.0 as int] is Some,
        r is Ok ==> filled_well(blocks@, old(out)@, final(out)@),
        agrees(r, eval_dfs(views(blocks@), ctx.locals@.len() as int, ctx.globals@.len() as int, ctx.consts@,
            token.0 as int, shapes(ctx.stack@), amemo(old(out)@)).0),
        amemo(final(out)@) == eval_dfs(views(blocks@), ctx.locals@.len() as int, ctx.globals@.len() as int,
            ctx.consts@, token.0 as int, shapes(ctx.stack@), amemo(old(out)@)).1,
        r is Ok && old(out)@[token.0 as int] is None ==> runs_exactly(blocks@[token.0 as int]->0,
            final(out)@[token.0 as int]->0, ctx.stack@, ctx.locals@.len() as int, ctx.globals@.len() as int, ctx.consts@),
    decreases unvisited(old(out)@), 0nat,
{
    let ghost s0 = out@;
    let ghost tk = token.0 as int;
    let ghost vw = views(blocks@);
    let ghost m0 = amemo(s0);
    let ghost sh0 = shapes(ctx.stack@);
    let ghost spec_out = eval_dfs(vw, ctx.locals@.len() as int, ctx.globals@.len() as int, ctx.consts@, tk, sh0, m0);
    assert(m0.len() == vw.len());
    if out[token.0].is_some() {
        assert(m0[tk] is Some);
        return Ok(());
    }
    let block = match &blocks[token.0] {
        Some(b) => b,
        None => {
            return Ok(());
        },
    };
    assert(vw[tk] == Some((block.code@, block.children)));
    let ghost nl = ctx.locals@.len() as int;
    let ghost ng = ctx.globals@.len() as int;
    let ghost cs = ctx.consts@;
    let ghost s_stack0 = ctx.stack@;
    let mut ctx = ctx;
    let acc = match eval_straight(block, &mut ctx) {
        Ok(acc) => acc,
        Err(e) => {
            return Err(e);
        },
    };
    let ghost st_after = ctx.stack@;
    let ghost run = shape_run(straight_code(block.code@), nl, ng, cs, sh0, 0);
    let ghost cnt = acc@.len();
    assert(run == Ok::<(Seq<StackShape>, nat), SymbolicEvaluationError>((shapes(st_after), cnt)));
    let n = block.code.len();
    let tag: ControlFlowTag;
    let ghost mut s_mid = s0;
    if n > 0 && block.code[n - 1].is_terminal() && block.code[n - 1].kind == ParseInstrKind::ForIter {
        assert(is_for_head(block.code@));
        let iter = match ctx.stack.pop() {
            Some(x) => x,
            None => {
                return Err(SymbolicEvaluationError::MissingStackItem);
            },
        };
        assert(shapes(ctx.stack@) =~= shapes(st_after).drop_last());
        let (exhausted, found) = match block.get2() {
            Ok(p) => p,
            Err(e) => {
                return Err(e);
            },
        };
        assert(child_tokens(block.children).contains(found.0 as int));
        proof {
            lemma_reaches_step(blocks@, 0, tk, found.0 as int);
        }
        out.set(token.0, Some(AnnotatedBlock { body: Vec::new(), cf_tag: ControlFlowTag::Dummy }));
        let ghost s1 = out@;
        assert(amemo(s1) =~= m0.update(tk, Some(0nat)));
        proof {
            lemma_unvisited_update(s0, tk, s1[tk]);
            assert(memo_grows(blocks@, s0, s1));
            assert(memo_from_runs(blocks@, s1, nl, ng, cs));
        }
        let assignment = match eval_for_body(found, iter, &ctx, blocks, out) {
            Ok(a) => a,
            Err(e) => {
                proof {
                    lemma_memo_chain(blocks@, s0, s1, out@);
                }
                return Err(e);
            },
        };
        proof {
            lemma_memo_chain(blocks@, s0, s1, out@);
            s_mid = s1;
        }
        tag = ControlFlowTag::ForIter { assignment, found, exhausted };
    } else {
        assert(!is_for_head(block.code@));
        tag = match exit_tag(block, &mut ctx) {
            Ok(t) => t,
            Err(e) => {
                return Err(e);
            },
        };
    }
    let ghost s_pre = out@;
    assert(tag_fits(tag, *block));
    assert(memo_grows(blocks@, s_mid, s_pre) && filled_well(blocks@, s_mid, s_pre));
    assert(forall|t: int| 0 <= t < s0.len() && t != tk ==> s_mid[t] == s0[t]);
    let ghost acc_v = acc@;
    out.set(token.0, Some(AnnotatedBlock { body: acc, cf_tag: tag }));
    let ghost s4 = out@;
    let ghost sh2 = shapes(ctx.stack@);
    assert(amemo(s4) =~= amemo(s_pre).update(tk, Some(cnt)));
    proof {
        lemma_holes_amemo(s0);
        lemma_holes_amemo(s4);
        lemma_unvisited_update(s_pre, tk, s4[tk]);
        assert(memo_grows(blocks@, s0, s4));
        let tr = choose|tr: Seq<(Seq<StackItem>, Seq<Instr>)>| {
            &&& #[trigger] is_run(straight_code(block.code@), nl, ng, cs, tr)
            &&& tr[0] == (s_stack0, Seq::<Instr>::empty())
            &&& tr.last() == (st_after, acc_v)
        };
        assert(acc_v =~= acc_v.subrange(0, acc_v.len() as int));
        assert(is_run_body(acc_v, tr.last().1));
        assert(value_taken(tag, st_after));
        assert(from_run(*block, s4[tk]->0, nl, ng, cs));
        assert(memo_from_runs(blocks@, s4, nl, ng, cs));
        assert(runs_exactly(*block, s4[tk]->0, s_stack0, nl, ng, cs));
    }
    proof {
        lemma_holes_amemo(s_pre);
        lemma_holes_update(amemo(s_pre), tk, Some(cnt));
        assert(spec_out == eval_next(vw, nl, ng, cs, block.children, sh2, amemo(s4)));
    }
    match eval_children(token, ctx, blocks, out) {
        Err(e) => {
            proof {
                lemma_memo_chain(blocks@, s0, s4, out@);
            }
            return Err(e);
        },
        Ok(()) => {},
    }
    proof {
        lemma_memo_chain(blocks@, s0, s4, out@);
    }
    proof {
        let sf = out@;
        assert(memo_grows(blocks@, s4, sf) && filled_well(blocks@, s4, sf));
        assert(sf[tk] == s4[tk]);
        lemma_fit_targets(tag_of(s4, tk), block_of(blocks@, tk));
        assert forall|t: int| 0 <= t < sf.len() && s0[t] is None && (#[trigger] sf[t]) is Some implies {
            &&& tag_fits(sf[t]->0.cf_tag, blocks@[t]->0)
            &&& forall|c: int| #[trigger] tag_targets(sf[t]->0.cf_tag).contains(c) ==> 0 <= c < sf.len() && sf[c] is Some
        } by {
            if t == tk {
                assert(sf[t]->0.cf_tag == s4[tk]->0.cf_tag);
                assert forall|c: int| #[trigger] tag_targets(sf[t]->0.cf_tag).contains(c) implies 0 <= c < sf.len() && sf[c] is Some by {
                    assert(child_tokens(block.children).contains(c));
                }
            } else if s_pre[t] is Some {
                assert(s_mid[t] is None);
                assert(s4[t] == s_pre[t]);
                assert(tag_fits(s_pre[t]->0.cf_tag, blocks@[t]->0));
                assert(sf[t]->0.cf_tag == s4[t]->0.cf_tag);
                assert forall|c: int| #[trigger] tag_targets(sf[t]->0.cf_tag).contains(c) implies 0 <= c < sf.len() && sf[c] is Some by {
                    assert(tag_targets(s_pre[t]->0.cf_tag).contains(c));
                    assert(s_pre[c] is Some);
                    assert(s4[c] is Some);
                }
            } else {
                assert(s4[t] is None);
            }
        }
    }
    Ok(())
}

spec fn tag_of(s: Seq<Option<AnnotatedBlock>>, t: int) -> ControlFlowTag {
    s[t]->0.cf_tag
}

spec fn block_of(m: Seq<Option<BasicBlock>>, t: int) -> BasicBlock {
    m[t]->0
}

proof fn lemma_fit_targets(tag: ControlFlowTag, b: BasicBlock)
    requires
        tag_fits(tag, b),
    ensures
        tag_targets(tag) == child_tokens(b.children),
{
    assert(tag_targets(tag) =~= child_tokens(b.children));
}

/// Whether `g` is an evaluation of the block map of `instrs` against tables
/// of the given sizes: every slot it fills is a block whose statements and
/// exit value come from running its instructions, tagged as that block is
/// left, and leading only to filled slots; every filled block is reachable
/// from the entry block, which is filled when there is any code.
pub open spec fn evaluates(
    instrs: Seq<ParseInstr>,
    n_locals: int,
    n_globals: int,
    consts: Seq<PyConstInner>,
    g: Seq<Option<AnnotatedBlock>>,
) -> bool {
    &&& g.len() == instrs.len()
    &&& instrs.len() > 0 ==> g[0] is Some
    &&& exists|m: Seq<Option<BasicBlock>>| {
        &&& #[trigger] block_map_of(instrs, m)
        &&& memo_from_runs(m, g, n_locals, n_globals, consts)
        &&& memo_reachable(m, g)
        &&& forall|t: int|
            0 <= t < g.len() && (#[trigger] g[t]) is Some ==> {
                &&& m[t] is Some
                &&& tag_fits(g[t]->0.cf_tag, m[t]->0)
                &&& forall|c: int| #[trigger] tag_targets(g[t]->0.cf_tag).contains(c) ==> 0 <= c < g.len() && g[c] is Some
            }
    }
}

/// Builds the basic blocks of `instrs` and evaluates them from the entry
/// block, returning each reached block with its recovered statements and
/// the way it is left.
pub fn eval_instructions(
    instrs: &[ParseInstr],
    locals: &[String],
    globals: &[String],
    consts: &[PyConstInner],
) -> (r: Result<AnnotatedMap, SymbolicEvaluationError>)
    requires
        instrs@.len() < usize::MAX,
    ensures
        !jumps_in_range(instrs@) ==> r == Err::<AnnotatedMap, SymbolicEvaluationError>(SymbolicEvaluationError::OutOfBoundsJump),
        r matches Ok(g) ==> jumps_in_range(instrs@) && evaluates(instrs@, locals@.len() as int, globals@.len() as int, consts@, g@),
        r matches Ok(g) ==> instrs@.len() > 0 ==> forall|m: Seq<Option<BasicBlock>>| #[trigger] block_map_of(instrs@, m)
            ==> runs_exactly(m[0]->0, g@[0]->0, Seq::empty(), locals@.len() as int, globals@.len() as int, consts@),
        jumps_in_range(instrs@) ==> forall|m: Seq<Option<BasicBlock>>| #[trigger] block_map_of(instrs@, m) ==> agrees(
            r,
            eval_outcome(instrs@, m, locals@.len() as int, globals@.len() as int, consts@),
        ),
{
    let block_map = match create_blocks(instrs) {
        Ok(m) => m,
        Err(e) => {
            return Err(e);
        },
    };
    let ghost m = block_map@;
    proof {
        assert forall|t: int| 0 <= t < m.len() && (#[trigger] m[t]) is Some implies {
            &&& m[t]->0.at == t
            &&& terminal_only_last(m[t]->0.code@)
            &&& forall|c: int|
                #[trigger] child_tokens(m[t]->0.children).contains(c) ==> 0 <= c < m.len() && m[c] is Some
        } by {
            lemma_terminal_last(instrs@, m, t);
            assert forall|c: int| #[trigger] child_tokens(m[t]->0.children).contains(c) implies 0 <= c < m.len() && m[c] is Some by {
                lemma_children_present(instrs@, m, t, c);
            }
        }
    }
    let n = instrs.len();
    let mut out: AnnotatedMap = Vec::new();
    while out.len() < n
        invariant
            out@.len() <= n,
            forall|t: int| 0 <= t < out@.len() ==> (#[trigger] out@[t]) is None,
        decreases n - out@.len(),
    {
        out.push(None);
    }
    assert(amemo(out@) =~= no_memo(n as nat));
    assert forall|m2: Seq<Option<BasicBlock>>| #[trigger] block_map_of(instrs@, m2) implies views(m2) == views(m) by {
        assert forall|t: int| 0 <= t < m.len() implies views(m2)[t] == views(m)[t] by {
            lemma_block_maps_agree(instrs@, m, m2, t);
        }
        assert(views(m2) =~= views(m));
    }
    if n == 0 {
        assert(evaluates(instrs@, locals@.len() as int, globals@.len() as int, consts@, out@)) by {
            assert(block_map_of(instrs@, m));
        }
        return Ok(out);
    }
    let ghost s0 = out@;
    proof {
        crate::blocks::lemma_entry_present(instrs@, m);
    }
    let ctx = Context { stack: Vec::new(), locals, globals, consts };
    assert(reaches(m, 0, 0)) by {
        assert(is_path(m, seq![0int]));
    }
    assert(shapes(ctx.stack@) =~= Seq::<StackShape>::empty());
    match eval_block(BasicBlockToken::zero(), ctx, &block_map, &mut out) {
        Err(e) => {
            return Err(e);
        },
        Ok(()) => {},
    }
    assert(evaluates(instrs@, locals@.len() as int, globals@.len() as int, consts@, out@)) by {
        assert(block_map_of(instrs@, m));
        assert(filled_well(m, s0, out@));
    }
    Ok(out)
}

} // verus!
