//! Emission of indented source text from the resolved block graph.
use vstd::prelude::*;

use crate::blocks::BasicBlockToken;
use crate::cfg_resolution::{has_dummy, resolution_ok, resolve_all, PseudoASTTag, ResolvedBlock, ResolvedMap};
use crate::defs::{binary_op_text, comparison_text, is_in_place, Instr, PyConstInner, StackItem};
use crate::symbolic_evaluation::{AnnotatedMap, ConditionKind, ConditionalJump};

verus! {

broadcast use vstd::std_specs::vec::axiom_vec_index_decreases;

/// The name, global and constant tables that stack items index.
pub struct Tables {
    pub locals: Seq<String>,
    pub globals: Seq<String>,
    pub consts: Seq<PyConstInner>,
}

/// `d` tab characters.
pub open spec fn tabs(d: nat) -> Seq<char>
    decreases d,
{
    if d == 0 { Seq::empty() } else { tabs((d - 1) as nat) + "\t"@ }
}

/// The text of one decimal digit.
pub open spec fn digit_text(d: nat) -> Seq<char> {
    if d == 0 { "0"@ }
    else if d == 1 { "1"@ }
    else if d == 2 { "2"@ }
    else if d == 3 { "3"@ }
    else if d == 4 { "4"@ }
    else if d == 5 { "5"@ }
    else if d == 6 { "6"@ }
    else if d == 7 { "7"@ }
    else if d == 8 { "8"@ }
    else { "9"@ }
}

/// The decimal digits of a natural number.
pub open spec fn nat_text(n: nat) -> Seq<char>
    decreases n,
{
    if n < 10 { digit_text(n) } else { nat_text(n / 10) + digit_text(n % 10) }
}

/// The decimal text of an integer, with a leading minus when negative.
pub open spec fn int_text(n: int) -> Seq<char> {
    if n < 0 { "-"@ + nat_text((-n) as nat) } else { nat_text(n as nat) }
}

/// Entry `i` of a name table, or nothing when `i` is outside it.
pub open spec fn name_text(names: Seq<String>, i: usize) -> Seq<char> {
    if i < names.len() { names[i as int]@ } else { Seq::empty() }
}

/// Constant `i` as source text, or nothing when `i` is outside the table.
pub open spec fn const_text(consts: Seq<PyConstInner>, i: usize) -> Seq<char> {
    if i < consts.len() {
        match consts[i as int] {
            PyConstInner::Int(n) => int_text(n as int),
            PyConstInner::BigInt(s) => s@,
            PyConstInner::StringLiteral(s) => "\""@ + s@ + "\""@,
            PyConstInner::CodeObject(c) => c.name@,
            PyConstInner::NoneValue => "None"@,
        }
    } else {
        Seq::empty()
    }
}

/// A stack item as an expression.
pub open spec fn item_text(t: Tables, x: StackItem) -> Seq<char>
    decreases x, 0nat,
{
    match x {
        StackItem::Derived(b) => instr_text(t, *b),
        StackItem::Local(i) => name_text(t.locals, i),
        StackItem::Global(i) => name_text(t.globals, i),
        StackItem::Const(i) => const_text(t.consts, i),
        StackItem::Int(n) => int_text(n as int),
        StackItem::Null => Seq::empty(),
        StackItem::DummyIter => Seq::empty(),
    }
}

/// Whether a stored value is an in-place operation, which the store writes
/// as the augmented assignment itself.
pub open spec fn is_in_place_item(x: StackItem) -> bool {
    match x {
        StackItem::Derived(b) => match *b {
            Instr::BinaryOp(op, _, _) => is_in_place(op),
            _ => false,
        },
        _ => false,
    }
}

/// The arguments of a call from position `k` on, separated by commas.
pub open spec fn args_text(t: Tables, args: Vec<StackItem>, k: int) -> Seq<char>
    decreases args, args@.len() - k,
{
    if k < 0 || k >= args@.len() {
        Seq::empty()
    } else {
        (if k > 0 { ", "@ } else { Seq::empty() }) + item_text(t, args@[k]) + args_text(t, args, k + 1)
    }
}

/// Whether a stack item is an operator expression, which is put in
/// parentheses where it stands as an operand.
pub open spec fn is_op_item(x: StackItem) -> bool {
    match x {
        StackItem::Derived(b) => *b is BinaryOp || *b is CompareOp,
        _ => false,
    }
}

/// A stack item as the operand of an operator: parenthesised when it is
/// itself an operator expression.
pub open spec fn operand_text(t: Tables, x: StackItem) -> Seq<char>
    decreases x, 1nat,
{
    if is_op_item(x) { "("@ + item_text(t, x) + ")"@ } else { item_text(t, x) }
}

/// A recovered statement or expression as source text.
pub open spec fn instr_text(t: Tables, i: Instr) -> Seq<char>
    decreases i, 0nat,
{
    match i {
        Instr::StoreFast(n, v) => if is_in_place_item(v) {
            item_text(t, v)
        } else {
            name_text(t.locals, n) + " = "@ + item_text(t, v)
        },
        Instr::StoreGlobal(n, v) => if is_in_place_item(v) {
            item_text(t, v)
        } else {
            name_text(t.globals, n) + " = "@ + item_text(t, v)
        },
        Instr::Call { obj, meth, args } => (if obj is Null {
            item_text(t, meth)
        } else {
            item_text(t, obj) + "."@ + item_text(t, meth)
        }) + "("@ + args_text(t, args, 0) + ")"@,
        Instr::BinaryOp(op, l, r) => operand_text(t, l) + " "@ + binary_op_text(op) + " "@ + operand_text(t, r),
        Instr::CompareOp(op, l, r) => operand_text(t, l) + " "@ + comparison_text(op.kind) + " "@ + operand_text(t, r),
        Instr::GetIter(v) => item_text(t, v),
        Instr::ToBool(v) => item_text(t, v),
        Instr::ForIterNext(v) => item_text(t, v),
    }
}

/// A block's statements, one line each at depth `d`.
pub open spec fn stmts_text(t: Tables, d: nat, body: Seq<Instr>) -> Seq<char>
    decreases body.len(),
{
    if body.len() == 0 {
        Seq::empty()
    } else {
        stmts_text(t, d, body.drop_last()) + tabs(d) + instr_text(t, body.last()) + "\n"@
    }
}

/// The header line of a for-loop whose variable is bound by `a`.
pub open spec fn for_header(t: Tables, d: nat, a: Instr) -> Seq<char> {
    tabs(d) + "for "@ + match a {
        Instr::StoreFast(n, v) => name_text(t.locals, n) + " in "@ + item_text(t, v),
        Instr::StoreGlobal(n, v) => name_text(t.globals, n) + " in "@ + item_text(t, v),
        other => instr_text(t, other),
    } + ":\n"@
}

/// The condition under which a conditional's body runs: the body is the
/// branch that the jump skips, so the jump's test is negated.
pub open spec fn cond_text(t: Tables, j: ConditionalJump) -> Seq<char> {
    match j.kind {
        ConditionKind::False => item_text(t, j.cond),
        ConditionKind::True => "not "@ + operand_text(t, j.cond),
        ConditionKind::IsNone => operand_text(t, j.cond) + " is not None"@,
        ConditionKind::NotNone => operand_text(t, j.cond) + " is None"@,
    }
}

/// The header line of a conditional or loop: `word`, the condition, a colon.
pub open spec fn header(t: Tables, d: nat, word: Seq<char>, j: ConditionalJump) -> Seq<char> {
    tabs(d) + word + cond_text(t, j) + ":\n"@
}

/// The smaller of two bounds.
pub open spec fn lower(a: int, b: int) -> int {
    if a < b { a } else { b }
}

/// Whether emission at block `tok` follows an edge to `x`: only to a later
/// block of the graph, before the bound `stop` where an enclosing construct
/// resumes.
pub open spec fn follows(g: Seq<Option<ResolvedBlock>>, tok: int, x: BasicBlockToken, stop: int) -> bool {
    tok < x.0 && x.0 < stop && x.0 < g.len()
}

/// The source text of the block `tok` of the resolved graph `g` at depth
/// `d`, and of what follows it up to the block `stop`. A branch or a loop
/// body stops where its construct resumes, so the join is emitted once,
/// after the construct.
pub open spec fn block_text(g: Seq<Option<ResolvedBlock>>, t: Tables, tok: int, stop: int, d: nat) -> Seq<char>
    decreases g.len() - tok, 2nat,
{
    if !(0 <= tok < g.len()) || g[tok] is None {
        Seq::empty()
    } else {
        let b = g[tok]->0;
        let stmts = stmts_text(t, d, b.body@);
        match b.ast_tag {
            PseudoASTTag::ForLoop { body, falls_through_to, assignment } => stmts + loop_text(
                g, t, tok, stop, for_header(t, d, assignment), body, falls_through_to, d),
            PseudoASTTag::FallsThrough(to) => stmts + (if follows(g, tok, to, stop) {
                block_text(g, t, to.0 as int, stop, d)
            } else {
                Seq::empty()
            }),
            PseudoASTTag::Breaks => stmts + tabs(d) + "break\n"@,
            PseudoASTTag::Continues => stmts + tabs(d) + "continue\n"@,
            PseudoASTTag::Returns(v) => stmts + tabs(d) + "return "@ + item_text(t, v) + "\n"@,
            PseudoASTTag::Passes => stmts,
            PseudoASTTag::WhileHead { jump, body, falls_through_to } => stmts + loop_text(
                g, t, tok, stop, header(t, d, "while "@, jump), body, falls_through_to, d),
            PseudoASTTag::BareIf { jump, body, falls_through_to } => stmts + if_text(
                g, t, tok, stop, jump, body, falls_through_to, d, false),
            PseudoASTTag::IfElse { jump, body, else_branch, falls_through_to } => stmts + if_else_text(
                g, t, tok, stop, jump, body, else_branch, falls_through_to, d, false),
        }
    }
}

/// A loop of the block `tok`: its header line `head`, its body one level
/// deeper up to `after`, then `after` and what follows it.
pub open spec fn loop_text(
    g: Seq<Option<ResolvedBlock>>,
    t: Tables,
    tok: int,
    stop: int,
    head: Seq<char>,
    body: BasicBlockToken,
    after: BasicBlockToken,
    d: nat,
) -> Seq<char>
    decreases g.len() - tok, 1nat,
{
    let inner = lower(stop, after.0 as int);
    head + (if follows(g, tok, body, inner) { block_text(g, t, body.0 as int, inner, d + 1) } else { Seq::empty() })
        + (if follows(g, tok, after, stop) { block_text(g, t, after.0 as int, stop, d) } else { Seq::empty() })
}

/// An `if` (or `elif`) of the block `tok`, its body one level deeper up to
/// `after`, then `after` and what follows it.
pub open spec fn if_text(
    g: Seq<Option<ResolvedBlock>>,
    t: Tables,
    tok: int,
    stop: int,
    jump: ConditionalJump,
    body: BasicBlockToken,
    after: BasicBlockToken,
    d: nat,
    is_elif: bool,
) -> Seq<char>
    decreases g.len() - tok, 1nat,
{
    let inner = lower(stop, after.0 as int);
    header(t, d, if is_elif { "elif "@ } else { "if "@ }, jump)
        + (if follows(g, tok, body, inner) { block_text(g, t, body.0 as int, inner, d + 1) } else { Seq::empty() })
        + (if follows(g, tok, after, stop) { block_text(g, t, after.0 as int, stop, d) } else { Seq::empty() })
}

/// An `if` (or `elif`) with an else branch.
pub open spec fn if_else_text(
    g: Seq<Option<ResolvedBlock>>,
    t: Tables,
    tok: int,
    stop: int,
    jump: ConditionalJump,
    body: BasicBlockToken,
    else_branch: BasicBlockToken,
    after: BasicBlockToken,
    d: nat,
    is_elif: bool,
) -> Seq<char>
    decreases g.len() - tok, 1nat,
{
    let inner = lower(stop, after.0 as int);
    header(t, d, if is_elif { "elif "@ } else { "if "@ }, jump)
        + (if follows(g, tok, body, inner) { block_text(g, t, body.0 as int, inner, d + 1) } else { Seq::empty() })
        + else_text(g, t, tok, stop, else_branch, after, d)
}

/// The else branch of the if-else of block `tok`, then what follows. A
/// branch that is itself a conditional with no statements of its own
/// continues the chain as `elif`; any other stands under `else:`.
pub open spec fn else_text(
    g: Seq<Option<ResolvedBlock>>,
    t: Tables,
    tok: int,
    stop: int,
    else_branch: BasicBlockToken,
    after: BasicBlockToken,
    d: nat,
) -> Seq<char>
    decreases g.len() - tok, 0nat,
{
    let inner = lower(stop, after.0 as int);
    let tail = if follows(g, tok, after, stop) { block_text(g, t, after.0 as int, stop, d) } else { Seq::empty() };
    let e = else_branch.0 as int;
    if follows(g, tok, else_branch, inner) && g[e] is Some {
        let plain = tabs(d) + "else:\n"@ + block_text(g, t, e, inner, d + 1) + tail;
        if g[e]->0.body@.len() == 0 {
            match g[e]->0.ast_tag {
                PseudoASTTag::IfElse { jump, body: b2, else_branch: e2, falls_through_to: a2 } => if_else_text(
                    g, t, e, stop, jump, b2, e2, a2, d, true),
                PseudoASTTag::BareIf { jump, body: b2, falls_through_to: a2 } => if_text(g, t, e, stop, jump, b2, a2, d, true),
                _ => plain,
            }
        } else {
            plain
        }
    } else {
        tail
    }
}

/// What the emitter reads: the resolved graph and the tables.
pub struct CodegenContext<'a> {
    pub graph: &'a ResolvedMap,
    pub locals: &'a [String],
    pub globals: &'a [String],
    pub consts: &'a [PyConstInner],
}

/// The tables of an emitter context.
pub open spec fn tables_of(c: CodegenContext) -> Tables {
    Tables { locals: c.locals@, globals: c.globals@, consts: c.consts@ }
}

/// Appends `d` tabs.
fn write_tabs(out: &mut String, d: usize)
    ensures
        final(out)@ == old(out)@ + tabs(d as nat),
{
    let mut k: usize = 0;
    while k < d
        invariant
            k <= d,
            out@ == old(out)@ + tabs(k as nat),
        decreases d - k,
    {
        out.append("\t");
        assert(tabs((k + 1) as nat) == tabs(k as nat) + "\t"@);
        assert(out@ =~= old(out)@ + tabs((k + 1) as nat));
        k += 1;
    }
}

/// Appends `text` indented by `d` tabs.
pub fn write_indented(out: &mut String, text: &str, d: usize)
    ensures
        final(out)@ == old(out)@ + tabs(d as nat) + text@,
{
    write_tabs(out, d);
    out.append(text);
}

/// The text of one decimal digit.
fn digit_str(d: u64) -> (r: &'static str)
    requires
        d < 10,
    ensures
        r@ == digit_text(d as nat),
{
    match d {
        0 => "0",
        1 => "1",
        2 => "2",
        3 => "3",
        4 => "4",
        5 => "5",
        6 => "6",
        7 => "7",
        8 => "8",
        _ => "9",
    }
}

/// Appends the decimal digits of `n`.
fn push_nat(out: &mut String, n: u64)
    ensures
        final(out)@ == old(out)@ + nat_text(n as nat),
    decreases n,
{
    if n >= 10 {
        push_nat(out, n / 10);
    }
    out.append(digit_str(n % 10));
    assert(out@ =~= old(out)@ + nat_text(n as nat));
}

/// Appends the decimal digits of an index.
pub fn push_index(out: &mut String, n: usize)
    ensures
        final(out)@ == old(out)@ + nat_text(n as nat),
    decreases n,
{
    if n >= 10 {
        push_index(out, n / 10);
    }
    out.append(digit_str((n % 10) as u64));
    assert(out@ =~= old(out)@ + nat_text(n as nat));
}

/// Appends the decimal text of `n`.
fn push_int(out: &mut String, n: i64)
    ensures
        final(out)@ == old(out)@ + int_text(n as int),
{
    if n < 0 {
        out.append("-");
        let m = (0i128 - n as i128) as u64;
        push_nat(out, m);
        assert(out@ =~= old(out)@ + int_text(n as int));
    } else {
        push_nat(out, n as u64);
    }
}

/// Appends entry `i` of a name table, or nothing when it is outside.
fn push_name(out: &mut String, names: &[String], i: usize)
    ensures
        final(out)@ == old(out)@ + name_text(names@, i),
{
    if i < names.len() {
        out.append(names[i].as_str());
    } else {
        assert(out@ =~= old(out)@ + name_text(names@, i));
    }
}

/// Appends constant `i` as source text, or nothing when it is outside.
fn push_const(out: &mut String, consts: &[PyConstInner], i: usize)
    ensures
        final(out)@ == old(out)@ + const_text(consts@, i),
{
    if i < consts.len() {
        match &consts[i] {
            PyConstInner::Int(n) => push_int(out, *n),
            PyConstInner::BigInt(s) => out.append(s.as_str()),
            PyConstInner::StringLiteral(s) => {
                out.append("\"");
                out.append(s.as_str());
                out.append("\"");
                assert(out@ =~= old(out)@ + const_text(consts@, i));
            },
            PyConstInner::CodeObject(c) => out.append(c.name.as_str()),
            PyConstInner::NoneValue => out.append("None"),
        }
    } else {
        assert(out@ =~= old(out)@ + const_text(consts@, i));
    }
}

/// Appends a stack item as an expression.
pub fn for_stack_item(item: &StackItem, c: &CodegenContext, out: &mut String)
    ensures
        final(out)@ == old(out)@ + item_text(tables_of(*c), *item),
    decreases item, 2nat,
{
    match item {
        StackItem::Derived(b) => for_instr(&**b, c, 0, false, out),
        StackItem::Local(i) => push_name(out, c.locals, *i),
        StackItem::Global(i) => push_name(out, c.globals, *i),
        StackItem::Const(i) => push_const(out, c.consts, *i),
        StackItem::Int(n) => push_int(out, *n),
        StackItem::Null | StackItem::DummyIter => {
            assert(out@ =~= old(out)@ + item_text(tables_of(*c), *item));
        },
    }
}

/// Appends a stack item as the operand of an operator.
fn write_operand(item: &StackItem, c: &CodegenContext, out: &mut String)
    ensures
        final(out)@ == old(out)@ + operand_text(tables_of(*c), *item),
    decreases item, 3nat,
{
    let op = match item {
        StackItem::Derived(b) => match &**b {
            Instr::BinaryOp(..) | Instr::CompareOp(..) => true,
            _ => false,
        },
        _ => false,
    };
    if op {
        out.append("(");
        for_stack_item(item, c, out);
        out.append(")");
        assert(out@ =~= old(out)@ + operand_text(tables_of(*c), *item));
    } else {
        for_stack_item(item, c, out);
    }
}

/// Whether a stored value is an in-place operation.
fn in_place_item(x: &StackItem) -> (r: bool)
    ensures
        r == is_in_place_item(*x),
{
    match x {
        StackItem::Derived(b) => match &**b {
            Instr::BinaryOp(op, _, _) => op.in_place(),
            _ => false,
        },
        _ => false,
    }
}

/// Appends the arguments of a call, separated by commas.
fn write_args(instr: &Instr, c: &CodegenContext, out: &mut String)
    requires
        instr is Call,
    ensures
        final(out)@ == old(out)@ + args_text(tables_of(*c), instr->Call_args, 0),
    decreases instr, 1nat,
{
    let ghost t = tables_of(*c);
    let args = match instr {
        Instr::Call { args, .. } => args,
        _ => {
            return;
        },
    };
    let ghost o2 = out@;
    let mut k: usize = 0;
    while k < args.len()
        invariant
            k <= args@.len(),
            t == tables_of(*c),
            instr is Call && instr->Call_args == *args,
            out@ + args_text(t, *args, k as int) == o2 + args_text(t, *args, 0),
        decreases args@.len() - k,
    {
        proof {
            assert(decreases_to!(*instr => instr->Call_args));
            assert(decreases_to!(*instr => args@[k as int]));
        }
        let ghost o3 = out@;
        let ghost sep = if k > 0 { ", "@ } else { Seq::<char>::empty() };
        if k > 0 {
            out.append(", ");
        } else {
            assert(out@ =~= o3 + sep);
        }
        for_stack_item(&args[k], c, out);
        assert(out@ == o3 + sep + item_text(t, args@[k as int]));
        assert(args_text(t, *args, k as int) == sep + item_text(t, args@[k as int]) + args_text(t, *args, k + 1));
        assert(out@ + args_text(t, *args, k + 1) =~= o3 + args_text(t, *args, k as int));
        k += 1;
    }
    assert(out@ =~= o2 + args_text(t, *args, 0));
}

/// Appends a statement or expression; a statement (`top_level`) stands on a
/// line of its own at depth `depth`.
pub fn for_instr(instr: &Instr, c: &CodegenContext, depth: usize, top_level: bool, out: &mut String)
    ensures
        final(out)@ == old(out)@ + (if top_level { tabs(depth as nat) } else { Seq::empty() })
            + instr_text(tables_of(*c), *instr) + (if top_level { "\n"@ } else { Seq::empty() }),
    decreases instr, 2nat,
{
    let ghost t = tables_of(*c);
    if top_level {
        write_tabs(out, depth);
    } else {
        assert(out@ =~= old(out)@ + Seq::<char>::empty());
    }
    let ghost o1 = out@;
    match instr {
        Instr::StoreFast(n, v) => {
            if !in_place_item(v) {
                push_name(out, c.locals, *n);
                out.append(" = ");
            }
            for_stack_item(v, c, out);
        },
        Instr::StoreGlobal(n, v) => {
            if !in_place_item(v) {
                push_name(out, c.globals, *n);
                out.append(" = ");
            }
            for_stack_item(v, c, out);
        },
        Instr::Call { obj, meth, args } => {
            match obj {
                StackItem::Null => {
                    for_stack_item(meth, c, out);
                },
                _ => {
                    for_stack_item(obj, c, out);
                    out.append(".");
                    for_stack_item(meth, c, out);
                },
            }
            out.append("(");
            write_args(instr, c, out);
            out.append(")");
        },
        Instr::BinaryOp(op, l, r) => {
            write_operand(l, c, out);
            out.append(" ");
            out.append(op.text());
            out.append(" ");
            write_operand(r, c, out);
        },
        Instr::CompareOp(op, l, r) => {
            write_operand(l, c, out);
            out.append(" ");
            out.append(op.text());
            out.append(" ");
            write_operand(r, c, out);
        },
        Instr::GetIter(v) | Instr::ToBool(v) | Instr::ForIterNext(v) => {
            for_stack_item(v, c, out);
        },
    }
    assert(out@ =~= o1 + instr_text(t, *instr));
    if top_level {
        out.append("\n");
    }
    assert(out@ =~= old(out)@ + (if top_level { tabs(depth as nat) } else { Seq::empty() })
        + instr_text(t, *instr) + (if top_level { "\n"@ } else { Seq::empty() }));
}

/// Appends a block's statements, one line each at depth `d`.
fn write_stmts(body: &Vec<Instr>, c: &CodegenContext, d: usize, out: &mut String)
    ensures
        final(out)@ == old(out)@ + stmts_text(tables_of(*c), d as nat, body@),
{
    let ghost t = tables_of(*c);
    let mut k: usize = 0;
    assert(body@.subrange(0, 0) =~= Seq::<Instr>::empty());
    assert(out@ =~= old(out)@ + stmts_text(t, d as nat, body@.subrange(0, 0)));
    while k < body.len()
        invariant
            k <= body@.len(),
            t == tables_of(*c),
            out@ == old(out)@ + stmts_text(t, d as nat, body@.subrange(0, k as int)),
        decreases body@.len() - k,
    {
        for_instr(&body[k], c, d, true, out);
        assert(body@.subrange(0, k + 1).drop_last() =~= body@.subrange(0, k as int));
        assert(out@ =~= old(out)@ + stmts_text(t, d as nat, body@.subrange(0, k + 1)));
        k += 1;
    }
    assert(body@.subrange(0, k as int) =~= body@);
}

/// Appends the condition under which a conditional's body runs.
fn write_cond(j: &ConditionalJump, c: &CodegenContext, out: &mut String)
    ensures
        final(out)@ == old(out)@ + cond_text(tables_of(*c), *j),
{
    match j.kind {
        ConditionKind::False => {
            for_stack_item(&j.cond, c, out);
        },
        ConditionKind::True => {
            out.append("not ");
            write_operand(&j.cond, c, out);
            assert(out@ =~= old(out)@ + cond_text(tables_of(*c), *j));
        },
        ConditionKind::IsNone => {
            write_operand(&j.cond, c, out);
            out.append(" is not None");
            assert(out@ =~= old(out)@ + cond_text(tables_of(*c), *j));
        },
        ConditionKind::NotNone => {
            write_operand(&j.cond, c, out);
            out.append(" is None");
            assert(out@ =~= old(out)@ + cond_text(tables_of(*c), *j));
        },
    }
}

/// Appends the header line of a conditional or loop.
fn write_header(word: &str, j: &ConditionalJump, c: &CodegenContext, depth: usize, out: &mut String)
    ensures
        final(out)@ == old(out)@ + header(tables_of(*c), depth as nat, word@, *j),
{
    write_indented(out, word, depth);
    write_cond(j, c, out);
    out.append(":\n");
    assert(out@ =~= old(out)@ + header(tables_of(*c), depth as nat, word@, *j));
}

/// Appends the header line of a for-loop whose variable `assignment` binds.
fn write_for_header(assignment: &Instr, c: &CodegenContext, depth: usize, out: &mut String)
    ensures
        final(out)@ == old(out)@ + for_header(tables_of(*c), depth as nat, *assignment),
{
    let ghost t = tables_of(*c);
    write_indented(out, "for ", depth);
    match assignment {
        Instr::StoreFast(nm, v) => {
            push_name(out, c.locals, *nm);
            out.append(" in ");
            for_stack_item(v, c, out);
        },
        Instr::StoreGlobal(nm, v) => {
            push_name(out, c.globals, *nm);
            out.append(" in ");
            for_stack_item(v, c, out);
        },
        other => {
            for_instr(other, c, 0, false, out);
            assert(out@ =~= old(out)@ + tabs(depth as nat) + "for "@ + instr_text(t, *other));
        },
    }
    out.append(":\n");
    assert(out@ =~= old(out)@ + for_header(t, depth as nat, *assignment));
}

/// Appends the block `tok` and what follows it up to the block `stop`, at
/// depth `depth`.
#[verifier::rlimit(60)]
pub fn for_block(tok: usize, stop: usize, c: &CodegenContext, depth: usize, out: &mut String)
    requires
        depth + c.graph@.len() < tok + usize::MAX,
        c.graph@.len() < usize::MAX,
    ensures
        final(out)@ == old(out)@ + block_text(c.graph@, tables_of(*c), tok as int, stop as int, depth as nat),
    decreases c.graph@.len() - tok, 2nat,
{
    let ghost g = c.graph@;
    let ghost t = tables_of(*c);
    let n = c.graph.len();
    if tok >= n {
        assert(out@ =~= old(out)@ + block_text(g, t, tok as int, stop as int, depth as nat));
        return;
    }
    let b = match &c.graph[tok] {
        Some(b) => b,
        None => {
            assert(out@ =~= old(out)@ + block_text(g, t, tok as int, stop as int, depth as nat));
            return;
        },
    };
    write_stmts(&b.body, c, depth, out);
    match &b.ast_tag {
        PseudoASTTag::ForLoop { body, falls_through_to, assignment } => {
            let ghost o1 = out@;
            write_for_header(assignment, c, depth, out);
            let ghost h = out@.subrange(o1.len() as int, out@.len() as int);
            assert(h == for_header(t, depth as nat, *assignment));
            write_loop_rest(tok, stop, *body, *falls_through_to, c, depth, out);
            assert(out@ =~= o1 + loop_text(g, t, tok as int, stop as int, h, *body, *falls_through_to, depth as nat));
        },
        PseudoASTTag::FallsThrough(to) => {
            if tok < to.0 && to.0 < stop && to.0 < n {
                for_block(to.0, stop, c, depth, out);
            }
        },
        PseudoASTTag::Breaks => {
            write_indented(out, "break\n", depth);
        },
        PseudoASTTag::Continues => {
            write_indented(out, "continue\n", depth);
        },
        PseudoASTTag::Returns(v) => {
            write_indented(out, "return ", depth);
            for_stack_item(v, c, out);
            out.append("\n");
        },
        PseudoASTTag::Passes => {},
        PseudoASTTag::WhileHead { jump, body, falls_through_to } => {
            let ghost o1 = out@;
            write_header("while ", jump, c, depth, out);
            let ghost h = out@.subrange(o1.len() as int, out@.len() as int);
            assert(h =~= header(t, depth as nat, "while "@, *jump));
            write_loop_rest(tok, stop, *body, *falls_through_to, c, depth, out);
            assert(out@ =~= o1 + loop_text(g, t, tok as int, stop as int, h, *body, *falls_through_to, depth as nat));
        },
        PseudoASTTag::BareIf { jump, body, falls_through_to } => {
            handle_if(tok, stop, jump, *body, *falls_through_to, c, depth, false, out);
        },
        PseudoASTTag::IfElse { jump, body, else_branch, falls_through_to } => {
            handle_if_else(tok, stop, jump, *body, *else_branch, *falls_through_to, c, depth, false, out);
        },
    }
    assert(out@ =~= old(out)@ + block_text(g, t, tok as int, stop as int, depth as nat));
}

/// Appends the body of the loop of block `tok` one level deeper up to
/// `after`, then `after` and what follows it.
fn write_loop_rest(
    tok: usize,
    stop: usize,
    body: BasicBlockToken,
    after: BasicBlockToken,
    c: &CodegenContext,
    depth: usize,
    out: &mut String,
)
    requires
        tok < c.graph@.len() < usize::MAX,
        depth + c.graph@.len() < tok + usize::MAX,
    ensures
        final(out)@ == old(out)@ + loop_text(c.graph@, tables_of(*c), tok as int, stop as int, Seq::empty(), body, after, depth as nat),
    decreases c.graph@.len() - tok, 1nat,
{
    let ghost g = c.graph@;
    let ghost t = tables_of(*c);
    let n = c.graph.len();
    let inner = if stop < after.0 { stop } else { after.0 };
    if tok < body.0 && body.0 < inner && body.0 < n {
        for_block(body.0, inner, c, depth + 1, out);
    }
    if tok < after.0 && after.0 < stop && after.0 < n {
        for_block(after.0, stop, c, depth, out);
    }
    assert(out@ =~= old(out)@ + loop_text(g, t, tok as int, stop as int, Seq::empty(), body, after, depth as nat));
}

/// Appends an `if` (or `elif`) of the block `tok`: the header, the body one
/// level deeper up to `after`, then `after` and what follows at the same depth.
fn handle_if(
    tok: usize,
    stop: usize,
    jump: &ConditionalJump,
    body: BasicBlockToken,
    after: BasicBlockToken,
    c: &CodegenContext,
    depth: usize,
    is_elif: bool,
    out: &mut String,
)
    requires
        tok < c.graph@.len() < usize::MAX,
        depth + c.graph@.len() < tok + usize::MAX,
    ensures
        final(out)@ == old(out)@ + if_text(c.graph@, tables_of(*c), tok as int, stop as int, *jump, body, after, depth as nat, is_elif),
    decreases c.graph@.len() - tok, 1nat,
{
    let ghost g = c.graph@;
    let ghost t = tables_of(*c);
    let n = c.graph.len();
    write_header(if is_elif { "elif " } else { "if " }, jump, c, depth, out);
    let inner = if stop < after.0 { stop } else { after.0 };
    if tok < body.0 && body.0 < inner && body.0 < n {
        for_block(body.0, inner, c, depth + 1, out);
    }
    if tok < after.0 && after.0 < stop && after.0 < n {
        for_block(after.0, stop, c, depth, out);
    }
    assert(out@ =~= old(out)@ + if_text(g, t, tok as int, stop as int, *jump, body, after, depth as nat, is_elif));
}

/// Appends an `if` (or `elif`) with an else branch.
fn handle_if_else(
    tok: usize,
    stop: usize,
    jump: &ConditionalJump,
    body: BasicBlockToken,
    else_branch: BasicBlockToken,
    after: BasicBlockToken,
    c: &CodegenContext,
    depth: usize,
    is_elif: bool,
    out: &mut String,
)
    requires
        tok < c.graph@.len() < usize::MAX,
        depth + c.graph@.len() < tok + usize::MAX,
    ensures
        final(out)@ == old(out)@ + if_else_text(
            c.graph@, tables_of(*c), tok as int, stop as int, *jump, body, else_branch, after, depth as nat, is_elif),
    decreases c.graph@.len() - tok, 1nat,
{
    let ghost g = c.graph@;
    let ghost t = tables_of(*c);
    let n = c.graph.len();
    write_header(if is_elif { "elif " } else { "if " }, jump, c, depth, out);
    let inner = if stop < after.0 { stop } else { after.0 };
    if tok < body.0 && body.0 < inner && body.0 < n {
        for_block(body.0, inner, c, depth + 1, out);
    }
    write_else(tok, stop, else_branch, after, c, depth, out);
    assert(out@ =~= old(out)@ + if_else_text(g, t, tok as int, stop as int, *jump, body, else_branch, after, depth as nat, is_elif));
}

/// Appends the else branch of the if-else of block `tok`, then what follows:
/// a conditional branch with no statements of its own as an `elif`, any
/// other under `else:`.
fn write_else(
    tok: usize,
    stop: usize,
    else_branch: BasicBlockToken,
    after: BasicBlockToken,
    c: &CodegenContext,
    depth: usize,
    out: &mut String,
)
    requires
        tok < c.graph@.len() < usize::MAX,
        depth + c.graph@.len() < tok + usize::MAX,
    ensures
        final(out)@ == old(out)@ + else_text(c.graph@, tables_of(*c), tok as int, stop as int, else_branch, after, depth as nat),
    decreases c.graph@.len() - tok, 0nat,
{
    let ghost g = c.graph@;
    let ghost t = tables_of(*c);
    let n = c.graph.len();
    let e = else_branch.0;
    let inner = if stop < after.0 { stop } else { after.0 };
    if tok < e && e < inner && e < n {
        if let Some(eb) = &c.graph[e] {
            if eb.body.len() == 0 {
                match &eb.ast_tag {
                    PseudoASTTag::IfElse { jump, body: b2, else_branch: e2, falls_through_to: a2 } => {
                        handle_if_else(e, stop, jump, *b2, *e2, *a2, c, depth, true, out);
                        return;
                    },
                    PseudoASTTag::BareIf { jump, body: b2, falls_through_to: a2 } => {
                        handle_if(e, stop, jump, *b2, *a2, c, depth, true, out);
                        return;
                    },
                    _ => {},
                }
            }
            write_indented(out, "else:\n", depth);
            for_block(e, inner, c, depth + 1, out);
            if tok < after.0 && after.0 < stop && after.0 < n {
                for_block(after.0, stop, c, depth, out);
            }
            assert(out@ =~= old(out)@ + else_text(g, t, tok as int, stop as int, else_branch, after, depth as nat));
            return;
        }
    }
    if tok < after.0 && after.0 < stop && after.0 < n {
        for_block(after.0, stop, c, depth, out);
    }
    assert(out@ =~= old(out)@ + else_text(g, t, tok as int, stop as int, else_branch, after, depth as nat));
}

/// Resolves the structure of the evaluated graph and returns its source
/// text, read from the entry block.
pub fn gen_code(graph: &AnnotatedMap, locals: &[String], globals: &[String], consts: &[PyConstInner]) -> (r: String)
    requires
        graph@.len() < usize::MAX,
        !has_dummy(graph@),
    ensures
        exists|res: Seq<Option<ResolvedBlock>>| {
            &&& #[trigger] resolution_ok(graph@, res)
            &&& forall|t: int| 0 <= t < res.len() ==> ((#[trigger] res[t]) is Some <==> graph@[t] is Some)
            &&& r@ == block_text(res, Tables { locals: locals@, globals: globals@, consts: consts@ }, 0, res.len() as int, 0)
        },
{
    let resolved = resolve_all(graph);
    let c = CodegenContext { graph: &resolved, locals, globals, consts };
    let mut out = String::new();
    for_block(0, resolved.len(), &c, 0, &mut out);
    assert(tables_of(c) == Tables { locals: locals@, globals: globals@, consts: consts@ });
    out
}

} // verus!
