//! Decompiles a function body of stack-machine bytecode into indented source text.
//!
//! The pipeline runs in five stages, each in its own module: the decoder
//! (`parse`), the block builder (`blocks`), the symbolic evaluator
//! (`symbolic_evaluation`), the control-flow resolver (`cfg_resolution`) and
//! the emitter (`codegen`).
use vstd::prelude::*;

pub mod defs;
pub mod parse;
pub mod blocks;
pub mod symbolic_evaluation;
pub mod cfg_resolution;
pub mod codegen;

use crate::cfg_resolution::{has_dummy, resolution_ok};
use crate::codegen::{block_text, gen_code, Tables};
use crate::defs::PyConstInner;
use crate::parse::{lemma_decode_len, parse, parse_spec, ParseError};
use crate::symbolic_evaluation::{eval_instructions, evaluates, tag_fits, SymbolicEvaluationError};
use crate::blocks::{block_map_of, jumps_in_range};

verus! {

/// Why a function body could not be decompiled.
#[derive(Debug, Clone, Copy, PartialEq, Eq, Structural)]
pub enum DecompileError {
    /// The bytes do not decode to instructions.
    Parse(ParseError),
    /// The instructions do not evaluate to a block graph.
    Eval(SymbolicEvaluationError),
}

/// Whether `text` is the source that the evaluated graph `g` emits once its
/// structure is resolved.
pub open spec fn emits(
    g: Seq<Option<symbolic_evaluation::AnnotatedBlock>>,
    t: Tables,
    text: Seq<char>,
) -> bool {
    exists|res: Seq<Option<cfg_resolution::ResolvedBlock>>| {
        &&& #[trigger] resolution_ok(g, res)
        &&& forall|k: int| 0 <= k < res.len() ==> ((#[trigger] res[k]) is Some <==> g[k] is Some)
        &&& text == block_text(res, t, 0, res.len() as int, 0)
    }
}

proof fn lemma_no_dummy(
    instrs: Seq<parse::ParseInstr>,
    nl: int,
    ng: int,
    cs: Seq<PyConstInner>,
    g: Seq<Option<symbolic_evaluation::AnnotatedBlock>>,
)
    requires
        evaluates(instrs, nl, ng, cs, g),
    ensures
        !has_dummy(g),
{
    let m = choose|m: Seq<Option<blocks::BasicBlock>>| {
        &&& #[trigger] block_map_of(instrs, m)
        &&& symbolic_evaluation::memo_from_runs(m, g, nl, ng, cs)
        &&& forall|t: int|
            0 <= t < g.len() && (#[trigger] g[t]) is Some ==> {
                &&& m[t] is Some
                &&& tag_fits(g[t]->0.cf_tag, m[t]->0)
                &&& forall|c: int| #[trigger] symbolic_evaluation::tag_targets(g[t]->0.cf_tag).contains(c) ==> 0 <= c < g.len() && g[c] is Some
            }
    };
    assert forall|t: int| 0 <= t < g.len() && (#[trigger] g[t]) is Some implies !(g[t]->0.cf_tag is Dummy) by {
        assert(tag_fits(g[t]->0.cf_tag, m[t]->0));
    }
}

/// Decompiles a function body: decodes the bytes, evaluates the blocks and
/// emits the recovered source, each statement on a line of its own and
/// indented by one tab per level.
pub fn decompile(
    code: &[u8],
    locals: &[String],
    globals: &[String],
    consts: &[PyConstInner],
) -> (r: Result<String, DecompileError>)
    ensures
        match parse_spec(code@) {
            Err(e) => r == Err::<String, DecompileError>(DecompileError::Parse(e)),
            Ok(instrs) => {
                &&& !jumps_in_range(instrs) ==> r == Err::<String, DecompileError>(
                    DecompileError::Eval(SymbolicEvaluationError::OutOfBoundsJump),
                )
                &&& r matches Err(e) ==> e is Eval
                &&& jumps_in_range(instrs) ==> forall|m: Seq<Option<blocks::BasicBlock>>| #[trigger] block_map_of(instrs, m)
                    ==> match symbolic_evaluation::eval_outcome(instrs, m, locals@.len() as int, globals@.len() as int, consts@) {
                    Ok(()) => r is Ok,
                    Err(e) => r == Err::<String, DecompileError>(DecompileError::Eval(e)),
                }
                &&& r matches Ok(text) ==> exists|g: Seq<Option<symbolic_evaluation::AnnotatedBlock>>|
                    #[trigger] evaluates(instrs, locals@.len() as int, globals@.len() as int, consts@, g)
                    && emits(g, Tables { locals: locals@, globals: globals@, consts: consts@ }, text@)
            },
        },
{
    let instrs = match parse(code) {
        Ok(v) => v,
        Err(e) => {
            return Err(DecompileError::Parse(e));
        },
    };
    let code_len = code.len();
    proof {
        assert(parse::decode(code@) == Ok::<Seq<parse::ParseInstr>, ParseError>(instrs@));
        lemma_decode_len(code@);
        assert(instrs@.len() <= code_len / 2);
    }
    let graph = match eval_instructions(instrs.as_slice(), locals, globals, consts) {
        Ok(g) => g,
        Err(e) => {
            return Err(DecompileError::Eval(e));
        },
    };
    proof {
        lemma_no_dummy(instrs@, locals@.len() as int, globals@.len() as int, consts@, graph@);
    }
    let text = gen_code(&graph, locals, globals, consts);
    assert(evaluates(instrs@, locals@.len() as int, globals@.len() as int, consts@, graph@));
    Ok(text)
}

} // verus!
