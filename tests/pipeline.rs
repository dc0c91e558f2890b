use decompiler::blocks::{create_blocks, BasicBlockChildren, BasicBlockToken};
use decompiler::cfg_resolution::{resolve_all, PseudoASTTag};
use decompiler::codegen::gen_code;
use decompiler::defs::{BinaryOp, ComparisonOp, ComparisonOpKind, PyConstInner};
use decompiler::parse::{parse, ParseError, ParseInstr, ParseInstrKind};
use decompiler::symbolic_evaluation::{eval_instructions, ControlFlowTag, SymbolicEvaluationError};
use decompiler::{decompile, DecompileError};

fn names(v: &[&str]) -> Vec<String> {
    v.iter().map(|s| s.to_string()).collect()
}

fn run(code: &[u8], locals: &[&str], globals: &[&str], consts: Vec<PyConstInner>) -> Result<String, DecompileError> {
    decompile(code, &names(locals), &names(globals), &consts)
}

const UNCONDITIONAL_CALL: [u8; 14] = [149, 0, 89, 1, 83, 0, 51, 1, 31, 0, 81, 0, 35, 0];

const TWO_IFS: [u8; 38] = [
    149, 0, 83, 0, 91, 5, 56, 88, 97, 4, 89, 1, 83, 0, 51, 1, 31, 0, 83, 0, 91, 3, 56, 88, 97, 4,
    89, 1, 83, 0, 51, 1, 31, 0, 81, 0, 35, 0,
];

const FOR_RANGE: [u8; 52] = [
    149, 0, 89, 1, 83, 0, 51, 1, 16, 0, 69, 16, 109, 1, 83, 1, 91, 10, 44, 6, 91, 3, 56, 88, 97, 1,
    76, 10, 83, 1, 91, 10, 44, 6, 91, 8, 56, 88, 97, 1, 74, 17, 74, 18, 9, 0, 30, 0, 81, 0, 35, 0,
];

const FOR_EARLY_RETURNS: [u8; 64] = [
    149, 0, 89, 1, 83, 0, 51, 1, 16, 0, 69, 22, 109, 1, 83, 1, 91, 2, 44, 5, 91, 3, 56, 88, 97, 3,
    31, 0, 81, 0, 35, 0, 83, 1, 91, 20, 44, 5, 91, 13, 56, 88, 97, 5, 89, 3, 81, 0, 51, 1, 31, 0,
    74, 23, 74, 24, 9, 0, 30, 0, 81, 0, 35, 0,
];

const ACCUMULATOR: [u8; 82] = [
    149, 0, 89, 1, 83, 0, 83, 0, 91, 1, 44, 0, 44, 5, 91, 2, 44, 11, 51, 1, 109, 1, 91, 0, 109, 2,
    89, 3, 83, 0, 51, 1, 16, 0, 69, 6, 109, 3, 83, 2, 83, 3, 44, 13, 109, 2, 74, 8, 9, 0, 30, 0,
    83, 2, 83, 1, 56, 88, 97, 5, 89, 5, 81, 0, 51, 1, 31, 0, 76, 4, 89, 5, 81, 1, 51, 1, 31, 0,
    81, 2, 35, 0,
];

#[test]
fn odd_byte_count_is_refused() {
    assert_eq!(parse(&[149, 0, 35]), Err(ParseError::OddByteCount));
    assert_eq!(
        run(&[149, 0, 35], &[], &[], vec![]),
        Err(DecompileError::Parse(ParseError::OddByteCount))
    );
}

#[test]
fn unknown_opcode_is_refused() {
    assert_eq!(parse(&[149, 0, 1, 0]), Err(ParseError::UnknownOpcode(1)));
}

#[test]
fn decoding_counts_pairs_less_prefixes() {
    let v = parse(&[68, 1, 81, 2, 9, 0]).unwrap();
    assert_eq!(v.len(), 6 / 2 - 1);
    assert_eq!(v[0], ParseInstr { kind: ParseInstrKind::LoadConst, arg: 258 });
    assert_eq!(v[1], ParseInstr { kind: ParseInstrKind::EndFor, arg: 0 });
    let w = parse(&ACCUMULATOR).unwrap();
    assert_eq!(w.len(), ACCUMULATOR.len() / 2);
}

#[test]
fn arguments_are_signed() {
    let v = parse(&[91, 255, 68, 255, 91, 254]).unwrap();
    assert_eq!(v[0].arg, -1);
    assert_eq!(v[1].arg, -256 - 2);
    assert_eq!(v.len(), 2);
}

#[test]
fn trailing_prefix_is_its_own_instruction() {
    let v = parse(&[149, 0, 68, 5]).unwrap();
    assert_eq!(v.len(), 2);
    assert_eq!(v[1], ParseInstr { kind: ParseInstrKind::ExtendedArg, arg: 5 });
}

#[test]
fn jump_offsets_and_classes() {
    let fwd = ParseInstr { kind: ParseInstrKind::JumpForward, arg: 3 };
    let back = ParseInstr { kind: ParseInstrKind::JumpBackward, arg: 5 };
    let cond = ParseInstr { kind: ParseInstrKind::PopJumpIfTrue, arg: 0 };
    let load = ParseInstr { kind: ParseInstrKind::LoadConst, arg: 0 };
    let ret = ParseInstr { kind: ParseInstrKind::ReturnValue, arg: 0 };
    let cache = ParseInstr { kind: ParseInstrKind::Cache, arg: 0 };
    assert_eq!(fwd.jump(), Some(4));
    assert_eq!(back.jump(), Some(-3));
    assert_eq!(cond.jump(), Some(1));
    assert_eq!(load.jump(), None);
    assert!(cond.is_cond_jump() && !fwd.is_cond_jump());
    assert!(fwd.is_terminal() && back.is_terminal() && ret.is_terminal() && !load.is_terminal());
    assert!(cache.is_nop() && !load.is_nop());
}

#[test]
fn operator_tags() {
    assert_eq!(BinaryOp::try_from_tag(13), Some(BinaryOp::PlusEquals));
    assert_eq!(BinaryOp::try_from_tag(6), Some(BinaryOp::Mod));
    assert_eq!(BinaryOp::try_from_tag(26), None);
    assert!(BinaryOp::PlusEquals.in_place());
    assert!(!BinaryOp::Plus.in_place());
    assert_eq!(BinaryOp::TrueDivEquals.text(), "//=");
    let eq = ComparisonOp::try_from_tag(88).unwrap();
    assert_eq!(eq.kind, ComparisonOpKind::Equals);
    assert!(eq.force_convert);
    let gt = ComparisonOp::try_from_tag(148).unwrap();
    assert_eq!(gt.kind, ComparisonOpKind::GreaterThan);
    assert_eq!(gt.text(), ">");
    assert_eq!(ComparisonOp::try_from_tag(192), None);
}

#[test]
fn empty_buffer_gives_empty_map() {
    let instrs = parse(&[]).unwrap();
    assert!(instrs.is_empty());
    assert_eq!(create_blocks(&instrs).unwrap().len(), 0);
    assert_eq!(eval_instructions(&instrs, &[], &[], &[]).unwrap().len(), 0);
    assert_eq!(run(&[], &[], &[], vec![]), Ok(String::new()));
}

#[test]
fn blocks_are_split_at_jumps() {
    let instrs = parse(&FOR_RANGE).unwrap();
    let m = create_blocks(&instrs).unwrap();
    assert_eq!(m.len(), instrs.len());
    let starts: Vec<usize> = (0..m.len()).filter(|t| m[*t].is_some()).collect();
    assert_eq!(starts, vec![0, 5, 6, 13, 14, 20, 21, 22, 24]);
    let head = m[5].as_ref().unwrap();
    assert_eq!(head.get_token(), BasicBlockToken(5));
    assert_eq!(head.get2(), Ok((BasicBlockToken(22), BasicBlockToken(6))));
    assert_eq!(head.get1(), Err(SymbolicEvaluationError::WrongBlockChildCount));
    assert_eq!(m[24].as_ref().unwrap().get0(), Ok(()));
    assert_eq!(
        head.children,
        BasicBlockChildren::CondJump { cond_met: BasicBlockToken(22), otherwise: BasicBlockToken(6) }
    );
    assert_eq!(m[13].as_ref().unwrap().children, BasicBlockChildren::LeadsTo(BasicBlockToken(24)));
    assert_eq!(m[24].as_ref().unwrap().children, BasicBlockChildren::Diverges);
}

#[test]
fn entry_block_is_present() {
    for code in [&UNCONDITIONAL_CALL[..], &TWO_IFS[..], &FOR_RANGE[..], &FOR_EARLY_RETURNS[..], &ACCUMULATOR[..]] {
        let m = create_blocks(&parse(code).unwrap()).unwrap();
        assert!(m[BasicBlockToken::zero().0].is_some());
    }
}

#[test]
fn successors_are_blocks() {
    for code in [&UNCONDITIONAL_CALL[..], &TWO_IFS[..], &FOR_RANGE[..], &FOR_EARLY_RETURNS[..], &ACCUMULATOR[..]] {
        let m = create_blocks(&parse(code).unwrap()).unwrap();
        for b in m.iter().flatten() {
            let kids = match b.children {
                BasicBlockChildren::CondJump { cond_met, otherwise } => vec![cond_met, otherwise],
                BasicBlockChildren::LeadsTo(t) => vec![t],
                BasicBlockChildren::Diverges => vec![],
            };
            for k in kids {
                assert!(m[k.0].is_some());
            }
        }
    }
}

#[test]
fn terminal_only_at_block_end() {
    for code in [&UNCONDITIONAL_CALL[..], &TWO_IFS[..], &FOR_RANGE[..], &FOR_EARLY_RETURNS[..], &ACCUMULATOR[..]] {
        let m = create_blocks(&parse(code).unwrap()).unwrap();
        for b in m.iter().flatten() {
            let n = b.code.len();
            assert!(b.code.iter().take(n.saturating_sub(1)).all(|i| !i.is_terminal()));
            assert!(b.code.iter().all(|i| !i.is_nop()));
        }
    }
}

#[test]
fn jump_past_the_end_is_refused() {
    // A forward jump whose target is the length of the code.
    let instrs = parse(&[149, 0, 76, 0]).unwrap();
    assert_eq!(create_blocks(&instrs).err(), Some(SymbolicEvaluationError::OutOfBoundsJump));
    // A backward jump to before the first instruction.
    let instrs = parse(&[149, 0, 74, 4]).unwrap();
    assert_eq!(create_blocks(&instrs).err(), Some(SymbolicEvaluationError::OutOfBoundsJump));
    assert_eq!(
        run(&[149, 0, 76, 0], &[], &[], vec![]),
        Err(DecompileError::Eval(SymbolicEvaluationError::OutOfBoundsJump))
    );
}

#[test]
fn call_without_callee_underflows() {
    let instrs = parse(&[51, 0]).unwrap();
    assert_eq!(
        eval_instructions(&instrs, &[], &[], &[]).err(),
        Some(SymbolicEvaluationError::MissingStackItem)
    );
}

#[test]
fn evaluation_errors() {
    let none = || vec![PyConstInner::NoneValue];
    // A constant index outside the table.
    assert_eq!(
        run(&[81, 5, 35, 0], &[], &[], none()),
        Err(DecompileError::Eval(SymbolicEvaluationError::OutOfBoundsIndex))
    );
    // An operator tag outside the table.
    assert_eq!(
        run(&[91, 1, 91, 2, 44, 99, 35, 0], &[], &[], none()),
        Err(DecompileError::Eval(SymbolicEvaluationError::InvalidOperationTag))
    );
    // Code that runs off its end without returning.
    assert_eq!(
        run(&[149, 0], &[], &[], none()),
        Err(DecompileError::Eval(SymbolicEvaluationError::WrongBlockChildCount))
    );
    // A loop body that stores nothing.
    assert_eq!(
        run(&[83, 0, 16, 0, 69, 1, 74, 3, 81, 0, 35, 0], &["x"], &[], none()),
        Err(DecompileError::Eval(SymbolicEvaluationError::MissingForAssign))
    );
    // A function made from a constant that is not a code object.
    assert_eq!(
        run(&[81, 0, 23, 0, 81, 0, 35, 0], &[], &[], none()),
        Err(DecompileError::Eval(SymbolicEvaluationError::NotACodeObject))
    );
}

#[test]
fn each_block_is_evaluated_once() {
    let instrs = parse(&FOR_RANGE).unwrap();
    let g = eval_instructions(&instrs, &names(&["x", "i"]), &names(&["range"]), &[PyConstInner::NoneValue]).unwrap();
    // The loop head is reached again through both jumps back, yet keeps
    // the tag of its one evaluation.
    match g[5].as_ref().unwrap().tag() {
        ControlFlowTag::ForIter { found, exhausted, .. } => {
            assert_eq!(*found, BasicBlockToken(6));
            assert_eq!(*exhausted, BasicBlockToken(22));
        }
        _ => panic!("the loop head is not a for-loop"),
    }
    // The loop variable's store was lifted out of the body.
    assert!(g[6].as_ref().unwrap().body.is_empty());
}

#[test]
fn resolution_keeps_every_block() {
    for (code, locals, globals) in [
        (&FOR_RANGE[..], &["x", "i"][..], &["range"][..]),
        (&ACCUMULATOR[..], &["x", "y", "acc", "i"][..], &["int", "range", "print"][..]),
    ] {
        let consts = vec![
            PyConstInner::StringLiteral("a".to_string()),
            PyConstInner::StringLiteral("b".to_string()),
            PyConstInner::NoneValue,
        ];
        let instrs = parse(code).unwrap();
        let g = eval_instructions(&instrs, &names(locals), &names(globals), &consts).unwrap();
        let r = resolve_all(&g);
        assert_eq!(r.len(), g.len());
        for t in 0..g.len() {
            assert_eq!(r[t].is_some(), g[t].is_some());
        }
    }
}

#[test]
fn if_else_join_is_resolved() {
    let consts = vec![
        PyConstInner::StringLiteral("a".to_string()),
        PyConstInner::StringLiteral("b".to_string()),
        PyConstInner::NoneValue,
    ];
    let instrs = parse(&ACCUMULATOR).unwrap();
    let g = eval_instructions(&instrs, &names(&["x", "y", "acc", "i"]), &names(&["int", "range", "print"]), &consts)
        .unwrap();
    let r = resolve_all(&g);
    match &r[24].as_ref().unwrap().ast_tag {
        PseudoASTTag::IfElse { body, else_branch, falls_through_to, .. } => {
            assert_eq!(*body, BasicBlockToken(30));
            assert_eq!(*else_branch, BasicBlockToken(35));
            assert_eq!(*falls_through_to, BasicBlockToken(39));
        }
        _ => panic!("the comparison block is not an if-else"),
    }
    assert!(matches!(r[30].as_ref().unwrap().ast_tag, PseudoASTTag::Passes));
    assert!(matches!(r[35].as_ref().unwrap().ast_tag, PseudoASTTag::Passes));
    assert!(matches!(r[18].as_ref().unwrap().ast_tag, PseudoASTTag::Continues));
}

#[test]
fn unconditional_call() {
    let out = run(&UNCONDITIONAL_CALL, &["x"], &["print"], vec![PyConstInner::NoneValue]).unwrap();
    assert_eq!(out, "print(x)\nreturn None\n");
}

#[test]
fn single_if() {
    let out = run(&TWO_IFS, &["x"], &["print"], vec![PyConstInner::NoneValue]).unwrap();
    assert_eq!(out, "if x == 5:\n\tprint(x)\nif x == 3:\n\tprint(x)\nreturn None\n");
}

#[test]
fn for_over_range() {
    let out = run(&FOR_RANGE, &["x", "i"], &["range"], vec![PyConstInner::NoneValue]).unwrap();
    assert_eq!(
        out,
        "for i in range(x):\n\tif (i % 10) == 3:\n\t\tbreak\n\tif (i % 10) == 8:\n\t\tcontinue\n\tcontinue\nreturn None\n"
    );
}

#[test]
fn nested_for_with_early_returns() {
    let out = run(&FOR_EARLY_RETURNS, &["x", "i"], &["range", "print"], vec![PyConstInner::NoneValue]).unwrap();
    assert_eq!(
        out,
        "for i in range(x):\n\tif (i * 2) == 3:\n\t\treturn None\n\tif (i * 20) == 13:\n\t\tprint(None)\n\t\tcontinue\n\tcontinue\nreturn None\n"
    );
    assert_eq!(out.lines().filter(|l| l.trim_start().starts_with("return")).count(), 2);
}

#[test]
fn accumulator_with_if_else() {
    let consts = vec![
        PyConstInner::StringLiteral("Correctly found that sum of 0..x = x*(x+1)/2".to_string()),
        PyConstInner::StringLiteral("Incorrecly analysed the sum of 0..x".to_string()),
        PyConstInner::NoneValue,
    ];
    let out = run(&ACCUMULATOR, &["x", "y", "acc", "i"], &["int", "range", "print"], consts).unwrap();
    assert_eq!(
        out,
        "y = int((x * (x + 1)) / 2)\nacc = 0\nfor i in range(x):\n\tacc += i\n\tcontinue\nif acc == y:\n\
         \tprint(\"Correctly found that sum of 0..x = x*(x+1)/2\")\nelse:\n\
         \tprint(\"Incorrecly analysed the sum of 0..x\")\nreturn None\n"
    );
}

#[test]
fn conditions_follow_the_jump_kind() {
    let none = || vec![PyConstInner::NoneValue];
    assert_eq!(
        run(&[83, 0, 98, 2, 81, 0, 35, 0, 81, 0, 35, 0], &["x"], &[], none()).unwrap(),
        "if x is not None:\n\treturn None\nreturn None\n"
    );
    assert_eq!(
        run(&[83, 0, 99, 2, 81, 0, 35, 0, 81, 0, 35, 0], &["x"], &[], none()).unwrap(),
        "if x is None:\n\treturn None\nreturn None\n"
    );
}

#[test]
fn statements_precede_a_conditional() {
    let out = run(&[91, 1, 109, 0, 83, 0, 97, 2, 81, 0, 35, 0, 81, 0, 35, 0], &["x"], &[], vec![PyConstInner::NoneValue]);
    assert_eq!(out.unwrap(), "x = 1\nif x:\n\treturn None\nreturn None\n");
}

#[test]
fn constants_are_printed() {
    let code = [81, 0, 35, 0];
    assert_eq!(run(&code, &[], &[], vec![PyConstInner::Int(-42)]).unwrap(), "return -42\n");
    assert_eq!(
        run(&code, &[], &[], vec![PyConstInner::BigInt("123456789012345678901234567890".to_string())]).unwrap(),
        "return 123456789012345678901234567890\n"
    );
    assert_eq!(run(&[91, 7, 35, 0], &[], &[], vec![]).unwrap(), "return 7\n");
    assert_eq!(run(&[91, 200, 35, 0], &[], &[], vec![]).unwrap(), "return -56\n");
}

#[test]
fn gen_code_reads_from_the_entry() {
    let instrs = parse(&UNCONDITIONAL_CALL).unwrap();
    let locals = names(&["x"]);
    let globals = names(&["print"]);
    let consts = vec![PyConstInner::NoneValue];
    let g = eval_instructions(&instrs, &locals, &globals, &consts).unwrap();
    assert_eq!(gen_code(&g, &locals, &globals, &consts), "print(x)\nreturn None\n");
}

#[test]
fn blocks_describe_their_successors() {
    let m = create_blocks(&parse(&FOR_RANGE).unwrap()).unwrap();
    assert_eq!(m[5].as_ref().unwrap().describe(), "Block->(met: 22, other: 6)");
    assert_eq!(m[13].as_ref().unwrap().describe(), "Block->24");
    assert_eq!(m[24].as_ref().unwrap().describe(), "Block diverges");
}

#[test]
fn driver_sample_with_while_loop() {
    let code = [
        149, 0, 83, 0, 39, 0, 0, 0, 0, 0, 0, 0, 97, 38, 0, 0, 28, 0, 83, 0, 91, 2, 44, 5, 0, 0, 39,
        0, 0, 0, 0, 0, 0, 0, 97, 14, 0, 0, 28, 0, 89, 1, 0, 0, 0, 0, 0, 0, 0, 0, 91, 2, 51, 1, 0,
        0, 0, 0, 0, 0, 31, 0, 74, 32, 0, 0, 89, 1, 0, 0, 0, 0, 0, 0, 0, 0, 91, 3, 51, 1, 0, 0, 0,
        0, 0, 0, 31, 0, 74, 45, 0, 0, 81, 0, 35, 0,
    ];
    let out = run(&code, &["x"], &["print"], vec![PyConstInner::NoneValue]).unwrap();
    assert_eq!(
        out,
        "while x:\n\tif x * 2:\n\t\tprint(2)\n\t\tcontinue\n\tprint(3)\n\tcontinue\nreturn None\n"
    );
}

#[test]
fn widest_prefixed_argument_wraps() {
    let v = parse(&[68, 128, 91, 128]).unwrap();
    assert_eq!(v, vec![ParseInstr { kind: ParseInstrKind::LoadSmallInt, arg: 32640 }]);
    let w = parse(&[68, 127, 91, 127]).unwrap();
    assert_eq!(w[0].arg, 127 * 256 + 127);
}

const DRIVER_SECOND: [u8; 114] = [
    149, 0, 89, 1, 0, 0, 0, 0, 0, 0, 0, 0, 83, 0, 51, 1, 0, 0, 0, 0, 0, 0, 16, 0, 69, 27, 0, 0,
    109, 1, 83, 1, 91, 5, 44, 10, 0, 0, 91, 0, 56, 88, 0, 0, 97, 3, 0, 0, 28, 0, 74, 15, 0, 0,
    83, 1, 91, 7, 44, 10, 0, 0, 91, 8, 56, 88, 0, 0, 100, 3, 0, 0, 28, 0, 74, 27, 0, 0, 31, 0,
    76, 2, 9, 0, 30, 0, 85, 1, 91, 11, 44, 10, 0, 0, 91, 9, 56, 88, 0, 0, 97, 3, 0, 0, 28, 0,
    91, 5, 35, 0, 81, 0, 35, 0,
];

const DRIVER_THIRD: [u8; 180] = [
    149, 0, 89, 1, 0, 0, 0, 0, 0, 0, 0, 0, 83, 0, 51, 1, 0, 0, 0, 0, 0, 0, 16, 0, 69, 72, 0, 0,
    109, 1, 83, 0, 91, 2, 56, 18, 0, 0, 100, 3, 0, 0, 28, 0, 74, 12, 0, 0, 83, 0, 91, 5, 56,
    148, 0, 0, 97, 13, 0, 0, 28, 0, 89, 3, 0, 0, 0, 0, 0, 0, 0, 0, 83, 0, 51, 1, 0, 0, 0, 0, 0,
    0, 31, 0, 76, 30, 83, 0, 91, 3, 56, 18, 0, 0, 97, 13, 0, 0, 28, 0, 89, 3, 0, 0, 0, 0, 0, 0,
    0, 0, 83, 0, 51, 1, 0, 0, 0, 0, 0, 0, 31, 0, 76, 11, 89, 3, 0, 0, 0, 0, 0, 0, 0, 0, 83, 0,
    51, 1, 0, 0, 0, 0, 0, 0, 31, 0, 89, 3, 0, 0, 0, 0, 0, 0, 0, 0, 83, 0, 51, 1, 0, 0, 0, 0, 0,
    0, 31, 0, 74, 71, 0, 0, 9, 0, 30, 0, 81, 0, 35, 0,
];

const DRIVER_FOURTH: [u8; 56] = [
    149, 0, 89, 1, 0, 0, 0, 0, 0, 0, 0, 0, 86, 18, 56, 148, 0, 0, 97, 9, 0, 0, 28, 0, 83, 0,
    51, 1, 0, 0, 0, 0, 0, 0, 31, 0, 81, 0, 35, 0, 83, 3, 51, 1, 0, 0, 0, 0, 0, 0, 31, 0, 81, 0,
    35, 0,
];

const DRIVER_FIFTH: [u8; 154] = [
    149, 0, 89, 1, 0, 0, 0, 0, 0, 0, 0, 0, 83, 0, 51, 1, 0, 0, 0, 0, 0, 0, 109, 1, 91, 0, 109,
    2, 89, 3, 0, 0, 0, 0, 0, 0, 0, 0, 83, 1, 51, 1, 0, 0, 0, 0, 0, 0, 16, 0, 69, 7, 0, 0, 109,
    3, 86, 35, 44, 13, 0, 0, 109, 2, 74, 9, 0, 0, 9, 0, 30, 0, 86, 33, 83, 1, 91, 1, 44, 10, 0,
    0, 44, 5, 0, 0, 91, 2, 44, 2, 0, 0, 56, 88, 0, 0, 97, 14, 0, 0, 28, 0, 89, 5, 0, 0, 0, 0,
    0, 0, 0, 0, 81, 0, 51, 1, 0, 0, 0, 0, 0, 0, 31, 0, 81, 2, 35, 0, 89, 5, 0, 0, 0, 0, 0, 0,
    0, 0, 81, 1, 51, 1, 0, 0, 0, 0, 0, 0, 31, 0, 81, 2, 35, 0,
];

#[test]
fn driver_sample_with_loop_and_two_conditions() {
    // The second condition jumps when true, so its body runs when it is not.
    let out = run(&DRIVER_THIRD, &["x", "i"], &["range", "print"], vec![PyConstInner::NoneValue]).unwrap();
    assert_eq!(
        out,
        "for i in range(x):\n\tif not (x < 2):\n\t\tcontinue\n\tif x > 5:\n\t\tprint(x)\n\telse:\n\tprint(x)\n\tcontinue\nreturn None\n"
    );
}

#[test]
fn driver_sample_with_two_returns() {
    let out = run(&DRIVER_FOURTH, &["a", "b", "c", "d"], &["print"], vec![PyConstInner::NoneValue]).unwrap();
    assert_eq!(out, "if b > c:\n\tprint(a)\nreturn print\n");
}

#[test]
fn driver_samples_whose_jumps_land_before_their_targets() {
    // With forward jumps landing on `arg + 1`, a conditional here reaches the
    // return of the other branch before its value is pushed.
    assert_eq!(
        run(&DRIVER_SECOND, &["x", "i"], &["range"], vec![PyConstInner::NoneValue]),
        Err(DecompileError::Eval(SymbolicEvaluationError::MissingStackItem))
    );
    let consts = vec![
        PyConstInner::StringLiteral("Correctly found that sum of 0..x = x*(x+1)/2".to_string()),
        PyConstInner::StringLiteral("Incorrecly analysed the sum of 0..x".to_string()),
        PyConstInner::NoneValue,
    ];
    assert_eq!(
        run(&DRIVER_FIFTH, &["x", "y", "acc", "i"], &["int", "range", "print"], consts),
        Err(DecompileError::Eval(SymbolicEvaluationError::MissingStackItem))
    );
}
