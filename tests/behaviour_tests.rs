use zyde::instruction::Instruction;
use zyde::ir::{
    assemble, lower_control_flow, parse_ir, resolve_labels, AsmError, ControlKind, LineDefect, IR,
};
use zyde::number::Number;
use zyde::vm::{Frame, VmError, VM};

fn run_source(src: &str) -> VM<i32> {
    let program = assemble::<i32>(src).unwrap();
    let mut vm = VM::new(program);
    vm.run().unwrap();
    vm
}

fn run_error(src: &str) -> VmError {
    let program = assemble::<i32>(src).unwrap();
    let mut vm = VM::new(program);
    vm.run().unwrap_err()
}

fn malformed(src: &str) -> (usize, LineDefect) {
    match parse_ir::<i32>(src) {
        Err(AsmError::MalformedLine { line, defect }) => (line, defect),
        other => panic!("expected a malformed line, got {:?}", other),
    }
}

#[test]
fn arithmetic_matches_direct_evaluation() {
    let vm = run_source("PUSH 7\nPUSH 5\nSUBTRACT\nPUSH 6\nMULTIPLY\nPUSH 4\nDIVIDE\nHALT");
    assert_eq!(vm.stack, vec![(7 - 5) * 6 / 4]);
}

#[test]
fn subtraction_and_division_read_left_to_right() {
    assert_eq!(run_source("PUSH 50\nPUSH 8\nSUBTRACT").stack, vec![42]);
    assert_eq!(run_source("PUSH 84\nPUSH 2\nDIVIDE").stack, vec![42]);
    assert_eq!(run_source("PUSH -7\nPUSH 2\nDIVIDE").stack, vec![-3]);
}

#[test]
fn comparisons_leave_one_or_zero() {
    assert_eq!(run_source("PUSH 3\nPUSH 3\nEQUAL\nPUSH 3\nPUSH 4\nEQUAL").stack, vec![1, 0]);
    assert_eq!(run_source("PUSH 5\nPUSH 2\nGT\nPUSH 2\nPUSH 5\nGT").stack, vec![1, 0]);
    assert_eq!(run_source("PUSH 5\nPUSH 2\nLT\nPUSH 2\nPUSH 5\nLT").stack, vec![0, 1]);
}

#[test]
fn while_skips_body_when_condition_false() {
    let vm = run_source("PUSH 0\nWHILE\nPUSH 99\nPUSH 0\nENDWHILE\nPUSH 7\nHALT");
    assert_eq!(vm.stack, vec![7]);
}

#[test]
fn while_counts_down() {
    let src = "\
        PUSH 3
        STORE n
        LOAD n
        WHILE
          LOAD n
          PUSH 1
          SUBTRACT
          STORE n
          LOAD n
        ENDWHILE
        LOAD n
        HALT";
    assert_eq!(run_source(src).stack, vec![0]);
}

#[test]
fn do_runs_body_once_when_condition_false() {
    let vm = run_source("DO\nPUSH 5\nPUSH 0\nENDDO\nHALT");
    assert_eq!(vm.stack, vec![5]);
}

#[test]
fn if_without_else() {
    assert_eq!(run_source("PUSH 1\nIF\nPUSH 4\nENDIF\nPUSH 8").stack, vec![4, 8]);
    assert_eq!(run_source("PUSH 0\nIF\nPUSH 4\nENDIF\nPUSH 8").stack, vec![8]);
}

#[test]
fn if_else_branches_join() {
    assert_eq!(run_source("PUSH 1\nIF\nPUSH 2\nELSE\nPUSH 3\nENDIF\nPUSH 9").stack, vec![2, 9]);
    assert_eq!(run_source("PUSH 0\nIF\nPUSH 2\nELSE\nPUSH 3\nENDIF\nPUSH 9").stack, vec![3, 9]);
}

#[test]
fn nested_ifs() {
    let src = "PUSH 1\nIF\nPUSH 0\nIF\nPUSH 1\nELSE\nPUSH 2\nENDIF\nELSE\nPUSH 3\nENDIF\nHALT";
    assert_eq!(run_source(src).stack, vec![2]);
}

#[test]
fn join_at_end_of_program_is_out_of_range() {
    let src = "PUSH 1\nIF\nPUSH 2\nELSE\nPUSH 3\nENDIF";
    assert!(matches!(run_error(src), VmError::ProgramCounterOutOfBounds));
}

#[test]
fn call_stack_empty_after_balanced_calls() {
    let vm = run_source("CALL f\nCALL f\nHALT\nLABEL f\nPUSH 1\nRETURN");
    assert_eq!(vm.stack, vec![1, 1]);
    assert!(vm.call_stack.is_empty());
}

#[test]
fn forward_and_backward_labels() {
    let program = assemble::<i32>("JUMP end\nLABEL top\nHALT\nLABEL end\nJUMP top").unwrap();
    assert!(matches!(program[0], Instruction::Jump(2)));
    assert!(matches!(program[2], Instruction::Jump(1)));
}

#[test]
fn duplicate_label_takes_last_declaration() {
    let program = assemble::<i32>("LABEL a\nPUSH 1\nLABEL a\nJUMP a").unwrap();
    assert_eq!(program.len(), 2);
    assert!(matches!(program[1], Instruction::Jump(1)));
}

#[test]
fn adjacent_labels_swap_without_effect() {
    let a = assemble::<i32>("JUMP x\nLABEL x\nLABEL y\nPUSH 1\nJUMP y").unwrap();
    let b = assemble::<i32>("JUMP x\nLABEL y\nLABEL x\nPUSH 1\nJUMP y").unwrap();
    assert!(matches!(a[0], Instruction::Jump(1)) && matches!(b[0], Instruction::Jump(1)));
    assert!(matches!(a[2], Instruction::Jump(1)) && matches!(b[2], Instruction::Jump(1)));
}

#[test]
fn undefined_label_is_reported() {
    match assemble::<i32>("JUMP nowhere") {
        Err(AsmError::UndefinedLabel(name)) => assert_eq!(name, "nowhere"),
        other => panic!("unexpected {:?}", other),
    }
}

#[test]
fn comments_blank_lines_and_case() {
    let ir = parse_ir::<i32>("; header\n\n  push 4 ; four\n\tAdd\nhalt").unwrap();
    assert_eq!(ir.len(), 3);
    assert!(matches!(ir[0], IR::Push(4)));
    assert!(matches!(ir[1], IR::Add));
    assert!(matches!(ir[2], IR::Halt));
}

#[test]
fn names_keep_their_spelling() {
    let ir = parse_ir::<i32>("store Count\nlabel Loop").unwrap();
    match (&ir[0], &ir[1]) {
        (IR::Store(a), IR::Label(b)) => {
            assert_eq!(a, "Count");
            assert_eq!(b, "Loop");
        }
        _ => panic!("unexpected parse"),
    }
}

#[test]
fn push_literals() {
    let ir = parse_ir::<i32>("PUSH -2147483648\nPUSH +17\nPUSH 2147483647").unwrap();
    assert!(matches!(ir[0], IR::Push(-2147483648)));
    assert!(matches!(ir[1], IR::Push(17)));
    assert!(matches!(ir[2], IR::Push(2147483647)));
}

#[test]
fn malformed_lines() {
    assert_eq!(malformed("PUSH"), (1, LineDefect::WrongOperandCount));
    assert_eq!(malformed("HALT\n\nPUSH 1 2"), (3, LineDefect::WrongOperandCount));
    assert_eq!(malformed("ADD 1"), (1, LineDefect::WrongOperandCount));
    assert_eq!(malformed("JUMP"), (1, LineDefect::WrongOperandCount));
    assert_eq!(malformed("PUSH x"), (1, LineDefect::InvalidNumber));
    assert_eq!(malformed("PUSH 2147483648"), (1, LineDefect::InvalidNumber));
    assert_eq!(malformed("PUSH -"), (1, LineDefect::InvalidNumber));
    assert_eq!(malformed("NOP\nHALT"), (1, LineDefect::UnknownInstruction));
}

#[test]
fn unmatched_constructs() {
    let lower = |src: &str| lower_control_flow(parse_ir::<i32>(src).unwrap()).unwrap_err();
    assert!(matches!(lower("ELSE"), AsmError::ElseWithoutIf));
    assert!(matches!(lower("ENDIF"), AsmError::EndIfWithoutIf));
    assert!(matches!(lower("ENDWHILE"), AsmError::EndWhileWithoutWhile));
    assert!(matches!(lower("ENDDO"), AsmError::EndDoWithoutDo));
    assert!(matches!(lower("WHILE\nENDDO"), AsmError::EndDoWithoutDo));
    assert!(matches!(lower("IF"), AsmError::UnbalancedControlFlow(ControlKind::If)));
    assert!(matches!(lower("IF\nELSE"), AsmError::UnbalancedControlFlow(ControlKind::Else)));
    assert!(matches!(lower("DO\nWHILE"), AsmError::UnbalancedControlFlow(ControlKind::While)));
    assert!(matches!(lower("DO"), AsmError::UnbalancedControlFlow(ControlKind::Do)));
}

#[test]
fn lowered_if_else_shape() {
    let lowered = lower_control_flow(parse_ir::<i32>("IF\nPUSH 1\nELSE\nPUSH 2\nENDIF").unwrap()).unwrap();
    assert_eq!(lowered.len(), 6);
    match (&lowered[0], &lowered[2], &lowered[3], &lowered[5]) {
        (IR::ConditionalJump(a), IR::Jump(b), IR::Label(c), IR::Label(d)) => {
            assert_eq!(a, c);
            assert_eq!(b, d);
            assert_ne!(a, b);
            assert!(a.starts_with(';'));
        }
        _ => panic!("unexpected lowering"),
    }
    let code = resolve_labels(lowered).unwrap();
    assert!(matches!(code[0], Instruction::ConditionalJump(3)));
    assert!(matches!(code[2], Instruction::Jump(4)));
}

#[test]
fn runtime_errors() {
    assert!(matches!(run_error("JUMP end\nLABEL end"), VmError::ProgramCounterOutOfBounds));
    assert!(matches!(run_error("POP"), VmError::StackUnderflow("POP")));
    assert!(matches!(run_error("PUSH 1\nADD"), VmError::StackUnderflow("ADD")));
    assert!(matches!(run_error("CJUMP x\nLABEL x\nHALT"), VmError::StackUnderflow("CJUMP")));
    match run_error("LOAD missing") {
        VmError::VariableNotFound(name) => assert_eq!(name, "missing"),
        other => panic!("unexpected {:?}", other),
    }
    assert!(matches!(run_error("PUSH 1\nPUSH 0\nDIVIDE"), VmError::ArithmeticError("DIVIDE")));
    assert!(matches!(
        run_error("PUSH 2147483647\nPUSH 1\nADD"),
        VmError::ArithmeticError("ADD")
    ));
}

#[test]
fn out_of_range_targets() {
    let mut vm = VM::new(vec![Instruction::<i32>::Jump(5)]);
    assert!(matches!(vm.run(), Err(VmError::ProgramCounterOutOfBounds)));
    let mut vm = VM::new(vec![Instruction::<i32>::Call(1)]);
    assert!(matches!(vm.run(), Err(VmError::ProgramCounterOutOfBounds)));
    let mut vm = VM::new(vec![Instruction::<i32>::Push(0), Instruction::ConditionalJump(9)]);
    assert!(matches!(vm.run(), Err(VmError::ProgramCounterOutOfBounds)));
}

#[test]
fn print_records_without_popping() {
    let vm = run_source("PRINT\nPUSH 3\nPRINT\nPUSH 4\nPRINT");
    assert_eq!(vm.output, vec![None, Some(3), Some(4)]);
    assert_eq!(vm.stack, vec![3, 4]);
}

#[test]
fn halt_stops_early() {
    let vm = run_source("PUSH 10\nHALT\nPUSH 999");
    assert_eq!(vm.stack, vec![10]);
    assert_eq!(vm.pc, 3);
}

#[test]
fn bounded_run_stops_infinite_loop() {
    let program = assemble::<i32>("LABEL top\nJUMP top").unwrap();
    let mut vm = VM::new(program);
    assert!(matches!(vm.run_bounded(1000), Ok(false)));
    assert_eq!(vm.pc, 0);
    let mut vm = VM::new(assemble::<i32>("PUSH 1").unwrap());
    assert!(matches!(vm.run_bounded(5), Ok(true)));
}

#[test]
fn store_overwrites() {
    let vm = run_source("PUSH 1\nSTORE v\nPUSH 2\nSTORE v\nLOAD v");
    assert_eq!(vm.stack, vec![2]);
    assert_eq!(vm.variable("v"), Some(2));
    assert_eq!(vm.variables.len(), 1);
    assert_eq!(vm.variable("w"), None);
}

#[test]
fn step_and_frames() {
    let mut vm = VM::new(assemble::<i32>("CALL f\nHALT\nLABEL f\nRETURN").unwrap());
    vm.step().unwrap();
    assert_eq!(vm.pc, 2);
    assert_eq!(vm.call_stack.len(), 1);
    assert_eq!(vm.call_stack[0].return_address, 1);
    assert_eq!(Frame::new(7).return_address, 7);
}

#[test]
fn number_capability_for_i32() {
    assert_eq!(<i32 as Number>::from_i32(5), 5);
    assert_eq!(3.num_add(4), Some(7));
    assert_eq!(i32::MIN.num_sub(1), None);
    assert_eq!(6.num_mul(7), Some(42));
    assert_eq!(7.num_div(0), None);
    assert!(2.num_lt(3) && 3.num_gt(2) && 4.num_eq(4));
}

#[test]
fn if_else_with_expression_branches() {
    let src = "PUSH 0\nIF\nPUSH 2\nPUSH 3\nADD\nELSE\nPUSH 4\nPUSH 5\nMULTIPLY\nENDIF\nPUSH 7\nHALT";
    assert_eq!(run_source(src).stack, vec![20, 7]);
    let src = "PUSH 5\nIF\nPUSH 2\nPUSH 3\nADD\nELSE\nPUSH 4\nPUSH 5\nMULTIPLY\nENDIF\nPUSH 7\nHALT";
    assert_eq!(run_source(src).stack, vec![5, 7]);
}

#[test]
fn do_with_computed_false_condition() {
    let src = "DO\nPUSH 2\nPUSH 3\nMULTIPLY\nPUSH 1\nPUSH 1\nSUBTRACT\nENDDO\nPUSH 9\nHALT";
    assert_eq!(run_source(src).stack, vec![6, 9]);
}

#[test]
fn while_with_computed_false_condition() {
    let src = "PUSH 4\nPUSH 4\nSUBTRACT\nWHILE\nPUSH 1\nPUSH 0\nENDWHILE\nPUSH 9\nHALT";
    assert_eq!(run_source(src).stack, vec![9]);
}

#[test]
fn unreferenced_label_can_move() {
    let a = assemble::<i32>("LABEL spare\nPUSH 1\nCALL f\nHALT\nLABEL f\nRETURN").unwrap();
    let b = assemble::<i32>("PUSH 1\nCALL f\nLABEL spare\nHALT\nLABEL f\nRETURN").unwrap();
    assert_eq!(a.len(), b.len());
    assert!(matches!(a[1], Instruction::Call(3)) && matches!(b[1], Instruction::Call(3)));
}

#[test]
fn call_and_cjump_targets_resolve_like_jumps() {
    let program = assemble::<i32>("PUSH 0\nCJUMP end\nCALL end\nLABEL end\nHALT").unwrap();
    assert!(matches!(program[1], Instruction::ConditionalJump(3)));
    assert!(matches!(program[2], Instruction::Call(3)));
}
