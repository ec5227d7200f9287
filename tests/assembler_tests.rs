use zyde::instruction::Instruction;
use zyde::ir::{assemble, lower_control_flow, parse_ir, resolve_labels, IR};
use zyde::vm::{VmError, VM};

fn lower_and_resolve(program: &str) -> Vec<Instruction<i32>> {
    let lowered = lower_control_flow(parse_ir::<i32>(program).unwrap()).unwrap();
    resolve_labels(lowered).unwrap()
}

#[test]
fn test_arithmetic() {
    let program = "\
            PUSH 10
            PUSH 20
            ADD
            HALT
        ";

    let final_insts = lower_and_resolve(program);
    let mut vm = VM::new(final_insts);
    vm.run().unwrap();

    assert_eq!(vm.stack, vec![30]);
}

#[test]
fn test_if_else_true() {
    let program = "\
        PUSH 10
        PUSH 10
        EQUAL
        IF
          PUSH 42
        ELSE
          PUSH 0
        ENDIF
        HALT
    ";

    let final_insts = lower_and_resolve(program);
    let mut vm = VM::new(final_insts);
    vm.run().unwrap();

    assert_eq!(vm.stack, vec![42]);
}

#[test]
fn test_if_else_false() {
    let program = "\
            PUSH 10
            PUSH 20
            EQUAL
            IF
              PUSH 1
            ELSE
              PUSH 99
            ENDIF
            HALT
        ";

    let final_insts = lower_and_resolve(program);
    let mut vm = VM::new(final_insts);
    vm.run().unwrap();

    assert_eq!(vm.stack, vec![99]);
}

#[test]
fn test_variables_and_comparisons() {
    let program = "\
            PUSH 15
            STORE x
            PUSH 20
            STORE y

            LOAD x
            LOAD y
            LT
            HALT
        ";

    let instructions = assemble::<i32>(program).unwrap();
    let mut vm = VM::new(instructions);
    vm.run().unwrap();

    assert_eq!(vm.stack, vec![1]);
    assert_eq!(vm.variable("x"), Some(15));
    assert_eq!(vm.variable("y"), Some(20));
}

#[test]
fn test_stack_manipulation() {
    let program = "\
            PUSH 42
            DUP
            PUSH 99
            SWAP
            POP
            HALT
        ";

    let instructions = assemble::<i32>(program).unwrap();
    let mut vm = VM::new(instructions);
    vm.run().unwrap();

    assert_eq!(vm.stack, vec![42, 99]);
}

#[test]
fn test_ir_lowering_debug() {
    let program = "\
            PUSH 10 ; push 10
            PUSH 20 ; push 20
            ADD     ; add them
            HALT
        ";

    let ir = parse_ir::<i32>(program).unwrap();
    let lowered = lower_control_flow(ir).unwrap();

    if let Some(last) = lowered.last() {
        match last {
            IR::Halt => (),

            _ => panic!("Expected HALT at end of lowered IR"),
        }
    } else {
        panic!("Lowered IR is empty");
    }
}

#[test]
fn test_function_call() {
    let program = "\
        CALL func
        HALT
        LABEL func
        PUSH 42
        RETURN";

    let instructions = assemble::<i32>(program).unwrap();
    let mut vm = VM::new(instructions);
    vm.run().unwrap();

    assert_eq!(vm.stack, vec![42]);
}

#[test]
fn test_stack_underflow() {
    let program = "ADD";
    let instructions = assemble::<i32>(program).unwrap();
    let mut vm = VM::new(instructions);
    let result = vm.run();

    assert!(matches!(result, Err(VmError::StackUnderflow(_))));
}

#[test]
fn test_not_instruction() {
    let program = "\
        PUSH 0
        NOT
        PUSH 1
        NOT
        HALT";

    let instructions = assemble::<i32>(program).unwrap();
    let mut vm = VM::new(instructions);
    vm.run().unwrap();

    assert_eq!(vm.stack, vec![1, 0]);
}

#[test]
fn test_invalid_return() {
    let program = "RETURN";
    let instructions = assemble::<i32>(program).unwrap();
    let mut vm = VM::new(instructions);
    let result = vm.run();

    assert!(matches!(result, Err(VmError::CallStackEmpty)));
}

#[test]
fn test_do_loop() {
    let program = "\
        PUSH 3
        DO
            DUP
            PRINT
            PUSH 1
            SUBTRACT
            DUP
            PUSH 0
            GT
        ENDDO
        HALT";

    let instructions = assemble::<i32>(program).unwrap();
    let mut vm = VM::new(instructions);
    vm.run().unwrap();

    assert_eq!(vm.stack, vec![3, 2, 1, 0]);
}
