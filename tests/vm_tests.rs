use zyde::instruction::Instruction;
use zyde::vm::{VmError, VM};

#[test]
fn test_jump_out_of_bounds() {
    let program = vec![Instruction::<i32>::Jump(100), Instruction::Halt];

    let mut vm = VM::new(program);
    let result = vm.run();

    assert!(matches!(result, Err(VmError::ProgramCounterOutOfBounds)));
    assert_eq!(vm.pc, 0);
}

#[test]
fn test_return_without_call() {
    let program = vec![Instruction::<i32>::Return, Instruction::Halt];

    let mut vm = VM::new(program);
    let result = vm.run();

    assert!(matches!(result, Err(VmError::CallStackEmpty)));
    assert_eq!(vm.pc, 0);
}

#[test]
fn failed_steps_leave_the_machine_unchanged() {
    let mut vm = VM::new(vec![
        Instruction::<i32>::Push(1),
        Instruction::Push(0),
        Instruction::Divide,
    ]);
    assert!(matches!(vm.run(), Err(VmError::ArithmeticError("DIVIDE"))));
    assert_eq!(vm.stack, vec![1, 0]);
    assert_eq!(vm.pc, 2);

    let mut vm = VM::new(vec![Instruction::<i32>::Push(0), Instruction::ConditionalJump(7)]);
    assert!(matches!(vm.run(), Err(VmError::ProgramCounterOutOfBounds)));
    assert_eq!(vm.stack, vec![0]);
    assert_eq!(vm.pc, 1);

    let mut vm = VM::new(vec![Instruction::<i32>::Push(3), Instruction::Call(9)]);
    assert!(matches!(vm.run(), Err(VmError::ProgramCounterOutOfBounds)));
    assert!(vm.call_stack.is_empty());
    assert_eq!(vm.pc, 1);
}

#[test]
fn test_visualize_callstack() {
    let program = vec![
        Instruction::<i32>::Call(2),
        Instruction::Halt,
        Instruction::Call(4),
        Instruction::Halt,
        Instruction::Push(42),
        Instruction::Halt,
    ];
    let mut vm = VM::new(program);
    assert_eq!(vm.visualize_callstack(), "(empty call stack)");
    vm.run().unwrap();
    assert_eq!(
        vm.visualize_callstack(),
        "call stack:\n  frame 0: return address -> 3\n  frame 1: return address -> 1\n"
    );
    assert!(vm.visualize_callstack().contains("return address"));
}

#[test]
fn error_messages() {
    assert_eq!(VmError::StackUnderflow("ADD").message(), "Stack underflow in ADD");
    assert_eq!(VmError::ArithmeticError("DIVIDE").message(), "Arithmetic error in DIVIDE");
    assert_eq!(VmError::ProgramCounterOutOfBounds.message(), "Program counter out of bounds");
    assert_eq!(VmError::CallStackEmpty.message(), "Call stack is empty, cannot return");
    assert_eq!(
        VmError::VariableNotFound("x".to_string()).message(),
        "Variable 'x' not found"
    );
    assert_eq!(VmError::StepLimitExceeded.message(), "Step limit exceeded");
}
