use vstd::prelude::*;

verus! {

/// One instruction of the flat program the machine runs. Names are
/// `String`s; the same enum over `Seq<char>` names is its view.
///
/// Jump, call and conditional-jump targets are absolute indices into the
/// program. Binary operations pop the right operand first, then the left
/// one, and push `left OP right`.
#[derive(Debug)]
pub enum Instruction<T, N = String> {
    /// Push a constant.
    Push(T),
    Add,
    Subtract,
    Multiply,
    Divide,
    /// Record the top of the stack (or that the stack is empty) without popping it.
    Print,
    /// Continue at the given index.
    Jump(usize),
    /// Save the index after the call on the call stack and continue at the given index.
    Call(usize),
    /// Pop the condition; continue at the given index when it is zero.
    ConditionalJump(usize),
    /// Continue at the index saved by the latest call.
    Return,
    /// Stop the program.
    Halt,
    /// Pop a value into the named variable.
    Store(N),
    /// Push the value of the named variable.
    Load(N),
    Equal,
    LessThan,
    GreaterThan,
    Dup,
    Swap,
    Pop,
    /// Replace the top with `1` when it is zero, else with `0`.
    Not,
}

impl<T: Copy> View for Instruction<T> {
    type V = Instruction<T, Seq<char>>;

    open spec fn view(&self) -> Instruction<T, Seq<char>> {
        match self {
            Instruction::Push(v) => Instruction::Push(*v),
            Instruction::Add => Instruction::Add,
            Instruction::Subtract => Instruction::Subtract,
            Instruction::Multiply => Instruction::Multiply,
            Instruction::Divide => Instruction::Divide,
            Instruction::Print => Instruction::Print,
            Instruction::Jump(t) => Instruction::Jump(*t),
            Instruction::Call(t) => Instruction::Call(*t),
            Instruction::ConditionalJump(t) => Instruction::ConditionalJump(*t),
            Instruction::Return => Instruction::Return,
            Instruction::Halt => Instruction::Halt,
            Instruction::Store(n) => Instruction::Store(n@),
            Instruction::Load(n) => Instruction::Load(n@),
            Instruction::Equal => Instruction::Equal,
            Instruction::LessThan => Instruction::LessThan,
            Instruction::GreaterThan => Instruction::GreaterThan,
            Instruction::Dup => Instruction::Dup,
            Instruction::Swap => Instruction::Swap,
            Instruction::Pop => Instruction::Pop,
            Instruction::Not => Instruction::Not,
        }
    }
}

} // verus!
