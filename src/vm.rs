use vstd::prelude::*;

use crate::instruction::Instruction;
use crate::number::{is_zero, truth, Number};
use crate::text::{decimal_digits, push_decimal, push_str, string_of};

verus! {

/// Why a run stopped before the program finished.
#[derive(Debug)]
pub enum VmError {
    /// The named operation found too few values on the stack.
    StackUnderflow(&'static str),
    /// The value type could not compute the named operation (overflow, division by zero).
    ArithmeticError(&'static str),
    /// A jump, call or conditional jump named an index outside the program.
    ProgramCounterOutOfBounds,
    /// `Return` ran with no call to return from.
    CallStackEmpty,
    /// `Load` named a variable that was never stored.
    VariableNotFound(String),
    /// A bounded run used up its steps before the program finished.
    StepLimitExceeded,
}

/// The message that describes an error.
pub open spec fn error_text(e: VmError) -> Seq<char> {
    match e {
        VmError::StackUnderflow(op) => "Stack underflow in "@ + op@,
        VmError::ArithmeticError(op) => "Arithmetic error in "@ + op@,
        VmError::ProgramCounterOutOfBounds => "Program counter out of bounds"@,
        VmError::CallStackEmpty => "Call stack is empty, cannot return"@,
        VmError::VariableNotFound(name) => "Variable '"@ + name@ + "' not found"@,
        VmError::StepLimitExceeded => "Step limit exceeded"@,
    }
}

impl VmError {
    /// A message for a person.
    pub fn message(&self) -> (r: String)
        ensures
            r@ == error_text(*self),
    {
        let mut out: Vec<char> = Vec::new();
        match self {
            VmError::StackUnderflow(op) => {
                push_str(&mut out, "Stack underflow in ");
                push_str(&mut out, op);
            },
            VmError::ArithmeticError(op) => {
                push_str(&mut out, "Arithmetic error in ");
                push_str(&mut out, op);
            },
            VmError::ProgramCounterOutOfBounds => {
                push_str(&mut out, "Program counter out of bounds");
            },
            VmError::CallStackEmpty => {
                push_str(&mut out, "Call stack is empty, cannot return");
            },
            VmError::VariableNotFound(name) => {
                push_str(&mut out, "Variable '");
                push_str(&mut out, name.as_str());
                push_str(&mut out, "' not found");
            },
            VmError::StepLimitExceeded => {
                push_str(&mut out, "Step limit exceeded");
            },
        }
        assert(out@ =~= error_text(*self));
        string_of(&out)
    }
}

/// The line that shows the call-stack entry `i` places below the top.
pub open spec fn frame_line(i: nat, return_address: usize) -> Seq<char> {
    "  frame "@ + decimal_digits(i) + ": return address -> "@ + decimal_digits(return_address as nat)
        + "\n"@
}

/// The lines of the `k` innermost call-stack entries, innermost first.
pub open spec fn frame_lines(frames: Seq<Frame>, k: nat) -> Seq<char>
    decreases k,
{
    if k == 0 {
        Seq::empty()
    } else {
        frame_lines(frames, (k - 1) as nat) + frame_line(
            (k - 1) as nat,
            frames[frames.len() - k].return_address,
        )
    }
}

/// A rendering of the call stack for post-mortem inspection.
pub open spec fn callstack_text(frames: Seq<Frame>) -> Seq<char> {
    if frames.len() == 0 {
        "(empty call stack)"@
    } else {
        "call stack:\n"@ + frame_lines(frames, frames.len())
    }
}

/// A call-stack entry: where to continue after the matching return.
#[derive(Debug)]
pub struct Frame {
    pub return_address: usize,
}

impl Frame {
    pub fn new(return_address: usize) -> (r: Frame)
        ensures
            r.return_address == return_address,
    {
        Frame { return_address }
    }
}

/// The abstract state of a machine: what its contracts speak of.
pub struct Machine<T> {
    pub pc: int,
    pub stack: Seq<T>,
    pub frames: Seq<Frame>,
    pub vars: Map<Seq<char>, T>,
    pub output: Seq<Option<T>>,
}

/// The variable store held as a list of bindings; the first binding of a
/// name is the one that counts.
pub open spec fn vars_map<T>(v: Seq<(String, T)>) -> Map<Seq<char>, T>
    decreases v.len(),
{
    if v.len() == 0 {
        Map::empty()
    } else {
        vars_map(v.drop_first()).insert(v[0].0@, v[0].1)
    }
}

/// The mnemonic an operation is reported under.
pub open spec fn op_name<T>(ins: Instruction<T>) -> &'static str {
    match ins {
        Instruction::Add => "ADD",
        Instruction::Subtract => "SUBTRACT",
        Instruction::Multiply => "MULTIPLY",
        Instruction::Divide => "DIVIDE",
        Instruction::Equal => "EQUAL",
        Instruction::LessThan => "LT",
        Instruction::GreaterThan => "GT",
        Instruction::ConditionalJump(_) => "CJUMP",
        Instruction::Store(_) => "STORE",
        Instruction::Dup => "DUP",
        Instruction::Swap => "SWAP",
        Instruction::Pop => "POP",
        Instruction::Not => "NOT",
        Instruction::Print => "PRINT",
        _ => "",
    }
}

/// Whether the instruction pops two operands and pushes one result.
pub open spec fn is_binary<T>(ins: Instruction<T>) -> bool {
    match ins {
        Instruction::Add | Instruction::Subtract | Instruction::Multiply | Instruction::Divide
        | Instruction::Equal | Instruction::LessThan | Instruction::GreaterThan => true,
        _ => false,
    }
}

/// The result of a binary instruction on `left` (pushed first) and `right`.
pub open spec fn binary_result<T: Number>(ins: Instruction<T>, left: T, right: T) -> Option<T> {
    match ins {
        Instruction::Add => left.plus(right),
        Instruction::Subtract => left.minus(right),
        Instruction::Multiply => left.times(right),
        Instruction::Divide => left.quotient(right),
        Instruction::Equal => Some(truth(left.same_as(right))),
        Instruction::LessThan => Some(truth(left.less_than(right))),
        Instruction::GreaterThan => Some(truth(left.greater_than(right))),
        _ => None,
    }
}

/// One step of the machine: the instruction at `m.pc` runs.
pub open spec fn step_spec<T: Number>(prog: Seq<Instruction<T>>, m: Machine<T>) -> Result<
    Machine<T>,
    VmError,
> {
    let ins = prog[m.pc];
    let st = m.stack;
    let n = st.len();
    let next = Machine { pc: m.pc + 1, ..m };
    match ins {
        Instruction::Add | Instruction::Subtract | Instruction::Multiply | Instruction::Divide
        | Instruction::Equal | Instruction::LessThan | Instruction::GreaterThan => if n < 2 {
            Err(VmError::StackUnderflow(op_name(ins)))
        } else {
            match binary_result(ins, st[n - 2], st[n - 1]) {
                Some(v) => Ok(Machine { stack: st.take(n - 2).push(v), ..next }),
                None => Err(VmError::ArithmeticError(op_name(ins))),
            }
        },
        Instruction::Push(v) => Ok(Machine { stack: st.push(v), ..next }),
        Instruction::Print => Ok(
            Machine {
                output: m.output.push(
                    if n == 0 {
                        None
                    } else {
                        Some(st.last())
                    },
                ),
                ..next
            },
        ),
        Instruction::Jump(t) => if t >= prog.len() {
            Err(VmError::ProgramCounterOutOfBounds)
        } else {
            Ok(Machine { pc: t as int, ..m })
        },
        Instruction::Call(t) => if t >= prog.len() {
            Err(VmError::ProgramCounterOutOfBounds)
        } else {
            Ok(
                Machine {
                    pc: t as int,
                    frames: m.frames.push(Frame { return_address: (m.pc + 1) as usize }),
                    ..m
                },
            )
        },
        Instruction::ConditionalJump(t) => if n == 0 {
            Err(VmError::StackUnderflow(op_name(ins)))
        } else if !is_zero(st.last()) {
            Ok(Machine { stack: st.drop_last(), ..next })
        } else if t >= prog.len() {
            Err(VmError::ProgramCounterOutOfBounds)
        } else {
            Ok(Machine { pc: t as int, stack: st.drop_last(), ..m })
        },
        Instruction::Return => if m.frames.len() == 0 {
            Err(VmError::CallStackEmpty)
        } else {
            Ok(
                Machine {
                    pc: m.frames.last().return_address as int,
                    frames: m.frames.drop_last(),
                    ..m
                },
            )
        },
        Instruction::Halt => Ok(Machine { pc: prog.len() as int, ..m }),
        Instruction::Store(name) => if n == 0 {
            Err(VmError::StackUnderflow(op_name(ins)))
        } else {
            Ok(Machine { stack: st.drop_last(), vars: m.vars.insert(name@, st.last()), ..next })
        },
        Instruction::Load(name) => if m.vars.contains_key(name@) {
            Ok(Machine { stack: st.push(m.vars[name@]), ..next })
        } else {
            Err(VmError::VariableNotFound(name))
        },
        Instruction::Dup => if n == 0 {
            Err(VmError::StackUnderflow(op_name(ins)))
        } else {
            Ok(Machine { stack: st.push(st.last()), ..next })
        },
        Instruction::Swap => if n < 2 {
            Err(VmError::StackUnderflow(op_name(ins)))
        } else {
            Ok(Machine { stack: st.take(n - 2).push(st[n - 1]).push(st[n - 2]), ..next })
        },
        Instruction::Pop => if n == 0 {
            Err(VmError::StackUnderflow(op_name(ins)))
        } else {
            Ok(Machine { stack: st.drop_last(), ..next })
        },
        Instruction::Not => if n == 0 {
            Err(VmError::StackUnderflow(op_name(ins)))
        } else {
            Ok(Machine { stack: st.drop_last().push(truth(is_zero(st.last()))), ..next })
        },
    }
}

/// How a run of at most some number of steps ends.
pub enum Outcome<T> {
    /// The program counter left the program (by running off its end or by `Halt`).
    Finished(Machine<T>),
    /// The steps ran out while the program counter was still inside the program.
    OutOfSteps(Machine<T>),
    /// A step failed. The machine is as it stood before that step: a
    /// failing step changes nothing.
    Failed(Machine<T>, VmError),
}

/// Run from `m` for at most `fuel` steps.
pub open spec fn run_spec<T: Number>(prog: Seq<Instruction<T>>, m: Machine<T>, fuel: nat) -> Outcome<T>
    decreases fuel,
{
    if !(0 <= m.pc < prog.len()) {
        Outcome::Finished(m)
    } else if fuel == 0 {
        Outcome::OutOfSteps(m)
    } else {
        match step_spec(prog, m) {
            Ok(m2) => run_spec(prog, m2, (fuel - 1) as nat),
            Err(e) => Outcome::Failed(m, e),
        }
    }
}


proof fn lemma_vars_absent<T>(v: Seq<(String, T)>, k: Seq<char>)
    requires
        forall|j: int| 0 <= j < v.len() ==> v[j].0@ != k,
    ensures
        !vars_map(v).contains_key(k),
    decreases v.len(),
{
    if v.len() > 0 {
        lemma_vars_absent(v.drop_first(), k);
    }
}

proof fn lemma_vars_found<T>(v: Seq<(String, T)>, i: int)
    requires
        0 <= i < v.len(),
        forall|j: int| 0 <= j < i ==> v[j].0@ != v[i].0@,
    ensures
        vars_map(v).contains_key(v[i].0@),
        vars_map(v)[v[i].0@] == v[i].1,
    decreases v.len(),
{
    if i > 0 {
        lemma_vars_found(v.drop_first(), i - 1);
    }
}

proof fn lemma_vars_update<T>(v: Seq<(String, T)>, i: int, x: T)
    requires
        0 <= i < v.len(),
        forall|j: int| 0 <= j < i ==> v[j].0@ != v[i].0@,
    ensures
        vars_map(v.update(i, (v[i].0, x))) == vars_map(v).insert(v[i].0@, x),
    decreases v.len(),
{
    let w = v.update(i, (v[i].0, x));
    if i == 0 {
        assert(w.drop_first() =~= v.drop_first());
        assert(vars_map(w) =~= vars_map(v).insert(v[i].0@, x));
    } else {
        assert(w.drop_first() =~= v.drop_first().update(i - 1, (v[i].0, x)));
        lemma_vars_update(v.drop_first(), i - 1, x);
        assert(vars_map(w) =~= vars_map(v).insert(v[i].0@, x));
    }
}

proof fn lemma_vars_push<T>(v: Seq<(String, T)>, s: String, x: T)
    requires
        forall|j: int| 0 <= j < v.len() ==> v[j].0@ != s@,
    ensures
        vars_map(v.push((s, x))) == vars_map(v).insert(s@, x),
    decreases v.len(),
{
    let w = v.push((s, x));
    if v.len() == 0 {
        assert(w.drop_first() =~= v);
        assert(vars_map(w) =~= vars_map(v).insert(s@, x));
    } else {
        assert(w.drop_first() =~= v.drop_first().push((s, x)));
        lemma_vars_push(v.drop_first(), s, x);
        assert(vars_map(w) =~= vars_map(v).insert(s@, x));
    }
}

fn op_name_of<T>(ins: &Instruction<T>) -> (r: &'static str)
    ensures
        r == op_name(*ins),
{
    match ins {
        Instruction::Add => "ADD",
        Instruction::Subtract => "SUBTRACT",
        Instruction::Multiply => "MULTIPLY",
        Instruction::Divide => "DIVIDE",
        Instruction::Equal => "EQUAL",
        Instruction::LessThan => "LT",
        Instruction::GreaterThan => "GT",
        Instruction::ConditionalJump(_) => "CJUMP",
        Instruction::Store(_) => "STORE",
        Instruction::Dup => "DUP",
        Instruction::Swap => "SWAP",
        Instruction::Pop => "POP",
        Instruction::Not => "NOT",
        Instruction::Print => "PRINT",
        _ => "",
    }
}

fn truth_value<T: Number>(b: bool) -> (r: T)
    ensures
        r == truth::<T>(b),
{
    if b {
        T::from_i32(1)
    } else {
        T::from_i32(0)
    }
}

/// A stack machine running a flat program.
pub struct VM<T> {
    /// Index of the next instruction to run.
    pub pc: usize,
    /// The evaluation stack; its last element is the top.
    pub stack: Vec<T>,
    /// The program; never changed by running it.
    pub program: Vec<Instruction<T>>,
    /// Return addresses of the calls not yet returned from.
    pub call_stack: Vec<Frame>,
    /// Variable bindings. The first binding of a name is the one that
    /// counts; `Store` rebinds a name in place, so the machine's methods
    /// keep each name bound once (`well_formed`).
    pub variables: Vec<(String, T)>,
    /// What each `Print` observed, in order: the top of the stack, or `None`
    /// where the stack was empty.
    pub output: Vec<Option<T>>,
}

/// No name is bound twice.
pub open spec fn distinct_names<T>(v: Seq<(String, T)>) -> bool {
    forall|i: int, j: int| 0 <= i < j < v.len() ==> v[i].0@ != v[j].0@
}

impl<T: Number> VM<T> {
    /// The invariant the machine's own methods keep: each variable name is
    /// bound once.
    pub open spec fn well_formed(&self) -> bool {
        distinct_names(self.variables@)
    }

    /// The abstract state of this machine.
    pub open spec fn machine(&self) -> Machine<T> {
        Machine {
            pc: self.pc as int,
            stack: self.stack@,
            frames: self.call_stack@,
            vars: vars_map(self.variables@),
            output: self.output@,
        }
    }

    /// A machine at the start of `program`: everything empty, `pc` at 0.
    pub fn new(program: Vec<Instruction<T>>) -> (r: VM<T>)
        ensures
            r.program@ == program@,
            r.well_formed(),
            r.machine() == (Machine::<T> {
                pc: 0,
                stack: Seq::empty(),
                frames: Seq::empty(),
                vars: Map::empty(),
                output: Seq::empty(),
            }),
    {
        let r = VM {
            pc: 0,
            stack: Vec::new(),
            program,
            call_stack: Vec::new(),
            variables: Vec::new(),
            output: Vec::new(),
        };
        assert(r.machine().stack =~= Seq::<T>::empty());
        assert(r.machine().vars =~= Map::<Seq<char>, T>::empty());
        r
    }

    /// The value bound to `name`, if any.
    pub fn variable(&self, name: &str) -> (r: Option<T>)
        ensures
            r == (if self.machine().vars.contains_key(name@) {
                Some(self.machine().vars[name@])
            } else {
                None
            }),
    {
        let key = String::from_str(name);
        match self.find_var(&key) {
            Some(i) => {
                proof {
                    lemma_vars_found(self.variables@, i as int);
                }
                Some(self.variables[i].1)
            },
            None => {
                proof {
                    lemma_vars_absent(self.variables@, name@);
                }
                None
            },
        }
    }

    /// Run the instruction at `pc`.
    pub fn step(&mut self) -> (r: Result<(), VmError>)
        requires
            old(self).pc < old(self).program@.len(),
        ensures
            final(self).program == old(self).program,
            old(self).well_formed() ==> final(self).well_formed(),
            match step_spec(old(self).program@, old(self).machine()) {
                Ok(m) => r is Ok && final(self).machine() == m,
                Err(e) => r == Err::<(), VmError>(e) && final(self).machine() == old(self).machine(),
            },
    {
        let ghost m = self.machine();
        let ghost prog = self.program@;
        let n = self.stack.len();
        let pc = self.pc;
        let len = self.program.len();
        assert(pc + 1 <= len);
        match &self.program[pc] {
            Instruction::Push(v) => {
                self.stack.push(*v);
                self.pc = pc + 1;
            },
            Instruction::Add => {
                return self.binary(&Instruction::Add);
            },
            Instruction::Subtract => {
                return self.binary(&Instruction::Subtract);
            },
            Instruction::Multiply => {
                return self.binary(&Instruction::Multiply);
            },
            Instruction::Divide => {
                return self.binary(&Instruction::Divide);
            },
            Instruction::Equal => {
                return self.binary(&Instruction::Equal);
            },
            Instruction::LessThan => {
                return self.binary(&Instruction::LessThan);
            },
            Instruction::GreaterThan => {
                return self.binary(&Instruction::GreaterThan);
            },
            Instruction::Print => {
                if n == 0 {
                    self.output.push(None);
                } else {
                    self.output.push(Some(self.stack[n - 1]));
                }
                self.pc = pc + 1;
            },
            Instruction::Jump(t) => {
                if *t >= self.program.len() {
                    return Err(VmError::ProgramCounterOutOfBounds);
                }
                self.pc = *t;
            },
            Instruction::Call(t) => {
                if *t >= self.program.len() {
                    return Err(VmError::ProgramCounterOutOfBounds);
                }
                self.call_stack.push(Frame::new(pc + 1));
                self.pc = *t;
            },
            Instruction::ConditionalJump(t) => {
                let t = *t;
                if n == 0 {
                    return Err(VmError::StackUnderflow("CJUMP"));
                }
                let c = self.stack[n - 1];
                if c.num_eq(T::from_i32(0)) {
                    if t >= self.program.len() {
                        return Err(VmError::ProgramCounterOutOfBounds);
                    }
                    self.pc = t;
                } else {
                    self.pc = pc + 1;
                }
                self.stack.pop();
            },
            Instruction::Return => {
                match self.call_stack.pop() {
                    None => {
                        return Err(VmError::CallStackEmpty);
                    },
                    Some(f) => {
                        self.pc = f.return_address;
                    },
                }
            },
            Instruction::Halt => {
                self.pc = self.program.len();
            },
            Instruction::Store(name) => {
                match self.stack.pop() {
                    None => {
                        return Err(VmError::StackUnderflow("STORE"));
                    },
                    Some(v) => {
                        match self.find_var(name) {
                            Some(i) => {
                                proof {
                                    lemma_vars_update(self.variables@, i as int, v);
                                }
                                let key = self.variables[i].0.clone();
                                self.variables.set(i, (key, v));
                            },
                            None => {
                                let key = name.clone();
                                proof {
                                    lemma_vars_push(self.variables@, key, v);
                                }
                                self.variables.push((key, v));
                            },
                        }
                        self.pc = pc + 1;
                    },
                }
            },
            Instruction::Load(name) => {
                match self.find_var(name) {
                    Some(i) => {
                        proof {
                            lemma_vars_found(self.variables@, i as int);
                        }
                        let v = self.variables[i].1;
                        self.stack.push(v);
                        self.pc = pc + 1;
                    },
                    None => {
                        proof {
                            lemma_vars_absent(self.variables@, name@);
                        }
                        return Err(VmError::VariableNotFound(name.clone()));
                    },
                }
            },
            Instruction::Dup => {
                if n == 0 {
                    return Err(VmError::StackUnderflow("DUP"));
                }
                let v = self.stack[n - 1];
                self.stack.push(v);
                self.pc = pc + 1;
            },
            Instruction::Swap => {
                if n < 2 {
                    return Err(VmError::StackUnderflow("SWAP"));
                }
                let a = self.stack[n - 2];
                let b = self.stack[n - 1];
                self.stack.set(n - 2, b);
                self.stack.set(n - 1, a);
                self.pc = pc + 1;
            },
            Instruction::Pop => {
                if n == 0 {
                    return Err(VmError::StackUnderflow("POP"));
                }
                self.stack.pop();
                self.pc = pc + 1;
            },
            Instruction::Not => {
                match self.stack.pop() {
                    None => {
                        return Err(VmError::StackUnderflow("NOT"));
                    },
                    Some(v) => {
                        let zero = T::from_i32(0);
                        if v.num_eq(zero) {
                            self.stack.push(T::from_i32(1));
                        } else {
                            self.stack.push(zero);
                        }
                        self.pc = pc + 1;
                    },
                }
            },
        }
        assert(self.stack@ =~= step_spec(prog, m)->Ok_0.stack);
        assert(self.output@ =~= step_spec(prog, m)->Ok_0.output);
        assert(self.call_stack@ =~= step_spec(prog, m)->Ok_0.frames);
        Ok(())
    }

    /// Run at most `max_steps` instructions. `Ok(true)`: the program
    /// finished; `Ok(false)`: the steps ran out first.
    pub fn run_bounded(&mut self, max_steps: usize) -> (r: Result<bool, VmError>)
        ensures
            final(self).program == old(self).program,
            old(self).well_formed() ==> final(self).well_formed(),
            match run_spec(old(self).program@, old(self).machine(), max_steps as nat) {
                Outcome::Finished(m) => r == Ok::<bool, VmError>(true) && final(self).machine() == m,
                Outcome::OutOfSteps(m) => r == Ok::<bool, VmError>(false) && final(self).machine()
                    == m,
                Outcome::Failed(m, e) => r == Err::<bool, VmError>(e) && final(self).machine() == m,
            },
    {
        let ghost prog = self.program@;
        let ghost program = self.program;
        let ghost m0 = self.machine();
        let ghost wf0 = self.well_formed();
        let mut k: usize = 0;
        let mut failure: Option<VmError> = None;
        while k < max_steps && self.pc < self.program.len() && failure.is_none()
            invariant
                k <= max_steps,
                self.program == program,
                prog == program@,
                wf0 ==> self.well_formed(),
                match failure {
                    None => run_spec(prog, m0, max_steps as nat) == run_spec(
                        prog,
                        self.machine(),
                        (max_steps - k) as nat,
                    ),
                    Some(e) => run_spec(prog, m0, max_steps as nat) == Outcome::<T>::Failed(
                        self.machine(),
                        e,
                    ),
                },
            decreases max_steps - k,
        {
            let ghost before = self.machine();
            let res = self.step();
            match res {
                Err(e) => {
                    failure = Some(e);
                },
                Ok(()) => {
                    assert(run_spec(prog, before, (max_steps - k) as nat) == run_spec(
                        prog,
                        self.machine(),
                        (max_steps - k - 1) as nat,
                    ));
                },
            }
            k += 1;
        }
        if let Some(e) = failure {
            return Err(e);
        }
        Ok(self.pc >= self.program.len())
    }

    /// Run until the program finishes or a step fails. Runs of more than
    /// `usize::MAX` steps stop with `StepLimitExceeded`. After a failure the
    /// machine is as it stood before the failing step, for inspection.
    pub fn run(&mut self) -> (r: Result<(), VmError>)
        ensures
            final(self).program == old(self).program,
            old(self).well_formed() ==> final(self).well_formed(),
            match run_spec(old(self).program@, old(self).machine(), usize::MAX as nat) {
                Outcome::Finished(m) => r is Ok && final(self).machine() == m,
                Outcome::OutOfSteps(m) => r == Err::<(), VmError>(VmError::StepLimitExceeded)
                    && final(self).machine() == m,
                Outcome::Failed(m, e) => r == Err::<(), VmError>(e) && final(self).machine() == m,
            },
    {
        match self.run_bounded(usize::MAX) {
            Ok(true) => Ok(()),
            Ok(false) => Err(VmError::StepLimitExceeded),
            Err(e) => Err(e),
        }
    }

    /// Run a binary instruction: pop the right operand, then the left one,
    /// and push the result.
    fn binary(&mut self, ins: &Instruction<T>) -> (r: Result<(), VmError>)
        requires
            old(self).pc < old(self).program@.len(),
            old(self).program@[old(self).pc as int] == *ins,
            is_binary(*ins),
        ensures
            final(self).program == old(self).program,
            final(self).variables == old(self).variables,
            match step_spec(old(self).program@, old(self).machine()) {
                Ok(m) => r is Ok && final(self).machine() == m,
                Err(e) => r == Err::<(), VmError>(e) && final(self).machine() == old(self).machine(),
            },
    {
        let ghost m = self.machine();
        let ghost prog = self.program@;
        let n = self.stack.len();
        let len = self.program.len();
        assert(self.pc + 1 <= len);
        if n < 2 {
            return Err(VmError::StackUnderflow(op_name_of(ins)));
        }
        let right = self.stack[n - 1];
        let left = self.stack[n - 2];
        let res = match ins {
            Instruction::Add => left.num_add(right),
            Instruction::Subtract => left.num_sub(right),
            Instruction::Multiply => left.num_mul(right),
            Instruction::Divide => left.num_div(right),
            Instruction::Equal => Some(truth_value(left.num_eq(right))),
            Instruction::LessThan => Some(truth_value(left.num_lt(right))),
            _ => Some(truth_value(left.num_gt(right))),
        };
        match res {
            Some(v) => {
                self.stack.pop();
                self.stack.pop();
                self.stack.push(v);
                self.pc = self.pc + 1;
                assert(self.stack@ =~= step_spec(prog, m)->Ok_0.stack);
                Ok(())
            },
            None => Err(VmError::ArithmeticError(op_name_of(ins))),
        }
    }

    /// The call stack as text, innermost frame first.
    pub fn visualize_callstack(&self) -> (r: String)
        ensures
            r@ == callstack_text(self.call_stack@),
    {
        let mut out: Vec<char> = Vec::new();
        let n = self.call_stack.len();
        if n == 0 {
            push_str(&mut out, "(empty call stack)");
            return string_of(&out);
        }
        push_str(&mut out, "call stack:\n");
        let ghost header = out@;
        let mut k: usize = 0;
        while k < n
            invariant
                n == self.call_stack@.len(),
                k <= n,
                header == "call stack:\n"@,
                out@ == header + frame_lines(self.call_stack@, k as nat),
            decreases n - k,
        {
            let addr = self.call_stack[n - 1 - k].return_address;
            let ghost before = out@;
            push_str(&mut out, "  frame ");
            push_decimal(&mut out, k);
            push_str(&mut out, ": return address -> ");
            push_decimal(&mut out, addr);
            push_str(&mut out, "\n");
            assert(out@ =~= before + frame_line(k as nat, addr));
            k += 1;
        }
        string_of(&out)
    }

    /// Index of the binding of `name`, if any.
    fn find_var(&self, name: &String) -> (r: Option<usize>)
        ensures
            match r {
                Some(i) => i < self.variables@.len() && self.variables@[i as int].0@ == name@
                    && forall|j: int| 0 <= j < i ==> self.variables@[j].0@ != name@,
                None => forall|j: int|
                    0 <= j < self.variables@.len() ==> self.variables@[j].0@ != name@,
            },
    {
        let mut i: usize = 0;
        while i < self.variables.len()
            invariant
                i <= self.variables@.len(),
                forall|j: int| 0 <= j < i ==> self.variables@[j].0@ != name@,
            decreases self.variables@.len() - i,
        {
            if self.variables[i].0 == *name {
                return Some(i);
            }
            i += 1;
        }
        None
    }
}

} // verus!
