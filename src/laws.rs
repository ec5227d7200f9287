use vstd::prelude::*;

use crate::instruction::Instruction;
use crate::ir::{
    code_len, instr_views, is_marker, label_addr, lower_one, lower_prefix, lower_spec, resolve_one,
    resolve_prefix, resolve_spec, synth_label, AsmError, ControlKind, Pending, IR,
};
use crate::number::{is_zero, Number};
use crate::text::decimal_digits;
use crate::vm::{binary_result, op_name, run_spec, step_spec, Frame, Machine, Outcome, VmError};

verus! {

/// Faults of a single step: `Return` with no call to return from fails
/// with `CallStackEmpty`; a jump or call to an index at or past the end of
/// the program fails with `ProgramCounterOutOfBounds`; an instruction that
/// pops from an empty stack fails with `StackUnderflow` naming it.
pub proof fn law_runtime_faults<T: Number>(prog: Seq<Instruction<T>>, m: Machine<T>)
    requires
        0 <= m.pc < prog.len(),
    ensures
        prog[m.pc] is Return && m.frames.len() == 0 ==> step_spec(prog, m) == Err::<
            Machine<T>,
            VmError,
        >(VmError::CallStackEmpty),
        (prog[m.pc] is Jump && prog[m.pc]->Jump_0 >= prog.len()) || (prog[m.pc] is Call
            && prog[m.pc]->Call_0 >= prog.len()) ==> step_spec(prog, m) == Err::<
            Machine<T>,
            VmError,
        >(VmError::ProgramCounterOutOfBounds),
        m.stack.len() == 0 && (prog[m.pc] is Pop || prog[m.pc] is Dup || prog[m.pc] is Not
            || prog[m.pc] is Store || prog[m.pc] is ConditionalJump || prog[m.pc] is Add
            || prog[m.pc] is Subtract || prog[m.pc] is Multiply || prog[m.pc] is Divide
            || prog[m.pc] is Equal || prog[m.pc] is LessThan || prog[m.pc] is GreaterThan
            || prog[m.pc] is Swap) ==> step_spec(prog, m) == Err::<Machine<T>, VmError>(
            VmError::StackUnderflow(op_name(prog[m.pc])),
        ),
{
}

/// A call and its return balance: when the callee runs back to a `Return`
/// with the call stack as the call left it, that return resumes right
/// after the call with the call stack as it was before the call.
pub proof fn law_call_return_balance<T: Number>(
    prog: Seq<Instruction<T>>,
    m: Machine<T>,
    callee_end: Machine<T>,
)
    requires
        prog.len() <= usize::MAX,
        0 <= m.pc < prog.len(),
        prog[m.pc] is Call,
        step_spec(prog, m) is Ok,
        callee_end.frames == step_spec(prog, m)->Ok_0.frames,
        0 <= callee_end.pc < prog.len(),
        prog[callee_end.pc] is Return,
    ensures
        step_spec(prog, callee_end) is Ok,
        step_spec(prog, callee_end)->Ok_0.pc == m.pc + 1,
        step_spec(prog, callee_end)->Ok_0.frames == m.frames,
{
    let after = step_spec(prog, m)->Ok_0;
    assert(after.frames == m.frames.push(Frame { return_address: (m.pc + 1) as usize }));
    assert(after.frames.drop_last() =~= m.frames);
}

/// How many `Call`s and how many `Return`s the first `k` steps from `m`
/// run.
pub open spec fn calls_and_returns<T: Number>(prog: Seq<Instruction<T>>, m: Machine<T>, k: nat) -> (
    nat,
    nat,
)
    decreases k,
{
    if k == 0 || !(0 <= m.pc < prog.len()) {
        (0, 0)
    } else {
        match step_spec(prog, m) {
            Ok(m2) => {
                let (c, r) = calls_and_returns(prog, m2, (k - 1) as nat);
                if prog[m.pc] is Call {
                    (c + 1, r)
                } else if prog[m.pc] is Return {
                    (c, r + 1)
                } else {
                    (c, r)
                }
            },
            Err(_) => (0, 0),
        }
    }
}

proof fn lemma_frames_count<T: Number>(prog: Seq<Instruction<T>>, m: Machine<T>, k: nat)
    requires
        steps(prog, m, k) is Ok,
    ensures
        steps(prog, m, k)->Ok_0.frames.len() == m.frames.len() + calls_and_returns(prog, m, k).0
            - calls_and_returns(prog, m, k).1,
    decreases k,
{
    if k > 0 && 0 <= m.pc < prog.len() {
        let m2 = step_spec(prog, m)->Ok_0;
        lemma_frames_count(prog, m2, (k - 1) as nat);
        if prog[m.pc] is Call {
            assert(m2.frames.len() == m.frames.len() + 1);
        } else if prog[m.pc] is Return {
            assert(m2.frames.len() == m.frames.len() - 1);
        } else {
            assert(m2.frames == m.frames);
        }
    }
}

/// Calls and returns balance: over any run of steps that ends without a
/// fault and runs as many `Return`s as `Call`s, the call stack ends as it
/// started; from a fresh machine it ends empty.
pub proof fn law_balanced_calls_restore_call_stack<T: Number>(
    prog: Seq<Instruction<T>>,
    m: Machine<T>,
    k: nat,
)
    requires
        steps(prog, m, k) is Ok,
        calls_and_returns(prog, m, k).0 == calls_and_returns(prog, m, k).1,
    ensures
        steps(prog, m, k)->Ok_0.frames.len() == m.frames.len(),
{
    lemma_frames_count(prog, m, k);
}

proof fn lemma_run_more_fuel<T: Number>(prog: Seq<Instruction<T>>, m: Machine<T>, f: nat, g: nat)
    requires
        f <= g,
        run_spec(prog, m, f) is Finished,
    ensures
        run_spec(prog, m, g) == run_spec(prog, m, f),
    decreases f,
{
    if 0 <= m.pc < prog.len() {
        if let Ok(m2) = step_spec(prog, m) {
            lemma_run_more_fuel(prog, m2, (f - 1) as nat, (g - 1) as nat);
        }
    }
}

proof fn lemma_finished_run_steps<T: Number>(prog: Seq<Instruction<T>>, m: Machine<T>, f: nat)
    requires
        run_spec(prog, m, f) is Finished,
    ensures
        steps(prog, m, f) == Ok::<Machine<T>, VmError>(run_spec(prog, m, f)->Finished_0),
    decreases f,
{
    if 0 <= m.pc < prog.len() {
        if let Ok(m2) = step_spec(prog, m) {
            lemma_finished_run_steps(prog, m2, (f - 1) as nat);
        }
    }
}

/// Calls and returns balance over whole runs: a run that finishes, having
/// run as many `Return`s as `Call`s, ends with the call stack it started
/// with; from a fresh machine, with an empty one. With `usize::MAX` steps
/// this is what `VM::run` does.
pub proof fn law_finished_run_restores_call_stack<T: Number>(
    prog: Seq<Instruction<T>>,
    m: Machine<T>,
    fuel: nat,
)
    requires
        run_spec(prog, m, fuel) is Finished,
        calls_and_returns(prog, m, fuel).0 == calls_and_returns(prog, m, fuel).1,
    ensures
        run_spec(prog, m, fuel)->Finished_0.frames.len() == m.frames.len(),
{
    lemma_finished_run_steps(prog, m, fuel);
    lemma_frames_count(prog, m, fuel);
}

/// An arithmetic operator of the machine.
pub enum ArithOp {
    Add,
    Subtract,
    Multiply,
    Divide,
}

/// An arithmetic expression over constants.
pub enum Expr<T> {
    Lit(T),
    Bin(ArithOp, Box<Expr<T>>, Box<Expr<T>>),
}

pub open spec fn op_instruction<T>(op: ArithOp) -> Instruction<T> {
    match op {
        ArithOp::Add => Instruction::Add,
        ArithOp::Subtract => Instruction::Subtract,
        ArithOp::Multiply => Instruction::Multiply,
        ArithOp::Divide => Instruction::Divide,
    }
}

/// The value of an expression, evaluated directly with the value type's
/// operations; `None` where one of them cannot compute its result.
pub open spec fn eval<T: Number>(e: Expr<T>) -> Option<T>
    decreases e,
{
    match e {
        Expr::Lit(v) => Some(v),
        Expr::Bin(op, a, b) => match (eval(*a), eval(*b)) {
            (Some(x), Some(y)) => binary_result(op_instruction(op), x, y),
            _ => None,
        },
    }
}

/// The expression in postfix form: left operand, right operand, operator.
pub open spec fn code<T>(e: Expr<T>) -> Seq<Instruction<T>>
    decreases e,
{
    match e {
        Expr::Lit(v) => seq![Instruction::Push(v)],
        Expr::Bin(op, a, b) => code(*a) + code(*b) + seq![op_instruction::<T>(op)],
    }
}

/// Exactly `k` steps from `m`, stopping early where the program counter
/// leaves the program.
pub open spec fn steps<T: Number>(prog: Seq<Instruction<T>>, m: Machine<T>, k: nat) -> Result<
    Machine<T>,
    VmError,
>
    decreases k,
{
    if k == 0 || !(0 <= m.pc < prog.len()) {
        Ok(m)
    } else {
        match step_spec(prog, m) {
            Ok(m2) => steps(prog, m2, (k - 1) as nat),
            Err(e) => Err(e),
        }
    }
}

proof fn lemma_steps_compose<T: Number>(prog: Seq<Instruction<T>>, m: Machine<T>, a: nat, b: nat)
    requires
        steps(prog, m, a) is Ok,
    ensures
        steps(prog, m, a + b) == steps(prog, steps(prog, m, a)->Ok_0, b),
    decreases a,
{
    if a > 0 && 0 <= m.pc < prog.len() {
        lemma_steps_compose(prog, step_spec(prog, m)->Ok_0, (a - 1) as nat, b);
        assert((a + b - 1) as nat == (a - 1) as nat + b);
    } else if a > 0 {
        if b > 0 {
        }
    }
}

proof fn lemma_run_after_steps<T: Number>(prog: Seq<Instruction<T>>, m: Machine<T>, k: nat, fuel: nat)
    requires
        steps(prog, m, k) is Ok,
    ensures
        run_spec(prog, m, fuel + k) == run_spec(prog, steps(prog, m, k)->Ok_0, fuel),
    decreases k,
{
    if k > 0 && 0 <= m.pc < prog.len() {
        lemma_run_after_steps(prog, step_spec(prog, m)->Ok_0, (k - 1) as nat, fuel);
        assert((fuel + k - 1) as nat == fuel + (k - 1) as nat);
    }
}

proof fn lemma_code_runs<T: Number>(prog: Seq<Instruction<T>>, m: Machine<T>, e: Expr<T>)
    requires
        eval(e) is Some,
        0 <= m.pc,
        m.pc + code(e).len() <= prog.len(),
        prog.subrange(m.pc, m.pc + code(e).len()) == code(e),
    ensures
        steps(prog, m, code(e).len()) == Ok::<Machine<T>, VmError>(
            Machine { pc: m.pc + code(e).len(), stack: m.stack.push(eval(e)->Some_0), ..m },
        ),
    decreases e,
{
    let n = code(e).len();
    match e {
        Expr::Lit(v) => {
            assert(prog[m.pc] == code(e)[0]);
            let m1 = step_spec(prog, m)->Ok_0;
            assert(steps(prog, m1, 0) == Ok::<Machine<T>, VmError>(m1));
        },
        Expr::Bin(op, a, b) => {
            let ca = code(*a);
            let cb = code(*b);
            let x = eval(*a)->Some_0;
            let y = eval(*b)->Some_0;
            assert(code(e) == ca + cb + seq![op_instruction::<T>(op)]);
            assert(prog.subrange(m.pc, m.pc + ca.len()) =~= ca) by {
                assert forall|i: int| 0 <= i < ca.len() implies prog.subrange(m.pc, m.pc + ca.len())[i]
                    == ca[i] by {
                    assert(prog[m.pc + i] == code(e)[i]);
                }
            }
            lemma_code_runs(prog, m, *a);
            let m1 = Machine { pc: m.pc + ca.len(), stack: m.stack.push(x), ..m };
            assert(prog.subrange(m1.pc, m1.pc + cb.len()) =~= cb) by {
                assert forall|i: int| 0 <= i < cb.len() implies prog.subrange(m1.pc, m1.pc + cb.len())[i]
                    == cb[i] by {
                    assert(prog[m.pc + ca.len() + i] == code(e)[ca.len() + i]);
                }
            }
            lemma_code_runs(prog, m1, *b);
            let m2 = Machine { pc: m1.pc + cb.len(), stack: m1.stack.push(y), ..m1 };
            lemma_steps_compose(prog, m, ca.len(), cb.len());
            assert(prog[m2.pc] == code(e)[(ca.len() + cb.len()) as int]);
            let s2 = m2.stack;
            assert(s2[s2.len() - 2] == x);
            assert(s2[s2.len() - 1] == y);
            let m3 = step_spec(prog, m2)->Ok_0;
            assert(m3.stack =~= m.stack.push(eval(e)->Some_0));
            assert(steps(prog, m3, 0) == Ok::<Machine<T>, VmError>(m3));
            lemma_steps_compose(prog, m, ca.len() + cb.len(), 1);
            assert(ca.len() + cb.len() + 1 == n);
        },
    }
}

/// Running the postfix code of an expression, then `Halt`, on a fresh
/// machine finishes with exactly the expression's directly evaluated value
/// on the stack.
pub proof fn law_arithmetic_evaluates<T: Number>(e: Expr<T>)
    requires
        eval(e) is Some,
        code(e).len() < usize::MAX,
    ensures
        run_spec(
            code(e).push(Instruction::Halt),
            Machine {
                pc: 0,
                stack: Seq::empty(),
                frames: Seq::empty(),
                vars: Map::empty(),
                output: Seq::empty(),
            },
            usize::MAX as nat,
        ) == Outcome::Finished(
            Machine {
                pc: code(e).len() + 1 as int,
                stack: seq![eval(e)->Some_0],
                frames: Seq::empty(),
                vars: Map::empty(),
                output: Seq::empty(),
            },
        ),
{
    let prog = code(e).push(Instruction::Halt);
    let m0 = Machine::<T> {
        pc: 0,
        stack: Seq::empty(),
        frames: Seq::empty(),
        vars: Map::empty(),
        output: Seq::empty(),
    };
    let n = code(e).len();
    assert(prog.subrange(0, n as int) =~= code(e));
    lemma_code_runs(prog, m0, e);
    lemma_run_after_steps(prog, m0, n, 1);
    let m1 = steps(prog, m0, n)->Ok_0;
    assert(m1.stack =~= seq![eval(e)->Some_0]);
    assert(prog[n as int] == Instruction::<T>::Halt);
    let m2 = step_spec(prog, m1)->Ok_0;
    assert(run_spec(prog, m2, 0) == Outcome::Finished(m2));
    lemma_run_more_fuel(prog, m0, n + 1, usize::MAX as nat);
}

/// `pre`, then two label declarations, then `post`.
pub open spec fn with_labels<T>(
    pre: Seq<IR<T, Seq<char>>>,
    a: Seq<char>,
    b: Seq<char>,
    post: Seq<IR<T, Seq<char>>>,
) -> Seq<IR<T, Seq<char>>> {
    pre + seq![IR::Label(a), IR::Label(b)] + post
}

proof fn lemma_swap_code_len<T>(
    pre: Seq<IR<T, Seq<char>>>,
    a: Seq<char>,
    b: Seq<char>,
    post: Seq<IR<T, Seq<char>>>,
)
    ensures
        code_len(with_labels(pre, a, b, post)) == code_len(with_labels(pre, b, a, post)),
        code_len(with_labels(pre, a, b, post)) == code_len(pre) + code_len(post),
    decreases post.len(),
{
    let s1 = with_labels(pre, a, b, post);
    let s2 = with_labels(pre, b, a, post);
    if post.len() == 0 {
        let pa = pre.push(IR::Label(a));
        let pb = pre.push(IR::Label(b));
        assert(s1.drop_last() =~= pa);
        assert(s2.drop_last() =~= pb);
        assert(pa.drop_last() =~= pre);
        assert(pb.drop_last() =~= pre);
        assert(s1.last() is Label && s2.last() is Label);
        assert(code_len(pa) == code_len(pre));
        assert(code_len(pb) == code_len(pre));
        assert(code_len(post) == 0);
    } else {
        assert(s1.drop_last() =~= with_labels(pre, a, b, post.drop_last()));
        assert(s2.drop_last() =~= with_labels(pre, b, a, post.drop_last()));
        assert(s1.last() == post.last() && s2.last() == post.last());
        lemma_swap_code_len(pre, a, b, post.drop_last());
    }
}

proof fn lemma_swap_label_addr<T>(
    pre: Seq<IR<T, Seq<char>>>,
    a: Seq<char>,
    b: Seq<char>,
    post: Seq<IR<T, Seq<char>>>,
    n: Seq<char>,
)
    ensures
        label_addr(with_labels(pre, a, b, post), n) == label_addr(with_labels(pre, b, a, post), n),
    decreases post.len(),
{
    let s1 = with_labels(pre, a, b, post);
    let s2 = with_labels(pre, b, a, post);
    if post.len() == 0 {
        let pa = pre.push(IR::Label(a));
        let pb = pre.push(IR::Label(b));
        assert(s1.drop_last() =~= pa);
        assert(s2.drop_last() =~= pb);
        assert(pa.drop_last() =~= pre);
        assert(pb.drop_last() =~= pre);
        assert(s1.last() == IR::<T, Seq<char>>::Label(b));
        assert(s2.last() == IR::<T, Seq<char>>::Label(a));
        assert(pa.last() == IR::<T, Seq<char>>::Label(a));
        assert(pb.last() == IR::<T, Seq<char>>::Label(b));
        assert(code_len(pa) == code_len(pre));
        assert(code_len(pb) == code_len(pre));
        assert(label_addr(pa, n) == if a == n {
            Some(code_len(pre))
        } else {
            label_addr(pre, n)
        });
        assert(label_addr(pb, n) == if b == n {
            Some(code_len(pre))
        } else {
            label_addr(pre, n)
        });
        assert(label_addr(s1, n) == if b == n {
            Some(code_len(pa))
        } else {
            label_addr(pa, n)
        });
        assert(label_addr(s2, n) == if a == n {
            Some(code_len(pb))
        } else {
            label_addr(pb, n)
        });
    } else {
        assert(s1.drop_last() =~= with_labels(pre, a, b, post.drop_last()));
        assert(s2.drop_last() =~= with_labels(pre, b, a, post.drop_last()));
        assert(s1.last() == post.last() && s2.last() == post.last());
        lemma_swap_label_addr(pre, a, b, post.drop_last(), n);
        lemma_swap_code_len(pre, a, b, post.drop_last());
    }
}

proof fn lemma_swap_resolve_prefix<T>(
    pre: Seq<IR<T, Seq<char>>>,
    a: Seq<char>,
    b: Seq<char>,
    post: Seq<IR<T, Seq<char>>>,
    k: nat,
)
    requires
        k <= pre.len() + 2 + post.len(),
    ensures
        resolve_prefix(with_labels(pre, a, b, post), k) == resolve_prefix(
            with_labels(pre, b, a, post),
            k,
        ),
    decreases k,
{
    let s1 = with_labels(pre, a, b, post);
    let s2 = with_labels(pre, b, a, post);
    if k > 0 {
        lemma_swap_resolve_prefix(pre, a, b, post, (k - 1) as nat);
        let i = k - 1;
        if i == pre.len() || i == pre.len() + 1 {
            assert(s1[i] is Label && s2[i] is Label);
        } else {
            assert(s1[i] == s2[i]);
            match s1[i] {
                IR::Jump(n) => lemma_swap_label_addr(pre, a, b, post, n),
                IR::Call(n) => lemma_swap_label_addr(pre, a, b, post, n),
                IR::ConditionalJump(n) => lemma_swap_label_addr(pre, a, b, post, n),
                _ => {},
            }
        }
    }
}

/// Reordering label declarations that stand next to each other changes
/// nothing in the resolved program: every address, and whether resolution
/// succeeds, stay the same.
pub proof fn law_adjacent_labels_commute<T>(
    pre: Seq<IR<T, Seq<char>>>,
    a: Seq<char>,
    b: Seq<char>,
    post: Seq<IR<T, Seq<char>>>,
)
    ensures
        resolve_spec(with_labels(pre, a, b, post)) == resolve_spec(with_labels(pre, b, a, post)),
{
    lemma_swap_resolve_prefix(pre, a, b, post, pre.len() + 2 + post.len());
}

proof fn lemma_last_declaration<T>(s: Seq<IR<T, Seq<char>>>, j: int, name: Seq<char>)
    requires
        0 <= j < s.len(),
        s[j] == IR::<T, Seq<char>>::Label(name),
        forall|k: int| j < k < s.len() ==> s[k] != IR::<T, Seq<char>>::Label(name),
    ensures
        label_addr(s, name) == Some(code_len(s.take(j))),
    decreases s.len(),
{
    if j == s.len() - 1 {
        assert(s.drop_last() =~= s.take(j));
    } else {
        assert(s.drop_last().take(j) =~= s.take(j));
        lemma_last_declaration(s.drop_last(), j, name);
    }
}

proof fn lemma_code_len_step<T>(s: Seq<IR<T, Seq<char>>>, k: int)
    requires
        0 < k <= s.len(),
    ensures
        code_len(s.take(k)) == code_len(s.take(k - 1)) + if s[k - 1] is Label {
            0nat
        } else {
            1nat
        },
{
    assert(s.take(k).drop_last() =~= s.take(k - 1));
}

proof fn lemma_resolved_position<T>(s: Seq<IR<T, Seq<char>>>, k: nat, i: int)
    requires
        k <= s.len(),
        forall|x: int| 0 <= x < s.len() ==> !is_marker(#[trigger] s[x]),
        resolve_prefix(s, k) is Ok,
    ensures
        resolve_prefix(s, k)->Ok_0.len() == code_len(s.take(k as int)),
        0 <= i < k && !(s[i] is Label) ==> resolve_one(s, s[i]) is Ok && resolve_prefix(
            s,
            k,
        )->Ok_0[code_len(s.take(i)) as int] == resolve_one(s, s[i])->Ok_0->Some_0,
    decreases k,
{
    if k == 0 {
        assert(s.take(0) =~= Seq::<IR<T, Seq<char>>>::empty());
    } else {
        assert(resolve_prefix(s, (k - 1) as nat) is Ok);
        lemma_resolved_position(s, (k - 1) as nat, i);
        lemma_code_len_step(s, k as int);
        assert(!is_marker(s[k - 1]));
        let prev = resolve_prefix(s, (k - 1) as nat)->Ok_0;
        if !(s[k - 1] is Label) {
            assert(resolve_one(s, s[k - 1]) is Ok);
            assert(resolve_one(s, s[k - 1])->Ok_0 is Some);
            assert(resolve_prefix(s, k)->Ok_0 == prev.push(resolve_one(s, s[k - 1])->Ok_0->Some_0));
        } else {
            assert(resolve_prefix(s, k)->Ok_0 == prev);
        }
        if 0 <= i < k - 1 && !(s[i] is Label) {
            lemma_code_len_mono(s, i + 1, k - 1);
            lemma_code_len_step(s, i + 1);
        }
    }
}

proof fn lemma_code_len_mono<T>(s: Seq<IR<T, Seq<char>>>, i: int, k: int)
    requires
        0 <= i <= k <= s.len(),
    ensures
        code_len(s.take(i)) <= code_len(s.take(k)),
    decreases k - i,
{
    if i < k {
        lemma_code_len_mono(s, i, k - 1);
        lemma_code_len_step(s, k);
    }
}

/// The final instruction a jump, call or conditional jump becomes once
/// its target is `a`.
pub open spec fn retarget<T>(x: IR<T, Seq<char>>, a: usize) -> Instruction<T, Seq<char>> {
    match x {
        IR::Call(_) => Instruction::Call(a),
        IR::ConditionalJump(_) => Instruction::ConditionalJump(a),
        _ => Instruction::Jump(a),
    }
}

/// A jump, call or conditional jump resolves to the address of the last
/// declaration of its label, whether that declaration stands before the
/// reference or after it.
pub proof fn law_reference_resolves_to_declaration<T>(
    s: Seq<IR<T, Seq<char>>>,
    i: int,
    j: int,
    name: Seq<char>,
)
    requires
        forall|x: int| 0 <= x < s.len() ==> !is_marker(#[trigger] s[x]),
        0 <= i < s.len(),
        0 <= j < s.len(),
        s[i] == IR::<T, Seq<char>>::Jump(name) || s[i] == IR::<T, Seq<char>>::Call(name) || s[i]
            == IR::<T, Seq<char>>::ConditionalJump(name),
        s[j] == IR::<T, Seq<char>>::Label(name),
        forall|k: int| j < k < s.len() ==> s[k] != IR::<T, Seq<char>>::Label(name),
        resolve_spec(s) is Ok,
        s.len() <= usize::MAX,
    ensures
        resolve_spec(s)->Ok_0[code_len(s.take(i)) as int] == retarget(
            s[i],
            code_len(s.take(j)) as usize,
        ),
{
    lemma_last_declaration(s, j, name);
    lemma_resolved_position(s, s.len(), i);
}

pub open spec fn fresh_machine<T>() -> Machine<T> {
    Machine {
        pc: 0,
        stack: Seq::empty(),
        frames: Seq::empty(),
        vars: Map::empty(),
        output: Seq::empty(),
    }
}

proof fn lemma_decimal_shape(n: nat)
    ensures
        decimal_digits(n).len() >= 1,
        n < 10 <==> decimal_digits(n).len() == 1,
    decreases n,
{
    if n >= 10 {
        lemma_decimal_shape(n / 10);
    }
}

proof fn lemma_decimal_injective(a: nat, b: nat)
    requires
        decimal_digits(a) == decimal_digits(b),
    ensures
        a == b,
    decreases a,
{
    lemma_decimal_shape(a);
    lemma_decimal_shape(b);
    let da = decimal_digits(a);
    if a < 10 {
        assert(b < 10);
        assert(da[0] == (a + 48) as char);
        assert(decimal_digits(b)[0] == (b + 48) as char);
        assert(((a + 48) as char) as u32 == a + 48);
        assert(((b + 48) as char) as u32 == b + 48);
    } else {
        assert(b >= 10);
        assert(da.last() == ((a % 10) + 48) as char);
        assert(decimal_digits(b).last() == ((b % 10) + 48) as char);
        assert(((a % 10 + 48) as char) as u32 == a % 10 + 48);
        assert(((b % 10 + 48) as char) as u32 == b % 10 + 48);
        assert(da.drop_last() == decimal_digits(a / 10));
        assert(decimal_digits(b).drop_last() == decimal_digits(b / 10));
        lemma_decimal_injective(a / 10, b / 10);
        assert(a % 10 == b % 10);
        assert(a == 10 * (a / 10) + a % 10);
        assert(b == 10 * (b / 10) + b % 10);
    }
}

proof fn lemma_synth_label_injective(a: nat, b: nat)
    requires
        a != b,
    ensures
        synth_label(a) != synth_label(b),
{
    if synth_label(a) == synth_label(b) {
        assert(synth_label(a).subrange(2, synth_label(a).len() as int) =~= decimal_digits(a));
        assert(synth_label(b).subrange(2, synth_label(b).len() as int) =~= decimal_digits(b));
        lemma_decimal_injective(a, b);
    }
}

/// A final instruction an expression's code is made of.
pub open spec fn is_arith<T>(i: Instruction<T>) -> bool {
    i is Push || i is Add || i is Subtract || i is Multiply || i is Divide
}

/// The source instruction a final arithmetic instruction comes from.
pub open spec fn as_ir<T>(i: Instruction<T>) -> IR<T, Seq<char>> {
    match i {
        Instruction::Push(v) => IR::Push(v),
        Instruction::Add => IR::Add,
        Instruction::Subtract => IR::Subtract,
        Instruction::Multiply => IR::Multiply,
        _ => IR::Divide,
    }
}

/// An expression's code as source instructions.
pub open spec fn ir_code<T>(e: Expr<T>) -> Seq<IR<T, Seq<char>>> {
    code(e).map_values(|i: Instruction<T>| as_ir(i))
}

proof fn lemma_code_arith<T>(e: Expr<T>)
    ensures
        forall|i: int| 0 <= i < code(e).len() ==> is_arith(#[trigger] code(e)[i]),
    decreases e,
{
    match e {
        Expr::Lit(_) => {},
        Expr::Bin(op, a, b) => {
            lemma_code_arith(*a);
            lemma_code_arith(*b);
            let ca = code(*a);
            let cb = code(*b);
            assert forall|i: int| 0 <= i < code(e).len() implies is_arith(#[trigger] code(e)[i]) by {
                if i < ca.len() {
                    assert(code(e)[i] == ca[i]);
                } else if i < ca.len() + cb.len() {
                    assert(code(e)[i] == cb[i - ca.len()]);
                }
            }
        },
    }
}

/// Label resolution of the entries of `s`, with labels looked up in `all`.
spec fn resolve_seq<T>(all: Seq<IR<T, Seq<char>>>, s: Seq<IR<T, Seq<char>>>) -> Result<
    Seq<Instruction<T, Seq<char>>>,
    AsmError<Seq<char>>,
>
    decreases s.len(),
{
    if s.len() == 0 {
        Ok(Seq::empty())
    } else {
        match resolve_seq(all, s.drop_last()) {
            Err(e) => Err(e),
            Ok(v) => match resolve_one(all, s.last()) {
                Err(e) => Err(e),
                Ok(None) => Ok(v),
                Ok(Some(i)) => Ok(v.push(i)),
            },
        }
    }
}

proof fn lemma_resolve_prefix_seq<T>(all: Seq<IR<T, Seq<char>>>, k: nat)
    requires
        k <= all.len(),
    ensures
        resolve_prefix(all, k) == resolve_seq(all, all.take(k as int)),
    decreases k,
{
    if k > 0 {
        lemma_resolve_prefix_seq(all, (k - 1) as nat);
        assert(all.take(k as int).drop_last() =~= all.take(k - 1));
    } else {
        assert(all.take(0) =~= Seq::<IR<T, Seq<char>>>::empty());
    }
}

proof fn lemma_resolve_concat<T>(
    all: Seq<IR<T, Seq<char>>>,
    x: Seq<IR<T, Seq<char>>>,
    y: Seq<IR<T, Seq<char>>>,
)
    requires
        resolve_seq(all, x) is Ok,
        resolve_seq(all, y) is Ok,
    ensures
        resolve_seq(all, x + y) == Ok::<_, AsmError<Seq<char>>>(
            resolve_seq(all, x)->Ok_0 + resolve_seq(all, y)->Ok_0,
        ),
    decreases y.len(),
{
    if y.len() == 0 {
        assert(x + y =~= x);
        assert(resolve_seq(all, x)->Ok_0 + resolve_seq(all, y)->Ok_0 =~= resolve_seq(all, x)->Ok_0);
    } else {
        assert((x + y).drop_last() =~= x + y.drop_last());
        assert((x + y).last() == y.last());
        lemma_resolve_concat(all, x, y.drop_last());
        let rx = resolve_seq(all, x)->Ok_0;
        let ry = resolve_seq(all, y.drop_last())->Ok_0;
        match resolve_one(all, y.last()) {
            Ok(Some(i)) => {
                assert(rx + ry.push(i) =~= (rx + ry).push(i));
            },
            _ => {},
        }
    }
}

proof fn lemma_resolve_arith<T: Copy>(all: Seq<IR<T, Seq<char>>>, s: Seq<Instruction<T>>)
    requires
        forall|i: int| 0 <= i < s.len() ==> is_arith(#[trigger] s[i]),
    ensures
        resolve_seq(all, s.map_values(|i: Instruction<T>| as_ir(i))) == Ok::<
            _,
            AsmError<Seq<char>>,
        >(instr_views(s)),
    decreases s.len(),
{
    let f = |i: Instruction<T>| as_ir(i);
    if s.len() == 0 {
        assert(s.map_values(f) =~= Seq::<IR<T, Seq<char>>>::empty());
        assert(instr_views(s) =~= Seq::<Instruction<T, Seq<char>>>::empty());
    } else {
        lemma_resolve_arith(all, s.drop_last());
        assert(s.map_values(f).drop_last() =~= s.drop_last().map_values(f));
        assert(instr_views(s) =~= instr_views(s.drop_last()).push(s.last()@));
        assert(is_arith(s.last()));
        assert(s.map_values(f).last() == as_ir(s.last()));
    }
}

proof fn lemma_code_len_concat<T>(x: Seq<IR<T, Seq<char>>>, y: Seq<IR<T, Seq<char>>>)
    ensures
        code_len(x + y) == code_len(x) + code_len(y),
    decreases y.len(),
{
    if y.len() == 0 {
        assert(x + y =~= x);
    } else {
        assert((x + y).drop_last() =~= x + y.drop_last());
        assert((x + y).last() == y.last());
        lemma_code_len_concat(x, y.drop_last());
    }
}

proof fn lemma_code_len_no_labels<T>(x: Seq<IR<T, Seq<char>>>)
    requires
        forall|i: int| 0 <= i < x.len() ==> !(#[trigger] x[i] is Label),
    ensures
        code_len(x) == x.len(),
    decreases x.len(),
{
    if x.len() > 0 {
        lemma_code_len_no_labels(x.drop_last());
    }
}

proof fn lemma_lower_append_plain<T>(p: Seq<IR<T, Seq<char>>>, blk: Seq<IR<T, Seq<char>>>)
    requires
        lower_prefix(p) is Ok,
        forall|i: int| 0 <= i < blk.len() ==> !is_marker(#[trigger] blk[i]),
    ensures
        lower_prefix(p + blk) == Ok::<_, AsmError<Seq<char>>>(
            (lower_prefix(p)->Ok_0.0 + blk, lower_prefix(p)->Ok_0.1),
        ),
    decreases blk.len(),
{
    if blk.len() == 0 {
        assert(p + blk =~= p);
        assert(lower_prefix(p)->Ok_0.0 + blk =~= lower_prefix(p)->Ok_0.0);
    } else {
        lemma_lower_append_plain(p, blk.drop_last());
        assert((p + blk).drop_last() =~= p + blk.drop_last());
        assert((p + blk).last() == blk.last());
        assert(!is_marker(blk.last()));
        let o = lower_prefix(p)->Ok_0.0;
        assert((o + blk.drop_last()).push(blk.last()) =~= o + blk);
    }
}

/// `PUSH c`, `IF`, the code of `a`, `ELSE`, the code of `b`, `ENDIF`,
/// `PUSH s`, `HALT`.
pub open spec fn branch_source<T>(c: T, a: Expr<T>, b: Expr<T>, s: T) -> Seq<IR<T, Seq<char>>> {
    seq![IR::Push(c), IR::If] + ir_code(a) + seq![IR::Else] + ir_code(b) + seq![
        IR::EndIf,
        IR::Push(s),
        IR::Halt,
    ]
}

proof fn lemma_ir_code_plain<T>(e: Expr<T>)
    ensures
        ir_code(e).len() == code(e).len(),
        forall|i: int|
            0 <= i < ir_code(e).len() ==> !is_marker(#[trigger] ir_code(e)[i]) && !(ir_code(
                e,
            )[i] is Label),
{
}

proof fn lemma_same_instruction<T: Copy>(x: Instruction<T>, y: Instruction<T>)
    requires
        !(x is Store || x is Load),
        y@ == x@,
    ensures
        y == x,
{
}

/// The lowered form of `branch_source(c, a, b, s)`.
pub open spec fn branch_lowered<T>(c: T, a: Expr<T>, b: Expr<T>, s: T) -> Seq<IR<T, Seq<char>>> {
    let na = code(a).len();
    let nb = code(b).len();
    let l1 = synth_label((2 + na) as nat);
    let l2 = synth_label((4 + na + nb) as nat);
    seq![IR::Push(c), IR::ConditionalJump(l1)] + ir_code(a) + seq![IR::Jump(l2), IR::Label(l1)]
        + ir_code(b) + seq![IR::Label(l2), IR::Push(s), IR::Halt]
}

proof fn lemma_lower_push<T>(p: Seq<IR<T, Seq<char>>>, x: IR<T, Seq<char>>)
    ensures
        lower_prefix(p.push(x)) == match lower_prefix(p) {
            Err(e) => Err(e),
            Ok((o, q)) => lower_one(o, q, x),
        },
{
    assert(p.push(x).drop_last() =~= p);
}

proof fn lemma_lower_else<T>(o: Seq<IR<T, Seq<char>>>, l: Seq<char>)
    requires
        o.len() >= 2,
        l == synth_label(o.len()),
    ensures
        lower_one(
            o,
            seq![Pending { kind: ControlKind::If, site: 1, head: Seq::empty() }],
            IR::Else,
        ) == Ok::<_, AsmError<Seq<char>>>(
            (
                o.update(1, IR::ConditionalJump(l)).push(IR::Jump(Seq::empty())).push(IR::Label(l)),
                seq![
                    Pending {
                        kind: ControlKind::Else,
                        site: o.len(),
                        head: Seq::empty(),
                    },
                ],
            ),
        ),
{
    let open0 = seq![Pending { kind: ControlKind::If, site: 1, head: Seq::<char>::empty() }];
    assert(open0.drop_last().push(
        Pending { kind: ControlKind::Else, site: o.len(), head: Seq::empty() },
    ) =~= seq![
        Pending { kind: ControlKind::Else, site: o.len(), head: Seq::empty() },
    ]);
}

proof fn lemma_lower_endif<T>(o: Seq<IR<T, Seq<char>>>, site: nat, l: Seq<char>)
    requires
        site < o.len(),
        l == synth_label(o.len()),
    ensures
        lower_one(
            o,
            seq![Pending { kind: ControlKind::Else, site, head: Seq::empty() }],
            IR::EndIf,
        ) == Ok::<_, AsmError<Seq<char>>>(
            (o.update(site as int, IR::Jump(l)).push(IR::Label(l)), Seq::<Pending>::empty()),
        ),
{
    let open2 = seq![Pending { kind: ControlKind::Else, site, head: Seq::<char>::empty() }];
    assert(open2.drop_last() =~= Seq::<Pending>::empty());
}

proof fn lemma_branch_lowering<T>(c: T, a: Expr<T>, b: Expr<T>, s: T)
    ensures
        lower_spec(branch_source(c, a, b, s)) == Ok::<_, AsmError<Seq<char>>>(
            branch_lowered(c, a, b, s),
        ),
{
    let src = branch_source(c, a, b, s);
    let ia = ir_code(a);
    let ib = ir_code(b);
    lemma_ir_code_plain(a);
    lemma_ir_code_plain(b);
    let na = ia.len();
    let nb = ib.len();
    let l1 = synth_label((2 + na) as nat);
    let l2 = synth_label((4 + na + nb) as nat);
    let empty = Seq::<char>::empty();
    let e0 = Seq::<IR<T, Seq<char>>>::empty();
    let open0 = seq![Pending { kind: ControlKind::If, site: 1, head: empty }];
    let p0 = e0.push(IR::Push(c)).push(IR::If);
    let o0 = e0.push(IR::Push(c)).push(IR::ConditionalJump(empty));
    lemma_lower_push(e0, IR::Push(c));
    lemma_lower_push(e0.push(IR::Push(c)), IR::If);
    assert(lower_prefix(e0) == Ok::<_, AsmError<Seq<char>>>(
        (e0, Seq::<Pending>::empty()),
    ));
    assert(Seq::<Pending>::empty().push(
        Pending { kind: ControlKind::If, site: 1, head: empty },
    ) =~= open0);
    assert(lower_prefix(p0) == Ok::<_, AsmError<Seq<char>>>((o0, open0)));
    lemma_lower_append_plain(p0, ia);
    let p2 = (p0 + ia).push(IR::Else);
    lemma_lower_push(p0 + ia, IR::Else);
    lemma_lower_else(o0 + ia, l1);
    let o2 = (o0 + ia).update(1, IR::ConditionalJump(l1)).push(IR::Jump(empty)).push(IR::Label(l1));
    let open2 = seq![Pending { kind: ControlKind::Else, site: (2 + na) as nat, head: empty }];
    assert(lower_prefix(p2) == Ok::<_, AsmError<Seq<char>>>((o2, open2)));
    lemma_lower_append_plain(p2, ib);
    let p3 = (p2 + ib).push(IR::EndIf);
    lemma_lower_push(p2 + ib, IR::EndIf);
    lemma_lower_endif(o2 + ib, (2 + na) as nat, l2);
    let o3 = (o2 + ib).update(2 + na as int, IR::Jump(l2)).push(IR::Label(l2));
    let none = Seq::<Pending>::empty();
    assert(lower_prefix(p3) == Ok::<_, AsmError<Seq<char>>>((o3, none)));
    let p4 = p3.push(IR::Push(s));
    lemma_lower_push(p3, IR::Push(s));
    lemma_lower_push(p4, IR::Halt);
    let p5 = p4.push(IR::Halt);
    let o5 = o3.push(IR::Push(s)).push(IR::Halt);
    assert(lower_prefix(p5) == Ok::<_, AsmError<Seq<char>>>((o5, none)));
    assert(src =~= p5);
    let x1 = seq![IR::Push(c), IR::ConditionalJump(l1)];
    let x2 = seq![IR::Jump(l2), IR::Label(l1)];
    let x3 = seq![IR::Label(l2), IR::Push(s), IR::Halt];
    let low = x1 + ia + x2 + ib + x3;
    assert(o5 =~= low);
    assert(low == branch_lowered(c, a, b, s));
}

/// The program `branch_source(c, a, b, s)` assembles to.
pub open spec fn branch_code<T: Copy>(c: T, a: Expr<T>, b: Expr<T>, s: T) -> Seq<
    Instruction<T, Seq<char>>,
> {
    let na = code(a).len();
    let nb = code(b).len();
    seq![Instruction::Push(c), Instruction::ConditionalJump((3 + na) as usize)] + instr_views(code(a))
        + seq![Instruction::Jump((3 + na + nb) as usize)] + instr_views(code(b)) + seq![
        Instruction::Push(s),
        Instruction::Halt,
    ]
}

proof fn lemma_resolve_seq_push<T>(
    all: Seq<IR<T, Seq<char>>>,
    p: Seq<IR<T, Seq<char>>>,
    x: IR<T, Seq<char>>,
)
    ensures
        resolve_seq(all, p.push(x)) == match resolve_seq(all, p) {
            Err(e) => Err(e),
            Ok(v) => match resolve_one(all, x) {
                Err(e) => Err(e),
                Ok(None) => Ok(v),
                Ok(Some(i)) => Ok(v.push(i)),
            },
        },
{
    assert(p.push(x).drop_last() =~= p);
}

proof fn lemma_branch_addresses<T>(c: T, a: Expr<T>, b: Expr<T>, s: T)
    ensures
        label_addr(branch_lowered(c, a, b, s), synth_label((2 + code(a).len()) as nat)) == Some(
            (3 + code(a).len()) as nat,
        ),
        label_addr(
            branch_lowered(c, a, b, s),
            synth_label((4 + code(a).len() + code(b).len()) as nat),
        ) == Some((3 + code(a).len() + code(b).len()) as nat),
{
    let low = branch_lowered(c, a, b, s);
    let ia = ir_code(a);
    let ib = ir_code(b);
    lemma_ir_code_plain(a);
    lemma_ir_code_plain(b);
    let na = ia.len();
    let nb = ib.len();
    let l1 = synth_label((2 + na) as nat);
    let l2 = synth_label((4 + na + nb) as nat);
    lemma_synth_label_injective((2 + na) as nat, (4 + na + nb) as nat);
    let x1 = seq![IR::Push(c), IR::ConditionalJump(l1)];
    let x2 = seq![IR::Jump(l2), IR::Label(l1)];
    let x3 = seq![IR::Label(l2), IR::Push(s), IR::Halt];
    assert(low == x1 + ia + x2 + ib + x3);
    let j1 = 3 + na;
    let j2 = 4 + na + nb;
    assert(low[j1 as int] == IR::<T, Seq<char>>::Label(l1));
    assert forall|k: int| j1 < k < low.len() implies low[k] != IR::<T, Seq<char>>::Label(l1) by {
        if k < j2 {
            assert(low[k] == ib[k - j1 - 1]);
        }
    }
    lemma_last_declaration(low, j1 as int, l1);
    assert(low[j2 as int] == IR::<T, Seq<char>>::Label(l2));
    lemma_last_declaration(low, j2 as int, l2);
    let jump = seq![IR::<T, Seq<char>>::Jump(l2)];
    assert(low.take(j1 as int) =~= x1 + ia + jump);
    assert(low.take(j2 as int) =~= x1 + ia + x2 + ib);
    lemma_code_len_no_labels(x1);
    lemma_code_len_no_labels(ia);
    lemma_code_len_no_labels(ib);
    lemma_code_len_no_labels(jump);
    lemma_code_len_concat(x1, ia);
    lemma_code_len_concat(x1 + ia, jump);
    assert(x2.drop_last() =~= jump);
    assert(code_len(x2) == 1);
    lemma_code_len_concat(x1 + ia, x2);
    lemma_code_len_concat(x1 + ia + x2, ib);
}

proof fn lemma_branch_resolution<T: Copy>(c: T, a: Expr<T>, b: Expr<T>, s: T)
    ensures
        resolve_spec(branch_lowered(c, a, b, s)) == Ok::<_, AsmError<Seq<char>>>(
            branch_code(c, a, b, s),
        ),
{
    let low = branch_lowered(c, a, b, s);
    let ia = ir_code(a);
    let ib = ir_code(b);
    lemma_ir_code_plain(a);
    lemma_ir_code_plain(b);
    lemma_code_arith(a);
    lemma_code_arith(b);
    let na = ia.len();
    let nb = ib.len();
    let l1 = synth_label((2 + na) as nat);
    let l2 = synth_label((4 + na + nb) as nat);
    lemma_branch_addresses(c, a, b, s);
    let e0 = Seq::<IR<T, Seq<char>>>::empty();
    let x1 = e0.push(IR::Push(c)).push(IR::ConditionalJump(l1));
    let x2 = e0.push(IR::Jump(l2)).push(IR::Label(l1));
    let x3 = e0.push(IR::Label(l2)).push(IR::Push(s)).push(IR::Halt);
    assert(low =~= x1 + ia + x2 + ib + x3);
    lemma_resolve_prefix_seq(low, low.len());
    assert(low.take(low.len() as int) =~= low);
    let v0 = Seq::<Instruction<T, Seq<char>>>::empty();
    lemma_resolve_seq_push(low, e0, IR::Push(c));
    lemma_resolve_seq_push(low, e0.push(IR::Push(c)), IR::ConditionalJump(l1));
    let r1 = v0.push(Instruction::Push(c)).push(Instruction::ConditionalJump((3 + na) as usize));
    assert(resolve_seq(low, x1) == Ok::<_, AsmError<Seq<char>>>(r1));
    lemma_resolve_seq_push(low, e0, IR::Jump(l2));
    lemma_resolve_seq_push(low, e0.push(IR::Jump(l2)), IR::Label(l1));
    let r2 = v0.push(Instruction::Jump((3 + na + nb) as usize));
    assert(resolve_seq(low, x2) == Ok::<_, AsmError<Seq<char>>>(r2));
    lemma_resolve_seq_push(low, e0, IR::Label(l2));
    lemma_resolve_seq_push(low, e0.push(IR::Label(l2)), IR::Push(s));
    lemma_resolve_seq_push(low, e0.push(IR::Label(l2)).push(IR::Push(s)), IR::Halt);
    let r3 = v0.push(Instruction::Push(s)).push(Instruction::Halt);
    assert(resolve_seq(low, x3) == Ok::<_, AsmError<Seq<char>>>(r3));
    lemma_resolve_arith(low, code(a));
    lemma_resolve_arith(low, code(b));
    lemma_resolve_concat(low, x1, ia);
    lemma_resolve_concat(low, x1 + ia, x2);
    lemma_resolve_concat(low, x1 + ia + x2, ib);
    lemma_resolve_concat(low, x1 + ia + x2 + ib, x3);
    assert(r1 + instr_views(code(a)) + r2 + instr_views(code(b)) + r3 =~= branch_code(c, a, b, s));
}

proof fn lemma_branch_run<T: Number>(c: T, a: Expr<T>, b: Expr<T>, s: T, prog: Seq<Instruction<T>>)
    requires
        instr_views(prog) == branch_code(c, a, b, s),
        prog.len() <= usize::MAX,
        if is_zero(c) {
            eval(b) is Some
        } else {
            eval(a) is Some
        },
    ensures
        run_spec(prog, fresh_machine(), prog.len()) == Outcome::Finished(
            Machine {
                pc: prog.len() as int,
                stack: if is_zero(c) {
                    seq![eval(b)->Some_0, s]
                } else {
                    seq![eval(a)->Some_0, s]
                },
                ..fresh_machine::<T>()
            },
        ),
{
    let ca = code(a);
    let cb = code(b);
    lemma_code_arith(a);
    lemma_code_arith(b);
    let na = ca.len() as int;
    let nb = cb.len() as int;
    let bc = branch_code(c, a, b, s);
    assert(instr_views(prog).len() == prog.len());
    let len = prog.len() as int;
    assert(len == 5 + na + nb);
    assert forall|i: int| 0 <= i < len implies #[trigger] prog[i]@ == bc[i] by {
        assert(instr_views(prog)[i] == prog[i]@);
    }
    assert(prog[0] == Instruction::<T>::Push(c)) by {
        lemma_same_instruction(Instruction::<T>::Push(c), prog[0]);
    }
    assert(prog[1] == Instruction::<T>::ConditionalJump((3 + na) as usize)) by {
        lemma_same_instruction(Instruction::<T>::ConditionalJump((3 + na) as usize), prog[1]);
    }
    assert(prog[2 + na] == Instruction::<T>::Jump((3 + na + nb) as usize)) by {
        lemma_same_instruction(Instruction::<T>::Jump((3 + na + nb) as usize), prog[2 + na]);
    }
    assert(prog[3 + na + nb] == Instruction::<T>::Push(s)) by {
        lemma_same_instruction(Instruction::<T>::Push(s), prog[3 + na + nb]);
    }
    assert(prog[4 + na + nb] == Instruction::<T>::Halt) by {
        lemma_same_instruction(Instruction::<T>::Halt, prog[4 + na + nb]);
    }
    assert(prog.subrange(2, 2 + na) =~= ca) by {
        assert forall|t: int| 0 <= t < na implies prog[2 + t] == ca[t] by {
            assert(bc[2 + t] == ca[t]@);
            assert(prog[2 + t]@ == bc[2 + t]);
            lemma_same_instruction(ca[t], prog[2 + t]);
        }
    }
    assert(prog.subrange(3 + na, 3 + na + nb) =~= cb) by {
        assert forall|t: int| 0 <= t < nb implies prog[3 + na + t] == cb[t] by {
            assert(bc[3 + na + t] == cb[t]@);
            assert(prog[3 + na + t]@ == bc[3 + na + t]);
            lemma_same_instruction(cb[t], prog[3 + na + t]);
        }
    }
    let m0 = fresh_machine::<T>();
    let m1 = step_spec(prog, m0)->Ok_0;
    let m2 = step_spec(prog, m1)->Ok_0;
    assert(run_spec(prog, m0, len as nat) == run_spec(prog, m1, (len - 1) as nat));
    assert(run_spec(prog, m1, (len - 1) as nat) == run_spec(prog, m2, (len - 2) as nat));
    assert(m2.stack =~= Seq::<T>::empty());
    if is_zero(c) {
        assert(m2.pc == 3 + na);
        lemma_code_runs(prog, m2, b);
        let fuel = (len - 2 - nb) as nat;
        lemma_run_after_steps(prog, m2, nb as nat, fuel);
        let m3 = steps(prog, m2, nb as nat)->Ok_0;
        assert((fuel + nb) as nat == (len - 2) as nat);
        let m4 = step_spec(prog, m3)->Ok_0;
        let m5 = step_spec(prog, m4)->Ok_0;
        assert(run_spec(prog, m3, fuel) == run_spec(prog, m4, (fuel - 1) as nat));
        assert(run_spec(prog, m4, (fuel - 1) as nat) == run_spec(prog, m5, (fuel - 2) as nat));
        assert(m4.stack =~= seq![eval(b)->Some_0, s]);
        assert(run_spec(prog, m5, (fuel - 2) as nat) == Outcome::Finished(m5));
    } else {
        assert(m2.pc == 2);
        lemma_code_runs(prog, m2, a);
        let fuel = (len - 2 - na) as nat;
        lemma_run_after_steps(prog, m2, na as nat, fuel);
        let m3 = steps(prog, m2, na as nat)->Ok_0;
        assert((fuel + na) as nat == (len - 2) as nat);
        let m4 = step_spec(prog, m3)->Ok_0;
        let m5 = step_spec(prog, m4)->Ok_0;
        let m6 = step_spec(prog, m5)->Ok_0;
        assert(run_spec(prog, m3, fuel) == run_spec(prog, m4, (fuel - 1) as nat));
        assert(run_spec(prog, m4, (fuel - 1) as nat) == run_spec(prog, m5, (fuel - 2) as nat));
        assert(run_spec(prog, m5, (fuel - 2) as nat) == run_spec(prog, m6, (fuel - 3) as nat));
        assert(m5.stack =~= seq![eval(a)->Some_0, s]);
        assert(run_spec(prog, m6, (fuel - 3) as nat) == Outcome::Finished(m6));
    }
}

/// An `IF/ELSE/ENDIF` runs only the branch its condition picks, and both
/// branches go on at the same join point. Assembling `PUSH c`, `IF`, the
/// code of `a`, `ELSE`, the code of `b`, `ENDIF`, `PUSH s`, `HALT`
/// succeeds, and the program finishes with `[a's value, s]` on the stack
/// for a non-zero `c` and with `[b's value, s]` for a zero `c`.
pub proof fn law_if_else_runs_one_branch<T: Number>(
    c: T,
    a: Expr<T>,
    b: Expr<T>,
    s: T,
    prog: Seq<Instruction<T>>,
)
    requires
        if is_zero(c) {
            eval(b) is Some
        } else {
            eval(a) is Some
        },
        instr_views(prog) == resolve_spec(lower_spec(branch_source(c, a, b, s))->Ok_0)->Ok_0,
        prog.len() <= usize::MAX,
    ensures
        lower_spec(branch_source(c, a, b, s)) is Ok,
        resolve_spec(lower_spec(branch_source(c, a, b, s))->Ok_0) is Ok,
        run_spec(prog, fresh_machine(), usize::MAX as nat) == Outcome::Finished(
            Machine {
                pc: prog.len() as int,
                stack: if is_zero(c) {
                    seq![eval(b)->Some_0, s]
                } else {
                    seq![eval(a)->Some_0, s]
                },
                ..fresh_machine::<T>()
            },
        ),
{
    lemma_branch_lowering(c, a, b, s);
    lemma_branch_resolution(c, a, b, s);
    lemma_branch_run(c, a, b, s, prog);
    lemma_run_more_fuel(prog, fresh_machine(), prog.len(), usize::MAX as nat);
}

/// `DO`, the code of `body`, the code of `cond`, `ENDDO`, `PUSH s`, `HALT`.
pub open spec fn do_source<T>(body: Expr<T>, cond: Expr<T>, s: T) -> Seq<IR<T, Seq<char>>> {
    seq![IR::Do] + ir_code(body) + ir_code(cond) + seq![IR::EndDo, IR::Push(s), IR::Halt]
}

/// The lowered form of `do_source(body, cond, s)`.
pub open spec fn do_lowered<T>(body: Expr<T>, cond: Expr<T>, s: T) -> Seq<IR<T, Seq<char>>> {
    let head = synth_label(0);
    let exit = synth_label((1 + code(body).len() + code(cond).len()) as nat);
    seq![IR::Label(head)] + ir_code(body) + ir_code(cond) + seq![
        IR::ConditionalJump(exit),
        IR::Jump(head),
        IR::Label(exit),
        IR::Push(s),
        IR::Halt,
    ]
}

/// The program `do_source(body, cond, s)` assembles to.
pub open spec fn do_code<T: Copy>(body: Expr<T>, cond: Expr<T>, s: T) -> Seq<Instruction<T, Seq<char>>> {
    let n = code(body).len() + code(cond).len();
    instr_views(code(body)) + instr_views(code(cond)) + seq![
        Instruction::ConditionalJump((n + 2) as usize),
        Instruction::Jump(0),
        Instruction::Push(s),
        Instruction::Halt,
    ]
}

proof fn lemma_lower_do<T>(o: Seq<IR<T, Seq<char>>>, q: Seq<Pending>, l: Seq<char>)
    requires
        l == synth_label(o.len()),
    ensures
        lower_one(o, q, IR::Do) == Ok::<_, AsmError<Seq<char>>>(
            (
                o.push(IR::Label(l)),
                q.push(Pending { kind: ControlKind::Do, site: o.len(), head: l }),
            ),
        ),
{
}

proof fn lemma_lower_enddo<T>(o: Seq<IR<T, Seq<char>>>, head: Seq<char>, l: Seq<char>)
    requires
        l == synth_label(o.len()),
    ensures
        lower_one(
            o,
            seq![Pending { kind: ControlKind::Do, site: 0, head }],
            IR::EndDo,
        ) == Ok::<_, AsmError<Seq<char>>>(
            (
                o.push(IR::ConditionalJump(l)).push(IR::Jump(head)).push(IR::Label(l)),
                Seq::<Pending>::empty(),
            ),
        ),
{
    let q = seq![Pending { kind: ControlKind::Do, site: 0, head }];
    assert(q.drop_last() =~= Seq::<Pending>::empty());
}

proof fn lemma_do_lowering<T>(body: Expr<T>, cond: Expr<T>, s: T)
    ensures
        lower_spec(do_source(body, cond, s)) == Ok::<_, AsmError<Seq<char>>>(
            do_lowered(body, cond, s),
        ),
{
    let ia = ir_code(body);
    let ik = ir_code(cond);
    lemma_ir_code_plain(body);
    lemma_ir_code_plain(cond);
    let head = synth_label(0);
    let exit = synth_label((1 + ia.len() + ik.len()) as nat);
    let e0 = Seq::<IR<T, Seq<char>>>::empty();
    let none = Seq::<Pending>::empty();
    let p0 = e0.push(IR::Do);
    lemma_lower_push(e0, IR::Do);
    lemma_lower_do(e0, none, head);
    let o0 = e0.push(IR::Label(head));
    let q0 = seq![Pending { kind: ControlKind::Do, site: 0, head }];
    assert(none.push(Pending { kind: ControlKind::Do, site: 0, head }) =~= q0);
    assert(lower_prefix(e0) == Ok::<_, AsmError<Seq<char>>>((e0, none)));
    assert(lower_prefix(p0) == Ok::<_, AsmError<Seq<char>>>((o0, q0)));
    lemma_lower_append_plain(p0, ia);
    lemma_lower_append_plain(p0 + ia, ik);
    let p1 = p0 + ia + ik;
    let o1 = o0 + ia + ik;
    assert(lower_prefix(p1) == Ok::<_, AsmError<Seq<char>>>((o1, q0)));
    lemma_lower_push(p1, IR::EndDo);
    lemma_lower_enddo(o1, head, exit);
    let p2 = p1.push(IR::EndDo);
    let o2 = o1.push(IR::ConditionalJump(exit)).push(IR::Jump(head)).push(IR::Label(exit));
    assert(lower_prefix(p2) == Ok::<_, AsmError<Seq<char>>>((o2, none)));
    lemma_lower_push(p2, IR::Push(s));
    lemma_lower_push(p2.push(IR::Push(s)), IR::Halt);
    let p4 = p2.push(IR::Push(s)).push(IR::Halt);
    assert(lower_prefix(p4) == Ok::<_, AsmError<Seq<char>>>(
        (o2.push(IR::Push(s)).push(IR::Halt), none),
    ));
    assert(do_source(body, cond, s) =~= p4);
    assert(o2.push(IR::Push(s)).push(IR::Halt) =~= do_lowered(body, cond, s));
}

proof fn lemma_do_resolution<T: Copy>(body: Expr<T>, cond: Expr<T>, s: T)
    ensures
        resolve_spec(do_lowered(body, cond, s)) == Ok::<_, AsmError<Seq<char>>>(
            do_code(body, cond, s),
        ),
{
    let low = do_lowered(body, cond, s);
    let ia = ir_code(body);
    let ik = ir_code(cond);
    lemma_ir_code_plain(body);
    lemma_ir_code_plain(cond);
    lemma_code_arith(body);
    lemma_code_arith(cond);
    let n = ia.len() + ik.len();
    let head = synth_label(0);
    let exit = synth_label((1 + n) as nat);
    lemma_synth_label_injective(0, (1 + n) as nat);
    let e0 = Seq::<IR<T, Seq<char>>>::empty();
    let x1 = e0.push(IR::Label(head));
    let x2 = e0.push(IR::ConditionalJump(exit)).push(IR::Jump(head)).push(IR::Label(exit)).push(
        IR::Push(s),
    ).push(IR::Halt);
    assert(low =~= x1 + ia + ik + x2);
    // Label addresses.
    assert(low[0] == IR::<T, Seq<char>>::Label(head));
    assert forall|k: int| 0 < k < low.len() implies low[k] != IR::<T, Seq<char>>::Label(head) by {
        if k <= ia.len() {
            assert(low[k] == ia[k - 1]);
        } else if k <= n {
            assert(low[k] == ik[k - 1 - ia.len()]);
        }
    }
    lemma_last_declaration(low, 0, head);
    assert(low.take(0) =~= e0);
    let j = 3 + n;
    assert(low[j as int] == IR::<T, Seq<char>>::Label(exit));
    lemma_last_declaration(low, j as int, exit);
    let jumps = e0.push(IR::ConditionalJump(exit)).push(IR::Jump(head));
    assert(low.take(j as int) =~= x1 + ia + ik + jumps);
    lemma_code_len_no_labels(ia);
    lemma_code_len_no_labels(ik);
    lemma_code_len_no_labels(jumps);
    assert(x1.drop_last() =~= e0);
    assert(code_len(x1) == 0);
    lemma_code_len_concat(x1, ia);
    lemma_code_len_concat(x1 + ia, ik);
    lemma_code_len_concat(x1 + ia + ik, jumps);
    assert(label_addr(low, exit) == Some((n + 2) as nat));
    // Resolution piece by piece.
    lemma_resolve_prefix_seq(low, low.len());
    assert(low.take(low.len() as int) =~= low);
    let v0 = Seq::<Instruction<T, Seq<char>>>::empty();
    lemma_resolve_seq_push(low, e0, IR::Label(head));
    assert(resolve_seq(low, x1) == Ok::<_, AsmError<Seq<char>>>(v0));
    let y1 = e0.push(IR::ConditionalJump(exit));
    let y2 = y1.push(IR::Jump(head));
    let y3 = y2.push(IR::Label(exit));
    let y4 = y3.push(IR::Push(s));
    lemma_resolve_seq_push(low, e0, IR::ConditionalJump(exit));
    lemma_resolve_seq_push(low, y1, IR::Jump(head));
    lemma_resolve_seq_push(low, y2, IR::Label(exit));
    lemma_resolve_seq_push(low, y3, IR::Push(s));
    lemma_resolve_seq_push(low, y4, IR::Halt);
    let r2 = v0.push(Instruction::ConditionalJump((n + 2) as usize)).push(Instruction::Jump(0)).push(
        Instruction::Push(s),
    ).push(Instruction::Halt);
    assert(resolve_seq(low, x2) == Ok::<_, AsmError<Seq<char>>>(r2));
    lemma_resolve_arith(low, code(body));
    lemma_resolve_arith(low, code(cond));
    lemma_resolve_concat(low, x1, ia);
    lemma_resolve_concat(low, x1 + ia, ik);
    lemma_resolve_concat(low, x1 + ia + ik, x2);
    assert(v0 + instr_views(code(body)) + instr_views(code(cond)) + r2 =~= do_code(body, cond, s));
}

proof fn lemma_do_run<T: Number>(body: Expr<T>, cond: Expr<T>, s: T, prog: Seq<Instruction<T>>)
    requires
        instr_views(prog) == do_code(body, cond, s),
        prog.len() <= usize::MAX,
        eval(body) is Some,
        eval(cond) is Some,
        is_zero(eval(cond)->Some_0),
    ensures
        run_spec(prog, fresh_machine(), prog.len()) == Outcome::Finished(
            Machine {
                pc: prog.len() as int,
                stack: seq![eval(body)->Some_0, s],
                ..fresh_machine::<T>()
            },
        ),
{
    let ca = code(body);
    let ck = code(cond);
    lemma_code_arith(body);
    lemma_code_arith(cond);
    let na = ca.len() as int;
    let nk = ck.len() as int;
    let n = na + nk;
    let dc = do_code(body, cond, s);
    assert(instr_views(prog).len() == prog.len());
    let len = prog.len() as int;
    assert(len == n + 4);
    assert forall|i: int| 0 <= i < len implies #[trigger] prog[i]@ == dc[i] by {
        assert(instr_views(prog)[i] == prog[i]@);
    }
    assert(prog[n] == Instruction::<T>::ConditionalJump((n + 2) as usize)) by {
        lemma_same_instruction(Instruction::<T>::ConditionalJump((n + 2) as usize), prog[n]);
    }
    assert(prog[n + 2] == Instruction::<T>::Push(s)) by {
        lemma_same_instruction(Instruction::<T>::Push(s), prog[n + 2]);
    }
    assert(prog[n + 3] == Instruction::<T>::Halt) by {
        lemma_same_instruction(Instruction::<T>::Halt, prog[n + 3]);
    }
    assert(prog.subrange(0, na) =~= ca) by {
        assert forall|t: int| 0 <= t < na implies prog[t] == ca[t] by {
            assert(dc[t] == ca[t]@);
            lemma_same_instruction(ca[t], prog[t]);
        }
    }
    assert(prog.subrange(na, na + nk) =~= ck) by {
        assert forall|t: int| 0 <= t < nk implies prog[na + t] == ck[t] by {
            assert(dc[na + t] == ck[t]@);
            assert(prog[na + t]@ == dc[na + t]);
            lemma_same_instruction(ck[t], prog[na + t]);
        }
    }
    let m0 = fresh_machine::<T>();
    lemma_code_runs(prog, m0, body);
    lemma_run_after_steps(prog, m0, na as nat, (len - na) as nat);
    let m1 = steps(prog, m0, na as nat)->Ok_0;
    lemma_code_runs(prog, m1, cond);
    lemma_run_after_steps(prog, m1, nk as nat, 4);
    let m2 = steps(prog, m1, nk as nat)->Ok_0;
    assert(m2.pc == n);
    assert(m2.stack == m0.stack.push(eval(body)->Some_0).push(eval(cond)->Some_0));
    let m3 = step_spec(prog, m2)->Ok_0;
    let m4 = step_spec(prog, m3)->Ok_0;
    let m5 = step_spec(prog, m4)->Ok_0;
    assert(run_spec(prog, m2, 4) == run_spec(prog, m3, 3));
    assert(run_spec(prog, m3, 3) == run_spec(prog, m4, 2));
    assert(run_spec(prog, m4, 2) == run_spec(prog, m5, 1));
    assert(m4.stack =~= seq![eval(body)->Some_0, s]);
    assert(run_spec(prog, m5, 1) == Outcome::Finished(m5));
}

/// A `DO/ENDDO` loop runs its body once even where the condition it
/// leaves is zero (leave the loop) at the first check: assembling `DO`,
/// the code of `body`, the code of `cond`, `ENDDO`, `PUSH s`, `HALT`
/// succeeds, and where `cond` is zero the program finishes with
/// `[body's value, s]` on the stack.
pub proof fn law_do_runs_body_once<T: Number>(
    body: Expr<T>,
    cond: Expr<T>,
    s: T,
    prog: Seq<Instruction<T>>,
)
    requires
        eval(body) is Some,
        eval(cond) is Some,
        is_zero(eval(cond)->Some_0),
        instr_views(prog) == resolve_spec(lower_spec(do_source(body, cond, s))->Ok_0)->Ok_0,
        prog.len() <= usize::MAX,
    ensures
        lower_spec(do_source(body, cond, s)) is Ok,
        resolve_spec(lower_spec(do_source(body, cond, s))->Ok_0) is Ok,
        run_spec(prog, fresh_machine(), usize::MAX as nat) == Outcome::Finished(
            Machine {
                pc: prog.len() as int,
                stack: seq![eval(body)->Some_0, s],
                ..fresh_machine::<T>()
            },
        ),
{
    lemma_do_lowering(body, cond, s);
    lemma_do_resolution(body, cond, s);
    lemma_do_run(body, cond, s, prog);
    lemma_run_more_fuel(prog, fresh_machine(), prog.len(), usize::MAX as nat);
}

/// The code of `cond`, `WHILE`, the code of `body`, `ENDWHILE`, `PUSH s`,
/// `HALT`.
pub open spec fn while_source<T>(cond: Expr<T>, body: Expr<T>, s: T) -> Seq<IR<T, Seq<char>>> {
    ir_code(cond) + seq![IR::While] + ir_code(body) + seq![IR::EndWhile, IR::Push(s), IR::Halt]
}

/// The lowered form of `while_source(cond, body, s)`.
pub open spec fn while_lowered<T>(cond: Expr<T>, body: Expr<T>, s: T) -> Seq<IR<T, Seq<char>>> {
    let nk = code(cond).len();
    let head = synth_label(nk);
    let exit = synth_label((nk + code(body).len() + 3) as nat);
    ir_code(cond) + seq![IR::Label(head), IR::ConditionalJump(exit)] + ir_code(body) + seq![
        IR::Jump(head),
        IR::Label(exit),
        IR::Push(s),
        IR::Halt,
    ]
}

/// The program `while_source(cond, body, s)` assembles to.
pub open spec fn while_code<T: Copy>(cond: Expr<T>, body: Expr<T>, s: T) -> Seq<
    Instruction<T, Seq<char>>,
> {
    let nk = code(cond).len();
    let na = code(body).len();
    instr_views(code(cond)) + seq![Instruction::ConditionalJump((nk + na + 2) as usize)]
        + instr_views(code(body)) + seq![
        Instruction::Jump(nk as usize),
        Instruction::Push(s),
        Instruction::Halt,
    ]
}

proof fn lemma_lower_while<T>(o: Seq<IR<T, Seq<char>>>, l: Seq<char>)
    requires
        l == synth_label(o.len()),
    ensures
        lower_one(o, Seq::<Pending>::empty(), IR::While) == Ok::<
            _,
            AsmError<Seq<char>>,
        >(
            (
                o.push(IR::Label(l)).push(IR::ConditionalJump(Seq::empty())),
                seq![
                    Pending {
                        kind: ControlKind::While,
                        site: o.len() + 1,
                        head: l,
                    },
                ],
            ),
        ),
{
    assert(Seq::<Pending>::empty().push(
        Pending { kind: ControlKind::While, site: o.len() + 1, head: l },
    ) =~= seq![
        Pending { kind: ControlKind::While, site: o.len() + 1, head: l },
    ]);
}

proof fn lemma_lower_endwhile<T>(o: Seq<IR<T, Seq<char>>>, site: nat, head: Seq<char>, l: Seq<char>)
    requires
        site < o.len(),
        l == synth_label(o.len() + 1),
    ensures
        lower_one(
            o,
            seq![Pending { kind: ControlKind::While, site, head }],
            IR::EndWhile,
        ) == Ok::<_, AsmError<Seq<char>>>(
            (
                o.push(IR::Jump(head)).update(site as int, IR::ConditionalJump(l)).push(IR::Label(l)),
                Seq::<Pending>::empty(),
            ),
        ),
{
    let q = seq![Pending { kind: ControlKind::While, site, head }];
    assert(q.drop_last() =~= Seq::<Pending>::empty());
}

proof fn lemma_while_lowering<T>(cond: Expr<T>, body: Expr<T>, s: T)
    ensures
        lower_spec(while_source(cond, body, s)) == Ok::<_, AsmError<Seq<char>>>(
            while_lowered(cond, body, s),
        ),
{
    let ik = ir_code(cond);
    let ia = ir_code(body);
    lemma_ir_code_plain(cond);
    lemma_ir_code_plain(body);
    let nk = ik.len();
    let na = ia.len();
    let head = synth_label(nk);
    let exit = synth_label((nk + na + 3) as nat);
    let e0 = Seq::<IR<T, Seq<char>>>::empty();
    let none = Seq::<Pending>::empty();
    let empty = Seq::<char>::empty();
    assert(lower_prefix(e0) == Ok::<_, AsmError<Seq<char>>>((e0, none)));
    lemma_lower_append_plain(e0, ik);
    assert(e0 + ik =~= ik);
    lemma_lower_push(ik, IR::While);
    lemma_lower_while(ik, head);
    let p1 = ik.push(IR::While);
    let o1 = ik.push(IR::Label(head)).push(IR::ConditionalJump(empty));
    let q1 = seq![Pending { kind: ControlKind::While, site: nk + 1, head }];
    assert(lower_prefix(p1) == Ok::<_, AsmError<Seq<char>>>((o1, q1)));
    lemma_lower_append_plain(p1, ia);
    let p2 = (p1 + ia).push(IR::EndWhile);
    lemma_lower_push(p1 + ia, IR::EndWhile);
    lemma_lower_endwhile(o1 + ia, nk + 1, head, exit);
    let o2 = (o1 + ia).push(IR::Jump(head)).update(nk + 1 as int, IR::ConditionalJump(exit)).push(
        IR::Label(exit),
    );
    assert(lower_prefix(p2) == Ok::<_, AsmError<Seq<char>>>((o2, none)));
    lemma_lower_push(p2, IR::Push(s));
    lemma_lower_push(p2.push(IR::Push(s)), IR::Halt);
    let p4 = p2.push(IR::Push(s)).push(IR::Halt);
    assert(lower_prefix(p4) == Ok::<_, AsmError<Seq<char>>>(
        (o2.push(IR::Push(s)).push(IR::Halt), none),
    ));
    assert(while_source(cond, body, s) =~= p4);
    assert(o2.push(IR::Push(s)).push(IR::Halt) =~= while_lowered(cond, body, s));
}

proof fn lemma_while_resolution<T: Copy>(cond: Expr<T>, body: Expr<T>, s: T)
    ensures
        resolve_spec(while_lowered(cond, body, s)) == Ok::<_, AsmError<Seq<char>>>(
            while_code(cond, body, s),
        ),
{
    let low = while_lowered(cond, body, s);
    let ik = ir_code(cond);
    let ia = ir_code(body);
    lemma_ir_code_plain(cond);
    lemma_ir_code_plain(body);
    lemma_code_arith(cond);
    lemma_code_arith(body);
    let nk = ik.len();
    let na = ia.len();
    let head = synth_label(nk);
    let exit = synth_label((nk + na + 3) as nat);
    lemma_synth_label_injective(nk, (nk + na + 3) as nat);
    let e0 = Seq::<IR<T, Seq<char>>>::empty();
    let x1 = e0.push(IR::Label(head)).push(IR::ConditionalJump(exit));
    let x2 = e0.push(IR::Jump(head)).push(IR::Label(exit)).push(IR::Push(s)).push(IR::Halt);
    assert(low =~= ik + x1 + ia + x2);
    // Label addresses.
    assert(low[nk as int] == IR::<T, Seq<char>>::Label(head));
    assert forall|k: int| nk < k < low.len() implies low[k] != IR::<T, Seq<char>>::Label(head) by {
        if nk + 2 <= k < nk + 2 + na {
            assert(low[k] == ia[k - nk - 2]);
        }
    }
    lemma_last_declaration(low, nk as int, head);
    assert(low.take(nk as int) =~= ik);
    lemma_code_len_no_labels(ik);
    let j = nk + na + 3;
    assert(low[j as int] == IR::<T, Seq<char>>::Label(exit));
    lemma_last_declaration(low, j as int, exit);
    let lab = e0.push(IR::Label(head));
    let cj = e0.push(IR::ConditionalJump(exit));
    let jmp = e0.push(IR::Jump(head));
    assert(low.take(j as int) =~= ik + lab + cj + ia + jmp);
    lemma_code_len_no_labels(ia);
    lemma_code_len_no_labels(cj);
    lemma_code_len_no_labels(jmp);
    assert(lab.drop_last() =~= e0);
    assert(lab.last() is Label);
    assert(code_len(e0) == 0);
    assert(code_len(lab) == 0);
    lemma_code_len_concat(ik, lab);
    lemma_code_len_concat(ik + lab, cj);
    lemma_code_len_concat(ik + lab + cj, ia);
    lemma_code_len_concat(ik + lab + cj + ia, jmp);
    assert(label_addr(low, exit) == Some((nk + na + 2) as nat));
    // Resolution piece by piece.
    lemma_resolve_prefix_seq(low, low.len());
    assert(low.take(low.len() as int) =~= low);
    let v0 = Seq::<Instruction<T, Seq<char>>>::empty();
    lemma_resolve_seq_push(low, e0, IR::Label(head));
    lemma_resolve_seq_push(low, lab, IR::ConditionalJump(exit));
    let r1 = v0.push(Instruction::ConditionalJump((nk + na + 2) as usize));
    assert(resolve_seq(low, x1) == Ok::<_, AsmError<Seq<char>>>(r1));
    let y1 = e0.push(IR::Jump(head));
    let y2 = y1.push(IR::Label(exit));
    let y3 = y2.push(IR::Push(s));
    lemma_resolve_seq_push(low, e0, IR::Jump(head));
    lemma_resolve_seq_push(low, y1, IR::Label(exit));
    lemma_resolve_seq_push(low, y2, IR::Push(s));
    lemma_resolve_seq_push(low, y3, IR::Halt);
    let r2 = v0.push(Instruction::Jump(nk as usize)).push(Instruction::Push(s)).push(
        Instruction::Halt,
    );
    assert(resolve_seq(low, x2) == Ok::<_, AsmError<Seq<char>>>(r2));
    lemma_resolve_arith(low, code(cond));
    lemma_resolve_arith(low, code(body));
    lemma_resolve_concat(low, ik, x1);
    lemma_resolve_concat(low, ik + x1, ia);
    lemma_resolve_concat(low, ik + x1 + ia, x2);
    assert(instr_views(code(cond)) + r1 + instr_views(code(body)) + r2 =~= while_code(
        cond,
        body,
        s,
    ));
}

proof fn lemma_while_run<T: Number>(cond: Expr<T>, body: Expr<T>, s: T, prog: Seq<Instruction<T>>)
    requires
        instr_views(prog) == while_code(cond, body, s),
        prog.len() <= usize::MAX,
        eval(cond) is Some,
        is_zero(eval(cond)->Some_0),
    ensures
        run_spec(prog, fresh_machine(), prog.len()) == Outcome::Finished(
            Machine { pc: prog.len() as int, stack: seq![s], ..fresh_machine::<T>() },
        ),
{
    let ck = code(cond);
    let ca = code(body);
    lemma_code_arith(cond);
    lemma_code_arith(body);
    let nk = ck.len() as int;
    let na = ca.len() as int;
    let wc = while_code(cond, body, s);
    assert(instr_views(prog).len() == prog.len());
    let len = prog.len() as int;
    assert(len == nk + na + 4);
    assert forall|i: int| 0 <= i < len implies #[trigger] prog[i]@ == wc[i] by {
        assert(instr_views(prog)[i] == prog[i]@);
    }
    assert(prog[nk] == Instruction::<T>::ConditionalJump((nk + na + 2) as usize)) by {
        lemma_same_instruction(Instruction::<T>::ConditionalJump((nk + na + 2) as usize), prog[nk]);
    }
    assert(prog[nk + na + 2] == Instruction::<T>::Push(s)) by {
        lemma_same_instruction(Instruction::<T>::Push(s), prog[nk + na + 2]);
    }
    assert(prog[nk + na + 3] == Instruction::<T>::Halt) by {
        lemma_same_instruction(Instruction::<T>::Halt, prog[nk + na + 3]);
    }
    assert(prog.subrange(0, nk) =~= ck) by {
        assert forall|t: int| 0 <= t < nk implies prog[t] == ck[t] by {
            assert(wc[t] == ck[t]@);
            lemma_same_instruction(ck[t], prog[t]);
        }
    }
    let m0 = fresh_machine::<T>();
    lemma_code_runs(prog, m0, cond);
    lemma_run_after_steps(prog, m0, nk as nat, (na + 4) as nat);
    let m1 = steps(prog, m0, nk as nat)->Ok_0;
    assert(m1.pc == nk);
    let m2 = step_spec(prog, m1)->Ok_0;
    let m3 = step_spec(prog, m2)->Ok_0;
    let m4 = step_spec(prog, m3)->Ok_0;
    assert(m2.pc == nk + na + 2);
    assert(run_spec(prog, m1, (na + 4) as nat) == run_spec(prog, m2, (na + 3) as nat));
    assert(run_spec(prog, m2, (na + 3) as nat) == run_spec(prog, m3, (na + 2) as nat));
    assert(run_spec(prog, m3, (na + 2) as nat) == run_spec(prog, m4, (na + 1) as nat));
    assert(m3.stack =~= seq![s]);
    assert(run_spec(prog, m4, (na + 1) as nat) == Outcome::Finished(m4));
}

/// A `WHILE/ENDWHILE` loop whose condition is zero at the first check
/// runs its body zero times: assembling the code of `cond`, `WHILE`, the
/// code of `body`, `ENDWHILE`, `PUSH s`, `HALT` succeeds, and where `cond`
/// is zero the program finishes with just `[s]` on the stack.
pub proof fn law_while_skips_body<T: Number>(
    cond: Expr<T>,
    body: Expr<T>,
    s: T,
    prog: Seq<Instruction<T>>,
)
    requires
        eval(cond) is Some,
        is_zero(eval(cond)->Some_0),
        instr_views(prog) == resolve_spec(lower_spec(while_source(cond, body, s))->Ok_0)->Ok_0,
        prog.len() <= usize::MAX,
    ensures
        lower_spec(while_source(cond, body, s)) is Ok,
        resolve_spec(lower_spec(while_source(cond, body, s))->Ok_0) is Ok,
        run_spec(prog, fresh_machine(), usize::MAX as nat) == Outcome::Finished(
            Machine { pc: prog.len() as int, stack: seq![s], ..fresh_machine::<T>() },
        ),
{
    lemma_while_lowering(cond, body, s);
    lemma_while_resolution(cond, body, s);
    lemma_while_run(cond, body, s, prog);
    lemma_run_more_fuel(prog, fresh_machine(), prog.len(), usize::MAX as nat);
}

/// No jump, call or conditional jump in `s` names `u`.
pub open spec fn unreferenced<T>(s: Seq<IR<T, Seq<char>>>, u: Seq<char>) -> bool {
    forall|k: int|
        0 <= k < s.len() ==> #[trigger] s[k] != IR::<T, Seq<char>>::Jump(u) && s[k] != IR::<
            T,
            Seq<char>,
        >::Call(u) && s[k] != IR::<T, Seq<char>>::ConditionalJump(u)
}

spec fn chain<T>(
    a: Result<Seq<Instruction<T, Seq<char>>>, AsmError<Seq<char>>>,
    b: Result<Seq<Instruction<T, Seq<char>>>, AsmError<Seq<char>>>,
) -> Result<Seq<Instruction<T, Seq<char>>>, AsmError<Seq<char>>> {
    match a {
        Err(e) => Err(e),
        Ok(x) => match b {
            Err(e) => Err(e),
            Ok(y) => Ok(x + y),
        },
    }
}

proof fn lemma_resolve_chain<T>(
    all: Seq<IR<T, Seq<char>>>,
    x: Seq<IR<T, Seq<char>>>,
    y: Seq<IR<T, Seq<char>>>,
)
    ensures
        resolve_seq(all, x + y) == chain(resolve_seq(all, x), resolve_seq(all, y)),
    decreases y.len(),
{
    if y.len() == 0 {
        assert(x + y =~= x);
        if let Ok(v) = resolve_seq(all, x) {
            assert(v + Seq::<Instruction<T, Seq<char>>>::empty() =~= v);
        }
    } else {
        assert((x + y).drop_last() =~= x + y.drop_last());
        assert((x + y).last() == y.last());
        lemma_resolve_chain(all, x, y.drop_last());
        if let Ok(rx) = resolve_seq(all, x) {
            if let Ok(ry) = resolve_seq(all, y.drop_last()) {
                if let Ok(Some(i)) = resolve_one(all, y.last()) {
                    assert(rx + ry.push(i) =~= (rx + ry).push(i));
                }
            }
        }
    }
}

proof fn lemma_resolve_same_lookup<T>(
    a1: Seq<IR<T, Seq<char>>>,
    a2: Seq<IR<T, Seq<char>>>,
    x: Seq<IR<T, Seq<char>>>,
    u: Seq<char>,
)
    requires
        unreferenced(x, u),
        forall|n: Seq<char>| n != u ==> #[trigger] label_addr(a1, n) == label_addr(a2, n),
    ensures
        resolve_seq(a1, x) == resolve_seq(a2, x),
    decreases x.len(),
{
    if x.len() > 0 {
        let y = x.drop_last();
        assert(unreferenced(y, u)) by {
            assert forall|k: int| 0 <= k < y.len() implies #[trigger] y[k] != IR::<T, Seq<char>>::Jump(u)
                && y[k] != IR::<T, Seq<char>>::Call(u) && y[k] != IR::<T, Seq<char>>::ConditionalJump(
                u,
            ) by {
                assert(y[k] == x[k]);
            }
        }
        lemma_resolve_same_lookup(a1, a2, y, u);
        assert(x[x.len() - 1] == x.last());
        match x.last() {
            IR::Jump(n) => assert(label_addr(a1, n) == label_addr(a2, n)),
            IR::Call(n) => assert(label_addr(a1, n) == label_addr(a2, n)),
            IR::ConditionalJump(n) => assert(label_addr(a1, n) == label_addr(a2, n)),
            _ => {},
        }
    }
}

proof fn lemma_drop_label_addr<T>(
    pre: Seq<IR<T, Seq<char>>>,
    u: Seq<char>,
    post: Seq<IR<T, Seq<char>>>,
    n: Seq<char>,
)
    requires
        n != u,
    ensures
        label_addr(pre + seq![IR::Label(u)] + post, n) == label_addr(pre + post, n),
    decreases post.len(),
{
    let lab = seq![IR::<T, Seq<char>>::Label(u)];
    let s1 = pre + lab + post;
    let s2 = pre + post;
    if post.len() == 0 {
        assert(s1 =~= pre.push(IR::Label(u)));
        assert(s2 =~= pre);
        assert(pre.push(IR::<T, Seq<char>>::Label(u)).drop_last() =~= pre);
    } else {
        assert(s1.drop_last() =~= pre + lab + post.drop_last());
        assert(s2.drop_last() =~= pre + post.drop_last());
        assert(s1.last() == post.last() && s2.last() == post.last());
        lemma_drop_label_addr(pre, u, post.drop_last(), n);
        lemma_code_len_concat(pre + lab, post.drop_last());
        lemma_code_len_concat(pre, lab);
        lemma_code_len_concat(pre, post.drop_last());
        assert(lab.drop_last() =~= Seq::<IR<T, Seq<char>>>::empty());
        assert(lab.last() is Label);
        assert(code_len(Seq::<IR<T, Seq<char>>>::empty()) == 0);
        assert(code_len(lab) == 0);
    }
}

/// A label declaration that no jump, call or conditional jump names can
/// be dropped without effect on label resolution, and so moved to any
/// other place: the result, addresses and errors alike, stays the same.
pub proof fn law_unreferenced_label_is_inert<T>(
    pre: Seq<IR<T, Seq<char>>>,
    u: Seq<char>,
    post: Seq<IR<T, Seq<char>>>,
)
    requires
        unreferenced(pre + post, u),
    ensures
        resolve_spec(pre + seq![IR::Label(u)] + post) == resolve_spec(pre + post),
{
    let lab = seq![IR::<T, Seq<char>>::Label(u)];
    let s1 = pre + lab + post;
    let s2 = pre + post;
    assert forall|n: Seq<char>| n != u implies #[trigger] label_addr(s1, n) == label_addr(s2, n) by {
        lemma_drop_label_addr(pre, u, post, n);
    }
    assert(unreferenced(pre, u)) by {
        assert forall|k: int| 0 <= k < pre.len() implies #[trigger] pre[k] != IR::<T, Seq<char>>::Jump(u)
            && pre[k] != IR::<T, Seq<char>>::Call(u) && pre[k] != IR::<T, Seq<char>>::ConditionalJump(u) by {
            assert(s2[k] == pre[k]);
        }
    }
    assert(unreferenced(post, u)) by {
        assert forall|k: int| 0 <= k < post.len() implies #[trigger] post[k] != IR::<T, Seq<char>>::Jump(
            u,
        ) && post[k] != IR::<T, Seq<char>>::Call(u) && post[k] != IR::<T, Seq<char>>::ConditionalJump(
            u,
        ) by {
            assert(s2[pre.len() + k] == post[k]);
        }
    }
    lemma_resolve_same_lookup(s1, s2, pre, u);
    lemma_resolve_same_lookup(s1, s2, post, u);
    lemma_resolve_prefix_seq(s1, s1.len());
    lemma_resolve_prefix_seq(s2, s2.len());
    assert(s1.take(s1.len() as int) =~= s1);
    assert(s2.take(s2.len() as int) =~= s2);
    lemma_resolve_chain(s1, pre + lab, post);
    lemma_resolve_chain(s1, pre, lab);
    lemma_resolve_chain(s2, pre, post);
    lemma_resolve_seq_push(s1, Seq::empty(), IR::Label(u));
    assert(Seq::<IR<T, Seq<char>>>::empty().push(IR::Label(u)) =~= lab);
    assert(resolve_seq(s1, lab) == Ok::<_, AsmError<Seq<char>>>(Seq::<Instruction<T, Seq<char>>>::empty()));
    if let Ok(v) = resolve_seq(s1, pre) {
        assert(v + Seq::<Instruction<T, Seq<char>>>::empty() =~= v);
    }
}

} // verus!