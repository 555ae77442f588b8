//! Traces: linear sequences of operations captured from a running program,
//! the evaluator that executes them, and the proof that a trace consistent
//! with the program behaves exactly as the interpreter does.
//!
//! A trace operation mirrors one machine instruction; a load program
//! instruction becomes a guarded jump carrying the target expected when the
//! trace was recorded. A guard miss, a far jump or the end of the trace hands
//! control back to the driver.

use vstd::pervasive::unreached;
use vstd::prelude::*;

use crate::instruction::{decode, ParsedInstruction};
use crate::interpreter::{execute_parsed, StepResult};
use crate::memory::Memory;
use crate::model::{
    advance, fetch, interp_steps, steps_to, um_reachable, um_step, MachineModel, RunState,
    VmErrorKind,
};

verus! {

/// One operation of a trace, mirroring the instruction it was recorded from.
/// A jump carries the program counter the recorder expected, as the guard to
/// compare against at run time.
#[derive(Clone, Copy, Debug, PartialEq, Eq, Structural)]
pub enum TraceOp {
    CondMove { a: usize, b: usize, c: usize },
    Load { a: usize, b: usize, c: usize },
    Store { a: usize, b: usize, c: usize },
    Add { a: usize, b: usize, c: usize },
    Mul { a: usize, b: usize, c: usize },
    Div { a: usize, b: usize, c: usize },
    Nand { a: usize, b: usize, c: usize },
    Alloc { b: usize, c: usize },
    Free { c: usize },
    Output { c: usize },
    Input { c: usize },
    Jump { b: usize, c: usize, expected_pc: usize },
    Imm { a: usize, value: u32 },
}

/// What a compiled trace reports back to the driver.
#[derive(Clone, Copy, Debug, PartialEq, Eq, Structural)]
pub enum CompiledFuncResult {
    /// Resume the interpreter at `pc`: the trace ran to its end, or a jump
    /// guard missed.
    Resume { pc: usize },
    /// A jump into array `id`: the driver must copy it over the program,
    /// drop every cached trace, and resume at `new_pc`.
    Jump { id: u32, new_pc: usize },
    /// The program halts.
    Halt,
}

impl TraceOp {
    /// The register fields lie below 8.
    pub open spec fn wf(self) -> bool {
        parsed_of(self).wf()
    }

    /// The instruction this operation evaluates as.
    pub fn to_parsed(&self) -> (p: ParsedInstruction)
        ensures
            p == parsed_of(*self),
    {
        match *self {
            TraceOp::CondMove { a, b, c } => ParsedInstruction::ConditionalMove { a, b, c },
            TraceOp::Load { a, b, c } => ParsedInstruction::ArrayIndex { a, b, c },
            TraceOp::Store { a, b, c } => ParsedInstruction::ArrayAmendment { a, b, c },
            TraceOp::Add { a, b, c } => ParsedInstruction::Addition { a, b, c },
            TraceOp::Mul { a, b, c } => ParsedInstruction::Multiplication { a, b, c },
            TraceOp::Div { a, b, c } => ParsedInstruction::Division { a, b, c },
            TraceOp::Nand { a, b, c } => ParsedInstruction::NotAnd { a, b, c },
            TraceOp::Alloc { b, c } => ParsedInstruction::Allocation { b, c },
            TraceOp::Free { c } => ParsedInstruction::Abandonment { c },
            TraceOp::Output { c } => ParsedInstruction::Output { c },
            TraceOp::Input { c } => ParsedInstruction::Input { c },
            TraceOp::Jump { b, c, expected_pc } => ParsedInstruction::LoadProgram { b, c },
            TraceOp::Imm { a, value } => ParsedInstruction::Immediate { a, value },
        }
    }
}

/// The instruction a trace operation evaluates as.
pub open spec fn parsed_of(op: TraceOp) -> ParsedInstruction {
    match op {
        TraceOp::CondMove { a, b, c } => ParsedInstruction::ConditionalMove { a, b, c },
        TraceOp::Load { a, b, c } => ParsedInstruction::ArrayIndex { a, b, c },
        TraceOp::Store { a, b, c } => ParsedInstruction::ArrayAmendment { a, b, c },
        TraceOp::Add { a, b, c } => ParsedInstruction::Addition { a, b, c },
        TraceOp::Mul { a, b, c } => ParsedInstruction::Multiplication { a, b, c },
        TraceOp::Div { a, b, c } => ParsedInstruction::Division { a, b, c },
        TraceOp::Nand { a, b, c } => ParsedInstruction::NotAnd { a, b, c },
        TraceOp::Alloc { b, c } => ParsedInstruction::Allocation { b, c },
        TraceOp::Free { c } => ParsedInstruction::Abandonment { c },
        TraceOp::Output { c } => ParsedInstruction::Output { c },
        TraceOp::Input { c } => ParsedInstruction::Input { c },
        TraceOp::Jump { b, c, expected_pc } => ParsedInstruction::LoadProgram { b, c },
        TraceOp::Imm { a, value } => ParsedInstruction::Immediate { a, value },
    }
}

/// The operation the recorder emits for a decoded instruction, given the
/// program counter it expects after an in-trace jump. Halt is never recorded:
/// the recorder closes the trace instead.
pub open spec fn record_of(p: ParsedInstruction, expected_pc: usize) -> Option<TraceOp> {
    match p {
        ParsedInstruction::ConditionalMove { a, b, c } => Some(TraceOp::CondMove { a, b, c }),
        ParsedInstruction::ArrayIndex { a, b, c } => Some(TraceOp::Load { a, b, c }),
        ParsedInstruction::ArrayAmendment { a, b, c } => Some(TraceOp::Store { a, b, c }),
        ParsedInstruction::Addition { a, b, c } => Some(TraceOp::Add { a, b, c }),
        ParsedInstruction::Multiplication { a, b, c } => Some(TraceOp::Mul { a, b, c }),
        ParsedInstruction::Division { a, b, c } => Some(TraceOp::Div { a, b, c }),
        ParsedInstruction::NotAnd { a, b, c } => Some(TraceOp::Nand { a, b, c }),
        ParsedInstruction::Halt => None,
        ParsedInstruction::Allocation { b, c } => Some(TraceOp::Alloc { b, c }),
        ParsedInstruction::Abandonment { c } => Some(TraceOp::Free { c }),
        ParsedInstruction::Output { c } => Some(TraceOp::Output { c }),
        ParsedInstruction::Input { c } => Some(TraceOp::Input { c }),
        ParsedInstruction::LoadProgram { b, c } => Some(TraceOp::Jump { b, c, expected_pc }),
        ParsedInstruction::Immediate { a, value } => Some(TraceOp::Imm { a, value }),
    }
}

/// The expected program counter a jump operation carries; 0 for the rest,
/// which carry none.
pub open spec fn op_expected(op: TraceOp) -> usize {
    match op {
        TraceOp::Jump { expected_pc, .. } => expected_pc,
        _ => 0,
    }
}

/// `op` is what the recorder emits for the word `w`.
pub open spec fn op_records(op: TraceOp, w: u32) -> bool {
    &&& decode(w) is Some
    &&& record_of(decode(w).unwrap(), op_expected(op)) == Some(op)
}

/// Where the recorder's cursor stands after an operation recorded at `pc`:
/// one past it, or at the expected target of an in-trace jump.
pub open spec fn next_pc_of(op: TraceOp, pc: int) -> int {
    match op {
        TraceOp::Jump { expected_pc, .. } => expected_pc as int,
        _ => pc + 1,
    }
}

/// What evaluating one trace operation does with control.
pub ghost enum OpFlow {
    /// Fall through to the next operation.
    Continue,
    /// Leave the trace with this report.
    Exit(CompiledFuncResult),
}

/// One trace operation applied to the machine: the stepped state and what
/// control does. A jump exits on a nonzero array id, falls through when its
/// guard matches the expected target, and exits to the interpreter otherwise.
pub open spec fn eval_op(op: TraceOp, m: MachineModel, inp: Option<u8>) -> Result<
    (MachineModel, OpFlow),
    VmErrorKind,
> {
    match crate::model::step_parsed(parsed_of(op), m, inp) {
        Err(e) => Err(e),
        Ok((m1, StepResult::Next)) => Ok((m1, OpFlow::Continue)),
        Ok((m1, StepResult::Halt)) => Ok((m1, OpFlow::Exit(CompiledFuncResult::Halt))),
        Ok((m1, StepResult::Jump { id, new_pc })) => {
            if id != 0 {
                Ok((m1, OpFlow::Exit(CompiledFuncResult::Jump { id, new_pc })))
            } else if new_pc == op_expected(op) {
                Ok((m1, OpFlow::Continue))
            } else {
                Ok((m1, OpFlow::Exit(CompiledFuncResult::Resume { pc: new_pc })))
            }
        },
    }
}

/// Where a trace evaluation ended: the machine, the report handed to the
/// driver or the abort, and how many full interpreter steps it covered.
#[verifier::ext_equal]
pub ghost struct TraceRun {
    pub used: nat,
    pub m: MachineModel,
    pub res: Result<CompiledFuncResult, VmErrorKind>,
}

/// Evaluate the operations `ops[i..]`, reading the bytes `inputs[i..]`,
/// ending with a resume at `terminal` when the trace runs to its end.
pub open spec fn eval_trace(
    ops: Seq<TraceOp>,
    terminal: usize,
    m: MachineModel,
    inputs: Seq<Option<u8>>,
    i: int,
) -> TraceRun
    decreases ops.len() - i,
{
    if i < 0 || i >= ops.len() {
        TraceRun { used: 0, m, res: Ok(CompiledFuncResult::Resume { pc: terminal }) }
    } else {
        match eval_op(ops[i], m, inputs[i]) {
            Err(e) => TraceRun { used: 0, m, res: Err(e) },
            Ok((m1, OpFlow::Exit(res))) => TraceRun { used: 1, m: m1, res: Ok(res) },
            Ok((m1, OpFlow::Continue)) => {
                let r = eval_trace(ops, terminal, m1, inputs, i + 1);
                TraceRun { used: r.used + 1, m: r.m, res: r.res }
            },
        }
    }
}

/// The operations `ops[i..]` are what the recorder emits reading `prog` from
/// `pc` on, and the trace's terminal is where the cursor ends.
pub open spec fn trace_consistent(
    ops: Seq<TraceOp>,
    prog: Seq<u32>,
    pc: int,
    terminal: usize,
    i: int,
) -> bool
    decreases ops.len() - i,
{
    if i < 0 || i >= ops.len() {
        terminal == pc
    } else {
        &&& 0 <= pc < prog.len()
        &&& op_records(ops[i], prog[pc])
        &&& trace_consistent(ops, prog, next_pc_of(ops[i], pc), terminal, i + 1)
    }
}

/// Evaluating `ops[i..]` never changes the program array away from `prog`.
pub open spec fn prog_stable(
    ops: Seq<TraceOp>,
    prog: Seq<u32>,
    m: MachineModel,
    inputs: Seq<Option<u8>>,
    i: int,
) -> bool
    decreases ops.len() - i,
{
    &&& 0 < m.heap.len()
    &&& m.heap[0] == Some(prog)
    &&& (0 <= i < ops.len() ==> match eval_op(ops[i], m, inputs[i]) {
        Err(_) => true,
        Ok((m1, OpFlow::Exit(_))) => true,
        Ok((m1, OpFlow::Continue)) => prog_stable(ops, prog, m1, inputs, i + 1),
    })
}

/// A recorded trace: the operations, the program counter it entered at, the
/// counter where recording stopped, and a ghost snapshot of the program it
/// was recorded from. `clean` marks that the program array never changed
/// while recording; only a clean trace is known consistent.
pub struct CompiledTrace {
    pub ops: Vec<TraceOp>,
    pub entry_pc: usize,
    pub terminal_pc: usize,
    pub prog: Ghost<Seq<u32>>,
    pub clean: Ghost<bool>,
}

impl CompiledTrace {
    /// Every operation has its register fields in range.
    pub open spec fn ops_wf(&self) -> bool {
        forall|i: int| 0 <= i < self.ops@.len() ==> (#[trigger] self.ops@[i]).wf()
    }

    /// Well formed: the operations are in range, and a clean trace is
    /// consistent with its program snapshot.
    pub open spec fn wf(&self) -> bool {
        &&& self.ops_wf()
        &&& (self.clean@ ==> trace_consistent(
            self.ops@,
            self.prog@,
            self.entry_pc as int,
            self.terminal_pc,
            0,
        ))
    }

    /// A trace assembled from bare operations, with no recorded program to
    /// be consistent with.
    pub fn new(ops: Vec<TraceOp>, entry_pc: usize, terminal_pc: usize) -> (t: CompiledTrace)
        requires
            forall|i: int| 0 <= i < ops@.len() ==> (#[trigger] ops@[i]).wf(),
        ensures
            t.wf(),
            t.ops@ == ops@,
            t.entry_pc == entry_pc,
            t.terminal_pc == terminal_pc,
            !t.clean@,
    {
        CompiledTrace { ops, entry_pc, terminal_pc, prog: Ghost(Seq::empty()), clean: Ghost(false) }
    }
}

/// A run shifted by `k` interpreter steps that came before it.
pub open spec fn shift_used(k: nat, r: TraceRun) -> TraceRun {
    TraceRun { used: r.used + k, m: r.m, res: r.res }
}

/// Evaluate a trace on the machine, op by op, exactly as `eval_trace`
/// describes: the verified stand-in for calling a compiled trace function.
pub fn run_trace(trace: &CompiledTrace, memory: &mut Memory) -> (r: Result<
    CompiledFuncResult,
    VmErrorKind,
>)
    requires
        old(memory).wf(),
        trace.ops_wf(),
    ensures
        final(memory).wf(),
        (final(memory).port is Console) == (old(memory).port is Console),
        !(r matches Ok(CompiledFuncResult::Halt)),
        exists|ins: Seq<Option<u8>>|
            ins.len() == trace.ops@.len() && ({
                let run = #[trigger] eval_trace(
                    trace.ops@,
                    trace.terminal_pc,
                    old(memory)@,
                    ins,
                    0,
                );
                run.m == final(memory)@ && run.res == r
            }),
{
    let ghost ops = trace.ops@;
    let ghost m0 = old(memory)@;
    let ghost term = trace.terminal_pc;
    let n = trace.ops.len();
    let mut i: usize = 0;
    let ghost mut ins: Seq<Option<u8>> = Seq::empty();
    while i < n
        invariant
            memory.wf(),
            (memory.port is Console) == (old(memory).port is Console),
            n == ops.len(),
            trace.ops@ == ops,
            trace.ops_wf(),
            term == trace.terminal_pc,
            m0 == old(memory)@,
            i <= n,
            ins.len() == i,
            forall|full: Seq<Option<u8>>|
                full.len() == ops.len() && full.subrange(0, i as int) == ins
                    ==> #[trigger] eval_trace(ops, term, m0, full, 0) == shift_used(
                    i as nat,
                    eval_trace(ops, term, memory@, full, i as int),
                ),
        decreases n - i,
    {
        let op = trace.ops[i];
        let p = op.to_parsed();
        let ghost pre = memory@;
        let res = execute_parsed(p, memory);
        let ghost inp = choose|inp: Option<u8>| steps_to(p, pre, memory@, res, inp);
        proof {
            assert(steps_to(p, pre, memory@, res, inp));
            lemma_parsed_shape(op);
        }
        match res {
            Err(e) => {
                proof {
                    let full = finish_inputs(ins, inp, ops.len() as int);
                    lemma_instantiate(ops, term, m0, memory@, ins, inp, i as int, e);
                }
                return Err(e);
            },
            Ok(StepResult::Halt) => {
                proof {
                    assert(false);
                }
                return unreached();
            },
            Ok(StepResult::Next) => {
                proof {
                    assert(eval_op(op, pre, inp) == Ok::<_, VmErrorKind>((
                        memory@,
                        OpFlow::Continue,
                    )));
                    lemma_step_invariant(ops, term, m0, pre, memory@, ins, inp, i as int);
                    ins = ins.push(inp);
                }
                i = i + 1;
            },
            Ok(StepResult::Jump { id, new_pc }) => {
                let expected = match op {
                    TraceOp::Jump { expected_pc, .. } => expected_pc,
                    _ => {
                        proof {
                            assert(false);
                        }
                        0
                    },
                };
                if id != 0 {
                    let out = CompiledFuncResult::Jump { id, new_pc };
                    proof {
                        assert(eval_op(op, pre, inp) == Ok::<_, VmErrorKind>((
                            memory@,
                            OpFlow::Exit(out),
                        )));
                        lemma_exit_invariant(ops, term, m0, pre, memory@, ins, inp, i as int, out);
                    }
                    return Ok(out);
                } else if new_pc == expected {
                    proof {
                        assert(eval_op(op, pre, inp) == Ok::<_, VmErrorKind>((
                            memory@,
                            OpFlow::Continue,
                        )));
                        lemma_step_invariant(ops, term, m0, pre, memory@, ins, inp, i as int);
                        ins = ins.push(inp);
                    }
                    i = i + 1;
                } else {
                    let out = CompiledFuncResult::Resume { pc: new_pc };
                    proof {
                        assert(eval_op(op, pre, inp) == Ok::<_, VmErrorKind>((
                            memory@,
                            OpFlow::Exit(out),
                        )));
                        lemma_exit_invariant(ops, term, m0, pre, memory@, ins, inp, i as int, out);
                    }
                    return Ok(out);
                }
            },
        }
    }
    proof {
        assert(ins.subrange(0, n as int) =~= ins);
        assert(eval_trace(ops, term, memory@, ins, n as int) == (TraceRun {
            used: 0,
            m: memory@,
            res: Ok(CompiledFuncResult::Resume { pc: term }),
        }));
        assert(eval_trace(ops, term, m0, ins, 0) == shift_used(
            n as nat,
            eval_trace(ops, term, memory@, ins, n as int),
        ));
    }
    Ok(CompiledFuncResult::Resume { pc: trace.terminal_pc })
}

/// The inputs of a full run: those read so far, the one just read, and an
/// unread tail.
spec fn finish_inputs(ins: Seq<Option<u8>>, inp: Option<u8>, n: int) -> Seq<Option<u8>> {
    ins.push(inp) + Seq::new((n - ins.len() - 1) as nat, |x: int| None::<u8>)
}

/// Carrying the loop invariant of `run_trace` over one falling-through
/// operation.
proof fn lemma_step_invariant(
    ops: Seq<TraceOp>,
    term: usize,
    m0: MachineModel,
    pre: MachineModel,
    post: MachineModel,
    ins: Seq<Option<u8>>,
    inp: Option<u8>,
    i: int,
)
    requires
        0 <= i < ops.len(),
        ins.len() == i,
        eval_op(ops[i], pre, inp) == Ok::<(MachineModel, OpFlow), VmErrorKind>((
            post,
            OpFlow::Continue,
        )),
        forall|full: Seq<Option<u8>>|
            full.len() == ops.len() && full.subrange(0, i) == ins ==> #[trigger] eval_trace(
                ops,
                term,
                m0,
                full,
                0,
            ) == shift_used(i as nat, eval_trace(ops, term, pre, full, i)),
    ensures
        forall|full: Seq<Option<u8>>|
            full.len() == ops.len() && full.subrange(0, i + 1) == ins.push(inp)
                ==> #[trigger] eval_trace(ops, term, m0, full, 0) == shift_used(
                (i + 1) as nat,
                eval_trace(ops, term, post, full, i + 1),
            ),
{
    assert forall|full: Seq<Option<u8>>|
        full.len() == ops.len() && full.subrange(0, i + 1) == ins.push(inp) implies #[trigger] eval_trace(
        ops,
        term,
        m0,
        full,
        0,
    ) == shift_used((i + 1) as nat, eval_trace(ops, term, post, full, i + 1)) by {
        assert forall|x: int| 0 <= x < i implies full.subrange(0, i)[x] == ins[x] by {
            assert(full.subrange(0, i + 1)[x] == ins.push(inp)[x]);
        }
        assert(full.subrange(0, i) =~= ins);
        assert(full[i] == full.subrange(0, i + 1)[i]);
        assert(full[i] == inp);
        assert(eval_trace(ops, term, m0, full, 0) == shift_used(
            i as nat,
            eval_trace(ops, term, pre, full, i),
        ));
        assert(eval_trace(ops, term, pre, full, i) == shift_used(
            1,
            eval_trace(ops, term, post, full, i + 1),
        ));
    }
}

/// Closing the loop invariant of `run_trace` at an exiting operation: the
/// whole run is the steps so far, then this exit.
proof fn lemma_exit_invariant(
    ops: Seq<TraceOp>,
    term: usize,
    m0: MachineModel,
    pre: MachineModel,
    post: MachineModel,
    ins: Seq<Option<u8>>,
    inp: Option<u8>,
    i: int,
    out: CompiledFuncResult,
)
    requires
        0 <= i < ops.len(),
        ins.len() == i,
        eval_op(ops[i], pre, inp) == Ok::<(MachineModel, OpFlow), VmErrorKind>((
            post,
            OpFlow::Exit(out),
        )),
        forall|full: Seq<Option<u8>>|
            full.len() == ops.len() && full.subrange(0, i) == ins ==> #[trigger] eval_trace(
                ops,
                term,
                m0,
                full,
                0,
            ) == shift_used(i as nat, eval_trace(ops, term, pre, full, i)),
    ensures
        ({
            let full = finish_inputs(ins, inp, ops.len() as int);
            &&& full.len() == ops.len()
            &&& eval_trace(ops, term, m0, full, 0) == (TraceRun {
                used: (i + 1) as nat,
                m: post,
                res: Ok(out),
            })
        }),
{
    let full = finish_inputs(ins, inp, ops.len() as int);
    assert(full.len() == ops.len());
    assert forall|x: int| 0 <= x < i implies full.subrange(0, i)[x] == ins[x] by {
        assert(full[x] == ins.push(inp)[x]);
    }
    assert(full.subrange(0, i) =~= ins);
    assert(full[i] == ins.push(inp)[i]);
    assert(full[i] == inp);
    assert(eval_trace(ops, term, m0, full, 0) == shift_used(
        i as nat,
        eval_trace(ops, term, pre, full, i),
    ));
    assert(eval_trace(ops, term, pre, full, i) == (TraceRun {
        used: 1,
        m: post,
        res: Ok(out),
    }));
}

/// Closing the loop invariant of `run_trace` at a failing operation: the
/// whole run is the steps so far, then this abort.
proof fn lemma_instantiate(
    ops: Seq<TraceOp>,
    term: usize,
    m0: MachineModel,
    pre: MachineModel,
    ins: Seq<Option<u8>>,
    inp: Option<u8>,
    i: int,
    e: VmErrorKind,
)
    requires
        0 <= i < ops.len(),
        ins.len() == i,
        eval_op(ops[i], pre, inp) == Err::<(MachineModel, OpFlow), VmErrorKind>(e),
        forall|full: Seq<Option<u8>>|
            full.len() == ops.len() && full.subrange(0, i) == ins ==> #[trigger] eval_trace(
                ops,
                term,
                m0,
                full,
                0,
            ) == shift_used(i as nat, eval_trace(ops, term, pre, full, i)),
    ensures
        ({
            let full = finish_inputs(ins, inp, ops.len() as int);
            &&& full.len() == ops.len()
            &&& eval_trace(ops, term, m0, full, 0) == (TraceRun {
                used: i as nat,
                m: pre,
                res: Err(e),
            })
        }),
{
    let full = finish_inputs(ins, inp, ops.len() as int);
    assert(full.len() == ops.len());
    assert forall|x: int| 0 <= x < i implies full.subrange(0, i)[x] == ins[x] by {
        assert(full[x] == ins.push(inp)[x]);
    }
    assert(full.subrange(0, i) =~= ins);
    assert(full[i] == ins.push(inp)[i]);
    assert(full[i] == inp);
    assert(eval_trace(ops, term, m0, full, 0) == shift_used(
        i as nat,
        eval_trace(ops, term, pre, full, i),
    ));
    assert(eval_trace(ops, term, pre, full, i) == (TraceRun { used: 0, m: pre, res: Err(e) }));
}

/// Wherever a trace evaluation ends, its machine arises from the starting
/// machine by legal evolutions alone.
pub proof fn lemma_eval_trace_reachable(
    ops: Seq<TraceOp>,
    terminal: usize,
    m: MachineModel,
    inputs: Seq<Option<u8>>,
    i: int,
)
    ensures
        exists|n: nat| #[trigger] um_reachable(m, eval_trace(ops, terminal, m, inputs, i).m, n),
    decreases ops.len() - i,
{
    let r = eval_trace(ops, terminal, m, inputs, i);
    if i < 0 || i >= ops.len() {
        assert(um_reachable(m, r.m, 0));
    } else {
        match eval_op(ops[i], m, inputs[i]) {
            Err(e) => {
                assert(um_reachable(m, r.m, 0));
            },
            Ok((m1, OpFlow::Exit(res))) => {
                assert(crate::model::step_parsed(parsed_of(ops[i]), m, inputs[i]) matches Ok(pr)
                    && pr.0 == m1);
                assert(um_step(m, m1));
                assert(um_reachable(m, m, 0));
                assert(um_reachable(m, m1, 1));
            },
            Ok((m1, OpFlow::Continue)) => {
                assert(crate::model::step_parsed(parsed_of(ops[i]), m, inputs[i]) matches Ok(pr)
                    && pr.0 == m1);
                assert(um_step(m, m1));
                assert(um_reachable(m, m, 0));
                assert(um_reachable(m, m1, 1));
                lemma_eval_trace_reachable(ops, terminal, m1, inputs, i + 1);
                let fin = eval_trace(ops, terminal, m1, inputs, i + 1).m;
                let n2 = choose|n: nat|
                    #[trigger] um_reachable(m1, eval_trace(ops, terminal, m1, inputs, i + 1).m, n);
                crate::model::lemma_um_reachable_trans(m, m1, fin, 1, n2);
                assert(r.m == fin);
                assert(um_reachable(m, r.m, (1 + n2) as nat));
            },
        }
    }
}

/// The equivalence theorem, closed for a recorded trace: a well-formed clean
/// trace — the recorder marks a trace clean exactly when array 0 held the
/// recorded program throughout the recording — behaves on any machine that
/// still holds that program, and does not overwrite it while the trace runs,
/// exactly as the same number of interpreter steps from its entry.
pub proof fn lemma_recorded_trace_equivalence(
    t: CompiledTrace,
    m: MachineModel,
    inputs: Seq<Option<u8>>,
)
    requires
        t.wf(),
        t.clean@,
        inputs.len() == t.ops@.len(),
        0 < m.heap.len(),
        m.heap[0] == Some(t.prog@),
        prog_stable(t.ops@, t.prog@, m, inputs, 0),
    ensures
        ({
            let r = eval_trace(t.ops@, t.terminal_pc, m, inputs, 0);
            let entry = RunState::Running { m, pc: t.entry_pc as int };
            match r.res {
                Ok(CompiledFuncResult::Resume { pc: rpc }) => interp_steps(entry, inputs, 0, r.used)
                    == (RunState::Running { m: r.m, pc: rpc as int }),
                Ok(CompiledFuncResult::Jump { id, new_pc }) => {
                    &&& id != 0
                    &&& if id < r.m.heap.len() && r.m.heap[id as int] is Some {
                        interp_steps(entry, inputs, 0, r.used) == (RunState::Running {
                            m: MachineModel {
                                heap: crate::model::dup0_heap(r.m.heap, id as usize),
                                ..r.m
                            },
                            pc: new_pc as int,
                        })
                    } else {
                        let s = interp_steps(entry, inputs, 0, r.used);
                        s is Failed && s->Failed_m == r.m && s->Failed_kind
                            == VmErrorKind::HeapMisuse
                    }
                },
                Ok(CompiledFuncResult::Halt) => false,
                Err(e) => {
                    let s = interp_steps(entry, inputs, 0, (r.used + 1) as nat);
                    &&& r.used < t.ops@.len()
                    &&& s is Failed
                    &&& s->Failed_m == r.m
                    &&& s->Failed_kind == e
                },
            }
        }),
{
    lemma_trace_equivalence(
        t.ops@,
        t.terminal_pc,
        t.prog@,
        t.entry_pc as int,
        m,
        inputs,
        0,
    );
}

/// An aborted trace evaluation ends in a machine on which some instruction
/// aborts with exactly that condition.
pub proof fn lemma_eval_trace_err(
    ops: Seq<TraceOp>,
    terminal: usize,
    m: MachineModel,
    inputs: Seq<Option<u8>>,
    i: int,
)
    ensures
        eval_trace(ops, terminal, m, inputs, i).res matches Err(e) ==> exists|
            p: ParsedInstruction,
            inp: Option<u8>,
        |
            #[trigger] crate::model::step_parsed(p, eval_trace(ops, terminal, m, inputs, i).m, inp)
                == Err::<(MachineModel, StepResult), VmErrorKind>(e),
    decreases ops.len() - i,
{
    let run = eval_trace(ops, terminal, m, inputs, i);
    if 0 <= i < ops.len() {
        match eval_op(ops[i], m, inputs[i]) {
            Err(e) => {
                assert(run.m == m);
                assert(crate::model::step_parsed(parsed_of(ops[i]), run.m, inputs[i]) == Err::<
                    (MachineModel, StepResult),
                    VmErrorKind,
                >(e));
            },
            Ok((m1, OpFlow::Exit(res))) => {},
            Ok((m1, OpFlow::Continue)) => {
                lemma_eval_trace_err(ops, terminal, m1, inputs, i + 1);
                let sub = eval_trace(ops, terminal, m1, inputs, i + 1);
                assert(run.m == sub.m && run.res == sub.res);
                match sub.res {
                    Err(ee) => {
                        let (ps, inps) = choose|p: ParsedInstruction, inp: Option<u8>|
                            #[trigger] crate::model::step_parsed(p, sub.m, inp) == Err::<
                                (MachineModel, StepResult),
                                VmErrorKind,
                            >(ee);
                        assert(crate::model::step_parsed(ps, run.m, inps) == Err::<
                            (MachineModel, StepResult),
                            VmErrorKind,
                        >(ee));
                    },
                    _ => {},
                }
            },
        }
    }
}

/// No trace operation evaluates as a halt, and only a jump operation
/// evaluates as a load program.
proof fn lemma_parsed_shape(op: TraceOp)
    ensures
        !(parsed_of(op) is Halt),
        parsed_of(op) is LoadProgram ==> op is Jump,
{
    match op {
        TraceOp::CondMove { a, b, c } => {},
        TraceOp::Load { a, b, c } => {},
        TraceOp::Store { a, b, c } => {},
        TraceOp::Add { a, b, c } => {},
        TraceOp::Mul { a, b, c } => {},
        TraceOp::Div { a, b, c } => {},
        TraceOp::Nand { a, b, c } => {},
        TraceOp::Alloc { b, c } => {},
        TraceOp::Free { c } => {},
        TraceOp::Output { c } => {},
        TraceOp::Input { c } => {},
        TraceOp::Jump { b, c, expected_pc } => {},
        TraceOp::Imm { a, value } => {},
    }
}

/// A recorded operation recovers the instruction it was recorded from.
proof fn lemma_record_inverse(p: ParsedInstruction, e: usize, op: TraceOp)
    requires
        record_of(p, e) == Some(op),
    ensures
        parsed_of(op) == p,
        !(p is Halt),
{
    match p {
        ParsedInstruction::ConditionalMove { a, b, c } => {},
        ParsedInstruction::ArrayIndex { a, b, c } => {},
        ParsedInstruction::ArrayAmendment { a, b, c } => {},
        ParsedInstruction::Addition { a, b, c } => {},
        ParsedInstruction::Multiplication { a, b, c } => {},
        ParsedInstruction::Division { a, b, c } => {},
        ParsedInstruction::NotAnd { a, b, c } => {},
        ParsedInstruction::Halt => {},
        ParsedInstruction::Allocation { b, c } => {},
        ParsedInstruction::Abandonment { c } => {},
        ParsedInstruction::Output { c } => {},
        ParsedInstruction::Input { c } => {},
        ParsedInstruction::LoadProgram { b, c } => {},
        ParsedInstruction::Immediate { a, value } => {},
    }
}

/// The heart of the trace machinery: a trace recorded against the program,
/// run on a machine whose program array still holds that program and is not
/// overwritten while the trace runs, does exactly what the same number of
/// interpreter steps from the trace's entry do.
///
/// Whatever the trace reports, the interpreter agrees:
/// - a resume report leaves the interpreter running at the reported counter
///   in the same machine;
/// - a far jump report leaves the interpreter one driver step ahead, having
///   copied the named array over the program — or aborted when that array is
///   dead — exactly what the driver does with such a report;
/// - an abort leaves the interpreter aborted with the same kind in the same
///   machine;
/// - a halt report is never produced, since halt is never recorded.
pub proof fn lemma_trace_equivalence(
    ops: Seq<TraceOp>,
    terminal: usize,
    prog: Seq<u32>,
    pc: int,
    m: MachineModel,
    inputs: Seq<Option<u8>>,
    i: int,
)
    requires
        0 <= i <= ops.len(),
        inputs.len() == ops.len(),
        trace_consistent(ops, prog, pc, terminal, i),
        prog_stable(ops, prog, m, inputs, i),
    ensures
        ({
            let r = eval_trace(ops, terminal, m, inputs, i);
            match r.res {
                Ok(CompiledFuncResult::Resume { pc: rpc }) => interp_steps(
                    RunState::Running { m, pc },
                    inputs,
                    i,
                    r.used,
                ) == (RunState::Running { m: r.m, pc: rpc as int }),
                Ok(CompiledFuncResult::Jump { id, new_pc }) => {
                    &&& id != 0
                    &&& if id < r.m.heap.len() && r.m.heap[id as int] is Some {
                        interp_steps(RunState::Running { m, pc }, inputs, i, r.used)
                            == (RunState::Running {
                            m: MachineModel {
                                heap: crate::model::dup0_heap(r.m.heap, id as usize),
                                ..r.m
                            },
                            pc: new_pc as int,
                        })
                    } else {
                        let s = interp_steps(RunState::Running { m, pc }, inputs, i, r.used);
                        s is Failed && s->Failed_m == r.m && s->Failed_kind
                            == VmErrorKind::HeapMisuse
                    }
                },
                Ok(CompiledFuncResult::Halt) => false,
                Err(e) => {
                    let s = interp_steps(
                        RunState::Running { m, pc },
                        inputs,
                        i,
                        (r.used + 1) as nat,
                    );
                    &&& i + r.used < ops.len()
                    &&& s is Failed
                    &&& s->Failed_m == r.m
                    &&& s->Failed_kind == e
                },
            }
        }),
    decreases ops.len() - i,
{
    if i == ops.len() {
        assert(interp_steps(RunState::Running { m, pc }, inputs, i, 0) == (RunState::Running {
            m,
            pc,
        }));
    } else {
        let op = ops[i];
        let w = prog[pc];
        lemma_record_inverse(decode(w).unwrap(), op_expected(op), op);
        let p = parsed_of(op);
        assert(fetch(m, pc) == Some(w));
        let inp = inputs[i];
        match eval_op(op, m, inp) {
            Err(e) => {
                crate::model::lemma_interp_steps_one(RunState::Running { m, pc }, inputs, i);
            },
            Ok((m1, OpFlow::Continue)) => {
                let next = next_pc_of(op, pc);
                assert(advance(RunState::Running { m, pc }, inp) == (RunState::Running {
                    m: m1,
                    pc: next,
                }));
                lemma_trace_equivalence(ops, terminal, prog, next, m1, inputs, i + 1);
                let r1 = eval_trace(ops, terminal, m1, inputs, i + 1);
                assert forall|k: nat|
                    #[trigger] interp_steps(RunState::Running { m, pc }, inputs, i, (k + 1) as nat)
                        == interp_steps(RunState::Running { m: m1, pc: next }, inputs, i + 1, k) by {
                    assert(interp_steps(RunState::Running { m, pc }, inputs, i, (k + 1) as nat)
                        == interp_steps(
                        advance(RunState::Running { m, pc }, inputs[i]),
                        inputs,
                        i + 1,
                        k,
                    ));
                }
                assert(interp_steps(RunState::Running { m, pc }, inputs, i, (r1.used + 1) as nat)
                    == interp_steps(RunState::Running { m: m1, pc: next }, inputs, i + 1, r1.used));
                assert(interp_steps(RunState::Running { m, pc }, inputs, i, (r1.used + 2) as nat)
                    == interp_steps(
                    RunState::Running { m: m1, pc: next },
                    inputs,
                    i + 1,
                    (r1.used + 1) as nat,
                ));
            },
            Ok((m1, OpFlow::Exit(res))) => {
                crate::model::lemma_interp_steps_one(RunState::Running { m, pc }, inputs, i);
            },
        }
    }
}

} // verus!
