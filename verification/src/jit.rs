//! The hybrid driver: interpret, count hot spots, record traces at hot
//! program counters, and run recorded traces through the verified evaluator.
//!
//! A trace is recorded by executing the program one step at a time while
//! noting each instruction. Recording closes on a halt, an unfetchable or
//! invalid word, a step that aborts, a jump into another array, a closed
//! loop, a counter that already has a trace, or the length bound. A jump
//! that replaces the program array drops every cached trace, since their
//! operations may no longer match it.

use vstd::hash_map::HashMapWithView;
use vstd::pervasive::unreached;
use vstd::prelude::*;

use crate::codegen::{
    eval_trace, op_records, record_of, run_trace, trace_consistent, CompiledFuncResult,
    CompiledTrace, TraceOp,
};
use crate::instruction::{decode, lemma_decode_wf, ParsedInstruction};
use crate::interpreter::{execute_parsed, StepResult, VmError, STEP_BUDGET};
use crate::memory::Memory;
use crate::model::{
    fetch, init_model, interp_steps, lemma_interp_steps_extend, steps_to, um_reachable, um_step,
    MachineModel, RunState, VmErrorKind,
};

verus! {

broadcast use vstd::std_specs::hash::group_hash_axioms;

/// The most instructions one trace may cover.
pub const JIT_MAX_INSTRUCTIONS: usize = 1000;

/// How often a program counter must be reached before it is traced.
pub const JIT_HOT_SPOT_THRESHOLD: usize = 100;

/// The operation the recorder emits for a decoded instruction; `None` for a
/// halt, on which the recorder closes the trace instead.
fn record_op(p: ParsedInstruction, expected_pc: usize) -> (r: Option<TraceOp>)
    ensures
        r == record_of(p, expected_pc),
{
    match p {
        ParsedInstruction::ConditionalMove { a, b, c } => Some(TraceOp::CondMove { a, b, c }),
        ParsedInstruction::ArrayIndex { a, b, c } => Some(TraceOp::Load { a, b, c }),
        ParsedInstruction::ArrayAmendment { a, b, c } => Some(TraceOp::Store { a, b, c }),
        ParsedInstruction::Addition { a, b, c } => Some(TraceOp::Add { a, b, c }),
        ParsedInstruction::Multiplication { a, b, c } => Some(TraceOp::Mul { a, b, c }),
        ParsedInstruction::Division { a, b, c } => Some(TraceOp::Div { a, b, c }),
        ParsedInstruction::NotAnd { a, b, c } => Some(TraceOp::Nand { a, b, c }),
        ParsedInstruction::Halt => None,
        ParsedInstruction::Allocation { b, c } => Some(TraceOp::Alloc { b, c }),
        ParsedInstruction::Abandonment { c } => Some(TraceOp::Free { c }),
        ParsedInstruction::Output { c } => Some(TraceOp::Output { c }),
        ParsedInstruction::Input { c } => Some(TraceOp::Input { c }),
        ParsedInstruction::LoadProgram { b, c } => Some(TraceOp::Jump { b, c, expected_pc }),
        ParsedInstruction::Immediate { a, value } => Some(TraceOp::Imm { a, value }),
    }
}

/// Appending an operation that records the word at the chain's end extends a
/// consistent trace by one step.
proof fn lemma_consistent_snoc(
    ops: Seq<TraceOp>,
    prog: Seq<u32>,
    pc: int,
    cur: usize,
    nxt: usize,
    op: TraceOp,
    i: int,
)
    requires
        0 <= i <= ops.len(),
        trace_consistent(ops, prog, pc, cur, i),
        0 <= (cur as int) < prog.len(),
        op_records(op, prog[cur as int]),
        nxt as int == crate::codegen::next_pc_of(op, cur as int),
    ensures
        trace_consistent(ops.push(op), prog, pc, nxt, i),
    decreases ops.len() - i,
{
    if i < ops.len() {
        assert(ops.push(op)[i] == ops[i]);
        lemma_consistent_snoc(
            ops,
            prog,
            crate::codegen::next_pc_of(ops[i], pc),
            cur,
            nxt,
            op,
            i + 1,
        );
        assert(trace_consistent(
            ops.push(op),
            prog,
            crate::codegen::next_pc_of(ops[i], pc),
            nxt,
            i + 1,
        ));
    } else {
        assert(ops.push(op)[i] == op);
        assert(cur as int == pc);
        assert(trace_consistent(
            ops.push(op),
            prog,
            crate::codegen::next_pc_of(op, pc),
            nxt,
            i + 1,
        ));
    }
}

/// A decoded instruction other than halt always records as an operation.
proof fn lemma_record_some(p: ParsedInstruction, e: usize)
    ensures
        !(p is Halt) ==> record_of(p, e) is Some,
        record_of(p, e) matches Some(op) ==> op.wf() == p.wf(),
{
    match p {
        ParsedInstruction::ConditionalMove { a, b, c } => {},
        ParsedInstruction::ArrayIndex { a, b, c } => {},
        ParsedInstruction::ArrayAmendment { a, b, c } => {},
        ParsedInstruction::Addition { a, b, c } => {},
        ParsedInstruction::Multiplication { a, b, c } => {},
        ParsedInstruction::Division { a, b, c } => {},
        ParsedInstruction::NotAnd { a, b, c } => {},
        ParsedInstruction::Halt => {},
        ParsedInstruction::Allocation { b, c } => {},
        ParsedInstruction::Abandonment { c } => {},
        ParsedInstruction::Output { c } => {},
        ParsedInstruction::Input { c } => {},
        ParsedInstruction::LoadProgram { b, c } => {},
        ParsedInstruction::Immediate { a, value } => {},
    }
}

/// The conditions on which the recorder closes a trace at a running state,
/// after `steps` recorded instructions: the length bound; a counter, reached
/// by at least one step, that closes the loop or already has a trace; an
/// unfetchable or undecodable word; a halt; a step that would abort; or a
/// jump into another array.
pub open spec fn recorder_stop(
    m: MachineModel,
    pc: int,
    start_pc: usize,
    cache: Map<usize, CompiledTrace>,
    steps: nat,
) -> bool {
    ||| steps >= JIT_MAX_INSTRUCTIONS
    ||| (steps > 0 && (pc == start_pc || cache.contains_key(pc as usize)))
    ||| match fetch(m, pc) {
        None => true,
        Some(w) => match decode(w) {
            None => true,
            Some(p) => {
                ||| p is Halt
                ||| exists|inp: Option<u8>| (#[trigger] crate::model::step_parsed(p, m, inp)) is Err
                ||| (p matches ParsedInstruction::LoadProgram { b, c } && m.regs[b as int] != 0)
            },
        },
    }
}

/// No stop condition holds anywhere strictly inside the run: the recorder
/// never gives up early.
pub open spec fn no_stop_before(
    init: RunState,
    ins: Seq<Option<u8>>,
    start_pc: usize,
    cache: Map<usize, CompiledTrace>,
) -> bool {
    forall|j: int|
        0 <= j < ins.len() ==> ((#[trigger] interp_steps(init, ins, 0, j as nat))
            matches RunState::Running { m, pc } && !recorder_stop(m, pc, start_pc, cache, j as nat))
}

/// Array 0 holds `prog` at every state of the first `k` steps of the run.
pub open spec fn program_held(
    init: RunState,
    ins: Seq<Option<u8>>,
    k: nat,
    prog: Seq<u32>,
) -> bool {
    forall|j: int|
        0 <= j <= k ==> ({
            let m = crate::model::machine_of(#[trigger] interp_steps(init, ins, 0, j as nat));
            0 < m.heap.len() && m.heap[0] == Some(prog)
        })
}

/// What a recording from `start_pc` does, witnessed by the bytes `ins` read:
/// the machine advances exactly as the interpreter for `ins.len()` steps,
/// never meeting a stop condition before the end and meeting one at the end,
/// where the caller resumes; a trace comes back exactly when more than three
/// instructions were captured, and it is marked clean exactly when array 0
/// held the recorded program throughout.
pub open spec fn recording_outcome(
    m0: MachineModel,
    start_pc: usize,
    cache: Map<usize, CompiledTrace>,
    ins: Seq<Option<u8>>,
    mfin: MachineModel,
    r: (Option<CompiledTrace>, usize),
) -> bool {
    let init = RunState::Running { m: m0, pc: start_pc as int };
    &&& interp_steps(init, ins, 0, ins.len()) == (RunState::Running { m: mfin, pc: r.1 as int })
    &&& no_stop_before(init, ins, start_pc, cache)
    &&& recorder_stop(mfin, r.1 as int, start_pc, cache, ins.len())
    &&& (r.0 is Some <==> ins.len() > 3)
    &&& (r.0 matches Some(t) ==> {
        &&& t.wf()
        &&& t.entry_pc == start_pc
        &&& t.prog@ == m0.heap[0].unwrap()
        &&& t.clean@ == program_held(init, ins, ins.len(), t.prog@)
    })
}

/// Run prefixes are unchanged by appending an input byte.
proof fn lemma_prefixes_agree(init: RunState, ins: Seq<Option<u8>>, inp: Option<u8>)
    ensures
        forall|j: int|
            0 <= j <= ins.len() ==> #[trigger] interp_steps(init, ins.push(inp), 0, j as nat)
                == interp_steps(init, ins, 0, j as nat),
{
    assert forall|j: int| 0 <= j <= ins.len() implies #[trigger] interp_steps(
        init,
        ins.push(inp),
        0,
        j as nat,
    ) == interp_steps(init, ins, 0, j as nat) by {
        crate::model::lemma_interp_steps_agree(init, ins.push(inp), ins, 0, j as nat);
    }
}

/// Extending the run by one step extends `program_held` by the new state.
proof fn lemma_program_held_step(
    init: RunState,
    ins: Seq<Option<u8>>,
    inp: Option<u8>,
    prog: Seq<u32>,
)
    ensures
        program_held(init, ins.push(inp), (ins.len() + 1) as nat, prog) == (program_held(
            init,
            ins,
            ins.len(),
            prog,
        ) && ({
            let m = crate::model::machine_of(
                interp_steps(init, ins.push(inp), 0, (ins.len() + 1) as nat),
            );
            0 < m.heap.len() && m.heap[0] == Some(prog)
        })),
{
    lemma_prefixes_agree(init, ins, inp);
    let k1 = (ins.len() + 1) as nat;
    if program_held(init, ins.push(inp), k1, prog) {
        assert forall|j: int| 0 <= j <= ins.len() implies ({
            let m = crate::model::machine_of(#[trigger] interp_steps(init, ins, 0, j as nat));
            0 < m.heap.len() && m.heap[0] == Some(prog)
        }) by {
            assert(interp_steps(init, ins.push(inp), 0, j as nat) == interp_steps(
                init,
                ins,
                0,
                j as nat,
            ));
        }
    }
    if program_held(init, ins, ins.len(), prog) && ({
        let m = crate::model::machine_of(interp_steps(init, ins.push(inp), 0, k1));
        0 < m.heap.len() && m.heap[0] == Some(prog)
    }) {
        assert forall|j: int| 0 <= j <= k1 implies ({
            let m = crate::model::machine_of(
                #[trigger] interp_steps(init, ins.push(inp), 0, j as nat),
            );
            0 < m.heap.len() && m.heap[0] == Some(prog)
        }) by {
            if j <= ins.len() {
                assert(interp_steps(init, ins.push(inp), 0, j as nat) == interp_steps(
                    init,
                    ins,
                    0,
                    j as nat,
                ));
            }
        }
    }
}

/// Close a recording: a trace of more than three executed instructions is
/// kept, a shorter one is not worth installing.
fn seal(
    ops: Vec<TraceOp>,
    entry_pc: usize,
    terminal_pc: usize,
    insts: usize,
    prog: Ghost<Seq<u32>>,
    clean: Ghost<bool>,
) -> (t: Option<CompiledTrace>)
    requires
        forall|i: int| 0 <= i < ops@.len() ==> (#[trigger] ops@[i]).wf(),
        clean@ ==> trace_consistent(ops@, prog@, entry_pc as int, terminal_pc, 0),
    ensures
        t matches Some(tr) ==> {
            &&& tr.wf()
            &&& tr.entry_pc == entry_pc
            &&& tr.terminal_pc == terminal_pc
            &&& tr.prog == prog
            &&& tr.clean == clean
        },
        t is Some <==> insts > 3,
{
    if insts <= 3 {
        None
    } else {
        Some(CompiledTrace { ops, entry_pc, terminal_pc, prog, clean })
    }
}

/// Record a trace from `start_pc` while executing the program.
///
/// The whole recording is a run of the model from the starting state to the
/// returned counter, and it runs exactly until the first stop condition: a
/// halt, an invalid word, a step that would abort, a jump into another
/// array, a closed loop, an already-traced counter, or the length bound. A
/// trace comes back exactly when more than three instructions were captured,
/// marked clean exactly when array 0 held the recorded program throughout —
/// a clean trace is consistent with that program, which is what
/// `lemma_trace_equivalence` asks of it.
pub fn tracing_run(
    memory: &mut Memory,
    start_pc: usize,
    compiled: &HashMapWithView<usize, CompiledTrace>,
) -> (r: (Option<CompiledTrace>, usize))
    requires
        old(memory).wf(),
    ensures
        final(memory).wf(),
        (final(memory).port is Console) == (old(memory).port is Console),
        exists|ins: Seq<Option<u8>>|
            #[trigger] recording_outcome(
                old(memory)@,
                start_pc,
                compiled@,
                ins,
                final(memory)@,
                r,
            ),
{
    let ghost init = RunState::Running { m: old(memory)@, pc: start_pc as int };
    let ghost prog0 = old(memory)@.heap[0].unwrap();
    let ghost mut ins: Seq<Option<u8>> = Seq::empty();
    let ghost mut clean: bool = true;
    let mut ops: Vec<TraceOp> = Vec::new();
    let mut pc: usize = start_pc;
    let mut insts: usize = 0;
    proof {
        assert forall|j: int| 0 <= j <= 0 implies ({
            let m = crate::model::machine_of(
                #[trigger] interp_steps(init, Seq::<Option<u8>>::empty(), 0, j as nat),
            );
            0 < m.heap.len() && m.heap[0] == Some(prog0)
        }) by {
            assert(interp_steps(init, Seq::<Option<u8>>::empty(), 0, 0) == init);
        }
    }
    loop
        invariant
            memory.wf(),
            (memory.port is Console) == (old(memory).port is Console),
            init == (RunState::Running { m: old(memory)@, pc: start_pc as int }),
            prog0 == old(memory)@.heap[0].unwrap(),
            interp_steps(init, ins, 0, ins.len()) == (RunState::Running {
                m: memory@,
                pc: pc as int,
            }),
            forall|j: int| 0 <= j < ops@.len() ==> (#[trigger] ops@[j]).wf(),
            clean ==> memory@.heap[0] == Some(prog0),
            clean ==> trace_consistent(ops@, prog0, start_pc as int, pc, 0),
            clean == program_held(init, ins, ins.len(), prog0),
            no_stop_before(init, ins, start_pc, compiled@),
            insts == ins.len(),
            insts <= JIT_MAX_INSTRUCTIONS,
            ins.len() > 0 ==> (pc != start_pc && !compiled@.contains_key(pc)),
        decreases JIT_MAX_INSTRUCTIONS - insts,
    {
        if insts >= JIT_MAX_INSTRUCTIONS {
            let r = (seal(ops, start_pc, pc, insts, Ghost(prog0), Ghost(clean)), pc);
            proof {
                assert(recording_outcome(old(memory)@, start_pc, compiled@, ins, memory@, r));
            }
            return r;
        }
        let n0 = memory.arrays.array_len(0);
        if pc >= n0 {
            let r = (seal(ops, start_pc, pc, insts, Ghost(prog0), Ghost(clean)), pc);
            proof {
                assert(fetch(memory@, pc as int) is None);
                assert(recording_outcome(old(memory)@, start_pc, compiled@, ins, memory@, r));
            }
            return r;
        }
        let w = memory.arrays.get(0, pc);
        let p = match ParsedInstruction::from_u32(w) {
            None => {
                let r = (seal(ops, start_pc, pc, insts, Ghost(prog0), Ghost(clean)), pc);
                proof {
                    assert(fetch(memory@, pc as int) == Some(w));
                    assert(recording_outcome(old(memory)@, start_pc, compiled@, ins, memory@, r));
                }
                return r;
            },
            Some(p) => p,
        };
        match p {
            ParsedInstruction::Halt => {
                let r = (seal(ops, start_pc, pc, insts, Ghost(prog0), Ghost(clean)), pc);
                proof {
                    assert(fetch(memory@, pc as int) == Some(w));
                    assert(recording_outcome(old(memory)@, start_pc, compiled@, ins, memory@, r));
                }
                return r;
            },
            _ => {},
        }
        proof {
            lemma_decode_wf(w);
            lemma_record_some(p, 0);
        }
        let ghost pre = memory@;
        let ghost old_pc = pc;
        let res = execute_parsed(p, memory);
        let ghost inp = choose|inp: Option<u8>| steps_to(p, pre, memory@, res, inp);
        proof {
            assert(steps_to(p, pre, memory@, res, inp));
            assert(fetch(pre, old_pc as int) == Some(w));
        }
        match res {
            Err(e) => {
                let r = (seal(ops, start_pc, pc, insts, Ghost(prog0), Ghost(clean)), pc);
                proof {
                    assert(crate::model::step_parsed(p, memory@, inp) is Err);
                    assert(recording_outcome(old(memory)@, start_pc, compiled@, ins, memory@, r));
                }
                return r;
            },
            Ok(StepResult::Halt) => {
                proof {
                    assert(false);
                }
                return unreached();
            },
            Ok(StepResult::Next) => {
                let op = match record_op(p, 0) {
                    Some(op) => op,
                    None => unreached(),
                };
                proof {
                    if clean {
                        assert(op_records(op, prog0[pc as int]));
                        lemma_consistent_snoc(
                            ops@,
                            prog0,
                            start_pc as int,
                            pc,
                            (pc + 1) as usize,
                            op,
                            0,
                        );
                    }
                }
                ops.push(op);
                proof {
                    assert(!recorder_stop(
                        pre,
                        old_pc as int,
                        start_pc,
                        compiled@,
                        ins.len() as nat,
                    )) by {
                        assert forall|inp2: Option<u8>|
                            !((#[trigger] crate::model::step_parsed(p, pre, inp2)) is Err) by {
                            crate::model::lemma_step_err_independent(p, pre, inp, inp2);
                        }
                        match p {
                            ParsedInstruction::LoadProgram { b, c } => {
                                assert(false);
                            },
                            _ => {},
                        }
                    }
                    lemma_no_stop_extend(init, ins, inp, start_pc, compiled@, pre, old_pc as int);
                    lemma_program_held_step(init, ins, inp, prog0);
                    lemma_interp_steps_extend(init, ins, inp);
                    ins = ins.push(inp);
                    clean = clean && (0 < memory@.heap.len() && memory@.heap[0] == Some(prog0));
                }
                pc = pc + 1;
                insts = insts + 1;
            },
            Ok(StepResult::Jump { id, new_pc }) => {
                let (b, c) = match p {
                    ParsedInstruction::LoadProgram { b, c } => (b, c),
                    _ => unreached(),
                };
                let op = TraceOp::Jump { b, c, expected_pc: new_pc };
                proof {
                    assert(record_of(p, new_pc) == Some(op));
                    if clean {
                        assert(op_records(op, prog0[pc as int]));
                        lemma_consistent_snoc(ops@, prog0, start_pc as int, pc, new_pc, op, 0);
                    }
                    assert(op.wf());
                }
                ops.push(op);
                if id != 0 {
                    // The machine is unchanged by the jump itself; the caller
                    // resumes at the jump to replace the program array.
                    let r = (seal(ops, start_pc, new_pc, insts, Ghost(prog0), Ghost(clean)), pc);
                    proof {
                        assert(memory@ == pre);
                        assert(pre.regs[b as int] == id);
                        assert(recording_outcome(
                            old(memory)@,
                            start_pc,
                            compiled@,
                            ins,
                            memory@,
                            r,
                        ));
                    }
                    return r;
                }
                proof {
                    assert(!recorder_stop(
                        pre,
                        old_pc as int,
                        start_pc,
                        compiled@,
                        ins.len() as nat,
                    )) by {
                        assert forall|inp2: Option<u8>|
                            !((#[trigger] crate::model::step_parsed(p, pre, inp2)) is Err) by {
                            crate::model::lemma_step_err_independent(p, pre, inp, inp2);
                        }
                        assert(pre.regs[b as int] == 0);
                    }
                    lemma_no_stop_extend(init, ins, inp, start_pc, compiled@, pre, old_pc as int);
                    lemma_program_held_step(init, ins, inp, prog0);
                    lemma_interp_steps_extend(init, ins, inp);
                    ins = ins.push(inp);
                    clean = clean && (0 < memory@.heap.len() && memory@.heap[0] == Some(prog0));
                }
                pc = new_pc;
                insts = insts + 1;
            },
        }
        if pc == start_pc || compiled.contains_key(&pc) {
            let r = (seal(ops, start_pc, pc, insts, Ghost(prog0), Ghost(clean)), pc);
            proof {
                assert(recording_outcome(old(memory)@, start_pc, compiled@, ins, memory@, r));
            }
            return r;
        }
    }
}

/// Appending a step taken from a state where no stop condition held keeps
/// the run free of early stops.
proof fn lemma_no_stop_extend(
    init: RunState,
    ins: Seq<Option<u8>>,
    inp: Option<u8>,
    start_pc: usize,
    cache: Map<usize, CompiledTrace>,
    m: MachineModel,
    pc: int,
)
    requires
        no_stop_before(init, ins, start_pc, cache),
        interp_steps(init, ins, 0, ins.len()) == (RunState::Running { m, pc }),
        !recorder_stop(m, pc, start_pc, cache, ins.len() as nat),
    ensures
        no_stop_before(init, ins.push(inp), start_pc, cache),
{
    lemma_prefixes_agree(init, ins, inp);
    assert forall|j: int|
        0 <= j < ins.push(inp).len() implies ((#[trigger] interp_steps(
        init,
        ins.push(inp),
        0,
        j as nat,
    )) matches RunState::Running { m: mj, pc: pj } && !recorder_stop(
        mj,
        pj,
        start_pc,
        cache,
        j as nat,
    )) by {
        assert(interp_steps(init, ins.push(inp), 0, j as nat) == interp_steps(
            init,
            ins,
            0,
            j as nat,
        ));
        if j < ins.len() {
            assert((#[trigger] interp_steps(init, ins, 0, j as nat))
                matches RunState::Running { m: mj2, pc: pj2 } && !recorder_stop(
                mj2,
                pj2,
                start_pc,
                cache,
                j as nat,
            ));
        }
    }
}

/// A halt instruction stands fetchable somewhere in the machine.
pub open spec fn halted_at(m: MachineModel) -> bool {
    exists|pch: int|
        (#[trigger] fetch(m, pch)) matches Some(w) && decode(w) == Some(ParsedInstruction::Halt)
}

/// The condition that the diagnostic `e` reports holds of the machine `m`:
/// the counter lies outside the program, the named word is fetched there and
/// is undecodable, aborts as a step, or is a jump into a dead array — or,
/// for a diagnostic without a word (raised while running a trace), some
/// instruction aborts so on `m`, or a dead nonzero array id exists in `m`.
pub open spec fn err_condition(m: MachineModel, e: VmError) -> bool {
    match e.word {
        None => {
            ||| (e.kind is OutOfBounds && fetch(m, e.pc as int) is None)
            ||| exists|p: ParsedInstruction, inp: Option<u8>|
                (#[trigger] crate::model::step_parsed(p, m, inp)) == Err::<
                    (MachineModel, StepResult),
                    VmErrorKind,
                >(e.kind)
            ||| (e.kind is HeapMisuse && exists|id: int|
                0 < id && !(id < m.heap.len() && (#[trigger] m.heap[id]) is Some))
        },
        Some(w) => {
            &&& fetch(m, e.pc as int) == Some(w)
            &&& match decode(w) {
                None => e.kind is InvalidInstruction,
                Some(p) => {
                    ||| exists|inp: Option<u8>|
                        (#[trigger] crate::model::step_parsed(p, m, inp)) == Err::<
                            (MachineModel, StepResult),
                            VmErrorKind,
                        >(e.kind)
                    ||| (p matches ParsedInstruction::LoadProgram { b, c }
                        && e.kind is HeapMisuse && m.regs[b as int] != 0 && !((m.regs[
                        b as int] as int) < m.heap.len() && m.heap[m.regs[b as int] as int]
                        is Some))
                },
            }
        },
    }
}

/// Drive the machine from program counter 0, interpreting cold code, tracing
/// hot counters, and running recorded traces, until the program halts or
/// aborts. Every machine the driver ever holds — so in particular the one it
/// ends in — arises from the starting machine by legal evolutions alone; it
/// returns cleanly only with a halt fetched in the final machine, and every
/// abort other than budget exhaustion reports a condition that holds of the
/// final machine.
fn drive(memory: &mut Memory) -> (r: Result<(), VmError>)
    requires
        old(memory).wf(),
    ensures
        final(memory).wf(),
        (final(memory).port is Console) == (old(memory).port is Console),
        exists|n: nat| #[trigger] um_reachable(old(memory)@, final(memory)@, n),
        r is Ok ==> halted_at(final(memory)@),
        r matches Err(e) ==> (!(e.kind is Exhausted) ==> err_condition(final(memory)@, e)),
{
    let mut compiled: HashMapWithView<usize, CompiledTrace> = HashMapWithView::new();
    let mut hits: HashMapWithView<usize, usize> = HashMapWithView::new();
    let mut pc: usize = 0;
    let mut candidate: bool = true;
    let mut fuel: u64 = STEP_BUDGET;
    proof {
        assert(um_reachable(old(memory)@, memory@, 0));
    }
    loop
        invariant
            memory.wf(),
            (memory.port is Console) == (old(memory).port is Console),
            forall|k: usize| #[trigger] compiled@.contains_key(k) ==> compiled@[k].ops_wf(),
            exists|n: nat| #[trigger] um_reachable(old(memory)@, memory@, n),
        decreases fuel,
    {
        if fuel == 0 {
            return Err(VmError { pc, word: None, kind: VmErrorKind::Exhausted });
        }
        fuel = fuel - 1;
        let ghost base = old(memory)@;

        // A recorded trace at this counter runs first.
        let ghost pre = memory@;
        let traced = match compiled.get(&pc) {
            Some(t) => {
                let ghost tops = t.ops@;
                let ghost tterm = t.terminal_pc;
                let res = run_trace(t, memory);
                proof {
                    let ins = choose|ins: Seq<Option<u8>>|
                        ins.len() == tops.len() && ({
                            let run = #[trigger] eval_trace(tops, tterm, pre, ins, 0);
                            run.m == memory@ && run.res == res
                        });
                    crate::codegen::lemma_eval_trace_reachable(tops, tterm, pre, ins, 0);
                    crate::codegen::lemma_eval_trace_err(tops, tterm, pre, ins, 0);
                    lemma_reach_on(base, pre, memory@);
                    assert(res matches Err(e) ==> exists|p: ParsedInstruction, inp: Option<u8>|
                        (#[trigger] crate::model::step_parsed(p, memory@, inp)) == Err::<
                            (MachineModel, StepResult),
                            VmErrorKind,
                        >(e));
                }
                Some(res)
            },
            None => None,
        };
        match traced {
            Some(Ok(CompiledFuncResult::Resume { pc: new_pc })) => {
                pc = new_pc;
                candidate = true;
                continue ;
            },
            Some(Ok(CompiledFuncResult::Halt)) => {
                // A trace never reports a halt: halt is never recorded.
                proof {
                    assert(false);
                }
                return unreached();
            },
            Some(Ok(CompiledFuncResult::Jump { id, new_pc })) => {
                if id != 0 {
                    hits.clear();
                    compiled.clear();
                    let idu = id as usize;
                    if idu >= memory.arrays.slot_count() || !memory.arrays.is_live(idu) {
                        let e = VmError { pc, word: None, kind: VmErrorKind::HeapMisuse };
                        proof {
                            assert(0 < idu as int && !((idu as int) < memory@.heap.len()
                                && memory@.heap[idu as int] is Some));
                            assert(err_condition(memory@, e));
                        }
                        return Err(e);
                    }
                    let ghost before = memory@;
                    memory.arrays.dup0(idu);
                    proof {
                        lemma_dup0_evolves(base, before, memory@, idu);
                    }
                }
                pc = new_pc;
                candidate = true;
                continue ;
            },
            Some(Err(kind)) => {
                let e = VmError { pc, word: None, kind };
                proof {
                    assert(err_condition(memory@, e));
                }
                return Err(e);
            },
            None => {},
        }

        // A counter reached by a jump or a trace exit is a tracing candidate.
        if candidate {
            candidate = false;
            let count = match hits.get(&pc) {
                Some(c) => *c,
                None => 0,
            };
            if count < JIT_HOT_SPOT_THRESHOLD {
                let bumped = count + 1;
                hits.insert(pc, bumped);
                if bumped == JIT_HOT_SPOT_THRESHOLD {
                    let ghost before = memory@;
                    let ghost entry = pc;
                    let (maybe_trace, new_pc) = tracing_run(memory, pc, &compiled);
                    proof {
                        let ins = choose|ins: Seq<Option<u8>>|
                            #[trigger] interp_steps(
                                RunState::Running { m: before, pc: entry as int },
                                ins,
                                0,
                                ins.len(),
                            ) == (RunState::Running { m: memory@, pc: new_pc as int });
                        crate::model::lemma_interp_steps_reachable(
                            before,
                            entry as int,
                            ins,
                            0,
                            ins.len(),
                        );
                        lemma_reach_on(base, before, memory@);
                    }
                    match maybe_trace {
                        Some(t) => {
                            compiled.insert(pc, t);
                        },
                        None => {},
                    }
                    pc = new_pc;
                    candidate = true;
                    continue ;
                }
            }
        }

        // Interpret one step.
        let n0 = memory.arrays.array_len(0);
        if pc >= n0 {
            let e = VmError { pc, word: None, kind: VmErrorKind::OutOfBounds };
            proof {
                assert(fetch(memory@, pc as int) is None);
                assert(err_condition(memory@, e));
            }
            return Err(e);
        }
        let w = memory.arrays.get(0, pc);
        let p = match ParsedInstruction::from_u32(w) {
            None => {
                let e = VmError { pc, word: Some(w), kind: VmErrorKind::InvalidInstruction };
                proof {
                    assert(fetch(memory@, pc as int) == Some(w));
                    assert(err_condition(memory@, e));
                }
                return Err(e);
            },
            Some(p) => p,
        };
        proof {
            lemma_decode_wf(w);
        }
        let ghost stepped = memory@;
        proof {
            assert(fetch(stepped, pc as int) == Some(w));
        }
        let res = execute_parsed(p, memory);
        proof {
            let inp = choose|inp: Option<u8>| steps_to(p, stepped, memory@, res, inp);
            assert(steps_to(p, stepped, memory@, res, inp));
            if res is Ok {
                assert(um_step(stepped, memory@));
                assert(um_reachable(stepped, stepped, 0));
                assert(um_reachable(stepped, memory@, 1));
            } else {
                assert(crate::model::step_parsed(p, memory@, inp) is Err);
                assert(um_reachable(stepped, memory@, 0));
            }
            lemma_reach_on(base, stepped, memory@);
        }
        match res {
            Err(kind) => {
                let e = VmError { pc, word: Some(w), kind };
                proof {
                    assert(err_condition(memory@, e));
                }
                return Err(e);
            },
            Ok(StepResult::Halt) => {
                proof {
                    let inp = choose|inp: Option<u8>| steps_to(p, stepped, memory@, res, inp);
                    assert(steps_to(p, stepped, memory@, res, inp));
                    crate::model::lemma_halt_step(p, stepped, inp);
                    assert(p is Halt);
                    assert(memory@ == stepped);
                    assert(decode(w) == Some(ParsedInstruction::Halt));
                    assert(fetch(memory@, pc as int) == Some(w));
                    assert(halted_at(memory@));
                }
                return Ok(());
            },
            Ok(StepResult::Next) => {
                pc = pc + 1;
            },
            Ok(StepResult::Jump { id, new_pc }) => {
                candidate = id != 0 || new_pc < pc;
                if id != 0 {
                    let idu = id as usize;
                    if idu >= memory.arrays.slot_count() || !memory.arrays.is_live(idu) {
                        let e = VmError { pc, word: Some(w), kind: VmErrorKind::HeapMisuse };
                        proof {
                            match p {
                                ParsedInstruction::LoadProgram { b, c } => {
                                    assert(memory@ == stepped);
                                    assert(memory@.regs[b as int] == id);
                                },
                                _ => {
                                    assert(false);
                                },
                            }
                            assert(err_condition(memory@, e));
                        }
                        return Err(e);
                    }
                    let ghost before = memory@;
                    memory.arrays.dup0(idu);
                    proof {
                        lemma_dup0_evolves(base, before, memory@, idu);
                    }
                    hits.clear();
                    compiled.clear();
                }
                pc = new_pc;
            },
        }
    }
}

/// Legal evolutions compose: what the machine reached, it reached legally.
proof fn lemma_reach_on(base: MachineModel, pre: MachineModel, cur: MachineModel)
    requires
        exists|n: nat| #[trigger] um_reachable(base, pre, n),
        exists|n: nat| #[trigger] um_reachable(pre, cur, n),
    ensures
        exists|n: nat| #[trigger] um_reachable(base, cur, n),
{
    let n1 = choose|n: nat| #[trigger] um_reachable(base, pre, n);
    let n2 = choose|n: nat| #[trigger] um_reachable(pre, cur, n);
    crate::model::lemma_um_reachable_trans(base, pre, cur, n1, n2);
    assert(um_reachable(base, cur, (n1 + n2) as nat));
}

/// Replacing the program array by a copy of a live array is one legal
/// evolution.
proof fn lemma_dup0_evolves(
    base: MachineModel,
    before: MachineModel,
    after: MachineModel,
    id: usize,
)
    requires
        exists|n: nat| #[trigger] um_reachable(base, before, n),
        0 < before.heap.len(),
        id < before.heap.len(),
        after == (MachineModel { heap: crate::model::dup0_heap(before.heap, id), ..before }),
    ensures
        exists|n: nat| #[trigger] um_reachable(base, after, n),
{
    assert(um_step(before, after));
    assert(um_reachable(before, before, 0));
    assert(um_reachable(before, after, 1));
    lemma_reach_on(base, before, after);
}

/// Load the program as array 0 and run it on the process streams with the
/// hybrid engine until it halts or aborts.
///
/// The machine only ever moves by legal evolutions from the program's
/// starting state; a clean return happens only with a halt instruction
/// fetched in the machine the engine ended in, and every abort other than
/// budget exhaustion reports a condition that holds of that machine. A
/// cached trace can go stale when a program overwrites words of array 0 in
/// place without a load program instruction — the one self-modification that
/// drops no traces — so, unlike the plain interpreter, the hybrid engine
/// does not promise the exact run of the model; `lemma_trace_equivalence`
/// states when a trace's behaviour is exactly the interpreter's, and
/// `tracing_run`'s contract says when a recorded trace meets its premises.
pub fn run(program: Vec<u32>) -> (r: Result<(), VmError>)
    ensures
        exists|n: nat, mfin: MachineModel|
            {
                &&& #[trigger] um_reachable(init_model(program@), mfin, n)
                &&& (r is Ok ==> halted_at(mfin))
                &&& (r matches Err(e) ==> (!(e.kind is Exhausted) ==> err_condition(mfin, e)))
            },
{
    let mut memory = Memory::new(program);
    let r = drive(&mut memory);
    proof {
        let n = choose|n: nat| #[trigger] um_reachable(init_model(program@), memory@, n);
        assert(um_reachable(init_model(program@), memory@, n));
    }
    r
}

/// As `run`, but reading from the given bytes and collecting the output,
/// which is handed back beside the outcome: every byte of it was written by
/// a machine that legal evolutions reach from the program's starting state.
pub fn run_with_input(program: Vec<u32>, input: Vec<u8>) -> (r: (Result<(), VmError>, Vec<u8>))
    ensures
        exists|n: nat, mfin: MachineModel|
            {
                &&& #[trigger] um_reachable(init_model(program@), mfin, n)
                &&& mfin.output == r.1@
                &&& (r.0 is Ok ==> halted_at(mfin))
                &&& (r.0 matches Err(e) ==> (!(e.kind is Exhausted) ==> err_condition(mfin, e)))
            },
{
    let mut memory = Memory::buffered(program, input);
    let res = drive(&mut memory);
    let ghost mfin = memory@;
    proof {
        assert(!(memory.port is Console));
        assert(memory.port is Buffered);
    }
    let out = memory.take_output();
    let result = (res, out);
    proof {
        let n = choose|n: nat| #[trigger] um_reachable(init_model(program@), mfin, n);
        assert(um_reachable(init_model(program@), mfin, n) && mfin.output == result.1@);
    }
    result
}

} // verus!
