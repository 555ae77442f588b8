//! The interpreter: one step over the machine state, and the loop that
//! drives a program from its first word to its halt.

use vstd::prelude::*;

use crate::instruction::{decode, lemma_decode_wf, Instruction, ParsedInstruction};
use crate::io::input_value;
use crate::memory::{buffered_read, next_cursor, port_cursor, port_input, zeroed, Memory};
use crate::model::{
    advance, fetch, init_state, interp_step, interp_steps, lemma_interp_steps_extend, steps_to,
    steps_to_word, MachineModel, RunState, VmErrorKind,
};

verus! {

/// What the program counter does after a step.
#[derive(Clone, Copy, Debug, PartialEq, Eq, Structural)]
pub enum StepResult {
    /// The program halts.
    Halt,
    /// The program counter advances by one.
    Next,
    /// The program counter moves to `new_pc`; when `id` is not 0, array `id`
    /// first replaces the program array.
    Jump { id: u32, new_pc: usize },
}

/// A fatal condition, with the program counter and the word that met it; the
/// word is absent when the program counter itself lay outside the program.
#[derive(Clone, Copy, Debug, PartialEq, Eq, Structural)]
pub struct VmError {
    pub pc: usize,
    pub word: Option<u32>,
    pub kind: VmErrorKind,
}

/// The run ended in the aborted state that `e` reports.
pub open spec fn failed_with(s: RunState, e: VmError) -> bool {
    &&& s is Failed
    &&& s->Failed_pc == e.pc
    &&& s->Failed_word == e.word
    &&& s->Failed_kind == e.kind
}

/// The number of steps a driver takes before giving up on a program that
/// neither halts nor aborts.
pub const STEP_BUDGET: u64 = 0xffff_ffff_ffff_ffff;

/// What driving the machine from `s0` may report: `Ok` after a model run
/// that halts in the machine's final state `mfin`; an error after a model
/// run that aborts with exactly that diagnostic; or, only with the kind
/// `Exhausted`, a machine still running after a run of the whole step
/// budget's length.
pub open spec fn run_outcome(s0: RunState, r: Result<(), VmError>, mfin: MachineModel) -> bool {
    match r {
        Ok(_) => exists|ins: Seq<Option<u8>>|
            interp_steps(s0, ins, 0, ins.len()) == (RunState::Done { m: mfin }),
        Err(e) => {
            if e.kind is Exhausted {
                exists|ins: Seq<Option<u8>>|
                    ins.len() == STEP_BUDGET && interp_steps(s0, ins, 0, ins.len())
                        == (RunState::Running { m: mfin, pc: e.pc as int })
            } else {
                exists|ins: Seq<Option<u8>>|
                    ({
                        let s = #[trigger] interp_steps(s0, ins, 0, ins.len());
                        failed_with(s, e) && s->Failed_m == mfin
                    })
            }
        },
    }
}

/// The instruction at `pc` reads a byte.
pub open spec fn step_reads(m: MachineModel, pc: int) -> bool {
    &&& fetch(m, pc) matches Some(w)
    &&& decode(w) matches Some(p)
    &&& p is Input
}

/// `k` driver steps reading deterministically from `input`, the cursor
/// starting at `cur`: an input instruction reads the byte under the cursor
/// and advances it, and reads nothing once the input is spent; every other
/// step reads nothing.
pub open spec fn buffered_run(s: RunState, input: Seq<u8>, cur: int, k: nat) -> RunState
    decreases k,
{
    if k == 0 {
        s
    } else {
        match s {
            RunState::Running { m, pc } => {
                let inp = if step_reads(m, pc) {
                    buffered_read(input, cur)
                } else {
                    None
                };
                let cur2 = if step_reads(m, pc) {
                    next_cursor(input, cur)
                } else {
                    cur
                };
                buffered_run(interp_step(m, pc, inp), input, cur2, (k - 1) as nat)
            },
            _ => s,
        }
    }
}

/// Where the cursor stands after `k` deterministic driver steps.
pub open spec fn buffered_cursor(s: RunState, input: Seq<u8>, cur: int, k: nat) -> int
    decreases k,
{
    if k == 0 {
        cur
    } else {
        match s {
            RunState::Running { m, pc } => {
                let inp = if step_reads(m, pc) {
                    buffered_read(input, cur)
                } else {
                    None
                };
                let cur2 = if step_reads(m, pc) {
                    next_cursor(input, cur)
                } else {
                    cur
                };
                buffered_cursor(interp_step(m, pc, inp), input, cur2, (k - 1) as nat)
            },
            _ => cur,
        }
    }
}

/// What driving a machine on buffered input may report: the outcome of the
/// deterministic run — halted in `mfin`, aborted with exactly the reported
/// diagnostic, or, with the kind `Exhausted` alone, still running after the
/// whole step budget.
pub open spec fn buffered_outcome(
    s0: RunState,
    input: Seq<u8>,
    cur0: int,
    r: Result<(), VmError>,
    mfin: MachineModel,
) -> bool {
    match r {
        Ok(_) => exists|k: nat|
            #[trigger] buffered_run(s0, input, cur0, k) == (RunState::Done { m: mfin }),
        Err(e) => {
            if e.kind is Exhausted {
                buffered_run(s0, input, cur0, STEP_BUDGET as nat) == (RunState::Running {
                    m: mfin,
                    pc: e.pc as int,
                })
            } else {
                exists|k: nat|
                    ({
                        let s = #[trigger] buffered_run(s0, input, cur0, k);
                        failed_with(s, e) && s->Failed_m == mfin
                    })
            }
        },
    }
}

/// The last of `k` deterministic steps can be split off.
proof fn lemma_buffered_split_last(s: RunState, input: Seq<u8>, cur: int, k: nat)
    requires
        k > 0,
    ensures
        ({
            let s1 = buffered_run(s, input, cur, (k - 1) as nat);
            let c1 = buffered_cursor(s, input, cur, (k - 1) as nat);
            match s1 {
                RunState::Running { m, pc } => {
                    let inp = if step_reads(m, pc) {
                        buffered_read(input, c1)
                    } else {
                        None
                    };
                    &&& buffered_run(s, input, cur, k) == interp_step(m, pc, inp)
                    &&& buffered_cursor(s, input, cur, k) == (if step_reads(m, pc) {
                        next_cursor(input, c1)
                    } else {
                        c1
                    })
                },
                _ => buffered_run(s, input, cur, k) == s1 && buffered_cursor(s, input, cur, k)
                    == c1,
            }
        }),
    decreases k,
{
    match s {
        RunState::Running { m, pc } => {
            let inp = if step_reads(m, pc) {
                buffered_read(input, cur)
            } else {
                None
            };
            let cur2 = if step_reads(m, pc) {
                next_cursor(input, cur)
            } else {
                cur
            };
            let next = interp_step(m, pc, inp);
            assert(buffered_run(s, input, cur, k) == buffered_run(next, input, cur2, (k - 1) as nat));
            assert(buffered_cursor(s, input, cur, k) == buffered_cursor(
                next,
                input,
                cur2,
                (k - 1) as nat,
            ));
            if k == 1 {
                assert(buffered_run(s, input, cur, 0) == s);
                assert(buffered_cursor(s, input, cur, 0) == cur);
                assert(buffered_run(next, input, cur2, 0) == next);
                assert(buffered_cursor(next, input, cur2, 0) == cur2);
            } else {
                assert(buffered_run(s, input, cur, (k - 1) as nat) == buffered_run(
                    next,
                    input,
                    cur2,
                    (k - 2) as nat,
                ));
                assert(buffered_cursor(s, input, cur, (k - 1) as nat) == buffered_cursor(
                    next,
                    input,
                    cur2,
                    (k - 2) as nat,
                ));
                lemma_buffered_split_last(next, input, cur2, (k - 1) as nat);
            }
        },
        _ => {
            if k == 1 {
                assert(buffered_run(s, input, cur, 0) == s);
                assert(buffered_cursor(s, input, cur, 0) == cur);
            } else {
                lemma_buffered_split_last(s, input, cur, (k - 1) as nat);
            }
        },
    }
}

/// One executed step whose byte is the deterministic choice extends the
/// deterministic run alongside the witnessed one.
proof fn lemma_buffered_extend(
    init: RunState,
    input: Seq<u8>,
    cur0: int,
    ins: Seq<Option<u8>>,
    inp: Option<u8>,
    m: MachineModel,
    pc: int,
)
    requires
        buffered_run(init, input, cur0, ins.len()) == interp_steps(init, ins, 0, ins.len()),
        interp_steps(init, ins, 0, ins.len()) == (RunState::Running { m, pc }),
        inp == (if step_reads(m, pc) {
            buffered_read(input, buffered_cursor(init, input, cur0, ins.len()))
        } else {
            None
        }),
    ensures
        buffered_run(init, input, cur0, (ins.len() + 1) as nat) == interp_steps(
            init,
            ins.push(inp),
            0,
            (ins.len() + 1) as nat,
        ),
        buffered_cursor(init, input, cur0, (ins.len() + 1) as nat) == (if step_reads(m, pc) {
            next_cursor(input, buffered_cursor(init, input, cur0, ins.len()))
        } else {
            buffered_cursor(init, input, cur0, ins.len())
        }),
{
    lemma_buffered_split_last(init, input, cur0, (ins.len() + 1) as nat);
    lemma_interp_steps_extend(init, ins, inp);
    assert(interp_steps(init, ins.push(inp), 0, (ins.len() + 1) as nat) == advance(
        RunState::Running { m, pc },
        inp,
    ));
}

/// Execute one decoded instruction on the machine. The relation to the
/// machine model is exact; an input instruction relates through the byte it
/// read, every other instruction reads nothing.
pub fn execute_parsed(p: ParsedInstruction, memory: &mut Memory) -> (r: Result<
    StepResult,
    VmErrorKind,
>)
    requires
        old(memory).wf(),
        p.wf(),
    ensures
        final(memory).wf(),
        exists|inp: Option<u8>| steps_to(p, old(memory)@, final(memory)@, r, inp),
        !(p is Input) ==> steps_to(p, old(memory)@, final(memory)@, r, None),
        (final(memory).port is Console) == (old(memory).port is Console),
        port_input(final(memory).port) == port_input(old(memory).port),
        !(p is Input) ==> port_cursor(final(memory).port) == port_cursor(old(memory).port),
        (p is Input && old(memory).port is Buffered) ==> ({
            let input = port_input(old(memory).port);
            let cur = port_cursor(old(memory).port);
            &&& steps_to(p, old(memory)@, final(memory)@, r, buffered_read(input, cur))
            &&& port_cursor(final(memory).port) == next_cursor(input, cur)
        }),
{
    let ghost prior = memory@;
    match p {
        ParsedInstruction::ConditionalMove { a, b, c } => {
            if memory.regs[c] != 0 {
                let v = memory.regs[b];
                memory.regs[a] = v;
            }
            proof {
                assert(steps_to(p, prior, memory@, Ok(StepResult::Next), None));
            }
            Ok(StepResult::Next)
        },
        ParsedInstruction::ArrayIndex { a, b, c } => {
            let id = memory.regs[b] as usize;
            if id >= memory.arrays.slot_count() || !memory.arrays.is_live(id) {
                proof {
                    assert(steps_to(p, prior, memory@, Err(VmErrorKind::HeapMisuse), None));
                }
                return Err(VmErrorKind::HeapMisuse);
            }
            let off = memory.regs[c] as usize;
            if off >= memory.arrays.array_len(id) {
                proof {
                    assert(steps_to(p, prior, memory@, Err(VmErrorKind::OutOfBounds), None));
                }
                return Err(VmErrorKind::OutOfBounds);
            }
            let v = memory.arrays.get(id, off);
            memory.regs[a] = v;
            proof {
                assert(steps_to(p, prior, memory@, Ok(StepResult::Next), None));
            }
            Ok(StepResult::Next)
        },
        ParsedInstruction::ArrayAmendment { a, b, c } => {
            let id = memory.regs[a] as usize;
            if id >= memory.arrays.slot_count() || !memory.arrays.is_live(id) {
                proof {
                    assert(steps_to(p, prior, memory@, Err(VmErrorKind::HeapMisuse), None));
                }
                return Err(VmErrorKind::HeapMisuse);
            }
            let off = memory.regs[b] as usize;
            if off >= memory.arrays.array_len(id) {
                proof {
                    assert(steps_to(p, prior, memory@, Err(VmErrorKind::OutOfBounds), None));
                }
                return Err(VmErrorKind::OutOfBounds);
            }
            let v = memory.regs[c];
            memory.arrays.set_word(id, off, v);
            proof {
                assert(steps_to(p, prior, memory@, Ok(StepResult::Next), None));
            }
            Ok(StepResult::Next)
        },
        ParsedInstruction::Addition { a, b, c } => {
            let v = memory.regs[b].wrapping_add(memory.regs[c]);
            memory.regs[a] = v;
            proof {
                assert(steps_to(p, prior, memory@, Ok(StepResult::Next), None));
            }
            Ok(StepResult::Next)
        },
        ParsedInstruction::Multiplication { a, b, c } => {
            let v = memory.regs[b].wrapping_mul(memory.regs[c]);
            memory.regs[a] = v;
            proof {
                assert(steps_to(p, prior, memory@, Ok(StepResult::Next), None));
            }
            Ok(StepResult::Next)
        },
        ParsedInstruction::Division { a, b, c } => {
            if memory.regs[c] == 0 {
                proof {
                    assert(steps_to(p, prior, memory@, Err(VmErrorKind::DivisionByZero), None));
                }
                return Err(VmErrorKind::DivisionByZero);
            }
            let v = memory.regs[b] / memory.regs[c];
            memory.regs[a] = v;
            proof {
                assert(steps_to(p, prior, memory@, Ok(StepResult::Next), None));
            }
            Ok(StepResult::Next)
        },
        ParsedInstruction::NotAnd { a, b, c } => {
            let v = !(memory.regs[b] & memory.regs[c]);
            memory.regs[a] = v;
            proof {
                assert(steps_to(p, prior, memory@, Ok(StepResult::Next), None));
            }
            Ok(StepResult::Next)
        },
        ParsedInstruction::Halt => {
            proof {
                assert(steps_to(p, prior, memory@, Ok(StepResult::Halt), None));
            }
            Ok(StepResult::Halt)
        },
        ParsedInstruction::Allocation { b, c } => {
            let size = memory.regs[c] as usize;
            let fresh = zeroed(size);
            let id = memory.arrays.insert(fresh);
            let idw = #[verifier::truncate] (id as u32);
            memory.regs[b] = idw;
            proof {
                assert(id == crate::model::alloc_id(prior));
                assert(steps_to(p, prior, memory@, Ok(StepResult::Next), None));
            }
            Ok(StepResult::Next)
        },
        ParsedInstruction::Abandonment { c } => {
            let id = memory.regs[c] as usize;
            if id == 0 || id >= memory.arrays.slot_count() || !memory.arrays.is_live(id) {
                proof {
                    assert(steps_to(p, prior, memory@, Err(VmErrorKind::HeapMisuse), None));
                }
                return Err(VmErrorKind::HeapMisuse);
            }
            memory.arrays.remove(id);
            proof {
                assert(steps_to(p, prior, memory@, Ok(StepResult::Next), None));
            }
            Ok(StepResult::Next)
        },
        ParsedInstruction::Output { c } => {
            let v = memory.regs[c];
            proof {
                assert(v & 0xff < 256) by (bit_vector);
            }
            let b8 = (v & 0xff) as u8;
            memory.write_byte(b8);
            proof {
                assert(steps_to(p, prior, memory@, Ok(StepResult::Next), None));
            }
            Ok(StepResult::Next)
        },
        ParsedInstruction::Input { c } => {
            let rb = memory.read_byte();
            let v = input_value(rb);
            memory.regs[c] = v;
            proof {
                assert(steps_to(p, prior, memory@, Ok(StepResult::Next), rb));
            }
            Ok(StepResult::Next)
        },
        ParsedInstruction::LoadProgram { b, c } => {
            let r = StepResult::Jump { id: memory.regs[b], new_pc: memory.regs[c] as usize };
            proof {
                assert(steps_to(p, prior, memory@, Ok(r), None));
            }
            Ok(r)
        },
        ParsedInstruction::Immediate { a, value } => {
            memory.regs[a] = value;
            proof {
                assert(steps_to(p, prior, memory@, Ok(StepResult::Next), None));
            }
            Ok(StepResult::Next)
        },
    }
}

/// Decode one word and execute it; a word with opcode 14 or 15 aborts with
/// `InvalidInstruction` and changes nothing.
pub fn execute_step(inst: Instruction, memory: &mut Memory) -> (r: Result<
    StepResult,
    VmErrorKind,
>)
    requires
        old(memory).wf(),
    ensures
        final(memory).wf(),
        exists|inp: Option<u8>| steps_to_word(inst.word(), old(memory)@, final(memory)@, r, inp),
        (decode(inst.word()) matches Some(p) ==> !(p is Input)) ==> steps_to_word(
            inst.word(),
            old(memory)@,
            final(memory)@,
            r,
            None,
        ),
        (final(memory).port is Console) == (old(memory).port is Console),
        port_input(final(memory).port) == port_input(old(memory).port),
        (decode(inst.word()) matches Some(p) ==> !(p is Input)) ==> port_cursor(
            final(memory).port,
        ) == port_cursor(old(memory).port),
        (decode(inst.word()) matches Some(p) && p is Input && old(memory).port is Buffered) ==> ({
            let input = port_input(old(memory).port);
            let cur = port_cursor(old(memory).port);
            &&& steps_to_word(inst.word(), old(memory)@, final(memory)@, r, buffered_read(
                input,
                cur,
            ))
            &&& port_cursor(final(memory).port) == next_cursor(input, cur)
        }),
{
    match inst.parse() {
        None => {
            proof {
                assert(steps_to_word(
                    inst.word(),
                    old(memory)@,
                    memory@,
                    Err(VmErrorKind::InvalidInstruction),
                    None,
                ));
            }
            Err(VmErrorKind::InvalidInstruction)
        },
        Some(p) => {
            proof {
                lemma_decode_wf(inst.word());
            }
            let r = execute_parsed(p, memory);
            proof {
                let inp = choose|inp: Option<u8>| steps_to(p, old(memory)@, memory@, r, inp);
                assert(steps_to_word(inst.word(), old(memory)@, memory@, r, inp));
            }
            r
        },
    }
}

/// Drive the machine from program counter 0 until it halts or aborts; the
/// outcome is a run of the model from the machine's starting state, ending
/// in the machine's final state, and giving up — with the distinct
/// `Exhausted` kind — only after the whole step budget, still running. On a
/// buffered machine the outcome is additionally the deterministic run that
/// consumes the port's input in order.
fn run_to_end(memory: &mut Memory) -> (r: Result<(), VmError>)
    requires
        old(memory).wf(),
    ensures
        final(memory).wf(),
        (final(memory).port is Console) == (old(memory).port is Console),
        run_outcome(RunState::Running { m: old(memory)@, pc: 0 }, r, final(memory)@),
        old(memory).port is Buffered ==> buffered_outcome(
            RunState::Running { m: old(memory)@, pc: 0 },
            port_input(old(memory).port),
            port_cursor(old(memory).port),
            r,
            final(memory)@,
        ),
{
    let ghost init = RunState::Running { m: old(memory)@, pc: 0 };
    let ghost input0 = port_input(old(memory).port);
    let ghost cur0 = port_cursor(old(memory).port);
    let ghost mut ins: Seq<Option<u8>> = Seq::empty();
    let mut pc: usize = 0;
    let mut fuel: u64 = STEP_BUDGET;
    loop
        invariant
            memory.wf(),
            (memory.port is Console) == (old(memory).port is Console),
            init == (RunState::Running { m: old(memory)@, pc: 0 }),
            input0 == port_input(old(memory).port),
            cur0 == port_cursor(old(memory).port),
            interp_steps(init, ins, 0, ins.len()) == (RunState::Running {
                m: memory@,
                pc: pc as int,
            }),
            ins.len() + fuel == STEP_BUDGET,
            old(memory).port is Buffered ==> {
                &&& memory.port is Buffered
                &&& port_input(memory.port) == input0
                &&& buffered_run(init, input0, cur0, ins.len()) == interp_steps(
                    init,
                    ins,
                    0,
                    ins.len(),
                )
                &&& buffered_cursor(init, input0, cur0, ins.len()) == port_cursor(memory.port)
            },
        decreases fuel,
    {
        if fuel == 0 {
            return Err(VmError { pc, word: None, kind: VmErrorKind::Exhausted });
        }
        fuel = fuel - 1;
        let n = memory.arrays.array_len(0);
        if pc >= n {
            let e = VmError { pc, word: None, kind: VmErrorKind::OutOfBounds };
            proof {
                assert(fetch(memory@, pc as int) is None);
                if old(memory).port is Buffered {
                    lemma_buffered_extend(init, input0, cur0, ins, None, memory@, pc as int);
                }
                lemma_interp_steps_extend(init, ins, None);
                ins = ins.push(None);
                assert(failed_with(interp_steps(init, ins, 0, ins.len()), e));
            }
            return Err(e);
        }
        let w = memory.arrays.get(0, pc);
        let inst = Instruction::new(w);
        let ghost pre = memory@;
        let ghost precur = port_cursor(memory.port);
        let res = execute_step(inst, memory);
        let ghost inp = if old(memory).port is Buffered {
            if step_reads(pre, pc as int) {
                buffered_read(input0, precur)
            } else {
                None
            }
        } else {
            choose|inp: Option<u8>| steps_to_word(inst.word(), pre, memory@, res, inp)
        };
        proof {
            assert(fetch(pre, pc as int) == Some(w));
            assert(steps_to_word(inst.word(), pre, memory@, res, inp));
            if old(memory).port is Buffered {
                lemma_buffered_extend(init, input0, cur0, ins, inp, pre, pc as int);
            }
        }
        match res {
            Err(kind) => {
                let e = VmError { pc, word: Some(w), kind };
                proof {
                    lemma_interp_steps_extend(init, ins, inp);
                    ins = ins.push(inp);
                    assert(failed_with(interp_steps(init, ins, 0, ins.len()), e));
                }
                return Err(e);
            },
            Ok(StepResult::Halt) => {
                proof {
                    lemma_interp_steps_extend(init, ins, inp);
                    ins = ins.push(inp);
                }
                return Ok(());
            },
            Ok(StepResult::Next) => {
                proof {
                    lemma_interp_steps_extend(init, ins, inp);
                    ins = ins.push(inp);
                }
                pc = pc + 1;
            },
            Ok(StepResult::Jump { id, new_pc }) => {
                if id != 0 {
                    let idu = id as usize;
                    if idu >= memory.arrays.slot_count() || !memory.arrays.is_live(idu) {
                        let e = VmError { pc, word: Some(w), kind: VmErrorKind::HeapMisuse };
                        proof {
                            lemma_interp_steps_extend(init, ins, inp);
                            ins = ins.push(inp);
                            assert(failed_with(interp_steps(init, ins, 0, ins.len()), e));
                        }
                        return Err(e);
                    }
                    memory.arrays.dup0(idu);
                }
                proof {
                    lemma_interp_steps_extend(init, ins, inp);
                    ins = ins.push(inp);
                    assert(interp_steps(init, ins, 0, ins.len()) == (RunState::Running {
                        m: memory@,
                        pc: new_pc as int,
                    }));
                }
                pc = new_pc;
            },
        }
    }
}

/// Load the program as array 0 and interpret it on the process streams until
/// it halts or aborts. Every outcome is the outcome of a run of the machine
/// model on the program, under the bytes that were read; a budget-exhaustion
/// error can only follow a run of the whole step budget that is still
/// running.
pub fn run(program: Vec<u32>) -> (r: Result<(), VmError>)
    ensures
        exists|mfin: MachineModel| run_outcome(init_state(program@), r, mfin),
{
    let mut memory = Memory::new(program);
    let r = run_to_end(&mut memory);
    proof {
        assert(run_outcome(init_state(program@), r, memory@));
    }
    r
}

/// As `run`, but reading from the given bytes and collecting the output,
/// which is handed back beside the outcome. The run is the deterministic one
/// that consumes `input` in order, reading past its end as end of input; the
/// outcome and the collected output are exactly that run's.
pub fn run_with_input(program: Vec<u32>, input: Vec<u8>) -> (r: (Result<(), VmError>, Vec<u8>))
    ensures
        exists|mfin: MachineModel|
            #[trigger] buffered_outcome(init_state(program@), input@, 0, r.0, mfin) && mfin.output
                == r.1@,
        exists|mfin: MachineModel|
            #[trigger] run_outcome(init_state(program@), r.0, mfin) && mfin.output == r.1@,
{
    let mut memory = Memory::buffered(program, input);
    proof {
        assert((RunState::Running { m: memory@, pc: 0 }) == init_state(program@));
        assert(port_input(memory.port) == input@);
        assert(port_cursor(memory.port) == 0);
    }
    let res = run_to_end(&mut memory);
    let ghost mfin = memory@;
    proof {
        assert(!(memory.port is Console));
        assert(memory.port is Buffered);
    }
    let out = memory.take_output();
    let result = (res, out);
    proof {
        assert(run_outcome(init_state(program@), result.0, mfin) && mfin.output == result.1@);
        assert(buffered_outcome(init_state(program@), input@, 0, result.0, mfin) && mfin.output
            == result.1@);
    }
    result
}

} // verus!
