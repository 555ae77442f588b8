//! The mathematical model of the machine: registers, heap, free ids and the
//! output stream, with a transition function for every instruction form.
//!
//! Executable code never touches these definitions; the contracts of the
//! heap, the interpreter and the trace evaluator are all stated over them.

use vstd::prelude::*;

use crate::instruction::{decode, ParsedInstruction};
use crate::interpreter::StepResult;

verus! {

/// The whole machine state: eight registers, the array heap as a sequence of
/// slots, the free slot ids in strictly descending order, and every byte
/// written so far.
#[verifier::ext_equal]
pub ghost struct MachineModel {
    pub regs: Seq<u32>,
    pub heap: Seq<Option<Seq<u32>>>,
    pub free: Seq<usize>,
    pub output: Seq<u8>,
}

/// The conditions on which execution aborts.
#[derive(Clone, Copy, Debug, PartialEq, Eq, Structural)]
pub enum VmErrorKind {
    /// A fetched word has opcode 14 or 15.
    InvalidInstruction,
    /// A division instruction met a zero divisor.
    DivisionByZero,
    /// An array id that is freed, out of range, or 0 where 0 is not allowed.
    HeapMisuse,
    /// An offset beyond the end of an array, or a program counter beyond the
    /// end of the program array.
    OutOfBounds,
    /// The driver's step budget ran out while the machine was still running.
    /// The budget is far beyond what any machine executes in practice; this
    /// kind never arises from a single step of the model.
    Exhausted,
}

/// A sequence of ids in strictly descending order.
pub open spec fn sorted_desc(s: Seq<usize>) -> bool {
    forall|i: int, j: int| 0 <= i < j < s.len() ==> #[trigger] s[i] > #[trigger] s[j]
}

impl MachineModel {
    /// Eight registers; the free list holds, in strictly descending order and
    /// without id 0, exactly the slots that are empty.
    pub open spec fn wf(self) -> bool {
        &&& self.regs.len() == 8
        &&& sorted_desc(self.free)
        &&& forall|k: int| 0 <= k < self.free.len() ==> 0 < #[trigger] self.free[k] < self.heap.len()
        &&& forall|i: usize|
            i < self.heap.len() ==> (#[trigger] self.heap[i as int] is None
                <==> self.free.contains(i))
    }
}

/// A fresh array: `n` words, all zero.
pub open spec fn zero_words(n: nat) -> Seq<u32> {
    Seq::new(n, |i: int| 0u32)
}

/// The id the next allocation returns: the smallest free id if one exists,
/// else the first id never used.
pub open spec fn alloc_id(m: MachineModel) -> usize {
    if m.free.len() > 0 {
        m.free.last()
    } else {
        m.heap.len() as usize
    }
}

/// The heap after allocating a zeroed array of `size` words.
pub open spec fn alloc_model(m: MachineModel, size: nat) -> MachineModel {
    if m.free.len() > 0 {
        MachineModel {
            heap: m.heap.update(m.free.last() as int, Some(zero_words(size))),
            free: m.free.drop_last(),
            ..m
        }
    } else {
        MachineModel { heap: m.heap.push(Some(zero_words(size))), ..m }
    }
}

/// `id` inserted into a descending sequence, keeping the order.
pub open spec fn insert_desc(s: Seq<usize>, id: usize) -> Seq<usize>
    decreases s.len(),
{
    if s.len() == 0 {
        seq![id]
    } else if s[0] > id {
        seq![s[0]] + insert_desc(s.drop_first(), id)
    } else {
        seq![id] + s
    }
}

/// Inserting into a descending sequence at the first position whose element
/// is not above `id` is ordinary positional insertion.
pub proof fn lemma_insert_desc_split(s: Seq<usize>, id: usize, k: int)
    requires
        sorted_desc(s),
        0 <= k <= s.len(),
        forall|j: int| 0 <= j < k ==> #[trigger] s[j] > id,
        k < s.len() ==> s[k] <= id,
    ensures
        insert_desc(s, id) == s.insert(k, id),
    decreases s.len(),
{
    if s.len() == 0 {
        assert(insert_desc(s, id) =~= s.insert(0, id));
    } else if s[0] > id {
        assert(k > 0) by {
            if k == 0 {
                assert(s[0] <= id);
            }
        }
        let t = s.drop_first();
        assert forall|i: int, j: int| 0 <= i < j < t.len() implies #[trigger] t[i]
            > #[trigger] t[j] by {
            assert(t[i] == s[i + 1]);
            assert(t[j] == s[j + 1]);
        }
        assert forall|j: int| 0 <= j < k - 1 implies #[trigger] t[j] > id by {
            assert(t[j] == s[j + 1]);
        }
        lemma_insert_desc_split(t, id, k - 1);
        assert(insert_desc(s, id) =~= s.insert(k, id));
    } else {
        assert(k == 0) by {
            if k > 0 {
                assert(s[0] > id);
            }
        }
        assert(insert_desc(s, id) =~= s.insert(0, id));
    }
}

/// The heap after releasing slot `id`.
pub open spec fn free_model(m: MachineModel, id: usize) -> MachineModel {
    MachineModel { heap: m.heap.update(id as int, None), free: insert_desc(m.free, id), ..m }
}

/// The heap after replacing slot 0 by a copy of slot `id`; a no-op when `id`
/// is 0.
pub open spec fn dup0_heap(h: Seq<Option<Seq<u32>>>, id: usize) -> Seq<Option<Seq<u32>>> {
    if id == 0 {
        h
    } else {
        h.update(0, h[id as int])
    }
}

/// A fresh machine: registers zeroed, the heap holding exactly the program
/// as array 0, nothing freed, nothing written.
pub open spec fn init_model(prog: Seq<u32>) -> MachineModel {
    MachineModel {
        regs: Seq::new(8, |i: int| 0u32),
        heap: seq![Some(prog)],
        free: Seq::empty(),
        output: Seq::empty(),
    }
}

/// The word an input instruction stores: the byte read, or `0xFFFFFFFF` at
/// end of input.
pub open spec fn input_word(inp: Option<u8>) -> u32 {
    match inp {
        None => 0xffffffffu32,
        Some(b) => b as u32,
    }
}

/// One instruction applied to the machine: the new state and what the
/// program counter does next, or the abort condition. `inp` is the byte an
/// input instruction reads; every other instruction ignores it.
pub open spec fn step_parsed(p: ParsedInstruction, m: MachineModel, inp: Option<u8>) -> Result<
    (MachineModel, StepResult),
    VmErrorKind,
> {
    match p {
        ParsedInstruction::ConditionalMove { a, b, c } => {
            let regs = if m.regs[c as int] != 0 {
                m.regs.update(a as int, m.regs[b as int])
            } else {
                m.regs
            };
            Ok((MachineModel { regs, ..m }, StepResult::Next))
        },
        ParsedInstruction::ArrayIndex { a, b, c } => {
            let id = m.regs[b as int] as int;
            if !(id < m.heap.len() && m.heap[id] is Some) {
                Err(VmErrorKind::HeapMisuse)
            } else if !(m.regs[c as int] < m.heap[id].unwrap().len()) {
                Err(VmErrorKind::OutOfBounds)
            } else {
                let value = m.heap[id].unwrap()[m.regs[c as int] as int];
                Ok((MachineModel { regs: m.regs.update(a as int, value), ..m }, StepResult::Next))
            }
        },
        ParsedInstruction::ArrayAmendment { a, b, c } => {
            let id = m.regs[a as int] as int;
            if !(id < m.heap.len() && m.heap[id] is Some) {
                Err(VmErrorKind::HeapMisuse)
            } else if !(m.regs[b as int] < m.heap[id].unwrap().len()) {
                Err(VmErrorKind::OutOfBounds)
            } else {
                let arr = m.heap[id].unwrap().update(m.regs[b as int] as int, m.regs[c as int]);
                Ok((MachineModel { heap: m.heap.update(id, Some(arr)), ..m }, StepResult::Next))
            }
        },
        ParsedInstruction::Addition { a, b, c } => {
            let value = vstd::wrapping::u32_specs::wrapping_add(m.regs[b as int], m.regs[c as int]);
            Ok((MachineModel { regs: m.regs.update(a as int, value), ..m }, StepResult::Next))
        },
        ParsedInstruction::Multiplication { a, b, c } => {
            let value = vstd::wrapping::u32_specs::wrapping_mul(m.regs[b as int], m.regs[c as int]);
            Ok((MachineModel { regs: m.regs.update(a as int, value), ..m }, StepResult::Next))
        },
        ParsedInstruction::Division { a, b, c } => {
            if m.regs[c as int] == 0 {
                Err(VmErrorKind::DivisionByZero)
            } else {
                let value = (m.regs[b as int] / m.regs[c as int]) as u32;
                Ok((MachineModel { regs: m.regs.update(a as int, value), ..m }, StepResult::Next))
            }
        },
        ParsedInstruction::NotAnd { a, b, c } => {
            let value = !(m.regs[b as int] & m.regs[c as int]);
            Ok((MachineModel { regs: m.regs.update(a as int, value), ..m }, StepResult::Next))
        },
        ParsedInstruction::Halt => Ok((m, StepResult::Halt)),
        ParsedInstruction::Allocation { b, c } => {
            let size = m.regs[c as int] as nat;
            let id = alloc_id(m);
            let m1 = alloc_model(m, size);
            Ok((
                MachineModel { regs: m.regs.update(b as int, id as u32), ..m1 },
                StepResult::Next,
            ))
        },
        ParsedInstruction::Abandonment { c } => {
            let id = m.regs[c as int] as int;
            if id == 0 || !(id < m.heap.len() && m.heap[id] is Some) {
                Err(VmErrorKind::HeapMisuse)
            } else {
                Ok((free_model(m, m.regs[c as int] as usize), StepResult::Next))
            }
        },
        ParsedInstruction::Output { c } => {
            let byte = (m.regs[c as int] & 0xff) as u8;
            Ok((MachineModel { output: m.output.push(byte), ..m }, StepResult::Next))
        },
        ParsedInstruction::Input { c } => {
            Ok((
                MachineModel { regs: m.regs.update(c as int, input_word(inp)), ..m },
                StepResult::Next,
            ))
        },
        ParsedInstruction::LoadProgram { b, c } => {
            Ok((m, StepResult::Jump { id: m.regs[b as int], new_pc: m.regs[c as int] as usize }))
        },
        ParsedInstruction::Immediate { a, value } => {
            Ok((MachineModel { regs: m.regs.update(a as int, value), ..m }, StepResult::Next))
        },
    }
}

/// One word applied to the machine: decode, then step.
pub open spec fn step_of(w: u32, m: MachineModel, inp: Option<u8>) -> Result<
    (MachineModel, StepResult),
    VmErrorKind,
> {
    match decode(w) {
        None => Err(VmErrorKind::InvalidInstruction),
        Some(p) => step_parsed(p, m, inp),
    }
}

/// The executable step agrees with the model: on success the machine moves
/// to the stepped state and reports the stepped result; on an abort it
/// reports the model's error and stays unchanged.
pub open spec fn steps_to(
    p: ParsedInstruction,
    m0: MachineModel,
    m1: MachineModel,
    r: Result<StepResult, VmErrorKind>,
    inp: Option<u8>,
) -> bool {
    match step_parsed(p, m0, inp) {
        Ok((m, sr)) => r == Ok::<StepResult, VmErrorKind>(sr) && m1 == m,
        Err(e) => r == Err::<StepResult, VmErrorKind>(e) && m1 == m0,
    }
}

/// As `steps_to`, for a raw word: an undecodable word reports
/// `InvalidInstruction` and changes nothing.
pub open spec fn steps_to_word(
    w: u32,
    m0: MachineModel,
    m1: MachineModel,
    r: Result<StepResult, VmErrorKind>,
    inp: Option<u8>,
) -> bool {
    match step_of(w, m0, inp) {
        Ok((m, sr)) => r == Ok::<StepResult, VmErrorKind>(sr) && m1 == m,
        Err(e) => r == Err::<StepResult, VmErrorKind>(e) && m1 == m0,
    }
}

/// Where a driven machine stands: still running at a program counter, halted,
/// or aborted with a diagnostic.
#[verifier::ext_equal]
pub ghost enum RunState {
    Running { m: MachineModel, pc: int },
    Done { m: MachineModel },
    Failed { m: MachineModel, pc: int, word: Option<u32>, kind: VmErrorKind },
}

/// The machine a program starts in, about to execute word 0.
pub open spec fn init_state(prog: Seq<u32>) -> RunState {
    RunState::Running { m: init_model(prog), pc: 0 }
}

/// The word at `pc` in the program array, if the program array is live and
/// `pc` lies within it.
pub open spec fn fetch(m: MachineModel, pc: int) -> Option<u32> {
    if 0 < m.heap.len() && m.heap[0] is Some && 0 <= pc < m.heap[0].unwrap().len() {
        Some(m.heap[0].unwrap()[pc])
    } else {
        None
    }
}

/// One full driver step at `pc`: fetch, step, then move the program counter;
/// a jump to a nonzero array first copies that array over the program.
pub open spec fn interp_step(m: MachineModel, pc: int, inp: Option<u8>) -> RunState {
    match fetch(m, pc) {
        None => RunState::Failed { m, pc, word: None, kind: VmErrorKind::OutOfBounds },
        Some(w) => match step_of(w, m, inp) {
            Err(k) => RunState::Failed { m, pc, word: Some(w), kind: k },
            Ok((m1, StepResult::Halt)) => RunState::Done { m: m1 },
            Ok((m1, StepResult::Next)) => RunState::Running { m: m1, pc: pc + 1 },
            Ok((m1, StepResult::Jump { id, new_pc })) => {
                if id == 0 {
                    RunState::Running { m: m1, pc: new_pc as int }
                } else if id < m1.heap.len() && m1.heap[id as int] is Some {
                    RunState::Running {
                        m: MachineModel { heap: dup0_heap(m1.heap, id as usize), ..m1 },
                        pc: new_pc as int,
                    }
                } else {
                    RunState::Failed { m: m1, pc, word: Some(w), kind: VmErrorKind::HeapMisuse }
                }
            },
        },
    }
}

/// One driver step from a run state; halted and aborted states stay put.
pub open spec fn advance(s: RunState, inp: Option<u8>) -> RunState {
    match s {
        RunState::Running { m, pc } => interp_step(m, pc, inp),
        _ => s,
    }
}

/// `k` driver steps from `s`, reading the bytes `inputs[i..]`.
pub open spec fn interp_steps(s: RunState, inputs: Seq<Option<u8>>, i: int, k: nat) -> RunState
    decreases k,
{
    if k == 0 {
        s
    } else {
        interp_steps(advance(s, inputs[i]), inputs, i + 1, (k - 1) as nat)
    }
}

/// One driver step is one advance.
pub proof fn lemma_interp_steps_one(s: RunState, inputs: Seq<Option<u8>>, i: int)
    ensures
        interp_steps(s, inputs, i, 1) == advance(s, inputs[i]),
{
    assert(interp_steps(s, inputs, i, 1) == interp_steps(advance(s, inputs[i]), inputs, i + 1, 0));
    assert(interp_steps(advance(s, inputs[i]), inputs, i + 1, 0) == advance(s, inputs[i]));
}

/// Driver steps read only the inputs they consume.
pub proof fn lemma_interp_steps_agree(
    s: RunState,
    ins1: Seq<Option<u8>>,
    ins2: Seq<Option<u8>>,
    i: int,
    k: nat,
)
    requires
        forall|j: int| i <= j < i + k ==> ins1[j] == ins2[j],
    ensures
        interp_steps(s, ins1, i, k) == interp_steps(s, ins2, i, k),
    decreases k,
{
    if k > 0 {
        assert(ins1[i] == ins2[i]);
        lemma_interp_steps_agree(advance(s, ins1[i]), ins1, ins2, i + 1, (k - 1) as nat);
    }
}

/// The last of `k` driver steps can be split off.
pub proof fn lemma_interp_steps_split_last(s: RunState, ins: Seq<Option<u8>>, i: int, k: nat)
    requires
        k > 0,
    ensures
        interp_steps(s, ins, i, k) == advance(
            interp_steps(s, ins, i, (k - 1) as nat),
            ins[i + k - 1],
        ),
    decreases k,
{
    if k > 1 {
        lemma_interp_steps_split_last(advance(s, ins[i]), ins, i + 1, (k - 1) as nat);
    } else {
        assert(interp_steps(s, ins, i, 1) == interp_steps(advance(s, ins[i]), ins, i + 1, 0));
        assert(interp_steps(s, ins, i, 0) == s);
    }
}

/// Appending one input byte appends one driver step.
pub proof fn lemma_interp_steps_extend(s0: RunState, ins: Seq<Option<u8>>, inp: Option<u8>)
    ensures
        interp_steps(s0, ins.push(inp), 0, (ins.len() + 1) as nat) == advance(
            interp_steps(s0, ins, 0, ins.len()),
            inp,
        ),
{
    lemma_interp_steps_agree(s0, ins.push(inp), ins, 0, ins.len());
    lemma_interp_steps_split_last(s0, ins.push(inp), 0, (ins.len() + 1) as nat);
    assert(ins.push(inp)[ins.len() as int] == inp);
}

/// The machine of a run state, wherever the run stands.
pub open spec fn machine_of(s: RunState) -> MachineModel {
    match s {
        RunState::Running { m, pc } => m,
        RunState::Done { m } => m,
        RunState::Failed { m, pc, word, kind } => m,
    }
}

/// One legal machine evolution: a successful step of some instruction under
/// some input, or the program array replaced by a copy of a live array.
pub open spec fn um_step(m0: MachineModel, m1: MachineModel) -> bool {
    ||| exists|p: ParsedInstruction, inp: Option<u8>|
        #[trigger] step_parsed(p, m0, inp) matches Ok(pr) && pr.0 == m1
    ||| exists|id: usize|
        0 < m0.heap.len() && id < m0.heap.len() && m1 == (MachineModel {
            heap: #[trigger] dup0_heap(m0.heap, id),
            ..m0
        })
}

/// `m1` arises from `m0` by `k` legal machine evolutions.
pub open spec fn um_reachable(m0: MachineModel, m1: MachineModel, k: nat) -> bool
    decreases k,
{
    if k == 0 {
        m0 == m1
    } else {
        exists|mm: MachineModel|
            um_reachable(m0, mm, (k - 1) as nat) && #[trigger] um_step(mm, m1)
    }
}

/// One legal evolution only ever appends to the output stream.
pub proof fn lemma_um_step_extends_output(m0: MachineModel, m1: MachineModel)
    requires
        um_step(m0, m1),
    ensures
        m0.output.len() <= m1.output.len(),
        m0.output == m1.output.subrange(0, m0.output.len() as int),
{
    if exists|p: ParsedInstruction, inp: Option<u8>|
        #[trigger] step_parsed(p, m0, inp) matches Ok(pr) && pr.0 == m1 {
        let (p, inp) = choose|p: ParsedInstruction, inp: Option<u8>|
            #[trigger] step_parsed(p, m0, inp) matches Ok(pr) && pr.0 == m1;
        match p {
            ParsedInstruction::Output { c } => {
                assert(m1.output == m0.output.push((m0.regs[c as int] & 0xff) as u8));
                assert(m0.output =~= m1.output.subrange(0, m0.output.len() as int));
            },
            _ => {
                assert(m1.output == m0.output);
                assert(m0.output =~= m1.output.subrange(0, m0.output.len() as int));
            },
        }
    } else {
        assert(m1.output == m0.output);
        assert(m0.output =~= m1.output.subrange(0, m0.output.len() as int));
    }
}

/// Legal evolutions only ever append to the output stream: what the machine
/// has written is never unwritten.
pub proof fn lemma_um_reachable_extends_output(m0: MachineModel, m1: MachineModel, k: nat)
    requires
        um_reachable(m0, m1, k),
    ensures
        m0.output.len() <= m1.output.len(),
        m0.output == m1.output.subrange(0, m0.output.len() as int),
    decreases k,
{
    if k == 0 {
        assert(m0.output =~= m1.output.subrange(0, m0.output.len() as int));
    } else {
        let mm = choose|mm: MachineModel|
            um_reachable(m0, mm, (k - 1) as nat) && #[trigger] um_step(mm, m1);
        lemma_um_reachable_extends_output(m0, mm, (k - 1) as nat);
        lemma_um_step_extends_output(mm, m1);
        assert(m0.output =~= m1.output.subrange(0, m0.output.len() as int));
    }
}

/// Chaining legal evolutions is a legal evolution.
pub proof fn lemma_um_reachable_trans(
    m0: MachineModel,
    m1: MachineModel,
    m2: MachineModel,
    k1: nat,
    k2: nat,
)
    requires
        um_reachable(m0, m1, k1),
        um_reachable(m1, m2, k2),
    ensures
        um_reachable(m0, m2, (k1 + k2) as nat),
    decreases k2,
{
    if k2 == 0 {
    } else {
        let mm = choose|mm: MachineModel|
            um_reachable(m1, mm, (k2 - 1) as nat) && #[trigger] um_step(mm, m2);
        lemma_um_reachable_trans(m0, m1, mm, k1, (k2 - 1) as nat);
    }
}

/// A halted or aborted run stays where it is.
pub proof fn lemma_interp_steps_absorb(s: RunState, inputs: Seq<Option<u8>>, i: int, k: nat)
    requires
        !(s is Running),
    ensures
        interp_steps(s, inputs, i, k) == s,
    decreases k,
{
    if k > 0 {
        lemma_interp_steps_absorb(s, inputs, i + 1, (k - 1) as nat);
    }
}

/// A single driver step is a legal machine evolution — one step, or a step
/// followed by the program replacement it asked for — or it leaves the
/// machine unchanged.
proof fn lemma_interp_step_evolves(m: MachineModel, pc: int, inp: Option<u8>)
    ensures
        exists|n: nat| n <= 2 && um_reachable(m, machine_of(interp_step(m, pc, inp)), n),
{
    match fetch(m, pc) {
        None => {
            assert(um_reachable(m, machine_of(interp_step(m, pc, inp)), 0));
        },
        Some(w) => match step_of(w, m, inp) {
            Err(k) => {
                assert(um_reachable(m, machine_of(interp_step(m, pc, inp)), 0));
            },
            Ok((m1, sr)) => {
                let p = decode(w).unwrap();
                assert(step_parsed(p, m, inp) == Ok::<(MachineModel, StepResult), VmErrorKind>(
                    (m1, sr),
                ));
                assert(um_step(m, m1));
                assert(um_reachable(m, m, 0));
                assert(um_reachable(m, m1, 1));
                match sr {
                    StepResult::Jump { id, new_pc } => {
                        if id != 0 && id < m1.heap.len() && m1.heap[id as int] is Some {
                            let m2 = MachineModel { heap: dup0_heap(m1.heap, id as usize), ..m1 };
                            assert(um_step(m1, m2));
                            assert(um_reachable(m, m2, 2));
                            assert(machine_of(interp_step(m, pc, inp)) == m2);
                        } else {
                            assert(um_reachable(m, machine_of(interp_step(m, pc, inp)), 1));
                        }
                    },
                    _ => {
                        assert(um_reachable(m, machine_of(interp_step(m, pc, inp)), 1));
                    },
                }
            },
        },
    }
}

/// Wherever a run of the driver ends, its machine arises from the starting
/// machine by legal evolutions alone.
pub proof fn lemma_interp_steps_reachable(
    m: MachineModel,
    pc: int,
    inputs: Seq<Option<u8>>,
    i: int,
    k: nat,
)
    ensures
        exists|n: nat|
            #[trigger] um_reachable(
                m,
                machine_of(interp_steps(RunState::Running { m, pc }, inputs, i, k)),
                n,
            ),
    decreases k,
{
    let whole = interp_steps(RunState::Running { m, pc }, inputs, i, k);
    if k == 0 {
        assert(whole == (RunState::Running { m, pc }));
        assert(um_reachable(m, machine_of(whole), 0));
    } else {
        let s1 = interp_step(m, pc, inputs[i]);
        assert(whole == interp_steps(s1, inputs, i + 1, (k - 1) as nat));
        lemma_interp_step_evolves(m, pc, inputs[i]);
        let n1 = choose|n: nat| n <= 2 && um_reachable(m, machine_of(s1), n);
        match s1 {
            RunState::Running { m: m1, pc: pc1 } => {
                lemma_interp_steps_reachable(m1, pc1, inputs, i + 1, (k - 1) as nat);
                let fin = machine_of(
                    interp_steps(RunState::Running { m: m1, pc: pc1 }, inputs, i + 1, (k - 1) as nat),
                );
                let n2 = choose|n: nat|
                    #[trigger] um_reachable(
                        m1,
                        machine_of(
                            interp_steps(
                                RunState::Running { m: m1, pc: pc1 },
                                inputs,
                                i + 1,
                                (k - 1) as nat,
                            ),
                        ),
                        n,
                    );
                lemma_um_reachable_trans(m, m1, fin, n1, n2);
                assert(machine_of(whole) == fin);
                assert(um_reachable(m, machine_of(whole), (n1 + n2) as nat));
            },
            _ => {
                lemma_interp_steps_absorb(s1, inputs, i + 1, (k - 1) as nat);
                assert(whole == s1);
                assert(um_reachable(m, machine_of(whole), n1));
            },
        }
    }
}

/// Whether a step aborts does not depend on the byte read: only an input
/// instruction reads it, and an input instruction never aborts.
pub proof fn lemma_step_err_independent(
    p: ParsedInstruction,
    m: MachineModel,
    i1: Option<u8>,
    i2: Option<u8>,
)
    ensures
        (step_parsed(p, m, i1) is Err) == (step_parsed(p, m, i2) is Err),
{
    match p {
        ParsedInstruction::ConditionalMove { a, b, c } => {},
        ParsedInstruction::ArrayIndex { a, b, c } => {},
        ParsedInstruction::ArrayAmendment { a, b, c } => {},
        ParsedInstruction::Addition { a, b, c } => {},
        ParsedInstruction::Multiplication { a, b, c } => {},
        ParsedInstruction::Division { a, b, c } => {},
        ParsedInstruction::NotAnd { a, b, c } => {},
        ParsedInstruction::Halt => {},
        ParsedInstruction::Allocation { b, c } => {},
        ParsedInstruction::Abandonment { c } => {},
        ParsedInstruction::Output { c } => {},
        ParsedInstruction::Input { c } => {},
        ParsedInstruction::LoadProgram { b, c } => {},
        ParsedInstruction::Immediate { a, value } => {},
    }
}

/// Only the halt instruction reports a halt.
pub proof fn lemma_halt_step(p: ParsedInstruction, m: MachineModel, inp: Option<u8>)
    ensures
        step_parsed(p, m, inp) matches Ok(pr) && pr.1 is Halt ==> p is Halt,
{
    match p {
        ParsedInstruction::ConditionalMove { a, b, c } => {},
        ParsedInstruction::ArrayIndex { a, b, c } => {},
        ParsedInstruction::ArrayAmendment { a, b, c } => {},
        ParsedInstruction::Addition { a, b, c } => {},
        ParsedInstruction::Multiplication { a, b, c } => {},
        ParsedInstruction::Division { a, b, c } => {},
        ParsedInstruction::NotAnd { a, b, c } => {},
        ParsedInstruction::Halt => {},
        ParsedInstruction::Allocation { b, c } => {},
        ParsedInstruction::Abandonment { c } => {},
        ParsedInstruction::Output { c } => {},
        ParsedInstruction::Input { c } => {},
        ParsedInstruction::LoadProgram { b, c } => {},
        ParsedInstruction::Immediate { a, value } => {},
    }
}

/// Every instruction leaves the program array unchanged, apart from a load
/// program naming a nonzero array, and apart from a store whose target is
/// array 0 itself.
pub proof fn lemma_step_preserves_program(p: ParsedInstruction, m: MachineModel, inp: Option<u8>)
    requires
        m.wf(),
        0 < m.heap.len(),
        p.wf(),
        (p matches ParsedInstruction::LoadProgram { b, c } ==> m.regs[b as int] == 0),
        (p matches ParsedInstruction::ArrayAmendment { a, b, c } ==> m.regs[a as int] != 0),
    ensures
        step_parsed(p, m, inp) matches Ok(r) ==> {
            &&& 0 < r.0.heap.len()
            &&& r.0.heap[0] == m.heap[0]
        },
{
    match p {
        ParsedInstruction::Allocation { b, c } => {
            if m.free.len() > 0 {
                assert(0 < m.free[m.free.len() - 1]);
            }
        },
        _ => {},
    }
}

/// Allocation reuses a freed id whenever one exists, taking the smallest;
/// only with no freed id left is a fresh id minted, and a reused id is never
/// id 0.
pub proof fn lemma_alloc_reuses_freed(m: MachineModel)
    requires
        m.wf(),
    ensures
        m.free.len() > 0 ==> m.free.contains(alloc_id(m)),
        m.free.len() > 0 ==> alloc_id(m) != 0,
        m.free.len() > 0 ==> forall|k: int|
            0 <= k < m.free.len() ==> alloc_id(m) <= #[trigger] m.free[k],
        m.free.len() == 0 ==> alloc_id(m) == m.heap.len() as usize,
{
    if m.free.len() > 0 {
        assert(m.free[m.free.len() - 1] == m.free.last());
        assert(0 < m.free[m.free.len() - 1]);
    }
}

/// Copying array 0 onto itself changes nothing.
pub proof fn lemma_clone_into_zero_noop(h: Seq<Option<Seq<u32>>>)
    ensures
        dup0_heap(h, 0) == h,
{
}

/// Copying an array onto array 0 twice is the same as doing it once.
pub proof fn lemma_clone_into_zero_idempotent(h: Seq<Option<Seq<u32>>>, id: usize)
    requires
        id < h.len(),
        0 < h.len(),
    ensures
        dup0_heap(dup0_heap(h, id), id) == dup0_heap(h, id),
{
    if id != 0 {
        let h1 = dup0_heap(h, id);
        assert(h1[id as int] == h[id as int]);
        assert(dup0_heap(h1, id) =~= h1);
    }
}

/// An output instruction appends exactly the low byte of the register to the
/// output stream; an input instruction stores the byte read, or `0xFFFFFFFF`
/// at end of input.
pub proof fn lemma_io_step(p: ParsedInstruction, m: MachineModel, inp: Option<u8>)
    requires
        p.wf(),
        m.regs.len() == 8,
    ensures
        (p matches ParsedInstruction::Output { c } ==> {
            let r = step_parsed(p, m, inp);
            &&& r is Ok
            &&& r->Ok_0.0.output == m.output.push((m.regs[c as int] & 0xff) as u8)
            &&& r->Ok_0.0.regs == m.regs
        }),
        (p matches ParsedInstruction::Input { c } ==> {
            let r = step_parsed(p, m, inp);
            &&& r is Ok
            &&& (inp is None ==> r->Ok_0.0.regs[c as int] == 0xffffffffu32)
            &&& (inp is Some ==> r->Ok_0.0.regs[c as int] == inp.unwrap() as u32
                && r->Ok_0.0.regs[c as int] < 256)
            &&& r->Ok_0.0.output == m.output
        }),
{
}

} // verus!
