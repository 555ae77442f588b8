use um_jit::codegen::{run_trace, CompiledFuncResult, CompiledTrace, TraceOp};
use um_jit::memory::Memory;

#[test]
fn evaluating_a_trace_matches_the_instructions() {
    let ops = vec![
        TraceOp::Imm { a: 1, value: 20 },
        TraceOp::Imm { a: 2, value: 3 },
        TraceOp::Add { a: 3, b: 1, c: 2 },
        TraceOp::Output { c: 3 },
        TraceOp::Div { a: 4, b: 1, c: 2 },
    ];
    let trace = CompiledTrace::new(ops, 0, 5);
    let mut memory = Memory::buffered(vec![0x70000000], vec![]);
    let r = run_trace(&trace, &mut memory);
    assert_eq!(r, Ok(CompiledFuncResult::Resume { pc: 5 }));
    assert_eq!(memory.regs[1], 20);
    assert_eq!(memory.regs[2], 3);
    assert_eq!(memory.regs[3], 23);
    assert_eq!(memory.regs[4], 6);
    assert_eq!(memory.take_output(), vec![23]);
}

#[test]
fn trace_jump_guard_falls_through_on_the_expected_target() {
    // With r6 holding 9 and the guard expecting 9, the jump falls through and
    // the trace runs to its end.
    let ops = vec![
        TraceOp::Imm { a: 6, value: 9 },
        TraceOp::Jump { b: 0, c: 6, expected_pc: 9 },
        TraceOp::Imm { a: 1, value: 7 },
    ];
    let trace = CompiledTrace::new(ops, 0, 11);
    let mut memory = Memory::buffered(vec![0x70000000], vec![]);
    let r = run_trace(&trace, &mut memory);
    assert_eq!(r, Ok(CompiledFuncResult::Resume { pc: 11 }));
    assert_eq!(memory.regs[1], 7);
}

#[test]
fn trace_jump_guard_miss_exits_to_the_driver() {
    // The guard expects 4 but the register holds 9: the trace exits with a
    // resume at the actual target, leaving the rest unexecuted.
    let ops = vec![
        TraceOp::Imm { a: 6, value: 9 },
        TraceOp::Jump { b: 0, c: 6, expected_pc: 4 },
        TraceOp::Imm { a: 1, value: 7 },
    ];
    let trace = CompiledTrace::new(ops, 0, 11);
    let mut memory = Memory::buffered(vec![0x70000000], vec![]);
    let r = run_trace(&trace, &mut memory);
    assert_eq!(r, Ok(CompiledFuncResult::Resume { pc: 9 }));
    assert_eq!(memory.regs[1], 0);
}

#[test]
fn trace_far_jump_surrenders_to_the_driver() {
    let ops = vec![
        TraceOp::Imm { a: 5, value: 1 },
        TraceOp::Jump { b: 5, c: 0, expected_pc: 0 },
        TraceOp::Imm { a: 1, value: 7 },
    ];
    let trace = CompiledTrace::new(ops, 0, 3);
    let mut memory = Memory::buffered(vec![0x70000000], vec![]);
    let r = run_trace(&trace, &mut memory);
    assert_eq!(r, Ok(CompiledFuncResult::Jump { id: 1, new_pc: 0 }));
    assert_eq!(memory.regs[1], 0);
}

#[test]
fn trace_aborts_where_the_interpreter_would() {
    // Dividing by the zeroed register aborts the trace evaluation with the
    // same condition the interpreter reports.
    let ops = vec![
        TraceOp::Imm { a: 1, value: 4 },
        TraceOp::Div { a: 2, b: 1, c: 3 },
    ];
    let trace = CompiledTrace::new(ops, 0, 2);
    let mut memory = Memory::buffered(vec![0x70000000], vec![]);
    let r = run_trace(&trace, &mut memory);
    assert_eq!(r, Err(um_jit::model::VmErrorKind::DivisionByZero));
    assert_eq!(memory.regs[1], 4);
}

#[test]
fn trace_alloc_and_free_touch_the_heap() {
    let ops = vec![
        TraceOp::Imm { a: 3, value: 2 },
        TraceOp::Alloc { b: 2, c: 3 },
        TraceOp::Store { a: 2, b: 0, c: 3 },
        TraceOp::Load { a: 4, b: 2, c: 0 },
        TraceOp::Output { c: 4 },
        TraceOp::Free { c: 2 },
    ];
    let trace = CompiledTrace::new(ops, 0, 6);
    let mut memory = Memory::buffered(vec![0x70000000], vec![]);
    let r = run_trace(&trace, &mut memory);
    assert_eq!(r, Ok(CompiledFuncResult::Resume { pc: 6 }));
    assert_eq!(memory.regs[2], 1);
    assert_eq!(memory.take_output(), vec![2]);
}

#[test]
fn recorder_stops_at_a_halt_and_discards_a_short_trace() {
    let imm = |a: usize, value: u32| {
        um_jit::instruction::ParsedInstruction::Immediate { a, value }.to_u32()
    };
    let halt = um_jit::instruction::ParsedInstruction::Halt.to_u32();
    // Two instructions before the halt: executed, but too short to keep.
    let program = vec![imm(1, 7), imm(2, 9), halt];
    let mut memory = Memory::buffered(program, vec![]);
    let cache: vstd::hash_map::HashMapWithView<usize, CompiledTrace> =
        vstd::hash_map::HashMapWithView::new();
    let (trace, end) = um_jit::jit::tracing_run(&mut memory, 0, &cache);
    assert!(trace.is_none());
    assert_eq!(end, 2);
    assert_eq!(memory.regs[1], 7);
    assert_eq!(memory.regs[2], 9);
}

#[test]
fn recorder_keeps_a_long_enough_trace() {
    let imm = |a: usize, value: u32| {
        um_jit::instruction::ParsedInstruction::Immediate { a, value }.to_u32()
    };
    let halt = um_jit::instruction::ParsedInstruction::Halt.to_u32();
    let program = vec![imm(1, 1), imm(2, 2), imm(3, 3), imm(4, 4), imm(5, 5), halt];
    let mut memory = Memory::buffered(program, vec![]);
    let cache: vstd::hash_map::HashMapWithView<usize, CompiledTrace> =
        vstd::hash_map::HashMapWithView::new();
    let (trace, end) = um_jit::jit::tracing_run(&mut memory, 0, &cache);
    assert_eq!(end, 5);
    let trace = trace.expect("five instructions are enough to keep");
    assert_eq!(trace.entry_pc, 0);
    assert_eq!(trace.terminal_pc, 5);
    assert_eq!(trace.ops.len(), 5);
    // The kept trace replays on a fresh machine.
    let mut fresh = Memory::buffered(vec![halt], vec![]);
    let r = run_trace(&trace, &mut fresh);
    assert_eq!(r, Ok(CompiledFuncResult::Resume { pc: 5 }));
    assert_eq!(fresh.regs, [0, 1, 2, 3, 4, 5, 0, 0]);
}
