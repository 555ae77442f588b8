use um_jit::instruction::ParsedInstruction;
use um_jit::interpreter::{self, VmError};
use um_jit::jit;
use um_jit::model::VmErrorKind;

fn imm(a: usize, value: u32) -> u32 {
    ParsedInstruction::Immediate { a, value }.to_u32()
}

#[test]
fn invalid_opcode_is_fatal() {
    let r = interpreter::run(vec![0xE0000000]);
    assert_eq!(
        r,
        Err(VmError { pc: 0, word: Some(0xE0000000), kind: VmErrorKind::InvalidInstruction })
    );
}

#[test]
fn invalid_opcode_is_fatal_jit() {
    let r = jit::run(vec![0xF0000000]);
    assert_eq!(
        r,
        Err(VmError { pc: 0, word: Some(0xF0000000), kind: VmErrorKind::InvalidInstruction })
    );
}

#[test]
fn division_by_zero_is_fatal() {
    let div = ParsedInstruction::Division { a: 1, b: 2, c: 3 }.to_u32();
    let r = interpreter::run(vec![imm(2, 4), div]);
    assert_eq!(r, Err(VmError { pc: 1, word: Some(div), kind: VmErrorKind::DivisionByZero }));
}

#[test]
fn freeing_a_dead_id_is_fatal() {
    let free = ParsedInstruction::Abandonment { c: 1 }.to_u32();
    let r = interpreter::run(vec![imm(1, 5), free]);
    assert_eq!(r, Err(VmError { pc: 1, word: Some(free), kind: VmErrorKind::HeapMisuse }));
}

#[test]
fn freeing_the_program_array_is_fatal() {
    let free = ParsedInstruction::Abandonment { c: 0 }.to_u32();
    let r = interpreter::run(vec![free]);
    assert_eq!(r, Err(VmError { pc: 0, word: Some(free), kind: VmErrorKind::HeapMisuse }));
}

#[test]
fn loading_from_a_dead_id_is_fatal() {
    let aload = ParsedInstruction::ArrayIndex { a: 2, b: 1, c: 0 }.to_u32();
    let r = interpreter::run(vec![imm(1, 3), aload]);
    assert_eq!(r, Err(VmError { pc: 1, word: Some(aload), kind: VmErrorKind::HeapMisuse }));
}

#[test]
fn loading_beyond_an_array_is_fatal() {
    // Array 0 is the two-word program itself; offset 5 lies outside it.
    let aload = ParsedInstruction::ArrayIndex { a: 2, b: 0, c: 1 }.to_u32();
    let r = interpreter::run(vec![imm(1, 5), aload]);
    assert_eq!(r, Err(VmError { pc: 1, word: Some(aload), kind: VmErrorKind::OutOfBounds }));
}

#[test]
fn storing_beyond_an_array_is_fatal() {
    let store = ParsedInstruction::ArrayAmendment { a: 0, b: 1, c: 2 }.to_u32();
    let r = interpreter::run(vec![imm(1, 9), store]);
    assert_eq!(r, Err(VmError { pc: 1, word: Some(store), kind: VmErrorKind::OutOfBounds }));
}

#[test]
fn running_off_the_program_is_fatal() {
    let r = interpreter::run(vec![imm(1, 1)]);
    assert_eq!(r, Err(VmError { pc: 1, word: None, kind: VmErrorKind::OutOfBounds }));
}

#[test]
fn jumping_to_a_dead_id_is_fatal() {
    let jmp = ParsedInstruction::LoadProgram { b: 1, c: 0 }.to_u32();
    let r = interpreter::run(vec![imm(1, 9), jmp]);
    assert_eq!(r, Err(VmError { pc: 1, word: Some(jmp), kind: VmErrorKind::HeapMisuse }));
}

#[test]
fn errors_match_between_engines() {
    let div = ParsedInstruction::Division { a: 1, b: 2, c: 3 }.to_u32();
    let program = vec![imm(2, 4), div];
    assert_eq!(interpreter::run(program.clone()), jit::run(program));
}
