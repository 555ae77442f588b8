use um_jit::instruction::{Instruction, ParsedInstruction};

fn round_trips(p: ParsedInstruction) {
    let w = p.to_u32();
    assert_eq!(ParsedInstruction::from_u32(w), Some(p));
}

#[test]
fn decode_encode_round_trip_every_variant() {
    round_trips(ParsedInstruction::ConditionalMove { a: 1, b: 2, c: 3 });
    round_trips(ParsedInstruction::ArrayIndex { a: 7, b: 0, c: 5 });
    round_trips(ParsedInstruction::ArrayAmendment { a: 4, b: 4, c: 4 });
    round_trips(ParsedInstruction::Addition { a: 0, b: 7, c: 1 });
    round_trips(ParsedInstruction::Multiplication { a: 3, b: 3, c: 0 });
    round_trips(ParsedInstruction::Division { a: 6, b: 1, c: 2 });
    round_trips(ParsedInstruction::NotAnd { a: 2, b: 5, c: 6 });
    round_trips(ParsedInstruction::Halt);
    round_trips(ParsedInstruction::Allocation { b: 1, c: 7 });
    round_trips(ParsedInstruction::Abandonment { c: 0 });
    round_trips(ParsedInstruction::Output { c: 6 });
    round_trips(ParsedInstruction::Input { c: 2 });
    round_trips(ParsedInstruction::LoadProgram { b: 5, c: 3 });
    round_trips(ParsedInstruction::Immediate { a: 7, value: 0x1ffffff });
    round_trips(ParsedInstruction::Immediate { a: 0, value: 0 });
}

#[test]
fn round_trip_boundary_register_values() {
    for r in 0..8usize {
        round_trips(ParsedInstruction::ConditionalMove { a: r, b: 7 - r, c: r });
        round_trips(ParsedInstruction::LoadProgram { b: r, c: 7 - r });
        round_trips(ParsedInstruction::Immediate { a: r, value: 1 << r });
    }
}

#[test]
fn known_words_decode() {
    // imm r1, 0x41
    match ParsedInstruction::from_u32(0xD2000041) {
        Some(ParsedInstruction::Immediate { a, value }) => {
            assert_eq!(a, 1);
            assert_eq!(value, 0x41);
        },
        other => panic!("wrong decode: {:?}", other),
    }
    // out r1
    assert_eq!(
        ParsedInstruction::from_u32(0xA0000001),
        Some(ParsedInstruction::Output { c: 1 })
    );
    // halt
    assert_eq!(ParsedInstruction::from_u32(0x70000000), Some(ParsedInstruction::Halt));
    // add r0, r1, r2
    assert_eq!(
        ParsedInstruction::from_u32(0x30000040 | 2),
        Some(ParsedInstruction::Addition { a: 1, b: 0, c: 2 })
    );
}

#[test]
fn invalid_opcodes_decode_to_none() {
    assert!(ParsedInstruction::from_u32(0xE0000000).is_none());
    assert!(ParsedInstruction::from_u32(0xF0000001).is_none());
    assert!(ParsedInstruction::from_u32(0xFFFFFFFF).is_none());
}

#[test]
fn instruction_fields() {
    let inst = Instruction::new(0x300001A8);
    assert_eq!(inst.opcode(), 3);
    assert_eq!(inst.a(), 6);
    assert_eq!(inst.b(), 5);
    assert_eq!(inst.c(), 0);
    assert_eq!(inst.to_u32(), 0x300001A8);
    let imm = Instruction::from_u32(0xD200000A);
    assert_eq!(imm.opcode(), 13);
    assert_eq!(imm.imm_a(), 1);
    assert_eq!(imm.imm_value(), 10);
    assert_eq!(
        imm.parse(),
        Some(ParsedInstruction::Immediate { a: 1, value: 10 })
    );
}
