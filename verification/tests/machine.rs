use um_jit::instruction::ParsedInstruction;
use um_jit::interpreter;
use um_jit::jit;

fn imm(a: usize, value: u32) -> u32 {
    ParsedInstruction::Immediate { a, value }.to_u32()
}

fn out(c: usize) -> u32 {
    ParsedInstruction::Output { c }.to_u32()
}

fn halt() -> u32 {
    ParsedInstruction::Halt.to_u32()
}

fn add(a: usize, b: usize, c: usize) -> u32 {
    ParsedInstruction::Addition { a, b, c }.to_u32()
}

fn nand(a: usize, b: usize, c: usize) -> u32 {
    ParsedInstruction::NotAnd { a, b, c }.to_u32()
}

fn cmove(a: usize, b: usize, c: usize) -> u32 {
    ParsedInstruction::ConditionalMove { a, b, c }.to_u32()
}

fn jmp(b: usize, c: usize) -> u32 {
    ParsedInstruction::LoadProgram { b, c }.to_u32()
}

/// A program that prints `.` in a loop `n` times: the hot-loop shape.
fn dot_loop(n: u32) -> Vec<u32> {
    vec![
        imm(1, n),                 // 0: r1 = n
        imm(2, 46),                // 1: r2 = '.'
        nand(7, 0, 0),             // 2: r7 = 0xFFFFFFFF
        imm(4, 5),                 // 3: r4 = loop start
        imm(5, 10),                // 4: r5 = exit
        out(2),                    // 5: loop: print
        add(1, 1, 7),              // 6: r1 -= 1
        add(6, 5, 0),              // 7: r6 = r5
        cmove(6, 4, 1),            // 8: if r1 != 0 then r6 = r4
        jmp(0, 6),                 // 9: pc = r6
        halt(),                    // 10
    ]
}

#[test]
fn immediate_and_output() {
    let program = vec![0xD2000041, 0xA0000001, 0x70000000];
    let (r, output) = interpreter::run_with_input(program, vec![]);
    assert!(r.is_ok());
    assert_eq!(output, b"A".to_vec());
}

#[test]
fn immediate_and_output_jit() {
    let program = vec![0xD2000041, 0xA0000001, 0x70000000];
    let (r, output) = jit::run_with_input(program, vec![]);
    assert!(r.is_ok());
    assert_eq!(output, b"A".to_vec());
}

#[test]
fn addition() {
    // imm r1, 3; imm r2, 4; add r0, r1, r2; out r0; halt.
    let program = vec![imm(1, 3), imm(2, 4), add(0, 1, 2), out(0), halt()];
    let (r, output) = interpreter::run_with_input(program, vec![]);
    assert!(r.is_ok());
    assert_eq!(output, vec![7]);
}

#[test]
fn loop_of_ten_dots() {
    let (r, output) = interpreter::run_with_input(dot_loop(10), vec![]);
    assert!(r.is_ok());
    assert_eq!(output, b"..........".to_vec());
}

#[test]
fn hot_loop_is_traced_and_stays_faithful() {
    // 150 rounds pass the hot-spot threshold, so the tail of this run
    // executes through a recorded trace.
    let (ri, oi) = interpreter::run_with_input(dot_loop(150), vec![]);
    let (rj, oj) = jit::run_with_input(dot_loop(150), vec![]);
    assert!(ri.is_ok());
    assert!(rj.is_ok());
    assert_eq!(oi, vec![b'.'; 150]);
    assert_eq!(oj, oi);
}

#[test]
fn self_rewrite_replaces_the_program() {
    let mul = |a: usize, b: usize, c: usize| {
        ParsedInstruction::Multiplication { a, b, c }.to_u32()
    };
    let alloc = |b: usize, c: usize| ParsedInstruction::Allocation { b, c }.to_u32();
    let store = |a: usize, b: usize, c: usize| {
        ParsedInstruction::ArrayAmendment { a, b, c }.to_u32()
    };
    // Allocate a one-word array, write a halt into it, and load it.
    let program = vec![
        imm(3, 1),        // 0: r3 = 1
        alloc(2, 3),      // 1: r2 = new array id
        imm(4, 7),        // 2: r4 = 7
        imm(5, 16384),    // 3: r5 = 2^14
        mul(5, 5, 5),     // 4: r5 = 2^28
        mul(4, 4, 5),     // 5: r4 = halt word
        store(2, 0, 4),   // 6: array[r2][0] = r4
        jmp(2, 0),        // 7: replace the program, continue at 0
    ];
    let (ri, oi) = interpreter::run_with_input(program.clone(), vec![]);
    assert!(ri.is_ok());
    assert!(oi.is_empty());
    let (rj, oj) = jit::run_with_input(program, vec![]);
    assert!(rj.is_ok());
    assert!(oj.is_empty());
}

#[test]
fn alloc_free_cycle_reuses_one_id() {
    let alloc = |b: usize, c: usize| ParsedInstruction::Allocation { b, c }.to_u32();
    let free = |c: usize| ParsedInstruction::Abandonment { c }.to_u32();
    // Each round allocates, prints the id, and frees it: the id stays 1
    // however many rounds run, and the hot loop ends up traced.
    let program = vec![
        imm(1, 150),      // 0: r1 = rounds
        nand(7, 0, 0),    // 1: r7 = 0xFFFFFFFF
        imm(4, 4),        // 2: r4 = loop start
        imm(5, 12),       // 3: r5 = exit
        imm(3, 1),        // 4: loop: r3 = 1
        alloc(2, 3),      // 5: r2 = id
        out(2),           // 6: print the id byte
        free(2),          // 7
        add(1, 1, 7),     // 8: r1 -= 1
        add(6, 5, 0),     // 9: r6 = r5
        cmove(6, 4, 1),   // 10: if r1 != 0 then r6 = r4
        jmp(0, 6),        // 11: pc = r6
        halt(),           // 12
    ];
    let (ri, oi) = interpreter::run_with_input(program.clone(), vec![]);
    let (rj, oj) = jit::run_with_input(program, vec![]);
    assert!(ri.is_ok());
    assert!(rj.is_ok());
    assert_eq!(oi, vec![1u8; 150]);
    assert_eq!(oj, oi);
}

#[test]
fn hot_loop_echoes_input() {
    let input_op = |c: usize| ParsedInstruction::Input { c }.to_u32();
    // Echo 150 bytes through a loop hot enough to be traced; reads past the
    // end of the input echo as 0xFF, the low byte of the end-of-input word.
    let program = vec![
        imm(1, 150),      // 0: r1 = rounds
        nand(7, 0, 0),    // 1: r7 = 0xFFFFFFFF
        imm(4, 4),        // 2: r4 = loop start
        imm(5, 10),       // 3: r5 = exit
        input_op(2),      // 4: loop: r2 = next byte
        out(2),           // 5
        add(1, 1, 7),     // 6: r1 -= 1
        add(6, 5, 0),     // 7: r6 = r5
        cmove(6, 4, 1),   // 8: if r1 != 0 then r6 = r4
        jmp(0, 6),        // 9: pc = r6
        halt(),           // 10
    ];
    let given: Vec<u8> = (0..100u8).collect();
    let mut expected = given.clone();
    expected.extend(vec![0xFFu8; 50]);
    let (ri, oi) = interpreter::run_with_input(program.clone(), given.clone());
    let (rj, oj) = jit::run_with_input(program, given);
    assert!(ri.is_ok());
    assert!(rj.is_ok());
    assert_eq!(oi, expected);
    assert_eq!(oj, expected);
}

#[test]
fn input_reads_bytes_in_order() {
    let input = |c: usize| ParsedInstruction::Input { c }.to_u32();
    let program = vec![input(1), out(1), input(2), out(2), halt()];
    let (r, output) = interpreter::run_with_input(program, vec![b'h', b'i']);
    assert!(r.is_ok());
    assert_eq!(output, b"hi".to_vec());
}

#[test]
fn input_at_end_of_input_yields_all_ones() {
    let input = |c: usize| ParsedInstruction::Input { c }.to_u32();
    let div = |a: usize, b: usize, c: usize| ParsedInstruction::Division { a, b, c }.to_u32();
    // Read at end of input; print the high byte and the low byte of the word
    // read: both are 0xFF exactly when the word is 0xFFFFFFFF.
    let program = vec![
        input(1),           // 0
        imm(5, 16777216),   // 1: r5 = 2^24
        div(2, 1, 5),       // 2: r2 = r1 >> 24
        out(2),             // 3
        out(1),             // 4
        halt(),             // 5
    ];
    let (r, output) = interpreter::run_with_input(program, vec![]);
    assert!(r.is_ok());
    assert_eq!(output, vec![0xFF, 0xFF]);
}

#[test]
fn arithmetic_wraps_and_nand_inverts() {
    let mul = |a: usize, b: usize, c: usize| {
        ParsedInstruction::Multiplication { a, b, c }.to_u32()
    };
    let div = |a: usize, b: usize, c: usize| ParsedInstruction::Division { a, b, c }.to_u32();
    let program = vec![
        nand(7, 0, 0),    // 0: r7 = 0xFFFFFFFF
        imm(2, 2),        // 1: r2 = 2
        add(1, 7, 2),     // 2: r1 = 0xFFFFFFFF + 2 = 1 (wrapping)
        out(1),           // 3: 1
        mul(1, 7, 7),     // 4: r1 = 0xFFFFFFFF * 0xFFFFFFFF = 1 (wrapping)
        out(1),           // 5: 1
        imm(3, 6),        // 6
        imm(4, 5),        // 7
        nand(1, 3, 4),    // 8: r1 = !(6 & 5) = 0xFFFFFFFB
        out(1),           // 9: 0xFB
        imm(3, 7),        // 10
        div(1, 3, 2),     // 11: r1 = 7 / 2 = 3
        out(1),           // 12: 3
        cmove(1, 3, 0),   // 13: r0 is 0, so r1 keeps 3
        out(1),           // 14: 3
        cmove(1, 2, 3),   // 15: r3 is 7, so r1 becomes r2 = 2
        out(1),           // 16: 2
        halt(),           // 17
    ];
    let (r, output) = interpreter::run_with_input(program, vec![]);
    assert!(r.is_ok());
    assert_eq!(output, vec![1, 1, 0xFB, 3, 3, 2]);
}

#[test]
fn output_writes_exactly_the_low_byte() {
    // r1 = 0x1234541: the output instruction must write 0x41 alone.
    let program = vec![imm(1, 0x1234541), out(1), halt()];
    let (r, output) = interpreter::run_with_input(program, vec![]);
    assert!(r.is_ok());
    assert_eq!(output, vec![0x41]);
}

#[test]
fn array_load_and_store() {
    let alloc = |b: usize, c: usize| ParsedInstruction::Allocation { b, c }.to_u32();
    let aload = |a: usize, b: usize, c: usize| ParsedInstruction::ArrayIndex { a, b, c }.to_u32();
    let store = |a: usize, b: usize, c: usize| {
        ParsedInstruction::ArrayAmendment { a, b, c }.to_u32()
    };
    let program = vec![
        imm(3, 4),        // 0: r3 = 4
        alloc(2, 3),      // 1: r2 = id of a 4-word array
        imm(4, 99),       // 2: r4 = 99
        imm(5, 3),        // 3: r5 = offset 3
        store(2, 5, 4),   // 4: arr[3] = 99
        aload(6, 2, 5),   // 5: r6 = arr[3]
        out(6),           // 6: 99
        aload(6, 2, 0),   // 7: r6 = arr[0], still zeroed
        out(6),           // 8: 0
        halt(),           // 9
    ];
    let (r, output) = interpreter::run_with_input(program, vec![]);
    assert!(r.is_ok());
    assert_eq!(output, vec![99, 0]);
}
