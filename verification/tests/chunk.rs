use rlox::chunk::Chunk;
use rlox::opcode::OpCode;

fn shown(chunk: &Chunk) -> Vec<String> {
    (0..chunk.constants_len())
        .map(|i| format!("{}", f64::from_bits(*chunk.get_constant(i))))
        .collect()
}

fn load(chunk: &mut Chunk, value: f64, line: usize) -> usize {
    let index = chunk.add_constant(value.to_bits());
    chunk.write_byte(OpCode::LoadConstant.to_byte(), line);
    chunk.write_byte(index as u8, line);
    index
}

#[test]
fn new_chunk_is_empty() {
    let chunk = Chunk::new("fresh");
    assert_eq!(chunk.len(), 0);
    assert_eq!(chunk.constants_len(), 0);
    assert!(chunk.can_disassemble());
    assert_eq!(chunk.disassemble(&Vec::new()), "-- fresh --\n");
}

#[test]
fn disassembles_load_constant_and_return() {
    let mut chunk = Chunk::new("demo");
    let k = chunk.add_constant(3.14f64.to_bits());
    assert_eq!(k, 0);
    chunk.write_byte(OpCode::LoadConstant.to_byte(), 1);
    chunk.write_byte(k as u8, 1);
    chunk.write_byte(OpCode::Return.to_byte(), 2);
    assert!(chunk.can_disassemble());
    let text = chunk.disassemble(&shown(&chunk));
    assert_eq!(
        text,
        "-- demo --\n0000    1 LoadConstant        0 '3.14'\n0002    2 Return\n"
    );
}

#[test]
fn written_bytes_are_read_back_with_their_lines() {
    let mut chunk = Chunk::new("bytes");
    let bytes = [0u8, 2, 255, 6, 0, 3];
    for (offset, byte) in bytes.iter().enumerate() {
        chunk.write_byte(*byte, 10 + offset);
        assert_eq!(chunk.len(), offset + 1);
        assert_eq!(chunk.get_byte(offset), *byte);
        assert_eq!(chunk.get_line(offset), 10 + offset);
    }
    for (offset, byte) in bytes.iter().enumerate() {
        assert_eq!(chunk.get_byte(offset), *byte);
        assert_eq!(chunk.get_line(offset), 10 + offset);
    }
}

#[test]
fn same_line_is_shown_as_continuation() {
    let mut chunk = Chunk::new("lines");
    chunk.write_byte(OpCode::Negate.to_byte(), 7);
    chunk.write_byte(OpCode::Add.to_byte(), 7);
    chunk.write_byte(OpCode::Return.to_byte(), 8);
    chunk.write_byte(OpCode::Return.to_byte(), 8);
    assert_eq!(
        chunk.disassemble(&Vec::new()),
        "-- lines --\n0000    7 Negate\n0001    | Add\n0002    8 Return\n0003    | Return\n"
    );
}

#[test]
fn operand_on_the_line_of_its_instruction_does_not_hide_the_next_line_number() {
    let mut chunk = Chunk::new("operand");
    load(&mut chunk, 1.5, 3);
    chunk.write_byte(OpCode::Return.to_byte(), 3);
    assert_eq!(
        chunk.disassemble(&shown(&chunk)),
        "-- operand --\n0000    3 LoadConstant        0 '1.5'\n0002    | Return\n"
    );
}

#[test]
fn every_mnemonic_is_listed() {
    let mut chunk = Chunk::new("all");
    for (line, op) in [
        OpCode::Negate,
        OpCode::Add,
        OpCode::Subtract,
        OpCode::Multiply,
        OpCode::Divide,
        OpCode::Return,
    ]
    .iter()
    .enumerate()
    {
        chunk.write_byte(op.to_byte(), line + 1);
    }
    assert_eq!(
        chunk.disassemble(&Vec::new()),
        "-- all --\n0000    1 Negate\n0001    2 Add\n0002    3 Subtract\n0003    4 Multiply\n\
         0004    5 Divide\n0005    6 Return\n"
    );
}

#[test]
fn invalid_byte_is_reported_and_skipped() {
    let mut chunk = Chunk::new("corrupt");
    chunk.write_byte(OpCode::Return.to_byte(), 1);
    chunk.write_byte(255, 1);
    chunk.write_byte(7, 2);
    chunk.write_byte(OpCode::Negate.to_byte(), 2);
    assert!(chunk.can_disassemble());
    assert_eq!(
        chunk.disassemble(&Vec::new()),
        "-- corrupt --\n0000    1 Return\nInvalid opcode\nInvalid opcode\n0003    | Negate\n"
    );
}

#[test]
fn wide_offsets_lines_and_indices_are_not_cut() {
    let mut chunk = Chunk::new("wide");
    for i in 0..12 {
        chunk.add_constant((i as f64).to_bits());
    }
    for _ in 0..10000 {
        chunk.write_byte(OpCode::Negate.to_byte(), 1);
    }
    chunk.write_byte(OpCode::LoadConstant.to_byte(), 123456);
    chunk.write_byte(11, 123456);
    let text = chunk.disassemble(&shown(&chunk));
    assert!(text.ends_with("9999    | Negate\n10000 123456 LoadConstant       11 '11'\n"));
}

#[test]
fn constants_get_increasing_indices_without_deduplication() {
    let mut chunk = Chunk::new("pool");
    let values = [1.0f64, 2.0, 1.0, 1.0, -0.5];
    for (expected, value) in values.iter().enumerate() {
        let index = chunk.add_constant(value.to_bits());
        assert_eq!(index, expected);
        assert_eq!(f64::from_bits(*chunk.get_constant(index)), *value);
    }
    assert_eq!(chunk.constants_len(), 5);
    for (index, value) in values.iter().enumerate() {
        assert_eq!(f64::from_bits(*chunk.get_constant(index)), *value);
    }
}

#[test]
fn update_constant_changes_one_slot() {
    let mut chunk = Chunk::new("update");
    chunk.add_constant(1.0f64.to_bits());
    chunk.add_constant(1.0f64.to_bits());
    chunk.write_byte(OpCode::Return.to_byte(), 1);
    chunk.update_constant(1, 9.0f64.to_bits());
    assert_eq!(f64::from_bits(*chunk.get_constant(0)), 1.0);
    assert_eq!(f64::from_bits(*chunk.get_constant(1)), 9.0);
    assert_eq!(chunk.constants_len(), 2);
    assert_eq!(chunk.len(), 1);
    assert_eq!(chunk.get_byte(0), 0);
}

#[test]
fn load_constant_without_operand_cannot_be_disassembled() {
    let mut chunk = Chunk::new("cut");
    chunk.add_constant(1.0f64.to_bits());
    chunk.write_byte(OpCode::LoadConstant.to_byte(), 1);
    assert!(!chunk.can_disassemble());
    chunk.write_byte(0, 1);
    assert!(chunk.can_disassemble());
}

#[test]
fn operand_outside_the_pool_cannot_be_disassembled() {
    let mut chunk = Chunk::new("far");
    chunk.add_constant(1.0f64.to_bits());
    chunk.write_byte(OpCode::Return.to_byte(), 1);
    chunk.write_byte(OpCode::LoadConstant.to_byte(), 1);
    chunk.write_byte(1, 1);
    assert!(!chunk.can_disassemble());
}

#[test]
fn operand_byte_is_not_read_as_an_instruction() {
    let mut chunk = Chunk::new("operand");
    chunk.add_constant(0.5f64.to_bits());
    chunk.add_constant(0.25f64.to_bits());
    chunk.write_byte(OpCode::LoadConstant.to_byte(), 1);
    chunk.write_byte(1, 1);
    chunk.write_byte(OpCode::LoadConstant.to_byte(), 2);
    chunk.write_byte(0, 2);
    assert_eq!(
        chunk.disassemble(&shown(&chunk)),
        "-- operand --\n0000    1 LoadConstant        1 '0.25'\n\
         0002    2 LoadConstant        0 '0.5'\n"
    );
}

#[test]
fn pairs_of_load_and_return_are_listed_at_multiples_of_three() {
    let pairs = 5;
    let mut chunk = Chunk::new("pairs");
    for i in 0..pairs {
        load(&mut chunk, i as f64, i + 1);
        chunk.write_byte(OpCode::Return.to_byte(), i + 1);
    }
    chunk.write_byte(OpCode::Return.to_byte(), pairs + 1);
    let text = chunk.disassemble(&shown(&chunk));
    let lines: Vec<&str> = text.lines().collect();
    assert_eq!(lines.len(), 1 + 2 * pairs + 1);
    assert_eq!(lines[0], "-- pairs --");
    for i in 0..pairs {
        assert_eq!(
            lines[1 + 2 * i],
            format!("{:04} {:4} LoadConstant     {:4} '{}'", 3 * i, i + 1, i, i)
        );
        assert_eq!(lines[2 + 2 * i], format!("{:04}    | Return", 3 * i + 2));
    }
    assert_eq!(lines[1 + 2 * pairs], format!("{:04} {:4} Return", 3 * pairs, pairs + 1));
}
