use rlox::opcode::{negate, OpCode, SIGN_BIT};

#[test]
fn bytes_decode_to_their_instructions() {
    assert_eq!(OpCode::try_from(0u8), Ok(OpCode::Return));
    assert_eq!(OpCode::try_from(1u8), Ok(OpCode::LoadConstant));
    assert_eq!(OpCode::try_from(2u8), Ok(OpCode::Negate));
    assert_eq!(OpCode::try_from(3u8), Ok(OpCode::Add));
    assert_eq!(OpCode::try_from(4u8), Ok(OpCode::Subtract));
    assert_eq!(OpCode::try_from(5u8), Ok(OpCode::Multiply));
    assert_eq!(OpCode::try_from(6u8), Ok(OpCode::Divide));
}

#[test]
fn other_bytes_are_invalid_opcodes() {
    for byte in 7..=255u8 {
        assert_eq!(OpCode::try_from(byte), Err("Invalid opcode"));
    }
}

#[test]
fn encoding_and_decoding_are_inverse() {
    let all = [
        OpCode::Return,
        OpCode::LoadConstant,
        OpCode::Negate,
        OpCode::Add,
        OpCode::Subtract,
        OpCode::Multiply,
        OpCode::Divide,
    ];
    for (byte, op) in all.iter().enumerate() {
        assert_eq!(op.to_byte(), byte as u8);
        assert_eq!(OpCode::try_from(op.to_byte()), Ok(*op));
    }
}

#[test]
fn instructions_have_their_mnemonics() {
    assert_eq!(OpCode::Return.name(), "Return");
    assert_eq!(OpCode::LoadConstant.name(), "LoadConstant");
    assert_eq!(OpCode::Negate.name(), "Negate");
    assert_eq!(OpCode::Add.name(), "Add");
    assert_eq!(OpCode::Subtract.name(), "Subtract");
    assert_eq!(OpCode::Multiply.name(), "Multiply");
    assert_eq!(OpCode::Divide.name(), "Divide");
    assert_eq!(OpCode::Divide.to_string(), "Divide");
}

#[test]
fn negate_flips_the_sign_of_a_double() {
    assert_eq!(f64::from_bits(negate(5.0f64.to_bits())), -5.0);
    assert_eq!(f64::from_bits(negate((-2.25f64).to_bits())), 2.25);
    assert_eq!(negate(0.0f64.to_bits()), (-0.0f64).to_bits());
    assert_eq!(negate(f64::INFINITY.to_bits()), f64::NEG_INFINITY.to_bits());
    assert_eq!(negate(0), SIGN_BIT);
    assert!(f64::from_bits(negate(f64::NAN.to_bits())).is_nan());
}

#[test]
fn negate_agrees_with_the_float_operator() {
    for value in [1.0f64, -1.0, 3.14, 1e300, -1e-300, f64::MAX, f64::MIN_POSITIVE] {
        assert_eq!(negate(value.to_bits()), (-value).to_bits());
        assert_eq!(negate(negate(value.to_bits())), value.to_bits());
    }
}
