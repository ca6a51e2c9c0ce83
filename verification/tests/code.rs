use monkey_compiler::code::{
    fmt_disassemble, read_be_u16, read_instruction, read_operands, DecodeError, OpCode, Operand,
};

fn fmt_instructions(opcodes: &[OpCode], operands: &[&[Operand]]) -> String {
    let mut instr = vec![];

    for (oc, op) in opcodes.iter().zip(operands) {
        instr.extend_from_slice(&oc.make(op));
    }
    fmt_disassemble(&instr).unwrap()
}

const ALL: [OpCode; 15] = [
    OpCode::Constant,
    OpCode::Add,
    OpCode::Pop,
    OpCode::Sub,
    OpCode::Mul,
    OpCode::Div,
    OpCode::True,
    OpCode::False,
    OpCode::Equal,
    OpCode::NotEqual,
    OpCode::GreaterThan,
    OpCode::Minus,
    OpCode::Bang,
    OpCode::JumpNotTruthy,
    OpCode::Jump,
];

#[test]
fn test_opconstant() {
    let operand = 65534;
    assert_eq!([0, 255, 254], OpCode::Constant.make(&[operand])[..]);

    let ins = OpCode::Constant.make(&[operand]);
    let r = read_operands(&OpCode::Constant.definition(), &ins).unwrap();
    assert_eq!(operand, r.0[0]);

    let s = fmt_instructions(
        &[OpCode::Constant, OpCode::Constant, OpCode::Constant],
        &[&[1], &[2], &[65534]],
    );

    assert_eq!(
        r#"0000 opcode: Constant [1]
0003 opcode: Constant [2]
0006 opcode: Constant [65534]
"#,
        s
    )
}

#[test]
fn test_opadd() {
    let s = fmt_instructions(
        &[OpCode::Add, OpCode::Constant, OpCode::Constant],
        &[&[], &[2], &[65534]],
    );
    assert_eq!(
        "0000 opcode: Add []
0001 opcode: Constant [2]
0004 opcode: Constant [65534]
",
        s
    )
}

#[test]
fn tags_follow_the_catalog_order() {
    for (i, oc) in ALL.iter().enumerate() {
        assert_eq!(i as u8, oc.as_byte());
        assert_eq!(Some(*oc), OpCode::from_byte(i as u8));
    }
    assert_eq!(None, OpCode::from_byte(15));
    assert_eq!(None, OpCode::from_byte(255));
}

#[test]
fn only_constant_and_jumps_take_an_operand() {
    for oc in ALL.iter() {
        let expected: Vec<u8> = match oc {
            OpCode::Constant | OpCode::JumpNotTruthy | OpCode::Jump => vec![2],
            _ => vec![],
        };
        assert_eq!(expected, oc.definition());
    }
}

#[test]
fn names_are_the_variant_names() {
    for oc in ALL.iter() {
        assert_eq!(format!("{:?}", oc), oc.name());
    }
}

#[test]
fn encode_then_decode_gives_the_instruction_back() {
    for oc in ALL.iter() {
        let width = oc.definition();
        for value in [0usize, 1, 255, 256, 4660, 65534, 65535] {
            let operands: Vec<Operand> = width.iter().map(|_| value).collect();
            assert!(oc.check_operands(&operands));
            let ins = oc.make(&operands);
            assert_eq!(1 + 2 * width.len(), ins.len());
            let (opcode, decoded, length) = read_instruction(&ins).unwrap();
            assert_eq!(*oc, opcode);
            assert_eq!(operands, decoded);
            assert_eq!(ins.len(), length);
        }
    }
}

#[test]
fn operands_are_written_big_endian() {
    assert_eq!(vec![0u8, 0x12, 0x34], OpCode::Constant.make(&[0x1234]));
    assert_eq!(vec![13u8, 0, 7], OpCode::JumpNotTruthy.make(&[7]));
    assert_eq!(vec![14u8, 255, 255], OpCode::Jump.make(&[65535]));
    assert_eq!(vec![2u8], OpCode::Pop.make(&[]));
}

#[test]
fn check_operands_refuses_what_does_not_fit() {
    assert!(OpCode::Constant.check_operands(&[65535]));
    assert!(!OpCode::Constant.check_operands(&[65536]));
    assert!(!OpCode::Constant.check_operands(&[]));
    assert!(!OpCode::Constant.check_operands(&[1, 2]));
    assert!(OpCode::Add.check_operands(&[]));
    assert!(!OpCode::Add.check_operands(&[0]));
}

#[test]
fn read_be_u16_reads_the_first_two_bytes() {
    assert_eq!(65534, read_be_u16(&[255, 254]));
    assert_eq!(258, read_be_u16(&[1, 2, 3]));
    assert_eq!(0, read_be_u16(&[0, 0]));
}

#[test]
fn read_operands_counts_the_tag_byte() {
    assert_eq!((vec![], 1), read_operands(&[], &[1]).unwrap());
    assert_eq!((vec![258], 3), read_operands(&[2], &[0, 1, 2, 9, 9]).unwrap());
    assert_eq!(
        (vec![258, 772], 5),
        read_operands(&[2, 2], &[0, 1, 2, 3, 4]).unwrap()
    );
}

#[test]
fn decoding_fails_on_a_truncated_stream() {
    assert_eq!(Err(DecodeError::Truncated), read_operands(&[], &[]));
    assert_eq!(Err(DecodeError::Truncated), read_operands(&[2], &[0, 1]));
    assert_eq!(Err(DecodeError::Truncated), read_instruction(&[]));
    assert_eq!(Err(DecodeError::Truncated), read_instruction(&[0]));
    assert_eq!(Err(DecodeError::Truncated), read_instruction(&[13, 0]));
    assert_eq!(Err(DecodeError::Truncated), fmt_disassemble(&[1, 0, 0]));
}

#[test]
fn decoding_fails_on_an_unknown_opcode() {
    assert_eq!(Err(DecodeError::UnknownOpcode(15)), read_instruction(&[15]));
    assert_eq!(
        Err(DecodeError::UnknownOpcode(200)),
        fmt_disassemble(&[1, 200, 0])
    );
}

#[test]
fn decoding_fails_on_an_unsupported_width() {
    assert_eq!(
        Err(DecodeError::UnsupportedWidth(1)),
        read_operands(&[1], &[0, 1, 2])
    );
    assert_eq!(
        Err(DecodeError::UnsupportedWidth(4)),
        read_operands(&[2, 4], &[0, 1, 2, 3, 4, 5, 6])
    );
}

#[test]
fn an_empty_stream_has_an_empty_listing() {
    assert_eq!("", fmt_disassemble(&[]).unwrap());
}

#[test]
fn offsets_grow_by_the_encoded_lengths() {
    let s = fmt_instructions(
        &[
            OpCode::True,
            OpCode::JumpNotTruthy,
            OpCode::Constant,
            OpCode::Jump,
            OpCode::Pop,
        ],
        &[&[], &[7], &[0], &[65535], &[]],
    );
    assert_eq!(
        "0000 opcode: True []\n0001 opcode: JumpNotTruthy [7]\n0004 opcode: Constant [0]\n\
         0007 opcode: Jump [65535]\n0010 opcode: Pop []\n",
        s
    );
    assert_eq!(5, s.lines().count());
}

#[test]
fn offsets_of_five_digits_are_not_cut() {
    let mut ins = vec![];
    for _ in 0..10001 {
        ins.extend_from_slice(&OpCode::Add.make(&[]));
    }
    let s = fmt_disassemble(&ins).unwrap();
    let lines: Vec<&str> = s.lines().collect();
    assert_eq!(10001, lines.len());
    assert_eq!("0009 opcode: Add []", lines[9]);
    assert_eq!("0999 opcode: Add []", lines[999]);
    assert_eq!("9999 opcode: Add []", lines[9999]);
    assert_eq!("10000 opcode: Add []", lines[10000]);
}
