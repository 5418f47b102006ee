use tvm_asm_parser::parse;
use tvm_asm_parser::ControlRegisterError;
use tvm_asm_parser::Instr;
use tvm_asm_parser::InstrArgValue;
use tvm_asm_parser::ParserError;
use tvm_asm_parser::SliceError;
use tvm_asm_parser::StackRegisterError;

fn parse_str(s: &str) -> (Vec<Instr>, Vec<ParserError>) {
    parse(&s.as_bytes().to_vec())
}

#[test]
fn empty_asm() {
    let (instrs, errors) = parse_str("");
    assert!(instrs.is_empty());
    assert!(errors.is_empty());
}

#[test]
fn simple_asm() {
    const CODE: &str = r#"
        PUSHCONT {
            PUSHREF x{afff_}
            PUSH s(-1)
            OVER
            LESSINT 2
            PUSHCONT {
                2DROP
                PUSHINT 1
            }
            IFJMP
            OVER
            DEC
            SWAP
            DUP
            EXECUTE
            MUL
        }
        DUP
        JMPX
        "#;

    let (output, errors) = parse_str(CODE);
    println!("OUTPUT: {:#?}", output);
    println!("ERRORS: {:#?}", errors);
    assert!(errors.is_empty());
    assert_eq!(output.len(), 3);
}

#[test]
fn whitespace_only_input() {
    let (instrs, errors) = parse_str("  \n\t  \r\n ");
    assert!(instrs.is_empty());
    assert!(errors.is_empty());
}

fn single_arg(src: &str) -> (InstrArgValue, Vec<ParserError>) {
    let (mut instrs, errors) = parse_str(src);
    assert_eq!(instrs.len(), 1);
    let mut instr = instrs.pop().unwrap();
    assert_eq!(instr.args.len(), 1);
    (instr.args.pop().unwrap().value, errors)
}

#[test]
fn negative_hex_literal() {
    let (value, errors) = single_arg("PUSHINT -0x10");
    assert!(errors.is_empty());
    match value {
        InstrArgValue::Nat(n) => {
            assert!(n.negative);
            assert_eq!(n.radix, 16);
            assert_eq!(n.digits, vec![1, 0]);
            assert_eq!(n.to_i64(), Some(-16));
        }
        other => panic!("expected a numeric argument, got {:?}", other),
    }
}

#[test]
fn binary_literal() {
    let (value, errors) = single_arg("PUSHINT 0b101");
    assert!(errors.is_empty());
    match value {
        InstrArgValue::Nat(n) => assert_eq!(n.to_i64(), Some(5)),
        other => panic!("expected a numeric argument, got {:?}", other),
    }
}

#[test]
fn decimal_literal() {
    let (value, errors) = single_arg("PUSHINT 42");
    assert!(errors.is_empty());
    match value {
        InstrArgValue::Nat(n) => {
            assert!(!n.negative);
            assert_eq!(n.radix, 10);
            assert_eq!(n.to_i64(), Some(42));
        }
        other => panic!("expected a numeric argument, got {:?}", other),
    }
}

#[test]
fn parenthesized_negative_stack_register() {
    let (value, errors) = single_arg("PUSH s(-1)");
    assert!(errors.is_empty());
    assert!(matches!(value, InstrArgValue::SReg(-1)));
}

#[test]
fn bare_stack_register() {
    let (value, errors) = single_arg("PUSH s5");
    assert!(errors.is_empty());
    assert!(matches!(value, InstrArgValue::SReg(5)));
}

#[test]
fn control_register_three() {
    let (value, errors) = single_arg("POP c3");
    assert!(errors.is_empty());
    assert!(matches!(value, InstrArgValue::CReg(3)));
}

#[test]
fn control_register_six_is_forbidden() {
    let (value, errors) = single_arg("POP c6");
    assert!(matches!(value, InstrArgValue::Invalid));
    assert_eq!(errors.len(), 1);
    match &errors[0] {
        ParserError::InvalidControlRegister { inner, .. } => {
            assert_eq!(*inner, ControlRegisterError::OutOfRange(6));
        }
        other => panic!("expected a control register diagnostic, got {:?}", other),
    }
}

#[test]
fn control_register_seven_is_allowed() {
    let (value, errors) = single_arg("POP c7");
    assert!(errors.is_empty());
    assert!(matches!(value, InstrArgValue::CReg(7)));
}

#[test]
fn control_register_overflow() {
    let (value, errors) = single_arg("POP c256");
    assert!(matches!(value, InstrArgValue::Invalid));
    assert_eq!(errors.len(), 1);
    match &errors[0] {
        ParserError::InvalidControlRegister { inner, .. } => {
            assert_eq!(*inner, ControlRegisterError::Overflow);
        }
        other => panic!("expected a control register diagnostic, got {:?}", other),
    }
}

#[test]
fn malformed_stack_register_is_a_register_error() {
    let (value, errors) = single_arg("PUSH sx");
    assert!(matches!(value, InstrArgValue::Invalid));
    assert_eq!(errors.len(), 1);
    match &errors[0] {
        ParserError::InvalidStackRegister { inner, .. } => {
            assert_eq!(*inner, StackRegisterError::Malformed);
        }
        other => panic!("expected a stack register diagnostic, got {:?}", other),
    }
}

#[test]
fn malformed_parenthesized_stack_register_is_a_register_error() {
    let (value, errors) = single_arg("PUSH s(x)");
    assert!(matches!(value, InstrArgValue::Invalid));
    assert_eq!(errors.len(), 1);
    match &errors[0] {
        ParserError::InvalidStackRegister { inner, .. } => {
            assert_eq!(*inner, StackRegisterError::Malformed);
        }
        other => panic!("expected a stack register diagnostic, got {:?}", other),
    }
}

#[test]
fn malformed_control_register_is_a_register_error() {
    let (value, errors) = single_arg("POP cx");
    assert!(matches!(value, InstrArgValue::Invalid));
    assert_eq!(errors.len(), 1);
    match &errors[0] {
        ParserError::InvalidControlRegister { inner, .. } => {
            assert_eq!(*inner, ControlRegisterError::Malformed);
        }
        other => panic!("expected a control register diagnostic, got {:?}", other),
    }
}

#[test]
fn radix_prefix_without_digits_is_a_numeric_error() {
    let (value, errors) = single_arg("PUSHINT 0xg");
    assert!(matches!(value, InstrArgValue::Invalid));
    assert_eq!(errors.len(), 1);
    assert!(matches!(errors[0], ParserError::InvalidInt { .. }));
}

#[test]
fn binary_prefix_without_digits_is_a_numeric_error() {
    let (value, errors) = single_arg("PUSHINT -0b");
    assert!(matches!(value, InstrArgValue::Invalid));
    assert_eq!(errors.len(), 1);
    assert!(matches!(errors[0], ParserError::InvalidInt { .. }));
}

#[test]
fn stack_register_overflow() {
    let (value, errors) = single_arg("PUSH s32768");
    assert!(matches!(value, InstrArgValue::Invalid));
    assert_eq!(errors.len(), 1);
    match &errors[0] {
        ParserError::InvalidStackRegister { inner, .. } => {
            assert_eq!(*inner, StackRegisterError::Overflow);
        }
        other => panic!("expected a stack register diagnostic, got {:?}", other),
    }
}

#[test]
fn hex_slice_full_byte() {
    let (value, errors) = single_arg("PUSHSLICE x{ff}");
    assert!(errors.is_empty());
    match value {
        InstrArgValue::Slice(cell) => {
            assert_eq!(cell.bit_len(), 8);
            assert_eq!(cell.data(), &[0xff]);
        }
        other => panic!("expected a slice argument, got {:?}", other),
    }
}

#[test]
fn hex_slice_two_bytes() {
    let (value, errors) = single_arg("PUSHSLICE x{abcd}");
    assert!(errors.is_empty());
    match value {
        InstrArgValue::Slice(cell) => {
            assert_eq!(cell.bit_len(), 16);
            assert_eq!(cell.data(), &[0xab, 0xcd]);
        }
        other => panic!("expected a slice argument, got {:?}", other),
    }
}

#[test]
fn empty_hex_slice() {
    let (value, errors) = single_arg("PUSHSLICE x{}");
    assert!(errors.is_empty());
    match value {
        InstrArgValue::Slice(cell) => assert_eq!(cell.bit_len(), 0),
        other => panic!("expected a slice argument, got {:?}", other),
    }
}

#[test]
fn hex_slice_tag_mode() {
    let (value, errors) = single_arg("PUSHSLICE x{f_}");
    assert!(errors.is_empty());
    match value {
        InstrArgValue::Slice(cell) => assert_eq!(cell.bit_len(), 3),
        other => panic!("expected a slice argument, got {:?}", other),
    }
}

#[test]
fn hex_slice_tag_mode_all_zero() {
    let (value, errors) = single_arg("PUSHSLICE x{00_}");
    assert!(errors.is_empty());
    match value {
        InstrArgValue::Slice(cell) => assert_eq!(cell.bit_len(), 0),
        other => panic!("expected a slice argument, got {:?}", other),
    }
}

#[test]
fn bin_slice_three_bits() {
    let (value, errors) = single_arg("PUSHSLICE b{101}");
    assert!(errors.is_empty());
    match value {
        InstrArgValue::Slice(cell) => {
            assert_eq!(cell.bit_len(), 3);
            // bits 1,0,1 then the completion tag bit: 1011_0000
            assert_eq!(cell.data(), &[0xb0]);
        }
        other => panic!("expected a slice argument, got {:?}", other),
    }
}

#[test]
fn hex_slice_invalid_half_digit() {
    let (value, errors) = single_arg("PUSHSLICE x{g}");
    assert!(matches!(value, InstrArgValue::Invalid));
    assert_eq!(errors.len(), 1);
    match &errors[0] {
        ParserError::InvalidSlice { inner, .. } => assert_eq!(*inner, SliceError::InvalidHex(b'g')),
        other => panic!("expected a slice diagnostic, got {:?}", other),
    }
}

#[test]
fn hex_slice_invalid_pair_digit() {
    let (value, errors) = single_arg("PUSHSLICE x{gg}");
    assert!(matches!(value, InstrArgValue::Invalid));
    assert_eq!(errors.len(), 1);
    match &errors[0] {
        ParserError::InvalidSlice { inner, .. } => assert_eq!(*inner, SliceError::InvalidHexFull),
        other => panic!("expected a slice diagnostic, got {:?}", other),
    }
}

#[test]
fn hex_slice_non_ascii() {
    let mut src = b"PUSHSLICE x{".to_vec();
    src.push(0xc3);
    src.push(0xa9);
    src.push(b'}');
    let (instrs, errors) = parse(&src);
    assert_eq!(instrs.len(), 1);
    assert!(matches!(instrs[0].args[0].value, InstrArgValue::Invalid));
    assert_eq!(errors.len(), 1);
    match &errors[0] {
        ParserError::InvalidSlice { inner, .. } => assert_eq!(*inner, SliceError::NonAscii),
        other => panic!("expected a slice diagnostic, got {:?}", other),
    }
}

#[test]
fn bin_slice_invalid_digit() {
    let (value, errors) = single_arg("PUSHSLICE b{102}");
    assert!(matches!(value, InstrArgValue::Invalid));
    assert_eq!(errors.len(), 1);
    match &errors[0] {
        ParserError::InvalidSlice { inner, .. } => assert_eq!(*inner, SliceError::InvalidBin(b'2')),
        other => panic!("expected a slice diagnostic, got {:?}", other),
    }
}

#[test]
fn bin_slice_too_long() {
    let src = format!("PUSHSLICE b{{{}}}", "1".repeat(1025));
    let (_, errors) = parse_str(&src);
    assert_eq!(errors.len(), 1);
    match &errors[0] {
        ParserError::InvalidSlice { inner, .. } => assert_eq!(*inner, SliceError::TooLong),
        other => panic!("expected a slice diagnostic, got {:?}", other),
    }
}

#[test]
fn hex_slice_too_long() {
    let src = format!("PUSHSLICE x{{{}}}", "f".repeat(258));
    let (_, errors) = parse_str(&src);
    assert_eq!(errors.len(), 1);
    match &errors[0] {
        ParserError::InvalidSlice { inner, .. } => assert_eq!(*inner, SliceError::TooLong),
        other => panic!("expected a slice diagnostic, got {:?}", other),
    }
}

#[test]
fn slice_rejected_by_cell_facility() {
    // 1024 bits pass the literal's own cap but exceed what a cell holds.
    let src = format!("PUSHSLICE b{{{}}}", "1".repeat(1024));
    let (_, errors) = parse_str(&src);
    assert_eq!(errors.len(), 1);
    match &errors[0] {
        ParserError::InvalidSlice { inner, .. } => assert_eq!(*inner, SliceError::CellError),
        other => panic!("expected a slice diagnostic, got {:?}", other),
    }
}

#[test]
fn slice_missing_close_discards_value() {
    let (instrs, errors) = parse_str("PUSHSLICE x{ff");
    assert_eq!(instrs.len(), 1);
    assert!(matches!(instrs[0].args[0].value, InstrArgValue::Invalid));
    assert_eq!(errors.len(), 1);
    assert!(matches!(errors[0], ParserError::ExpectedFound { .. }));
}

#[test]
fn unterminated_block_keeps_inner_instruction() {
    let (instrs, errors) = parse_str("PUSHCONT { NOP");
    assert_eq!(instrs.len(), 1);
    assert_eq!(instrs[0].ident, b"PUSHCONT".to_vec());
    assert_eq!(instrs[0].args.len(), 1);
    match &instrs[0].args[0].value {
        InstrArgValue::Block(inner) => {
            assert_eq!(inner.len(), 1);
            assert_eq!(inner[0].ident, b"NOP".to_vec());
        }
        other => panic!("expected a block argument, got {:?}", other),
    }
    assert_eq!(errors.len(), 1);
}

#[test]
fn malformed_stack_register_recovers() {
    let (instrs, errors) = parse_str("PUSH s(abc\nPOP s2");
    assert_eq!(instrs.len(), 2);
    assert!(matches!(instrs[0].args[0].value, InstrArgValue::Invalid));
    assert_eq!(instrs[1].ident, b"POP".to_vec());
    assert!(matches!(instrs[1].args[0].value, InstrArgValue::SReg(2)));
    assert!(!errors.is_empty());
}

#[test]
fn separator_recovery_keeps_later_arguments() {
    let (instrs, errors) = parse_str("ADD s1 garbage, s2");
    assert_eq!(instrs.len(), 1);
    assert_eq!(instrs[0].args.len(), 2);
    assert!(matches!(instrs[0].args[0].value, InstrArgValue::SReg(1)));
    assert!(matches!(instrs[0].args[1].value, InstrArgValue::SReg(2)));
    assert_eq!(errors.len(), 1);
}

#[test]
fn trailing_garbage_is_reported() {
    let (instrs, errors) = parse_str("NOP )");
    assert_eq!(instrs.len(), 1);
    assert_eq!(errors.len(), 1);
    assert!(matches!(errors[0], ParserError::ExpectedFound { .. }));
}

#[test]
fn parse_continues_after_top_level_garbage() {
    let (instrs, errors) = parse_str("$$$ NOP
??? DUP");
    assert_eq!(instrs.len(), 2);
    assert_eq!(instrs[0].ident, b"NOP".to_vec());
    assert_eq!(instrs[1].ident, b"DUP".to_vec());
    assert_eq!(errors.len(), 2);
    assert!(matches!(errors[0], ParserError::ExpectedFound { .. }));
}

#[test]
fn block_skips_extraneous_content_to_its_close() {
    let (instrs, errors) = parse_str("PUSHCONT { NOP $ } DUP");
    assert_eq!(instrs.len(), 2);
    match &instrs[0].args[0].value {
        InstrArgValue::Block(inner) => {
            assert_eq!(inner.len(), 1);
            assert_eq!(inner[0].ident, b"NOP".to_vec());
        }
        other => panic!("expected a block argument, got {:?}", other),
    }
    assert_eq!(instrs[1].ident, b"DUP".to_vec());
    assert_eq!(errors.len(), 1);
    match &errors[0] {
        ParserError::ExpectedFound { expected, .. } => {
            assert_eq!(expected, &vec![Some(b'}')]);
        }
        other => panic!("expected an expected-found diagnostic, got {:?}", other),
    }
}

#[test]
fn deeply_nested_blocks() {
    let mut src = String::new();
    for _ in 0..50 {
        src.push_str("PUSHCONT { ");
    }
    src.push_str("NOP");
    for _ in 0..50 {
        src.push_str(" }");
    }
    let (instrs, errors) = parse_str(&src);
    assert!(errors.is_empty());
    assert_eq!(instrs.len(), 1);
    let mut level = &instrs[0];
    for _ in 0..50 {
        assert_eq!(level.ident, b"PUSHCONT".to_vec());
        assert_eq!(level.args.len(), 1);
        match &level.args[0].value {
            InstrArgValue::Block(inner) => {
                assert_eq!(inner.len(), 1);
                level = &inner[0];
            }
            other => panic!("expected a block argument, got {:?}", other),
        }
    }
    assert_eq!(level.ident, b"NOP".to_vec());
}

#[test]
fn generated_program_round_trips() {
    let src = "PUSHINT 42\nPUSH s5\nPOP c7\nPUSHSLICE x{ff}\nPUSHCONT { NOP }";
    let (instrs, errors) = parse_str(src);
    assert!(errors.is_empty());
    assert_eq!(instrs.len(), 5);
    assert!(matches!(instrs[1].args[0].value, InstrArgValue::SReg(5)));
    assert!(matches!(instrs[2].args[0].value, InstrArgValue::CReg(7)));
}

#[test]
fn merge_unions_expected_sets() {
    let a = ParserError::expected_found(
        vec![Some(b'(')],
        Some(b'x'),
        tvm_asm_parser::Span { start: 1, end: 2 },
    );
    let b = ParserError::expected_found(
        vec![Some(b'-')],
        Some(b'x'),
        tvm_asm_parser::Span { start: 1, end: 2 },
    );
    match a.merge(b) {
        ParserError::ExpectedFound { expected, found, .. } => {
            assert_eq!(expected, vec![Some(b'('), Some(b'-')]);
            assert_eq!(found, Some(b'x'));
        }
        other => panic!("expected a merged diagnostic, got {:?}", other),
    }
}

#[test]
fn merge_keeps_first_diagnostic_otherwise() {
    let a = ParserError::expected_found(vec![], None, tvm_asm_parser::Span { start: 0, end: 0 });
    let b = ParserError::InvalidInt { span: tvm_asm_parser::Span { start: 0, end: 0 } };
    assert!(matches!(a.merge(b), ParserError::ExpectedFound { .. }));
}

#[test]
fn instruction_without_arguments_on_each_line() {
    let (instrs, errors) = parse_str("NOP\nSWAP\nDUP");
    assert!(errors.is_empty());
    assert_eq!(instrs.len(), 3);
    assert_eq!(instrs[1].ident, b"SWAP".to_vec());
    assert!(instrs.iter().all(|i| i.args.is_empty()));
}

#[test]
fn digit_started_mnemonic_opens_a_block_instruction() {
    // A mnemonic may begin with a digit where an instruction is expected,
    // as inside a block; after another mnemonic the same token would read
    // as a numeric argument instead.
    let (instrs, errors) = parse_str("PUSHCONT { 2DROP }");
    assert!(errors.is_empty());
    match &instrs[0].args[0].value {
        InstrArgValue::Block(inner) => assert_eq!(inner[0].ident, b"2DROP".to_vec()),
        other => panic!("expected a block argument, got {:?}", other),
    }
}
