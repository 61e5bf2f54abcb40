use ooosim::inst::{parse_reg_str, Inst};
use ooosim::reg::VReg;

#[test]
fn parse_reg_float() {
    assert_eq!(parse_reg_str("f2"), Some(VReg::F(2)));
}

#[test]
fn parse_reg_integer_multi_digit() {
    assert_eq!(parse_reg_str("r10"), Some(VReg::R(10)));
}

#[test]
fn parse_reg_empty_token_is_no_register() {
    assert_eq!(parse_reg_str(""), None);
}

#[test]
fn parse_reg_bad_prefix() {
    assert_eq!(parse_reg_str("x3"), None);
}

#[test]
fn parse_reg_prefix_alone() {
    assert_eq!(parse_reg_str("f"), None);
}

#[test]
fn parse_reg_trailing_garbage() {
    assert_eq!(parse_reg_str("f1a"), None);
}

#[test]
fn parse_reg_index_at_limit() {
    assert_eq!(parse_reg_str("f4294967295"), Some(VReg::F(4294967295)));
}

#[test]
fn parse_reg_index_overflow() {
    assert_eq!(parse_reg_str("f4294967296"), None);
}

#[test]
fn inst_new_reads_all_tokens() {
    let i = Inst::new(1, "f2", "", "r2", 2);
    assert_eq!(i.fu, 1);
    assert_eq!(i.rt, Some(VReg::F(2)));
    assert_eq!(i.rs1, None);
    assert_eq!(i.rs2, Some(VReg::R(2)));
    assert_eq!(i.delay, 2);
}

#[test]
fn trace_line_well_formed() {
    let i = Inst::from_trace_line("1 f2  r2 2").expect("line should parse");
    assert_eq!(i.fu, 1);
    assert_eq!(i.rt, Some(VReg::F(2)));
    assert_eq!(i.rs1, None);
    assert_eq!(i.rs2, Some(VReg::R(2)));
    assert_eq!(i.delay, 2);
}

#[test]
fn trace_line_wrong_field_count() {
    assert!(Inst::from_trace_line("1 f2 r2 2").is_err());
    assert!(Inst::from_trace_line("").is_err());
    assert!(Inst::from_trace_line("1 f2  r2 2 extra").is_err());
}

#[test]
fn trace_line_bad_numbers() {
    assert!(Inst::from_trace_line("a f2  r2 2").is_err());
    assert!(Inst::from_trace_line("1 f2  r2 x").is_err());
}

#[test]
fn trace_line_malformed_registers_are_absent() {
    let i = Inst::from_trace_line("0 q7 z 9 3").expect("line should parse");
    assert_eq!(i.rt, None);
    assert_eq!(i.rs1, None);
    assert_eq!(i.rs2, None);
    assert_eq!(i.fu, 0);
    assert_eq!(i.delay, 3);
}
