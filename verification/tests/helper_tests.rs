//! Numeric parsing and command-argument decoding.

use rair::helper::{str_to_num, AddrMode};
use rair::srec::from_hex;
use rair::utils::IoError;
use rair::write::WriteHex;

#[test]
fn test_str_to_num() {
    assert_eq!(str_to_num("12345").unwrap(), 12345);
    assert_eq!(str_to_num("012345").unwrap(), 0o12345);
    assert_eq!(str_to_num("0b101001").unwrap(), 0b101001);
    assert_eq!(str_to_num("0x12345").unwrap(), 0x12345);
    assert_eq!(str_to_num("0X1F2f345").unwrap(), 0x1f2f345);
    assert!(str_to_num("0x12345123451234512").is_err());
}

#[test]
fn test_addr_mode() {
    let mut s = String::new();
    s.push_str(AddrMode::Phy.mode_str());
    s.push(' ');
    s.push_str(AddrMode::Vir.mode_str());
    assert_eq!(s, "Phy Vir");
}

#[test]
fn str_to_num_rejects_plus_only_and_empty_bodies() {
    assert!(str_to_num("+").is_err());
    assert!(str_to_num("0x").is_err());
    assert!(str_to_num("0").is_err());
    assert_eq!(str_to_num("+7").unwrap(), 7);
}

#[test]
fn from_hex_reads_one_or_two_digits() {
    assert_eq!(from_hex(b"ff").unwrap(), 0xff);
    assert_eq!(from_hex(b"0A").unwrap(), 0x0a);
    assert_eq!(from_hex(b"7").unwrap(), 7);
    assert!(from_hex(b"").is_err());
    assert!(from_hex(b"123").is_err());
    assert!(from_hex(b"g1").is_err());
}

#[test]
fn hexpairs_decode_and_reject() {
    assert_eq!(
        WriteHex::parse_hexpairs("123456789abcde").unwrap(),
        vec![0x12, 0x34, 0x56, 0x78, 0x9a, 0xbc, 0xde]
    );
    match WriteHex::parse_hexpairs("012") {
        Err(IoError::Custom(_)) => {}
        other => panic!("expected an odd-length failure, got {:?}", other),
    }
    match WriteHex::parse_hexpairs("012x") {
        Err(IoError::Custom(m)) => assert_eq!(m, "invalid digit found in string"),
        other => panic!("expected a digit failure, got {:?}", other),
    }
}
