use std::str::FromStr;

use port_sniffer::constants::{MAX_PORT, MIN_PORT};
use port_sniffer::decimal::{parse_u32, NumError};
use port_sniffer::models::{first_v4, Address, LogLevel, PortRange};

#[test]
fn test_from_str() {
    // Test valid port range
    let input = "1000-2000";
    let expected_output = PortRange((1000..2001).collect());
    assert_eq!(PortRange::from_str(input).unwrap(), expected_output);

    // Test invalid port range
    let input = "2000-1000";
    let expected_error =
        "Invalid port range: start port number must be less than the end port number";
    assert_eq!(PortRange::from_str(input).unwrap_err(), expected_error);

    // Test invalid port number
    let input = "65536";
    let expected_error = format!(
        "Invalid port number: Port numbers should be in the range {}-{}",
        MIN_PORT, MAX_PORT
    );
    assert_eq!(PortRange::from_str(input).unwrap_err(), expected_error);

    // Test invalid range format
    let input = "1000-2000-3000";
    let expected_error = "Invalid range format: Expected format: start-end";
    assert_eq!(PortRange::from_str(input).unwrap_err(), expected_error);

    // Test invalid port range
    let input = "65535-65536";
    let expected_error = format!(
        "Invalid port range: start and end port numbers must be in the range {}-{}",
        MIN_PORT, MAX_PORT
    );
    assert_eq!(PortRange::from_str(input).unwrap_err(), expected_error);
}

#[test]
fn single_port_forms() {
    assert_eq!(PortRange::from_str("80").unwrap(), PortRange(vec![80]));
    assert_eq!(PortRange::from_str("+443").unwrap(), PortRange(vec![443]));
    assert_eq!(PortRange::from_str("0").unwrap(), PortRange(vec![0]));
    assert_eq!(PortRange::from_str("65535").unwrap(), PortRange(vec![65535]));
    assert_eq!(PortRange::from_str("abc").unwrap_err(), "Invalid port number");
    assert_eq!(PortRange::from_str("").unwrap_err(), "Invalid port number");
}

#[test]
fn range_side_parse_errors() {
    assert_eq!(
        PortRange::from_str("10-abc").unwrap_err(),
        "invalid digit found in string"
    );
    assert_eq!(
        PortRange::from_str("10-").unwrap_err(),
        "cannot parse integer from empty string"
    );
    assert_eq!(
        PortRange::from_str("-20").unwrap_err(),
        "cannot parse integer from empty string"
    );
    assert_eq!(
        PortRange::from_str("10-99999999999").unwrap_err(),
        "number too large to fit in target type"
    );
    assert_eq!(
        PortRange::from_str("80-80").unwrap_err(),
        "Invalid port range: start port number must be less than the end port number"
    );
}

#[test]
fn parse_u32_cases() {
    assert_eq!(parse_u32("80"), Ok(80));
    assert_eq!(parse_u32("+80"), Ok(80));
    assert_eq!(parse_u32("0080"), Ok(80));
    assert_eq!(parse_u32(""), Err(NumError::Empty));
    assert_eq!(parse_u32("+"), Err(NumError::InvalidDigit));
    assert_eq!(parse_u32("8a"), Err(NumError::InvalidDigit));
    assert_eq!(parse_u32("4294967295"), Ok(4294967295));
    assert_eq!(parse_u32("4294967296"), Err(NumError::Overflow));
    assert_eq!(parse_u32("99999999999x"), Err(NumError::Overflow));
}

#[test]
fn first_v4_picks_first() {
    let addrs = vec![
        Address::V6(1),
        Address::V4(127, 0, 0, 1),
        Address::V4(10, 0, 0, 1),
    ];
    assert_eq!(first_v4(&addrs), Some(Address::V4(127, 0, 0, 1)));
    let only_v6 = vec![Address::V6(1)];
    assert_eq!(first_v4(&only_v6), None);
    let empty: Vec<Address> = vec![];
    assert_eq!(first_v4(&empty), None);
}

#[test]
fn log_level_progress() {
    assert!(LogLevel::INFO.shows_progress());
    assert!(!LogLevel::DEBUG.shows_progress());
    assert_ne!(LogLevel::INFO, LogLevel::DEBUG);
}
