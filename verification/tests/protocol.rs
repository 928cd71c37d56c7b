use matrix_stream::protocol::{FrameError, ProtocolParser};

fn frame(bits: &str) -> String {
    bits.to_string()
}

#[test]
fn validate_accepts_64_binary_chars() {
    let line = frame(&"01".repeat(32));
    assert_eq!(ProtocolParser::validate_frame_data(&line), Ok(()));
}

#[test]
fn validate_rejects_short_line() {
    let line = frame(&"0".repeat(63));
    assert_eq!(ProtocolParser::validate_frame_data(&line), Err(FrameError::InvalidLength));
}

#[test]
fn validate_rejects_long_line() {
    let line = frame(&"1".repeat(65));
    assert_eq!(ProtocolParser::validate_frame_data(&line), Err(FrameError::InvalidLength));
}

#[test]
fn validate_rejects_empty_line() {
    assert_eq!(ProtocolParser::validate_frame_data(&String::new()), Err(FrameError::InvalidLength));
}

#[test]
fn validate_rejects_bad_character() {
    let mut line = "0".repeat(63);
    line.push('2');
    assert_eq!(ProtocolParser::validate_frame_data(&line), Err(FrameError::InvalidContent));
}

#[test]
fn validate_counts_bytes_not_characters() {
    // 62 characters, one of them two bytes long: 64 bytes, so the length passes
    // and the content check fails.
    let mut line = "0".repeat(61);
    line.push('é');
    assert_eq!(line.len(), 63);
    line.push('0');
    assert_eq!(line.len(), 64);
    assert_eq!(ProtocolParser::validate_frame_data(&line), Err(FrameError::InvalidContent));
    // 64 characters with one two-byte character is 65 bytes: a length error.
    let mut long = "0".repeat(63);
    long.push('é');
    assert_eq!(ProtocolParser::validate_frame_data(&long), Err(FrameError::InvalidLength));
}

#[test]
fn parse_reads_binary() {
    assert_eq!(ProtocolParser::parse_frame_data("101".to_string()), Some(5));
    assert_eq!(ProtocolParser::parse_frame_data("0".to_string()), Some(0));
    assert_eq!(ProtocolParser::parse_frame_data("0001".to_string()), Some(1));
}

#[test]
fn parse_full_frame() {
    let line = "1".repeat(64);
    assert_eq!(ProtocolParser::parse_frame_data(line), Some(u64::MAX));
    let mut top_left = "1".to_string();
    top_left.push_str(&"0".repeat(63));
    assert_eq!(ProtocolParser::parse_frame_data(top_left), Some(1u64 << 63));
    let pattern = "10101010010101011010101001010101101010100101010110101010".to_string()
        + "01010101";
    assert_eq!(
        ProtocolParser::parse_frame_data(pattern),
        Some(0b10101010_01010101_10101010_01010101_10101010_01010101_10101010_01010101)
    );
}

#[test]
fn parse_accepts_plus_sign() {
    assert_eq!(ProtocolParser::parse_frame_data("+11".to_string()), Some(3));
}

#[test]
fn parse_rejects_what_std_rejects() {
    assert_eq!(ProtocolParser::parse_frame_data(String::new()), None);
    assert_eq!(ProtocolParser::parse_frame_data("+".to_string()), None);
    assert_eq!(ProtocolParser::parse_frame_data("-1".to_string()), None);
    assert_eq!(ProtocolParser::parse_frame_data("12".to_string()), None);
    assert_eq!(ProtocolParser::parse_frame_data(" 1".to_string()), None);
    assert_eq!(ProtocolParser::parse_frame_data("1".repeat(65)), None);
}

#[test]
fn parse_matches_std_from_str_radix() {
    let mut cases: Vec<String> = ["", "+", "-", "0", "1", "+0", "++1", "10", "x", "1 ", "é1"]
        .iter()
        .map(|c| c.to_string())
        .collect();
    cases.push("0".repeat(100));
    cases.push("1".repeat(64));
    cases.push("1".repeat(65));
    for c in cases {
        assert_eq!(
            ProtocolParser::parse_frame_data(c.clone()),
            u64::from_str_radix(&c, 2).ok(),
            "case {:?}",
            c
        );
    }
}

#[test]
fn valid_frame_always_parses() {
    for seed in 0u64..50 {
        let v = seed.wrapping_mul(0x9E37_79B9_7F4A_7C15);
        let line = format!("{:064b}", v);
        assert_eq!(ProtocolParser::validate_frame_data(&line), Ok(()));
        assert_eq!(ProtocolParser::parse_frame_data(line), Some(v));
    }
}

#[test]
fn error_descriptions() {
    assert_eq!(FrameError::InvalidLength.description(), "data length must be 64");
    assert_eq!(FrameError::InvalidContent.description(), "data content must be 0 or 1");
}
