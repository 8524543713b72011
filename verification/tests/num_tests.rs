use linescript::num::{format_i32, parse_i32, parse_usize};

#[test]
fn parse_i32_reads_plain_and_signed() {
    assert_eq!(parse_i32(&b"0".to_vec()), Some(0));
    assert_eq!(parse_i32(&b"42".to_vec()), Some(42));
    assert_eq!(parse_i32(&b"+7".to_vec()), Some(7));
    assert_eq!(parse_i32(&b"-13".to_vec()), Some(-13));
}

#[test]
fn parse_i32_handles_extremes() {
    assert_eq!(parse_i32(&b"2147483647".to_vec()), Some(i32::MAX));
    assert_eq!(parse_i32(&b"-2147483648".to_vec()), Some(i32::MIN));
    assert_eq!(parse_i32(&b"2147483648".to_vec()), None);
    assert_eq!(parse_i32(&b"-2147483649".to_vec()), None);
    assert_eq!(parse_i32(&b"99999999999999999999".to_vec()), None);
}

#[test]
fn parse_i32_rejects_malformed() {
    assert_eq!(parse_i32(&b"".to_vec()), None);
    assert_eq!(parse_i32(&b"-".to_vec()), None);
    assert_eq!(parse_i32(&b"+".to_vec()), None);
    assert_eq!(parse_i32(&b"1.5".to_vec()), None);
    assert_eq!(parse_i32(&b" 3".to_vec()), None);
    assert_eq!(parse_i32(&b"3x".to_vec()), None);
}

#[test]
fn parse_usize_rejects_negatives() {
    assert_eq!(parse_usize(&b"10".to_vec()), Some(10));
    assert_eq!(parse_usize(&b"+10".to_vec()), Some(10));
    assert_eq!(parse_usize(&b"-10".to_vec()), None);
}

#[test]
fn parse_matches_std_parse() {
    for s in ["0", "007", "-0", "12ab", "", "+999", "4294967296", "-2147483648"] {
        let ours = parse_i32(&s.as_bytes().to_vec());
        let std_parse = s.parse::<i32>().ok();
        assert_eq!(ours, std_parse, "on {:?}", s);
    }
}

#[test]
fn format_i32_matches_to_string() {
    for v in [0, 1, -1, 9, 10, -45, 1024, i32::MAX, i32::MIN] {
        assert_eq!(format_i32(v), v.to_string().into_bytes(), "on {}", v);
    }
}
