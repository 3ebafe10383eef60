use lu_solve::decimal::{parse_integer, parse_natural, render_integer, render_natural};

#[test]
fn natural_spellings() {
    assert_eq!(render_natural(0), b"0".to_vec());
    assert_eq!(render_natural(7), b"7".to_vec());
    assert_eq!(render_natural(1234), b"1234".to_vec());
    assert_eq!(render_natural(u64::MAX), u64::MAX.to_string().into_bytes());
}

#[test]
fn integer_spellings() {
    assert_eq!(render_integer(0), b"0".to_vec());
    assert_eq!(render_integer(-30), b"-30".to_vec());
    assert_eq!(render_integer(29), b"29".to_vec());
    assert_eq!(render_integer(i64::MIN), i64::MIN.to_string().into_bytes());
    assert_eq!(render_integer(i64::MAX), i64::MAX.to_string().into_bytes());
}

#[test]
fn natural_reading() {
    assert_eq!(parse_natural(b"3"), Some(3));
    assert_eq!(parse_natural(b"0050"), Some(50));
    assert_eq!(parse_natural(b""), None);
    assert_eq!(parse_natural(b"-3"), None);
    assert_eq!(parse_natural(b"1 2"), None);
    assert_eq!(parse_natural(b"99999999999999999999999"), None);
}

#[test]
fn integer_reading() {
    assert_eq!(parse_integer(b"-7"), Some(-7));
    assert_eq!(parse_integer(b"12"), Some(12));
    assert_eq!(parse_integer(b"-9223372036854775808"), Some(i64::MIN));
    assert_eq!(parse_integer(b"9223372036854775807"), Some(i64::MAX));
    assert_eq!(parse_integer(b"9223372036854775808"), None);
    assert_eq!(parse_integer(b"-9223372036854775809"), None);
    assert_eq!(parse_integer(b"-"), None);
    assert_eq!(parse_integer(b"2.0"), None);
    assert_eq!(parse_integer(b""), None);
}

#[test]
fn integer_round_trip_on_range() {
    for v in -1000i64..1000 {
        assert_eq!(parse_integer(&render_integer(v)), Some(v));
    }
}
