use miniredis::text::bytes_eq;
use miniredis::text::bytes_eq_ignore_case;
use miniredis::text::fmt_i64;
use miniredis::text::fmt_u64;
use miniredis::text::is_valid_utf8;
use miniredis::text::parse_i64;
use miniredis::text::parse_u64;

#[test]
fn parse_u64_shapes() {
    assert_eq!(parse_u64(&b"0".to_vec()), Some(0));
    assert_eq!(parse_u64(&b"100".to_vec()), Some(100));
    assert_eq!(parse_u64(&b"+100".to_vec()), Some(100));
    assert_eq!(parse_u64(&b"007".to_vec()), Some(7));
    assert_eq!(parse_u64(&b"18446744073709551615".to_vec()), Some(u64::MAX));
    assert_eq!(parse_u64(&b"18446744073709551616".to_vec()), None);
    assert_eq!(parse_u64(&b"".to_vec()), None);
    assert_eq!(parse_u64(&b"+".to_vec()), None);
    assert_eq!(parse_u64(&b"-1".to_vec()), None);
    assert_eq!(parse_u64(&b"12a".to_vec()), None);
    assert_eq!(parse_u64(&b" 12".to_vec()), None);
}

#[test]
fn parse_i64_shapes() {
    assert_eq!(parse_i64(&b"100".to_vec()), Some(100));
    assert_eq!(parse_i64(&b"+100".to_vec()), Some(100));
    assert_eq!(parse_i64(&b"-100".to_vec()), Some(-100));
    assert_eq!(parse_i64(&b"-0".to_vec()), Some(0));
    assert_eq!(parse_i64(&b"9223372036854775807".to_vec()), Some(i64::MAX));
    assert_eq!(parse_i64(&b"9223372036854775808".to_vec()), None);
    assert_eq!(parse_i64(&b"-9223372036854775808".to_vec()), Some(i64::MIN));
    assert_eq!(parse_i64(&b"-9223372036854775809".to_vec()), None);
    assert_eq!(parse_i64(&b"--1".to_vec()), None);
    assert_eq!(parse_i64(&b"-".to_vec()), None);
    assert_eq!(parse_i64(&b"".to_vec()), None);
}

#[test]
fn formatting_is_canonical() {
    assert_eq!(fmt_u64(0), b"0".to_vec());
    assert_eq!(fmt_u64(9), b"9".to_vec());
    assert_eq!(fmt_u64(10), b"10".to_vec());
    assert_eq!(fmt_u64(90210), b"90210".to_vec());
    assert_eq!(fmt_u64(u64::MAX), b"18446744073709551615".to_vec());
    assert_eq!(fmt_i64(0), b"0".to_vec());
    assert_eq!(fmt_i64(-1), b"-1".to_vec());
    assert_eq!(fmt_i64(i64::MAX), b"9223372036854775807".to_vec());
    assert_eq!(fmt_i64(i64::MIN), b"-9223372036854775808".to_vec());
}

#[test]
fn numerals_round_trip() {
    for v in [0i64, 7, -7, 1000, -1000, i64::MAX, i64::MIN] {
        assert_eq!(parse_i64(&fmt_i64(v)), Some(v));
    }
    for v in [0u64, 9, 10, 12345, u64::MAX] {
        assert_eq!(parse_u64(&fmt_u64(v)), Some(v));
    }
}

#[test]
fn byte_equality_helpers() {
    assert!(bytes_eq(&b"abc".to_vec(), &b"abc".to_vec()));
    assert!(!bytes_eq(&b"abc".to_vec(), &b"abd".to_vec()));
    assert!(!bytes_eq(&b"abc".to_vec(), &b"ab".to_vec()));
    assert!(bytes_eq_ignore_case(&b"PiNg".to_vec(), &b"ping".to_vec()));
    assert!(bytes_eq_ignore_case(&b"".to_vec(), &b"".to_vec()));
    assert!(!bytes_eq_ignore_case(&b"ping".to_vec(), &b"pong".to_vec()));
    // Case folding touches ASCII letters only.
    assert!(!bytes_eq_ignore_case(&vec![0xc4u8], &vec![0xe4u8]));
}

#[test]
fn utf8_validation() {
    assert!(is_valid_utf8(&b"".to_vec()));
    assert!(is_valid_utf8(&b"plain ascii".to_vec()));
    assert!(is_valid_utf8(&"héllo wörld".as_bytes().to_vec()));
    assert!(is_valid_utf8(&"日本語".as_bytes().to_vec()));
    assert!(is_valid_utf8(&"🦀".as_bytes().to_vec()));
    // A lone continuation byte.
    assert!(!is_valid_utf8(&vec![0x80]));
    // A truncated two-byte sequence.
    assert!(!is_valid_utf8(&vec![0xc3]));
    // An overlong encoding of NUL.
    assert!(!is_valid_utf8(&vec![0xc0, 0x80]));
    // A surrogate codepoint.
    assert!(!is_valid_utf8(&vec![0xed, 0xa0, 0x80]));
    // Beyond the last scalar value.
    assert!(!is_valid_utf8(&vec![0xf4, 0x90, 0x80, 0x80]));
    // 0xf8 can lead nothing.
    assert!(!is_valid_utf8(&vec![0xf8, 0x88, 0x80, 0x80, 0x80]));
    // The checker agrees with the standard library on mixed samples.
    for sample in [
        &[0xe2u8, 0x82, 0xac][..],
        &[0xe2, 0x82][..],
        &[0x41, 0xc3, 0xa9, 0x42][..],
        &[0xff][..],
    ] {
        assert_eq!(
            is_valid_utf8(&sample.to_vec()),
            std::str::from_utf8(sample).is_ok()
        );
    }
}
