use portsmith_replay::text::{parse_i64, parse_usize, push_decimal, push_i64, push_usize};

fn chars(s: &str) -> Vec<char> {
    s.chars().collect()
}

const SAMPLES: &[&str] = &[
    "", "0", "-0", "+0", "7", "-7", "+", "-", "++1", "+-1", "--1", "1-", " 1", "1 ", "12a",
    "a12", "00012", "-00012", "9223372036854775807", "9223372036854775808",
    "-9223372036854775808", "-9223372036854775809", "99999999999999999999999x",
    "-99999999999999999999999x", "18446744073709551615", "18446744073709551616", "\u{e9}",
    "1\u{e9}", "\u{663}",
];

#[test]
fn parse_i64_agrees_with_std() {
    for s in SAMPLES {
        let mine = parse_i64(&chars(s));
        let std = s.parse::<i64>();
        match (mine, std) {
            (Ok(a), Ok(b)) => assert_eq!(a, b, "{s:?}"),
            (Err(a), Err(b)) => assert_eq!(a.message(), b.to_string(), "{s:?}"),
            (a, b) => panic!("{s:?}: {a:?} vs {b:?}"),
        }
    }
}

#[test]
fn parse_usize_agrees_with_std() {
    for s in SAMPLES {
        let mine = parse_usize(&chars(s));
        let std = s.parse::<usize>();
        match (mine, std) {
            (Ok(a), Ok(b)) => assert_eq!(a, b, "{s:?}"),
            (Err(a), Err(b)) => assert_eq!(a.message(), b.to_string(), "{s:?}"),
            (a, b) => panic!("{s:?}: {a:?} vs {b:?}"),
        }
    }
}

#[test]
fn decimal_rendering_agrees_with_std() {
    for v in [0u64, 1, 9, 10, 99, 100, 12345, u64::MAX] {
        let mut s = String::from("x");
        push_decimal(&mut s, v);
        assert_eq!(s, format!("x{v}"));
    }
    for v in [i64::MIN, -10, -1, 0, 1, 42, i64::MAX] {
        let mut s = String::new();
        push_i64(&mut s, v);
        assert_eq!(s, v.to_string());
        assert_eq!(parse_i64(&chars(&s)).unwrap(), v);
    }
    let mut s = String::new();
    push_usize(&mut s, usize::MAX);
    assert_eq!(s, usize::MAX.to_string());
}
