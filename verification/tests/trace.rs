use portsmith_replay::trace::{
    base64_decode, base64_encode, decode_line, read_all, Direction, ParseError, Record, MAGIC,
};

#[test]
fn base64_round_trips() {
    let cases: &[&[u8]] = &[
        b"",
        b"f",
        b"fo",
        b"foo",
        b"foob",
        b"fooba",
        b"foobar",
        &[0, 255, 16, 200],
    ];
    for c in cases {
        let enc = base64_encode(c);
        let dec = base64_decode(&enc).expect("decode");
        assert_eq!(&dec, c, "round trip failed for {c:?}");
    }
    // Known-answer vector.
    assert_eq!(base64_encode(b"Man"), "TWFu");
    assert_eq!(base64_decode("TWFu").unwrap(), b"Man");
}

#[test]
fn decode_line_matches_encode() {
    let r = Record {
        ts_nanos: 42,
        dir: Direction::Response,
        session: "s1".into(),
        proto: "redis".into(),
        payload: b"+PONG\r\n".to_vec(),
    };
    let line = r.encode();
    let back = decode_line(&line, 1).expect("decode");
    assert_eq!(back, r);
}

#[test]
fn decode_line_rejects_bad_input() {
    assert!(decode_line("V1 100 > s p", 1).is_err()); // too few fields
    assert!(decode_line("V9 100 > s p 4 dGVzdA==", 1).is_err()); // version
    assert!(decode_line("V1 100 ? s p 4 dGVzdA==", 1).is_err()); // direction
    assert!(decode_line("V1 100 > s p 9 dGVzdA==", 1).is_err()); // len mismatch
}

fn err_msg(line: &str) -> String {
    decode_line(line, 7).unwrap_err().msg
}

#[test]
fn rfc4648_vectors() {
    let vectors: &[(&[u8], &str)] = &[
        (b"", ""),
        (b"f", "Zg=="),
        (b"fo", "Zm8="),
        (b"foo", "Zm9v"),
        (b"foob", "Zm9vYg=="),
        (b"fooba", "Zm9vYmE="),
        (b"foobar", "Zm9vYmFy"),
        (&[0xfb, 0xff], "+/8="),
    ];
    for (raw, text) in vectors {
        assert_eq!(base64_encode(raw), *text);
        assert_eq!(base64_decode(text).unwrap(), raw.to_vec());
    }
}

#[test]
fn base64_decode_errors() {
    assert_eq!(base64_decode("abc").unwrap_err(), "length not a multiple of 4");
    assert_eq!(base64_decode("ab!d").unwrap_err(), "invalid base64 char '!'");
    assert_eq!(base64_decode("-_==").unwrap_err(), "invalid base64 char '-'");
    // The first offending byte decides, group after group.
    assert_eq!(base64_decode("TWFu*A==").unwrap_err(), "invalid base64 char '*'");
    // A non-ASCII character is reported byte by byte (0xC3 of 'é').
    assert_eq!(base64_decode("ab\u{e9}").unwrap_err(), "invalid base64 char '\u{c3}'");
}

#[test]
fn base64_decode_refuses_misplaced_padding() {
    for text in ["====", "A===", "AA==AAAA", "A=BC", "AB=C", "=AAA", "AAA=AAAA"] {
        assert_eq!(base64_decode(text).unwrap_err(), "invalid base64 padding", "{text:?}");
    }
    // A bad character is reported before misplaced padding.
    assert_eq!(base64_decode("=!AA").unwrap_err(), "invalid base64 char '!'");
    assert_eq!(base64_decode("AA==").unwrap(), vec![0x00]);
    assert_eq!(base64_decode("AAA=").unwrap(), vec![0x00, 0x00]);
}

#[test]
fn decode_line_error_messages() {
    assert_eq!(err_msg("V1 100 > s p"), "expected 7 fields, got 5");
    assert_eq!(err_msg(""), "expected 7 fields, got 1");
    assert_eq!(err_msg("V9 100 > s p 4 dGVzdA=="), "unknown record version \"V9\"");
    assert_eq!(
        err_msg("V1 1x > s p 4 dGVzdA=="),
        "invalid timestamp: invalid digit found in string"
    );
    assert_eq!(
        err_msg("V1 99999999999999999999 > s p 4 dGVzdA=="),
        "invalid timestamp: number too large to fit in target type"
    );
    assert_eq!(
        err_msg("V1 -99999999999999999999 > s p 4 dGVzdA=="),
        "invalid timestamp: number too small to fit in target type"
    );
    assert_eq!(
        err_msg("V1  > s p 4 dGVzdA=="),
        "invalid timestamp: cannot parse integer from empty string"
    );
    assert_eq!(err_msg("V1 100 ? s p 4 dGVzdA=="), "invalid direction \"?\"");
    assert_eq!(
        err_msg("V1 100 > s p -4 dGVzdA=="),
        "invalid length: invalid digit found in string"
    );
    assert_eq!(
        err_msg("V1 100 > s p 4 dGVzdA="),
        "invalid base64 payload: length not a multiple of 4"
    );
    assert_eq!(err_msg("V1 100 > s p 9 dGVzdA=="), "length mismatch: declared 9, decoded 4");
    let e = decode_line("V2 1 > s p 0 ", 12).unwrap_err();
    assert_eq!(e.line, 12);
    assert_eq!(e.to_string(), "trace: line 12: unknown record version \"V2\"");
}

#[test]
fn decode_line_fields() {
    let r = decode_line("V1 -5 > a1b2c3 redis 5 UElORwo=", 3).unwrap();
    assert_eq!(r.ts_nanos, -5);
    assert_eq!(r.dir, Direction::Request);
    assert_eq!(r.session, "a1b2c3");
    assert_eq!(r.proto, "redis");
    assert_eq!(r.payload, b"PING\n".to_vec());
    // '+' sign and an empty payload.
    let r = decode_line("V1 +7 < s p 0 ", 1).unwrap();
    assert_eq!(r.ts_nanos, 7);
    assert_eq!(r.dir, Direction::Response);
    assert!(r.payload.is_empty());
    // Spaces after the sixth belong to the payload field, which then fails.
    assert_eq!(
        err_msg("V1 1 > s p 0 A A"),
        "invalid base64 payload: length not a multiple of 4"
    );
}

#[test]
fn encode_known_line() {
    let r = Record {
        ts_nanos: 1700000000000000000,
        dir: Direction::Request,
        session: "a1b2c3".into(),
        proto: "redis".into(),
        payload: b"PING\n".to_vec(),
    };
    assert_eq!(r.encode(), "V1 1700000000000000000 > a1b2c3 redis 5 UElORwo=");
    let r = Record {
        ts_nanos: i64::MIN,
        dir: Direction::Response,
        session: String::new(),
        proto: "p".into(),
        payload: vec![],
    };
    assert_eq!(r.encode(), "V1 -9223372036854775808 <  p 0 ");
    assert_eq!(decode_line(&r.encode(), 1).unwrap(), r);
}

#[test]
fn encode_decode_round_trip_extremes() {
    for ts in [i64::MIN, -1, 0, 1, i64::MAX] {
        for dir in [Direction::Request, Direction::Response] {
            let r = Record {
                ts_nanos: ts,
                dir,
                session: "sess\u{e9}".into(),
                proto: "".into(),
                payload: (0..=255u8).collect(),
            };
            assert_eq!(decode_line(&r.encode(), 1).unwrap(), r);
        }
    }
}

#[test]
fn direction_text() {
    assert_eq!(Direction::Request.to_string(), ">");
    assert_eq!(Direction::Response.to_string(), "<");
    assert_eq!(Direction::Request.symbol(), '>');
}

#[test]
fn parse_error_text() {
    let e = ParseError { line: 3, msg: "boom".to_string() };
    assert_eq!(e.to_string(), "trace: line 3: boom");
}

fn lines(text: &str) -> Vec<String> {
    text.lines().map(|l| l.to_string()).collect()
}

#[test]
fn read_all_skips_comments_and_blank_lines() {
    let text = "#portsmith-trace v1\n\n# comment\nV1 1 > a redis 5 UElORwo=\r\n\r\r\nV1 2 < a redis 6 K1BPTkcK\n";
    let recs = read_all(&lines(text)).unwrap();
    assert_eq!(recs.len(), 2);
    assert_eq!(recs[0].payload, b"PING\n".to_vec());
    assert_eq!(recs[1].dir, Direction::Response);
    assert_eq!(recs[1].payload, b"+PONG\n".to_vec());
}

#[test]
fn read_all_reports_first_bad_line() {
    let text = "# header\nV1 1 > a p 0 \nbogus line\nV9 x\n";
    let e = read_all(&lines(text)).unwrap_err();
    assert_eq!(e.line, 3);
    assert_eq!(e.to_string(), "trace: line 3: expected 7 fields, got 2");
    assert!(read_all(&[]).unwrap().is_empty());
}

#[test]
fn read_all_trims_every_trailing_carriage_return() {
    let recs = read_all(&["V1 1 > a p 4 dGVzdA==\r\r".to_string()]).unwrap();
    assert_eq!(recs[0].payload, b"test".to_vec());
}

#[test]
fn magic_header_is_a_comment() {
    assert_eq!(MAGIC, "#portsmith-trace v1");
    let lines = vec![MAGIC.to_string(), "V1 1 > a p 0 ".to_string()];
    assert_eq!(read_all(&lines).unwrap().len(), 1);
}

#[test]
fn base64_text_shape() {
    for n in 0..40usize {
        let data: Vec<u8> = (0..n).map(|i| (i * 37 % 256) as u8).collect();
        let text = base64_encode(&data);
        assert_eq!(text.len(), 4 * ((n + 2) / 3));
        assert!(text
            .chars()
            .all(|c| c.is_ascii_alphanumeric() || c == '+' || c == '/' || c == '='));
    }
}

#[test]
fn written_trace_reads_back() {
    let recs = vec![
        Record {
            ts_nanos: 1,
            dir: Direction::Request,
            session: "a".into(),
            proto: "redis".into(),
            payload: b"PING\r\n".to_vec(),
        },
        Record {
            ts_nanos: -2,
            dir: Direction::Response,
            session: "b".into(),
            proto: "raw".into(),
            payload: vec![],
        },
        Record {
            ts_nanos: 3,
            dir: Direction::Request,
            session: "#a".into(),
            proto: "http".into(),
            payload: vec![b'\r'],
        },
    ];
    let lines: Vec<String> = recs.iter().map(|r| r.encode()).collect();
    assert_eq!(read_all(&lines).unwrap(), recs);
}

#[test]
fn canonical_base64_reencodes_to_itself() {
    for text in ["", "TWFu", "TWE=", "TQ==", "Zm9vYmFy", "+/8=", "AA=="] {
        assert_eq!(base64_encode(&base64_decode(text).unwrap()), text);
    }
    // Leftover bits in the last group are dropped: not canonical.
    assert_eq!(base64_encode(&base64_decode("AB==").unwrap()), "AA==");
}

#[test]
fn decode_line_reports_misplaced_padding() {
    assert_eq!(
        decode_line("V1 1 > s p 1 AA==AAAA", 1).unwrap_err().msg,
        "invalid base64 payload: invalid base64 padding"
    );
}
