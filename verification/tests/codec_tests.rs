use extsort::codec::Entry;
use extsort::codec::Error;

fn line_bytes(s: &str) -> Vec<u8> {
    s.as_bytes().to_vec()
}

fn key_tail(last: char) -> String {
    let mut s = String::new();
    let mut i: usize = 0;
    while i < 39 {
        s.push('0');
        i += 1;
    }
    s.push(last);
    s
}

#[test]
fn parse_simple_line() {
    let line = format!("{}:5", key_tail('1'));
    let e = Entry::parse(&line_bytes(&line)).unwrap();
    assert_eq!(e, Entry { w0: 0, w1: 0, w2: 0, w3: 0, w4: 1, count: 5 });
}

#[test]
fn parse_full_width_key() {
    let line = "0123456789ABCDEF0123456789abcdef01234567:4294967295";
    let e = Entry::parse(&line_bytes(line)).unwrap();
    assert_eq!(e.w0, 0x01234567);
    assert_eq!(e.w1, 0x89ABCDEF);
    assert_eq!(e.w2, 0x01234567);
    assert_eq!(e.w3, 0x89ABCDEF);
    assert_eq!(e.w4, 0x01234567);
    assert_eq!(e.count, u32::MAX);
}

#[test]
fn parse_max_key_round_trip() {
    let line = "FFFFFFFFFFFFFFFFFFFFFFFFFFFFFFFFFFFFFFFF:0";
    let e = Entry::parse(&line_bytes(line)).unwrap();
    let m = u32::MAX;
    assert_eq!(e, Entry { w0: m, w1: m, w2: m, w3: m, w4: m, count: 0 });
    assert_eq!(e.to_string(), line);
    assert_eq!(Entry::from_le_bytes(&e.to_le_bytes()), e);
}

#[test]
fn parse_accepts_lowercase_hex() {
    let upper = Entry::parse(&line_bytes("00000000000000000000000000000000000000AA:7")).unwrap();
    let lower = Entry::parse(&line_bytes("00000000000000000000000000000000000000aa:7")).unwrap();
    assert_eq!(upper, lower);
}

#[test]
fn parse_rejects_short_key() {
    assert_eq!(Entry::parse(&line_bytes("nothex:5")), Err(Error::MalformedRecord));
}

#[test]
fn parse_rejects_bad_hex() {
    let line = format!("{}:5", key_tail('G'));
    assert_eq!(Entry::parse(&line_bytes(&line)), Err(Error::MalformedRecord));
}

#[test]
fn parse_rejects_missing_colon() {
    let mut line = key_tail('1');
    line.push('5');
    line.push('5');
    assert_eq!(Entry::parse(&line_bytes(&line)), Err(Error::MalformedRecord));
}

#[test]
fn parse_rejects_empty_count() {
    let line = format!("{}:", key_tail('1'));
    assert_eq!(Entry::parse(&line_bytes(&line)), Err(Error::MalformedRecord));
}

#[test]
fn parse_rejects_bad_count() {
    let line = format!("{}:5x", key_tail('1'));
    assert_eq!(Entry::parse(&line_bytes(&line)), Err(Error::MalformedRecord));
}

#[test]
fn parse_rejects_count_overflow() {
    let line = format!("{}:4294967296", key_tail('1'));
    assert_eq!(Entry::parse(&line_bytes(&line)), Err(Error::MalformedRecord));
}

#[test]
fn parse_rejects_empty_line() {
    assert_eq!(Entry::parse(&Vec::new()), Err(Error::MalformedRecord));
}

#[test]
fn from_str_matches_parse() {
    let line = format!("{}:12", key_tail('3'));
    assert_eq!(Entry::from_str(&line), Entry::parse(&line_bytes(&line)));
}

#[test]
fn to_string_uppercase_form() {
    let e = Entry { w0: 0xDEADBEEF, w1: 0, w2: 0x1234, w3: 0, w4: 0xA, count: 42 };
    assert_eq!(e.to_string(), "DEADBEEF0000000000001234000000000000000A:42");
}

#[test]
fn text_round_trip() {
    let e = Entry { w0: 7, w1: 0xFFFFFFFF, w2: 3, w3: 0, w4: 0x500, count: 123456789 };
    let text = e.to_string();
    assert_eq!(Entry::from_str(&text), Ok(e));
}

#[test]
fn binary_layout_little_endian() {
    let e = Entry { w0: 0, w1: 0, w2: 0, w3: 0, w4: 1, count: 0x01020304 };
    let bytes = e.to_le_bytes();
    let mut expected = [0u8; 24];
    expected[16] = 1;
    expected[20] = 4;
    expected[21] = 3;
    expected[22] = 2;
    expected[23] = 1;
    assert_eq!(bytes, expected);
}

#[test]
fn binary_round_trip() {
    let e = Entry { w0: 0xAABBCCDD, w1: 1, w2: 2, w3: 3, w4: 4, count: u32::MAX };
    let bytes = e.to_le_bytes();
    assert_eq!(Entry::from_le_bytes(&bytes), e);
}

#[test]
fn compare_orders_by_key_only() {
    let a = Entry { w0: 0, w1: 0, w2: 0, w3: 0, w4: 1, count: 99 };
    let b = Entry { w0: 0, w1: 0, w2: 0, w3: 0, w4: 2, count: 1 };
    let c = Entry { w0: 0, w1: 0, w2: 0, w3: 0, w4: 1, count: 1 };
    assert_eq!(a.compare(&b), std::cmp::Ordering::Less);
    assert_eq!(b.compare(&a), std::cmp::Ordering::Greater);
    assert_eq!(a.compare(&c), std::cmp::Ordering::Equal);
    assert!(a.key_le(&b));
    assert!(!b.key_le(&a));
    assert!(a.key_le(&c));
}

#[test]
fn compare_most_significant_word_first() {
    let a = Entry { w0: 1, w1: 0, w2: 0, w3: 0, w4: 0, count: 0 };
    let b = Entry { w0: 0, w1: u32::MAX, w2: u32::MAX, w3: u32::MAX, w4: u32::MAX, count: 0 };
    assert_eq!(b.compare(&a), std::cmp::Ordering::Less);
}

#[test]
fn run_codec_round_trip() {
    let es = vec![
        Entry { w0: 5, w1: 0, w2: 0, w3: 0, w4: 0, count: 1 },
        Entry { w0: 0, w1: 0, w2: 0, w3: 0, w4: 9, count: 2 },
    ];
    let bytes = extsort::codec::encode_run(&es);
    assert_eq!(bytes.len(), 48);
    assert_eq!(extsort::codec::decode_run(&bytes), Ok(es));
}

#[test]
fn decode_run_rejects_partial_record() {
    let e = Entry { w0: 0, w1: 0, w2: 0, w3: 0, w4: 0, count: 0 };
    let mut bytes = extsort::codec::encode_run(&vec![e]);
    bytes.pop();
    assert_eq!(extsort::codec::decode_run(&bytes), Err(Error::MalformedRecord));
}

#[test]
fn decode_run_empty_is_empty() {
    assert_eq!(extsort::codec::decode_run(&Vec::new()), Ok(Vec::new()));
}

#[test]
fn encode_text_run_lines() {
    let es = vec![
        Entry { w0: 0, w1: 0, w2: 0, w3: 0, w4: 1, count: 5 },
        Entry { w0: 0, w1: 0, w2: 0, w3: 0, w4: 3, count: 9 },
    ];
    let bytes = extsort::codec::encode_text_run(&es);
    let text = String::from_utf8(bytes).unwrap();
    let expected = format!("{}:5\n{}:9\n", key_tail('1'), key_tail('3'));
    assert_eq!(text, expected);
}

#[test]
fn error_kinds_are_distinct() {
    assert_ne!(Error::MalformedRecord, Error::IoFailure);
    assert_ne!(Error::IoFailure, Error::ResourceExhaustion);
    assert_ne!(Error::MalformedRecord, Error::ResourceExhaustion);
}
