use libbittorrent::error::Error;
use libbittorrent::value::Benc;
use libbittorrent::value::Benc as B;

fn bytes(s: &str) -> Vec<u8> {
    s.as_bytes().to_vec()
}

fn decode_one(data: &[u8]) -> Benc {
    let mut values = Benc::new(data).expect("decodes");
    assert_eq!(values.len(), 1);
    values.remove(0)
}

fn is_malformed(data: &[u8]) -> bool {
    matches!(Benc::new(data), Err(Error::Other(_)))
}

#[test]
fn round_trip_nested_value() {
    let v = B::Dict(vec![
        (bytes("a"), B::List(vec![B::Int(i64::MIN), B::Int(0), B::Int(i64::MAX)])),
        (bytes("b"), B::String(vec![0, 255, b'e', b':'])),
        (
            bytes("c"),
            B::Dict(vec![(bytes("x"), B::List(vec![])), (bytes("y"), B::Dict(vec![]))]),
        ),
    ]);
    let encoded = v.encode();
    assert_eq!(Benc::new(&encoded).ok(), Some(vec![v]));
}

#[test]
fn round_trip_with_null_terminator() {
    let v = B::List(vec![B::String(bytes("spam")), B::Int(-7)]);
    let mut encoded = v.encode();
    encoded.push(0);
    encoded.extend_from_slice(b"ignored garbage");
    assert_eq!(Benc::new(&encoded).ok(), Some(vec![v]));
}

#[test]
fn canonical_integers() {
    assert_eq!(decode_one(b"i0e"), B::Int(0));
    assert_eq!(decode_one(b"i-5e"), B::Int(-5));
    assert!(is_malformed(b"i00e"));
    assert!(is_malformed(b"i05e"));
    assert!(is_malformed(b"i-0e"));
    assert!(is_malformed(b"ie"));
    assert!(is_malformed(b"i-e"));
    assert!(is_malformed(b"i1x2e"));
    assert!(is_malformed(b"i12"));
}

#[test]
fn canonical_strings() {
    assert_eq!(decode_one(b"5:hello"), B::String(bytes("hello")));
    assert!(is_malformed(b"6:hello"));
    assert!(is_malformed(b"0:"));
    assert!(is_malformed(b"5hello"));
    assert!(is_malformed(b"5"));
    assert!(is_malformed(b"99999999999999999999999:x"));
}

#[test]
fn string_length_may_have_leading_zero() {
    assert_eq!(decode_one(b"05:hello"), B::String(bytes("hello")));
}

#[test]
fn dictionary_ordering() {
    assert_eq!(decode_one(b"d2:hi5:helloe"), B::Dict(vec![(bytes("hi"), B::String(bytes("hello")))]));
    assert!(is_malformed(b"d1:bi1e1:ai2ee"));
    assert!(is_malformed(b"d1:ai1e1:ai2ee"));
    assert!(is_malformed(b"di1ei2ee"));
    assert!(is_malformed(b"d1:ae"));
    assert!(is_malformed(b"d1:ai1e"));
}

#[test]
fn dictionary_encodes_keys_in_order() {
    let v = B::Dict(vec![(bytes("b"), B::Int(1)), (bytes("a"), B::Int(2))]);
    assert_eq!(v.encode(), bytes("d1:ai2e1:bi1ee"));
    let w = B::Dict(vec![(bytes("a"), B::Int(2)), (bytes("b"), B::Int(1))]);
    assert_eq!(w.encode(), bytes("d1:ai2e1:bi1ee"));
}

#[test]
fn dictionary_encoding_orders_by_raw_bytes() {
    let v = B::Dict(vec![
        (vec![0x80], B::Int(3)),
        (bytes("ab"), B::Int(2)),
        (bytes("a"), B::Int(1)),
        (bytes("B"), B::Int(0)),
    ]);
    let mut expect = bytes("d1:Bi0e1:ai1e2:abi2e1:");
    expect.push(0x80);
    expect.extend_from_slice(b"i3ee");
    assert_eq!(v.encode(), expect);
}

#[test]
fn nesting() {
    assert_eq!(decode_one(b"l5:helloi42ee"), B::List(vec![B::String(bytes("hello")), B::Int(42)]));
    assert!(is_malformed(b"l5:helloi42e"));
    assert!(is_malformed(b"l"));
    assert!(is_malformed(b"ll"));
    assert!(is_malformed(b"l\0e"));
}

#[test]
fn integer_overflow() {
    assert_eq!(decode_one(b"i9223372036854775807e"), B::Int(i64::MAX));
    assert_eq!(decode_one(b"i-9223372036854775808e"), B::Int(i64::MIN));
    assert!(is_malformed(b"i9223372036854775808e"));
    assert!(is_malformed(b"i-9223372036854775809e"));
    assert!(is_malformed(b"i18446744073709551616e"));
}

#[test]
fn end_to_end_document_as_written_is_malformed() {
    // `13:` claims one byte more than `http://x.com` has, and one `e` too many closes it
    assert!(is_malformed(b"d8:announce13:http://x.com4:infod6:lengthi10e4:name4:fileeee"));
    assert!(is_malformed(b"d8:announce12:http://x.com4:infod6:lengthi10e4:name4:fileeee"));
}

#[test]
fn end_to_end_document() {
    let data = b"d8:announce12:http://x.com4:infod6:lengthi10e4:name4:fileee";
    let expect = B::Dict(vec![
        (bytes("announce"), B::String(bytes("http://x.com"))),
        (
            bytes("info"),
            B::Dict(vec![
                (bytes("length"), B::Int(10)),
                (bytes("name"), B::String(bytes("file"))),
            ]),
        ),
    ]);
    assert_eq!(decode_one(data), expect);
}

#[test]
fn empty_input_gives_no_values() {
    assert_eq!(Benc::new(b"").ok(), Some(vec![]));
    assert_eq!(Benc::new(b"\0i1e").ok(), Some(vec![]));
}

#[test]
fn several_top_level_values() {
    assert_eq!(
        Benc::new(b"i1e3:abcle").ok(),
        Some(vec![B::Int(1), B::String(bytes("abc")), B::List(vec![])])
    );
}

#[test]
fn malformed_top_level_byte() {
    assert!(is_malformed(b"x"));
    assert!(is_malformed(b"e"));
    assert!(is_malformed(b"i1ee"));
}

#[test]
fn encode_exact_bytes() {
    assert_eq!(B::String(bytes("spam")).encode(), bytes("4:spam"));
    assert_eq!(B::String(vec![]).encode(), bytes("0:"));
    assert_eq!(B::Int(0).encode(), bytes("i0e"));
    assert_eq!(B::Int(-42).encode(), bytes("i-42e"));
    assert_eq!(B::Int(i64::MIN).encode(), bytes("i-9223372036854775808e"));
    assert_eq!(B::List(vec![B::Int(1), B::String(bytes("a"))]).encode(), bytes("li1e1:ae"));
    assert_eq!(B::Dict(vec![]).encode(), bytes("de"));
    let long = vec![b'x'; 12];
    let mut expect = bytes("12:");
    expect.extend_from_slice(&long);
    assert_eq!(B::String(long).encode(), expect);
}

#[test]
fn dictionaries_compare_as_mappings() {
    let a = B::Dict(vec![(bytes("a"), B::Int(1)), (bytes("b"), B::List(vec![B::Int(2)]))]);
    let b = B::Dict(vec![(bytes("b"), B::List(vec![B::Int(2)])), (bytes("a"), B::Int(1))]);
    assert_eq!(a, b);
    let c = B::Dict(vec![(bytes("a"), B::Int(1)), (bytes("b"), B::List(vec![B::Int(3)]))]);
    assert_ne!(a, c);
    assert_ne!(B::Int(1), B::String(bytes("1")));
    assert_ne!(B::List(vec![B::Int(1), B::Int(2)]), B::List(vec![B::Int(2), B::Int(1)]));
    assert_ne!(B::String(bytes("ab")), B::String(bytes("ba")));
}

#[test]
fn errors_from_parts() {
    assert!(matches!(Error::from(b'e'), Error::Delim(b'e')));
    assert!(matches!(Error::from("bad"), Error::Other("bad")));
    let io = std::io::Error::new(std::io::ErrorKind::UnexpectedEof, "short read");
    match Error::from(io) {
        Error::Io(e) => assert_eq!(e.kind(), std::io::ErrorKind::UnexpectedEof),
        other => panic!("{:?}", other),
    }
}

#[test]
fn values_from_parts() {
    assert_eq!(Benc::from_text("spam"), B::String(bytes("spam")));
    assert_eq!(Benc::from_text("あ"), B::String(vec![0xe3, 0x81, 0x82]));
    assert_eq!(Benc::from(bytes("xy")), B::String(bytes("xy")));
    assert_eq!(Benc::from(-3i64), B::Int(-3));
    assert_eq!(Benc::from(vec![B::Int(1)]), B::List(vec![B::Int(1)]));
    assert_eq!(
        Benc::from(vec![(bytes("k"), B::Int(1))]),
        B::Dict(vec![(bytes("k"), B::Int(1))])
    );
}
