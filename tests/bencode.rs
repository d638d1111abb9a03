use libbittorrent::decode::bytes_less;
use libbittorrent::grammar::NodeType;
use libbittorrent::value::Benc;
use libbittorrent::value::Benc as B;

fn bytes(s: &str) -> Vec<u8> {
    s.as_bytes().to_vec()
}

fn entry(k: &str, v: Benc) -> (Vec<u8>, Benc) {
    (bytes(k), v)
}

fn mock_document(name: &str) -> Vec<Benc> {
    vec![B::Dict(vec![
        entry("announce", B::String(bytes("http://tracker.example.com:8080/announce"))),
        entry("comment", B::String(bytes("\"Hello mock data\""))),
        entry("creation date", B::Int(1234567890)),
        entry(
            "httpseeds",
            B::List(vec![
                B::String(bytes("http://direct.example.com/mock1")),
                B::String(bytes("http://direct.example.com/mock2")),
            ]),
        ),
        entry(
            "info",
            B::Dict(vec![
                entry("length", B::Int(562949953421312)),
                entry("name", B::String(bytes(name))),
                entry("piece length", B::Int(536870912)),
            ]),
        ),
    ])]
}

#[test]
fn type_of() {
    for c in b'0'..b'9' + 1 {
        assert_eq!(Some(NodeType::String), NodeType::type_of(c))
    }

    for c in vec![(b'i', NodeType::Int), (b'l', NodeType::List), (b'd', NodeType::Dict)] {
        assert_eq!(Some(c.1), NodeType::type_of(c.0))
    }

    for c in vec![b'e', b':', b'-', b'a', b'D', 0u8, 255u8] {
        assert_eq!(None, NodeType::type_of(c))
    }
}

#[test]
fn bencode_new() {
    let data = [
        "d8:announce40:http://tracker.example.com:8080/announce7:comment17:\"Hello mock data",
        "\"13:creation datei1234567890e9:httpseedsl31:http://direct.example.com/mock131:http",
        "://direct.example.com/mock2e4:infod6:lengthi562949953421312e4:name15:あいえおう12:p",
        "iece lengthi536870912eee"
    ].concat();

    let expect = mock_document("あいえおう");
    let result = Benc::new(data.as_bytes());

    assert!(result.as_ref().ok() == Some(&expect), "{:?} == {:?}", result, expect);
}

#[test]
fn test_bencode_build_tree() {
    let data = [
        "d8:announce40:http://tracker.example.com:8080/ann",
        "ounce7:comment17:\"Hello mock data\"13:creation datei1234567890e",
        "9:httpseedsl31:http://direct.example.com/mock131:http://direct.e",
        "xample.com/mock2e4:infod6:lengthi562949953421312e4:name15:あいえ",
        "おう12:piece lengthi536870912eee"
    ].concat();

    let expect = mock_document("あいえおう");
    let result = Benc::new(data.as_bytes());

    assert!(result.as_ref().ok() == Some(&expect), "{:?} == {:?}", result, expect);
}

#[test]
fn string() {
    fn is_valid(data: &str, first: u8) {
        let expect = data.splitn(2, |b| b == ':').nth(1).unwrap();
        let result = Benc::string(data.as_bytes(), first);
        assert!(result.as_ref().ok() == Some(&bytes(expect)), "{:?} == {:?}", result, expect);
    }

    fn is_invalid(data: &str, first: u8) {
        let result = Benc::string(data.as_bytes(), first);
        assert!(result.is_err(), "{:?} is an error", result);
    }

    is_valid(":yahallo", b'7');
    is_valid("5:こんにちわ", b'1'); // bytes, not chars
    is_valid(":\"hello\"", b'7');
    is_valid("1:hellohello1", b'1');
    is_valid("2:hi", b'0');

    is_invalid(":hello", b'6');
    is_invalid("5:hallo", b'a');
    is_invalid("", b'a');
    is_invalid("8446744073709551616:overflow", b'1') // u64::MAX + 1
}

#[test]
fn integer() {
    fn is_valid(expect: i64) {
        let data = format!("{}e", expect);
        let result = Benc::integer(data.as_bytes());
        assert!(result.as_ref().ok() == Some(&expect), "{:?} == {:?}", result, expect);
    }

    fn is_invalid(data: &str) {
        let result = Benc::integer(data.as_bytes());
        assert!(result.is_err(), "{:?} is an error", result);
    }

    is_valid(2 << 48);
    is_valid(-2 << 48);
    is_valid(0);
    is_valid(i64::MAX);

    is_invalid("e");
    is_invalid("-0e");
    is_invalid("00e");
    is_invalid("05e");
    is_invalid(&format!("{}e", u64::MAX));
}

#[test]
fn list() {
    let result = Benc::list(b"5:helloi42ee");
    let expect = vec![B::String(bytes("hello")), B::Int(42)];
    assert!(result.as_ref().ok() == Some(&expect), "{:?} == {:?}", result, expect);

    let result = Benc::list(
        b"5:helloi42eli2ei3e2:hid4:listli1ei2ei3ee7:yahallo2::)eed2:hi5:hello3:inti15eee",
    );
    let expect = vec![
        B::String(bytes("hello")),
        B::Int(42),
        B::List(vec![
            B::Int(2),
            B::Int(3),
            B::String(bytes("hi")),
            B::Dict(vec![
                entry("list", B::List(vec![B::Int(1), B::Int(2), B::Int(3)])),
                entry("yahallo", B::String(bytes(":)"))),
            ]),
        ]),
        B::Dict(vec![entry("hi", B::String(bytes("hello"))), entry("int", B::Int(15))]),
    ];
    assert!(result.as_ref().ok() == Some(&expect), "{:?} == {:?}", result, expect);

    let result = Benc::list(b"5:helloi4e");
    assert!(result.is_err(), "{:?} is an error", result);
}

#[test]
fn dict() {
    let result = Benc::dict(b"2:hi5:helloe");
    let expect = vec![entry("hi", B::String(bytes("hello")))];
    assert!(result.as_ref().ok() == Some(&expect), "{:?} == {:?}", result, expect);

    let result = Benc::dict(
        [
            "10:dictionaryd2:hi5:hello3:inti15ee7:integeri42e4:listli2ei3e2:hid4:listli1ei2e",
            "i3ee7:yahallo2::)ee3:str5:helloe"
        ].concat()
        .as_bytes(),
    );
    let expect = vec![
        entry(
            "dictionary",
            B::Dict(vec![entry("hi", B::String(bytes("hello"))), entry("int", B::Int(15))]),
        ),
        entry("integer", B::Int(42)),
        entry(
            "list",
            B::List(vec![
                B::Int(2),
                B::Int(3),
                B::String(bytes("hi")),
                B::Dict(vec![
                    entry("list", B::List(vec![B::Int(1), B::Int(2), B::Int(3)])),
                    entry("yahallo", B::String(bytes(":)"))),
                ]),
            ]),
        ),
        entry("str", B::String(bytes("hello"))),
    ];
    assert!(result.as_ref().ok() == Some(&expect), "{:?} == {:?}", result, expect);

    let result = Benc::dict(b"2:hi5:hello1:ai32ee");
    assert!(result.is_err(), "{:?} is an error", result);
}

#[test]
fn byte_order_of_keys() {
    assert!(bytes_less(&bytes("a"), &bytes("b")));
    assert!(bytes_less(&bytes("ab"), &bytes("b")));
    assert!(bytes_less(&bytes("a"), &bytes("ab")));
    assert!(bytes_less(&vec![], &bytes("a")));
    assert!(!bytes_less(&bytes("b"), &bytes("a")));
    assert!(!bytes_less(&bytes("ab"), &bytes("a")));
    assert!(!bytes_less(&bytes("a"), &bytes("a")));
    assert!(bytes_less(&vec![0x7f], &vec![0x80]));
}
