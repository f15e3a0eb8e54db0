use torrent_rs::bencode::encode::{compare_keys, encode, KeyOrder};
use torrent_rs::bencode::{Bencode, BencodeType};
use torrent_rs::sha1::sha1;

fn text(s: &str) -> BencodeType {
    BencodeType::Str(s.as_bytes().to_vec())
}

fn entry(key: &str, value: BencodeType) -> (Vec<u8>, BencodeType) {
    (key.as_bytes().to_vec(), value)
}

fn round_trip(input: &[u8]) -> Vec<u8> {
    encode(&Bencode::from_u8(input).unwrap().node)
}

#[test]
fn encode_integers() {
    assert_eq!(encode(&BencodeType::Int(42)), b"i42e");
    assert_eq!(encode(&BencodeType::Int(0)), b"i0e");
    assert_eq!(encode(&BencodeType::Int(-7)), b"i-7e");
    assert_eq!(encode(&BencodeType::Int(10)), b"i10e");
    assert_eq!(encode(&BencodeType::Int(i64::MAX)), b"i9223372036854775807e");
    assert_eq!(encode(&BencodeType::Int(i64::MIN)), b"i-9223372036854775808e");
}

#[test]
fn encode_byte_strings() {
    assert_eq!(encode(&text("spam1spam1")), b"10:spam1spam1");
    assert_eq!(encode(&text("")), b"0:");
    assert_eq!(encode(&BencodeType::Str(vec![0xff, 0x00])), vec![b'2', b':', 0xff, 0x00]);
    assert_eq!(encode(&BencodeType::Str(vec![b'x'; 100]))[..4], b"100:"[..]);
}

#[test]
fn encode_lists_in_order() {
    let v = BencodeType::List(vec![BencodeType::Int(42), BencodeType::Int(15), text("abcde")]);
    assert_eq!(encode(&v), b"li42ei15e5:abcdee");
    assert_eq!(encode(&BencodeType::List(vec![])), b"le");
}

#[test]
fn encode_sorts_keys() {
    let v = BencodeType::Dict(vec![
        entry("foo", BencodeType::Int(42)),
        entry("bar", text("spam")),
    ]);
    assert_eq!(encode(&v), b"d3:bar4:spam3:fooi42ee");
    assert_eq!(encode(&BencodeType::Dict(vec![])), b"de");
}

#[test]
fn encode_sorts_by_raw_bytes() {
    let v = BencodeType::Dict(vec![
        (vec![0xff], BencodeType::Int(1)),
        (b"b".to_vec(), BencodeType::Int(2)),
        (b"ab".to_vec(), BencodeType::Int(3)),
        (b"a".to_vec(), BencodeType::Int(4)),
        (b"".to_vec(), BencodeType::Int(5)),
        (b"B".to_vec(), BencodeType::Int(6)),
    ]);
    let mut expected = b"d0:i5e1:Bi6e1:ai4e2:abi3e1:bi2e1:".to_vec();
    expected.push(0xff);
    expected.extend_from_slice(b"i1ee");
    assert_eq!(encode(&v), expected);
}

#[test]
fn encode_keeps_the_last_of_repeated_keys() {
    let v = BencodeType::Dict(vec![
        entry("a", BencodeType::Int(1)),
        entry("b", BencodeType::Int(2)),
        entry("a", BencodeType::Int(3)),
    ]);
    assert_eq!(encode(&v), b"d1:ai3e1:bi2ee");
}

#[test]
fn encode_sorts_nested_dictionaries() {
    let inner = BencodeType::Dict(vec![entry("z", BencodeType::Int(1)), entry("y", BencodeType::Int(2))]);
    let v = BencodeType::List(vec![BencodeType::Dict(vec![entry("k", inner)])]);
    assert_eq!(encode(&v), b"ld1:kd1:yi2e1:zi1eeee");
}

#[test]
fn same_content_in_another_order_has_the_same_text_and_digest() {
    let one = BencodeType::Dict(vec![entry("a", BencodeType::Int(1)), entry("b", text("x"))]);
    let other = BencodeType::Dict(vec![entry("b", text("x")), entry("a", BencodeType::Int(1))]);
    assert_eq!(encode(&one), encode(&other));
    assert_eq!(sha1(&encode(&one)), sha1(&encode(&other)));
}

#[test]
fn decode_then_encode_gives_canonical_input_back() {
    let inputs: [&[u8]; 9] = [
        b"i42e",
        b"i-9223372036854775808e",
        b"10:spam1spam1",
        b"0:",
        b"li42ei15e5:abcdee",
        b"d3:bar4:spam3:fooi42ee",
        b"d1:ad1:ai25eee",
        b"lli5eel1:bi1eee",
        b"d8:announce46:http://torrent.fedoraproject.org:6969/announce13:creation datei1681726664e4:infod5:filesld6:lengthi1967298560e4:pathl36:Fedora-Budgie-Live-x86_64-38-1.6.isoeed6:lengthi2562e4:pathl35:Fedora-Spins-38-1.6-x86_64-CHECKSUMeee4:name28:Fedora-Budgie-Live-x86_64-3812:piece lengthi262144eee",
    ];
    for input in inputs {
        let b = Bencode::from_u8(input).unwrap();
        assert_eq!(b.len, input.len());
        assert_eq!(encode(&b.node), input);
        assert_eq!(encode(&b.node), b.slice);
    }
}

#[test]
fn decode_then_encode_takes_the_span_only() {
    let b = Bencode::from_u8(b"d1:ai1eetrailing").unwrap();
    assert_eq!(encode(&b.node), b"d1:ai1ee");
    assert_eq!(encode(&b.node), b.slice);
}

#[test]
fn decode_then_encode_sorts_other_input() {
    assert_eq!(round_trip(b"d3:fooi42e3:bar4:spame"), b"d3:bar4:spam3:fooi42ee");
    assert_eq!(round_trip(b"d1:bi1e1:ai2e1:bi3ee"), b"d1:ai2e1:bi3ee");
    // and what comes out is a fixed point
    let once = round_trip(b"d1:cd1:zi1e1:yi2ee1:ai0ee");
    assert_eq!(once, b"d1:ai0e1:cd1:yi2e1:zi1eee");
    assert_eq!(round_trip(&once), once);
}

#[test]
fn encode_then_decode_gives_the_content_back() {
    let v = BencodeType::Dict(vec![
        entry("list", BencodeType::List(vec![BencodeType::Int(-3), text("")])),
        entry("int", BencodeType::Int(i64::MIN)),
        entry("dict", BencodeType::Dict(vec![entry("k", text("v"))])),
        entry("int", BencodeType::Int(5)),
    ]);
    let bytes = encode(&v);
    let back = Bencode::from_u8(&bytes).unwrap();
    assert_eq!(back.len, bytes.len());
    assert!(matches!(back.node.get(b"int"), Some(BencodeType::Int(5))));
    assert!(matches!(back.node.get(b"dict").unwrap().get(b"k"), Some(BencodeType::Str(s)) if s == b"v"));
    match back.node.get(b"list") {
        Some(BencodeType::List(items)) => {
            assert!(matches!(items[0], BencodeType::Int(-3)));
            assert!(matches!(items[1], BencodeType::Str(ref s) if s.is_empty()));
        }
        _ => panic!("no list"),
    }
    match back.node {
        BencodeType::Dict(ref entries) => {
            let keys: Vec<&[u8]> = entries.iter().map(|e| e.0.as_slice()).collect();
            assert_eq!(keys, vec![&b"dict"[..], &b"int"[..], &b"list"[..]]);
        }
        _ => panic!("not a dictionary"),
    }
    assert_eq!(encode(&back.node), bytes);
}

#[test]
fn encode_then_decode_respects_the_depth_limit() {
    let v = BencodeType::List(vec![BencodeType::List(vec![BencodeType::List(vec![])])]);
    let bytes = encode(&v);
    assert!(Bencode::from_u8_with_depth(&bytes, 3).is_ok());
    assert!(Bencode::from_u8_with_depth(&bytes, 2).is_err());
}

#[test]
fn key_order() {
    assert_eq!(compare_keys(b"", b""), KeyOrder::Equal);
    assert_eq!(compare_keys(b"", b"a"), KeyOrder::Less);
    assert_eq!(compare_keys(b"a", b""), KeyOrder::Greater);
    assert_eq!(compare_keys(b"abc", b"abc"), KeyOrder::Equal);
    assert_eq!(compare_keys(b"ab", b"abc"), KeyOrder::Less);
    assert_eq!(compare_keys(b"abd", b"abc"), KeyOrder::Greater);
    assert_eq!(compare_keys(b"Z", b"a"), KeyOrder::Less);
    assert_eq!(compare_keys(&[0x7f], &[0x80]), KeyOrder::Less);
    assert_eq!(compare_keys(&[0xff], b"zzzz"), KeyOrder::Greater);
}

#[test]
fn canonical_values() {
    assert!(BencodeType::Int(1).is_canonical());
    assert!(text("x").is_canonical());
    assert!(BencodeType::List(vec![]).is_canonical());
    assert!(BencodeType::Dict(vec![]).is_canonical());
    assert!(Bencode::from_u8(b"d3:bar4:spam3:fooi42ee").unwrap().node.is_canonical());
    assert!(!Bencode::from_u8(b"d3:fooi42e3:bar4:spame").unwrap().node.is_canonical());
    assert!(!Bencode::from_u8(b"d1:ai1e1:ai2ee").unwrap().node.is_canonical());
    assert!(!Bencode::from_u8(b"ld1:bi1e1:ai2eee").unwrap().node.is_canonical());
    assert!(!Bencode::from_u8(b"d1:ad1:bi1e1:ai2eee").unwrap().node.is_canonical());
    assert!(Bencode::from_u8(b"d1:ad1:ai1e1:bi2eee").unwrap().node.is_canonical());
    assert!(Bencode::from_u8(b"d1:ai1e2:aai2e1:bi3ee").unwrap().node.is_canonical());
}

#[test]
fn canonical_input_is_what_encode_gives_back() {
    let inputs: [&[u8]; 4] = [
        b"d1:bi1e1:ai2ee",
        b"d1:ai1e1:bi2ee",
        b"ld1:bi1e1:bi2eee",
        b"d1:ald1:ai1eeee",
    ];
    for input in inputs {
        let b = Bencode::from_u8(input).unwrap();
        assert_eq!(b.node.is_canonical(), encode(&b.node) == input);
    }
}
