use torrent_rs::bencode::cursor::Cursor;
use torrent_rs::bencode::{Bencode, BencodeError, BencodeType, ErrorKind, Span, SpanTree};
use torrent_rs::sha1::sha1;

fn kind_of(input: &[u8]) -> ErrorKind {
    Bencode::from_u8(input).unwrap_err().kind
}

fn int_of(input: &[u8]) -> i64 {
    match Bencode::from_u8(input).unwrap().node {
        BencodeType::Int(i) => i,
        _ => panic!("not an integer"),
    }
}

#[test]
fn empty_input_is_unexpected_end() {
    assert_eq!(kind_of(b""), ErrorKind::UnexpectedEnd);
}

#[test]
fn unterminated_integer_fails() {
    assert_eq!(kind_of(b"i42"), ErrorKind::MissingDelimiter);
    assert_eq!(kind_of(b"i"), ErrorKind::MissingDelimiter);
}

#[test]
fn length_past_the_end_fails() {
    assert_eq!(kind_of(b"10:abc"), ErrorKind::UnexpectedEnd);
    assert_eq!(kind_of(b"1:"), ErrorKind::UnexpectedEnd);
    assert_eq!(kind_of(b"99999999999999999999999999:a"), ErrorKind::UnexpectedEnd);
}

#[test]
fn non_string_key_fails() {
    assert_eq!(kind_of(b"di1ei2ee"), ErrorKind::InvalidDictionaryKey);
    assert_eq!(kind_of(b"dlei2ee"), ErrorKind::InvalidDictionaryKey);
}

#[test]
fn nesting_beyond_the_limit_fails() {
    assert_eq!(
        Bencode::from_u8_with_depth(b"llleee", 2).unwrap_err().kind,
        ErrorKind::NestingTooDeep
    );
    assert!(Bencode::from_u8_with_depth(b"llleee", 3).is_ok());
    assert_eq!(
        Bencode::from_u8_with_depth(b"le", 0).unwrap_err().kind,
        ErrorKind::NestingTooDeep
    );
    assert_eq!(
        Bencode::from_u8_with_depth(b"d1:adee", 1).unwrap_err().kind,
        ErrorKind::NestingTooDeep
    );
    assert!(Bencode::from_u8_with_depth(b"i1e", 0).is_ok());
}

#[test]
fn default_limit_is_512() {
    let mut deep = vec![b'l'; 512];
    deep.extend(vec![b'e'; 512]);
    assert_eq!(Bencode::from_u8(&deep).unwrap().len, 1024);

    let mut deeper = vec![b'l'; 513];
    deeper.extend(vec![b'e'; 513]);
    assert_eq!(kind_of(&deeper), ErrorKind::NestingTooDeep);
}

#[test]
fn invalid_lead_byte() {
    assert_eq!(kind_of(b"x"), ErrorKind::InvalidLeadByte);
    assert_eq!(kind_of(b"e"), ErrorKind::InvalidLeadByte);
    assert_eq!(kind_of(b"-1"), ErrorKind::InvalidLeadByte);
    assert_eq!(kind_of(b" i1e"), ErrorKind::InvalidLeadByte);
    assert_eq!(kind_of(b"lxe"), ErrorKind::InvalidLeadByte);
    assert_eq!(kind_of(b"d1:ae"), ErrorKind::InvalidLeadByte);
}

#[test]
fn invalid_integers() {
    assert_eq!(kind_of(b"ie"), ErrorKind::InvalidInteger);
    assert_eq!(kind_of(b"i-e"), ErrorKind::InvalidInteger);
    assert_eq!(kind_of(b"i-0e"), ErrorKind::InvalidInteger);
    assert_eq!(kind_of(b"i00e"), ErrorKind::InvalidInteger);
    assert_eq!(kind_of(b"i042e"), ErrorKind::InvalidInteger);
    assert_eq!(kind_of(b"i-042e"), ErrorKind::InvalidInteger);
    assert_eq!(kind_of(b"i4 2e"), ErrorKind::InvalidInteger);
    assert_eq!(kind_of(b"i+42e"), ErrorKind::InvalidInteger);
    assert_eq!(kind_of(b"i--1e"), ErrorKind::InvalidInteger);
}

#[test]
fn integers_at_the_edges_of_64_bits() {
    assert_eq!(int_of(b"i0e"), 0);
    assert_eq!(int_of(b"i-1e"), -1);
    assert_eq!(int_of(b"i9223372036854775807e"), i64::MAX);
    assert_eq!(int_of(b"i-9223372036854775808e"), i64::MIN);
    assert_eq!(int_of(b"i1967298560e"), 1967298560);
    assert_eq!(int_of(b"i4294967296e"), 4294967296);
    assert_eq!(kind_of(b"i9223372036854775808e"), ErrorKind::IntegerOverflow);
    assert_eq!(kind_of(b"i-9223372036854775809e"), ErrorKind::IntegerOverflow);
    assert_eq!(
        kind_of(b"i123456789012345678901234567890e"),
        ErrorKind::IntegerOverflow
    );
}

#[test]
fn length_prefixes() {
    let b = Bencode::from_u8(b"0:").unwrap();
    assert!(matches!(b.node, BencodeType::Str(ref s) if s.is_empty()));
    assert_eq!(b.len, 2);
    assert_eq!(kind_of(b"03:abc"), ErrorKind::InvalidLengthPrefix);
    assert_eq!(kind_of(b"00:"), ErrorKind::InvalidLengthPrefix);
    assert_eq!(kind_of(b"1a:b"), ErrorKind::InvalidLengthPrefix);
    assert_eq!(kind_of(b"3abc"), ErrorKind::MissingDelimiter);
    assert_eq!(kind_of(b"12"), ErrorKind::MissingDelimiter);
}

#[test]
fn byte_strings_need_not_be_text() {
    let b = Bencode::from_u8(&[b'3', b':', 0xff, 0x00, 0x80]).unwrap();
    assert!(matches!(b.node, BencodeType::Str(ref s) if s == &vec![0xff, 0x00, 0x80]));
}

#[test]
fn unclosed_containers() {
    assert_eq!(kind_of(b"l"), ErrorKind::UnexpectedEnd);
    assert_eq!(kind_of(b"li1e"), ErrorKind::UnexpectedEnd);
    assert_eq!(kind_of(b"d"), ErrorKind::UnexpectedEnd);
    assert_eq!(kind_of(b"d1:a"), ErrorKind::UnexpectedEnd);
    assert_eq!(kind_of(b"d1:ai1e"), ErrorKind::UnexpectedEnd);
}

#[test]
fn nested_faults_come_through_unchanged() {
    assert_eq!(kind_of(b"lli42eei-0ee"), ErrorKind::InvalidInteger);
    assert_eq!(kind_of(b"d1:al5:abee"), ErrorKind::UnexpectedEnd);
    assert_eq!(kind_of(b"d1:ai99999999999999999999ee"), ErrorKind::IntegerOverflow);
}

#[test]
fn bytes_behind_the_value_are_left() {
    let b = Bencode::from_u8(b"i42eXYZ").unwrap();
    assert_eq!(b.len, 4);
    assert_eq!(b.slice, b"i42e");
}

#[test]
fn empty_containers() {
    let b = Bencode::from_u8(b"le").unwrap();
    assert!(matches!(b.node, BencodeType::List(ref l) if l.is_empty()));
    assert_eq!(b.len, 2);
    let b = Bencode::from_u8(b"de").unwrap();
    assert!(matches!(b.node, BencodeType::Dict(ref d) if d.is_empty()));
    assert_eq!(b.len, 2);
}

#[test]
fn dictionary_keeps_the_order_of_the_text() {
    let b = Bencode::from_u8(b"d3:fooi1e3:bari2ee").unwrap();
    match b.node {
        BencodeType::Dict(ref entries) => {
            assert_eq!(entries.len(), 2);
            assert_eq!(entries[0].0, b"foo".to_vec());
            assert_eq!(entries[1].0, b"bar".to_vec());
        }
        _ => panic!("not a dictionary"),
    }
}

#[test]
fn later_entry_counts_where_a_key_repeats() {
    let b = Bencode::from_u8(b"d1:ai1e1:ai2ee").unwrap();
    assert!(matches!(b.node.get(b"a"), Some(BencodeType::Int(2))));
    assert!(b.node.get(b"b").is_none());
    assert!(BencodeType::Int(1).get(b"a").is_none());
}

#[test]
fn spans_of_a_list() {
    let input = b"li42ei15e5:abcdee";
    let b = Bencode::from_u8(input).unwrap();
    assert_eq!(b.spans.span(), Span { start: 0, end: 17 });
    match b.spans {
        SpanTree::List(_, ref kids) => {
            assert_eq!(kids.len(), 3);
            assert_eq!(kids[0].span(), Span { start: 1, end: 5 });
            assert_eq!(kids[1].span(), Span { start: 5, end: 9 });
            assert_eq!(kids[2].span(), Span { start: 9, end: 16 });
            assert_eq!(&input[9..16], b"5:abcde");
        }
        _ => panic!("not a list"),
    }
}

#[test]
fn spans_of_a_dictionary() {
    let input = b"d3:bar4:spam3:fooi42ee";
    let b = Bencode::from_u8(input).unwrap();
    assert_eq!(b.spans.span(), Span { start: 0, end: 22 });
    match b.spans {
        SpanTree::Dict(_, ref kids) => {
            assert_eq!(kids.len(), 2);
            assert_eq!(kids[0].0, Span { start: 1, end: 6 });
            assert_eq!(kids[0].1.span(), Span { start: 6, end: 12 });
            assert_eq!(kids[1].0, Span { start: 12, end: 17 });
            assert_eq!(kids[1].1.span(), Span { start: 17, end: 21 });
            assert!(matches!(kids[1].1, SpanTree::Leaf(_)));
        }
        _ => panic!("not a dictionary"),
    }
}

#[test]
fn spans_of_nested_values() {
    let input = b"d1:ad1:bli1eeee";
    let b = Bencode::from_u8(input).unwrap();
    let outer = match b.spans {
        SpanTree::Dict(_, ref kids) => kids,
        _ => panic!("not a dictionary"),
    };
    assert_eq!(outer[0].1.span(), Span { start: 4, end: 14 });
    let inner = match outer[0].1 {
        SpanTree::Dict(_, ref kids) => kids,
        _ => panic!("not a dictionary"),
    };
    assert_eq!(inner[0].0, Span { start: 5, end: 8 });
    assert_eq!(inner[0].1.span(), Span { start: 8, end: 13 });
    let list = match inner[0].1 {
        SpanTree::List(_, ref kids) => kids,
        _ => panic!("not a list"),
    };
    assert_eq!(list[0].span(), Span { start: 9, end: 12 });
    assert_eq!(&input[9..12], b"i1e");
}

#[test]
fn source_of_a_key_is_hashed_as_it_stands() {
    // The keys of the inner dictionary are not in order: the identifier is
    // that of the bytes as they are, not of a sorted text.
    let input = b"d8:announce3:url4:infod4:name1:x6:lengthi7eee";
    let b = Bencode::from_u8(input).unwrap();
    let info = b.source_of(b"info").unwrap();
    assert_eq!(info, b"d4:name1:x6:lengthi7ee");
    assert_eq!(sha1(info), sha1(b"d4:name1:x6:lengthi7ee"));
    assert_eq!(b.source_of(b"announce").unwrap(), b"3:url");
    assert!(b.source_of(b"absent").is_none());
    assert!(Bencode::from_u8(b"i1e").unwrap().source_of(b"info").is_none());
}

#[test]
fn source_of_a_repeated_key_is_that_of_the_last_entry() {
    let b = Bencode::from_u8(b"d1:ai1e1:ai22ee").unwrap();
    assert_eq!(b.source_of(b"a").unwrap(), b"i22e");
}

#[test]
fn error_messages() {
    let e = Bencode::from_u8(b"i4xe").unwrap_err();
    assert_eq!(e.kind, ErrorKind::InvalidInteger);
    assert_eq!(
        e.message(),
        "the part between 'i' and 'e' should be a properly formatted integer"
    );
    assert_eq!(
        BencodeError::new(ErrorKind::InvalidLengthPrefix).message(),
        "the part before ':' should be a properly formatted integer"
    );
    assert_eq!(
        ErrorKind::NestingTooDeep.describe(),
        "lists and dictionaries are nested too deep"
    );
    let all = [
        ErrorKind::UnexpectedEnd,
        ErrorKind::InvalidLeadByte,
        ErrorKind::InvalidInteger,
        ErrorKind::IntegerOverflow,
        ErrorKind::InvalidLengthPrefix,
        ErrorKind::MissingDelimiter,
        ErrorKind::InvalidDictionaryKey,
        ErrorKind::NestingTooDeep,
    ];
    for (i, a) in all.iter().enumerate() {
        for b in all.iter().skip(i + 1) {
            assert_ne!(a.describe(), b.describe());
        }
    }
}

#[test]
fn cursor_peek_and_advance() {
    let data = b"abc";
    let mut c = Cursor::new(data);
    assert_eq!(c.position(), 0);
    assert_eq!(c.peek(), Some(b'a'));
    assert_eq!(c.position(), 0);
    assert!(c.advance(2).is_ok());
    assert_eq!(c.position(), 2);
    assert_eq!(c.peek(), Some(b'c'));
    assert_eq!(c.advance(2).unwrap_err().kind, ErrorKind::UnexpectedEnd);
    assert_eq!(c.position(), 2);
    assert!(c.advance(1).is_ok());
    assert_eq!(c.position(), 3);
    assert_eq!(c.peek(), None);
    assert!(c.advance(0).is_ok());
    assert_eq!(c.advance(usize::MAX).unwrap_err().kind, ErrorKind::UnexpectedEnd);
    assert_eq!(c.bytes(), b"abc");
}

#[test]
fn cursor_take_until() {
    let data = b"12:ab:c";
    let mut c = Cursor::new(data);
    assert_eq!(c.take_until(b':').unwrap(), (0, 2));
    assert_eq!(c.position(), 2);
    assert_eq!(c.peek(), Some(b':'));
    assert_eq!(c.take_until(b':').unwrap(), (2, 2));
    assert!(c.advance(1).is_ok());
    assert_eq!(c.take_until(b':').unwrap(), (3, 5));
    assert!(c.advance(1).is_ok());
    assert_eq!(c.take_until(b':').unwrap_err().kind, ErrorKind::MissingDelimiter);
    assert_eq!(c.position(), 6);
    assert_eq!(Cursor::new(b"").take_until(b'e').unwrap_err().kind, ErrorKind::MissingDelimiter);
}
