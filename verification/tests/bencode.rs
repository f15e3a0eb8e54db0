use torrent_rs::bencode::{Bencode, BencodeType};
use torrent_rs::sha1::sha1;

#[test]
fn test_parse_int() {
    let b = Bencode::from_u8("i42e".as_bytes()).unwrap();
    let n = b.node;
    assert!(matches!(n, BencodeType::Int(_)));
    if let BencodeType::Int(int) = n {
        assert_eq!(int, 42);
        assert_eq!(b.len, 4);
    }
}

#[test]
fn test_parse_str() {
    let b = Bencode::from_u8("10:spam1spam1".as_bytes()).unwrap();
    let n = b.node;
    assert!(matches!(n, BencodeType::Str(_)));
    if let BencodeType::Str(str) = n {
        assert_eq!(String::from_utf8(str).unwrap(), String::from("spam1spam1"));
        assert_eq!(b.len, 13);
    }
}

#[test]
fn test_parse_list() {
    let b = Bencode::from_u8("li42ei15e5:abcdee".as_bytes()).unwrap();
    let n = b.node;
    assert!(matches!(n, BencodeType::List(_)));
    assert_eq!(b.len, 17);
    let list = if let BencodeType::List(list) = n {
        list
    } else {
        panic!();
    };

    let int = if let BencodeType::Int(int) = list.first().unwrap() {
        int
    } else {
        panic!();
    };

    assert_eq!(int, &42);

    let int = if let BencodeType::Int(int) = list.get(1).unwrap() {
        int
    } else {
        panic!();
    };
    assert_eq!(int, &15);

    let str = if let BencodeType::Str(str) = list.get(2).unwrap() {
        str
    } else {
        panic!();
    };
    assert_eq!(
        String::from_utf8(str.clone()).unwrap(),
        String::from("abcde")
    );
}

#[test]
fn test_parse_dict() {
    let b = Bencode::from_u8("d3:bar4:spam3:fooi42ee".as_bytes()).unwrap();
    let n = b.node;

    assert!(matches!(n, BencodeType::Dict(_)));
    assert_eq!(b.len, 22);

    if let BencodeType::Str(str) = n.get("bar".as_bytes()).unwrap() {
        assert_eq!(
            String::from_utf8(str.clone()).unwrap(),
            String::from("spam")
        );
    } else {
        panic!()
    }

    if let BencodeType::Int(int) = n.get("foo".as_bytes()).unwrap() {
        assert_eq!(int, &42);
    } else {
        panic!()
    }
}

#[test]
fn test_parse_list_recursive() {
    let b = Bencode::from_u8("lli42ei15e5:abcdeee".as_bytes()).unwrap();
    let n = b.node;
    assert!(matches!(n, BencodeType::List(_)));
    assert_eq!(b.len, 19);
    let list = if let BencodeType::List(list) = n {
        list
    } else {
        panic!();
    };

    let _inner_list = if let BencodeType::List(list) = list.first().unwrap() {
        list
    } else {
        panic!();
    };
}

#[test]
fn test_parse_dict_recursive() {
    let b = Bencode::from_u8("d1:ad1:ai25eee".as_bytes()).unwrap();
    assert_eq!(b.len, 14);
    println!("------------------------------------------------------------------------------");
    if let BencodeType::Dict(_) = b.node {
        println!("{:?}", String::from_utf8(b.slice.to_vec()));
        let sss: String = sha1(b.slice)
            .iter()
            .map(|b| format!("{:02x}", b).to_string())
            .collect();
        println!("{:?}", sss);
    } else {
        panic!();
    };

    let _inner_dict = if let BencodeType::Dict(dict) = b.node.get("a".as_bytes()).unwrap() {
        dict
    } else {
        panic!();
    };
}

#[test]
fn test_complex_parse() {
    let _b = Bencode::from_u8(
        "d3:abcld1:ad1:al5:heheh5:hehehd5:heheh5:hehehei25ed2:abi10eeeeeee".as_bytes(),
    )
    .unwrap();
}

#[test]
fn test_from_u8_1() {
    let _b = Bencode::from_u8("lli5eel1:bi1eee".as_bytes()).unwrap();
}

#[test]
fn test_from_u8_2() {
    let _b = Bencode::from_u8("d3:abcli12ei14ee2:aa3:aaae".as_bytes()).unwrap();
}

#[test]
fn test_torrent_1() {
    let _b = Bencode::from_u8("d4:infod5:filesld4:pathl36:Fedora-Budgie-Live-x86_64-38-1.6.isoeed6:lengthi2562eee4:name28:Fedora-Budgie-Live-x86_64-38ee".as_bytes()).unwrap();
}

#[test]
fn test_torrent_2() {
    let _b = Bencode::from_u8("d8:announce46:http://torrent.fedoraproject.org:6969/announce13:creation datei1681726664e4:infod5:filesld6:lengthi1967298560e4:pathl36:Fedora-Budgie-Live-x86_64-38-1.6.isoeed6:lengthi2562e4:pathl35:Fedora-Spins-38-1.6-x86_64-CHECKSUMeee4:name28:Fedora-Budgie-Live-x86_64-3812:piece lengthi262144eee".as_bytes()).unwrap();
}
