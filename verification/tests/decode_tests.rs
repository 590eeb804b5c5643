use bencode::{parse, BencodeError, Value};

#[test]
fn test_integer() {
    let (_, v) = Value::parse_integer(b"i3e").unwrap();
    assert!(matches!(v, Value::Integer(3)));

    let (_, v) = Value::parse_integer(b"i3e1:a").unwrap();
    assert!(matches!(v, Value::Integer(3)));

    let (_, v) = Value::parse_integer(b"i-3e").unwrap();
    assert!(matches!(v, Value::Integer(-3)));

    let (_, v) = Value::parse_integer(b"i333333e").unwrap();
    assert!(matches!(v, Value::Integer(333_333)));

    let v = Value::parse_integer(b"i-0e").unwrap_err();
    assert!(matches!(v, BencodeError::InvalidInteger));

    let v = Value::parse_integer(b"i00e").unwrap_err();
    assert!(matches!(v, BencodeError::InvalidInteger));

    let v = Value::parse_integer(b"i-00e").unwrap_err();
    assert!(matches!(v, BencodeError::InvalidInteger));

    let v = Value::parse_integer(b"i03e").unwrap_err();
    assert!(matches!(v, BencodeError::InvalidInteger));

    let v = Value::parse_integer(b"i0040e").unwrap_err();
    assert!(matches!(v, BencodeError::InvalidInteger));

    let v = Value::parse_integer(b"li3ee").unwrap_err();
    assert!(matches!(v, BencodeError::StructuralMismatch));
}

#[test]
fn test_string() {
    let (_, v) = Value::parse_bytes(b"4:abcd").unwrap();
    assert!(matches!(v, Value::Bytes(b"abcd")));

    let (_, v) = Value::parse_bytes(b"1:a").unwrap();
    assert!(matches!(v, Value::Bytes(b"a")));

    let (_, v) = Value::parse_bytes(b"1:rock").unwrap();
    assert!(matches!(v, Value::Bytes(b"r")));

    let v = Value::parse_bytes(b"0:a").unwrap_err();
    assert!(matches!(v, BencodeError::InvalidBytesLength));
}

#[test]
fn test_list() {
    let (_, v) = Value::parse_list(b"l4:spam4:eggsi22eli1ei2eee").unwrap();
    assert!(matches!(v, Value::List(_)));

    if let Value::List(list) = v {
        let mut it = list.iter();

        let x = it.next().unwrap();
        assert!(matches!(*x, Value::Bytes(b"spam")));

        let x = it.next().unwrap();
        assert!(matches!(*x, Value::Bytes(b"eggs")));

        let x = it.next().unwrap();
        assert!(matches!(*x, Value::Integer(22)));

        let x = it.next().unwrap();
        assert!(matches!(*x, Value::List(_)));

        if let Value::List(list) = x {
            let mut it = list.iter();

            let x = it.next().unwrap();
            assert!(matches!(*x, Value::Integer(1)));

            let x = it.next().unwrap();
            assert!(matches!(*x, Value::Integer(2)));
        }
    }
}

#[test]
fn test_list_empty() {
    let (_, v) = Value::parse_list(b"le").unwrap();
    assert!(matches!(v, Value::List(_)));
}

#[test]
fn test_dict() {
    let (_, v) = Value::parse_dict(b"d3:cow3:moo4:spam4:eggse").unwrap();
    assert!(matches!(v, Value::Dictionary(_)));

    let x = v.get(b"cow".as_slice()).unwrap();
    assert!(matches!(*x, Value::Bytes(b"moo")));

    let x = v.get(b"spam".as_slice()).unwrap();
    assert!(matches!(*x, Value::Bytes(b"eggs")));

    let (_, v) = Value::parse_dict(b"d4:spaml1:a1:bee").unwrap();
    assert!(matches!(v, Value::Dictionary(_)));

    let x = v.get(b"spam".as_slice()).unwrap();
    assert!(matches!(*x, Value::List(_)));
}

#[test]
fn test_parse() {
    let data = parse(b"d3:cow3:moo4:spam4:eggse").unwrap();
    let v = data.first().unwrap();
    assert!(matches!(v, Value::Dictionary(_)));

    let x = v.get(b"cow".as_slice()).unwrap();
    assert!(matches!(*x, Value::Bytes(b"moo")));

    let x = v.get(b"spam".as_slice()).unwrap();
    assert!(matches!(*x, Value::Bytes(b"eggs")));

    let (_, v) = Value::parse_dict(b"d4:spaml1:a1:bee").unwrap();
    assert!(matches!(v, Value::Dictionary(_)));

    let x = v.get(b"spam".as_slice()).unwrap();
    assert!(matches!(*x, Value::List(_)));
}

#[test]
fn test_parse_invalid_integer() {
    let data = Value::parse_integer(b"123");
    assert!(data.is_err());
}

#[test]
fn test_parse_invalid_bytes() {
    let data = Value::parse_bytes(b"123");
    assert!(data.is_err());
}

#[test]
fn test_parse_invalid_list() {
    let data = Value::parse_list(b"123");
    assert!(data.is_err());

    let data = Value::parse_list(b"l123");
    assert!(data.is_err());

    let data = Value::parse_list(b"li1e");
    assert!(data.is_err());
}

#[test]
fn test_parse_invalid_dict() {
    let data = Value::parse_dict(b"123");
    assert!(data.is_err());

    let data = Value::parse_dict(b"d123");
    assert!(data.is_err());
}

#[test]
fn test_parse_invalid_x() {
    let data = parse(b"123");
    assert!(data.is_err());
}

#[test]
fn test_parse_torrent() {
    // A torrent-shaped metadata dictionary, spelled out inline.
    let data = parse(
        b"d8:announce40:udp://tracker.leechers-paradise.org:696913:announce-listll40:udp://tracker.leechers-paradise.org:6969ee4:infod6:lengthi100e4:name3:fooee",
    )
    .unwrap();
    assert_eq!(data.len(), 1);

    let v = data.first().unwrap();
    assert!(matches!(*v, Value::Dictionary(_)));

    let info = v.get(b"info".as_slice()).unwrap();
    assert!(matches!(*info, Value::Dictionary(_)));

    let announce = v.get(b"announce".as_slice()).unwrap();
    assert!(matches!(*announce, Value::Bytes(_)));

    if let Value::Bytes(announce) = *announce {
        let announce = std::str::from_utf8(announce).unwrap();
        assert_eq!(announce, "udp://tracker.leechers-paradise.org:6969");
    }

    let announce_list = v.get(b"announce-list".as_slice()).unwrap();
    assert!(matches!(*announce_list, Value::List(_)));
}
