use bencode::{parse, BencodeError, Value, MAX_DEPTH};

#[test]
fn integer_zero_is_canonical() {
    let (rest, v) = Value::parse_integer(b"i0e").unwrap();
    assert!(matches!(v, Value::Integer(0)));
    assert_eq!(rest, b"");
}

#[test]
fn integer_rejects_leading_plus() {
    let v = Value::parse_integer(b"i+3e").unwrap_err();
    assert!(matches!(v, BencodeError::InvalidInteger));
}

#[test]
fn integer_covers_the_signed_64_bit_range() {
    let (_, v) = Value::parse_integer(b"i9223372036854775807e").unwrap();
    assert!(matches!(v, Value::Integer(9223372036854775807)));

    let (_, v) = Value::parse_integer(b"i-9223372036854775808e").unwrap();
    assert!(matches!(v, Value::Integer(-9223372036854775808)));

    let v = Value::parse_integer(b"i9223372036854775808e").unwrap_err();
    assert!(matches!(v, BencodeError::InvalidInteger));

    let v = Value::parse_integer(b"i-9223372036854775809e").unwrap_err();
    assert!(matches!(v, BencodeError::InvalidInteger));

    let v = Value::parse_integer(b"i99999999999999999999999999999999e").unwrap_err();
    assert!(matches!(v, BencodeError::InvalidInteger));
}

#[test]
fn byte_string_consumes_exactly_its_declared_length() {
    let (rest, v) = Value::parse_bytes(b"1:rock").unwrap();
    assert!(matches!(v, Value::Bytes(b"r")));
    assert_eq!(rest, b"ock");

    let (rest, v) = Value::parse_bytes(b"4:abcdxyz").unwrap();
    assert!(matches!(v, Value::Bytes(b"abcd")));
    assert_eq!(rest, b"xyz");
}

#[test]
fn byte_string_rejects_lengths_past_the_end() {
    let v = Value::parse_bytes(b"5:abcd").unwrap_err();
    assert!(matches!(v, BencodeError::InvalidBytesLength));

    let v = Value::parse_bytes(b"99999999999999999999:a").unwrap_err();
    assert!(matches!(v, BencodeError::InvalidBytesLength));
}

#[test]
fn empty_input_is_an_empty_run() {
    let data = parse(b"").unwrap();
    assert!(data.is_empty());
}

#[test]
fn top_level_concatenation_parses_in_order() {
    let data = parse(b"i1e4:spamli2eed1:ai3ee").unwrap();
    assert_eq!(data.len(), 4);
    assert!(matches!(data[0], Value::Integer(1)));
    assert!(matches!(data[1], Value::Bytes(b"spam")));
    assert!(matches!(data[2], Value::List(_)));
    assert!(matches!(data[3], Value::Dictionary(_)));
}

#[test]
fn trailing_garbage_fails_the_whole_parse() {
    let v = parse(b"i1ex").unwrap_err();
    assert!(matches!(v, BencodeError::StructuralMismatch));

    let v = parse(b"i1e4:sp").unwrap_err();
    assert!(matches!(v, BencodeError::InvalidBytesLength));
}

#[test]
fn duplicate_keys_later_occurrence_wins() {
    let data = parse(b"d1:ai1e1:bi9e1:ai2ee").unwrap();
    let v = data.first().unwrap();

    let a = v.get(b"a".as_slice()).unwrap();
    assert!(matches!(*a, Value::Integer(2)));

    let b = v.get(b"b".as_slice()).unwrap();
    assert!(matches!(*b, Value::Integer(9)));
}

#[test]
fn absent_key_is_not_found() {
    let data = parse(b"d3:cow3:mooe").unwrap();
    let v = data.first().unwrap();
    assert!(v.get(b"horse".as_slice()).is_none());
    assert!(v.get(b"".as_slice()).is_none());
}

#[test]
fn lookup_on_a_non_dictionary_finds_nothing() {
    let data = parse(b"i5e").unwrap();
    let v = data.first().unwrap();
    assert!(v.get(b"a".as_slice()).is_none());
}

#[test]
fn decoding_twice_gives_structurally_equal_trees() {
    let raw = b"d3:cow3:moo4:spaml4:eggsi-7eeei42e".to_vec();
    let first = parse(&raw).unwrap();
    let second = parse(&raw).unwrap();
    assert_eq!(first, second);
}

#[test]
fn malformed_inputs_fail_without_panicking() {
    let samples: Vec<&[u8]> = vec![
        b"l", b"d", b"i", b"ie", b"i-e", b"i--1e", b"1", b"1:", b"2:a", b":", b"e", b"x",
        b"li1e", b"d3:cow", b"d3:cowe", b"dlee", b"llllll", b"i1ei", b"\xff\x00\x7f",
        b"4:ab", b"i12", b"d1:a", b"li1ell",
    ];
    for s in samples {
        assert!(parse(s).is_err());
    }
}

#[test]
fn nesting_is_bounded_by_the_depth_guard() {
    let mut deepest = Vec::new();
    for _ in 0..MAX_DEPTH {
        deepest.push(b'l');
    }
    for _ in 0..MAX_DEPTH {
        deepest.push(b'e');
    }
    let data = parse(&deepest).unwrap();
    assert_eq!(data.len(), 1);

    let mut too_deep = Vec::new();
    for _ in 0..MAX_DEPTH + 1 {
        too_deep.push(b'l');
    }
    for _ in 0..MAX_DEPTH + 1 {
        too_deep.push(b'e');
    }
    let v = parse(&too_deep).unwrap_err();
    assert!(matches!(v, BencodeError::DepthExceeded));
}

#[test]
fn unterminated_composites_are_reported_as_such() {
    let v = parse(b"li1e").unwrap_err();
    assert!(matches!(v, BencodeError::UnterminatedComposite));

    let v = parse(b"d1:ai1e").unwrap_err();
    assert!(matches!(v, BencodeError::UnterminatedComposite));
}
