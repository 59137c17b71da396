use tnetstr::{
    parse, to_bytes, DataType, Serializer, TNetData, TNetDictionary, TNetEntry, TNetFloat,
    TNetStrError,
};

fn entry(size: u32, data_type: DataType, data: TNetData) -> TNetEntry {
    TNetEntry { size, data_type, data }
}

fn bytes_entry(s: &str) -> TNetEntry {
    entry(s.len() as u32, DataType::Bytes, TNetData::Bytes(s.as_bytes().to_vec()))
}

fn text(b: Vec<u8>) -> String {
    String::from_utf8(b).unwrap()
}

#[test]
fn test_seq() {
    let mut s = Serializer::new();
    s.begin_composite();
    for v in [1u64, 2, 3, 4] {
        s.serialize_u64(v);
    }
    s.end_list().unwrap();
    assert_eq!(text(s.into_bytes()), "16:1:1#1:2#1:3#1:4#]");
}

#[test]
fn test_struct() {
    let mut s = Serializer::new();
    s.begin_composite();
    s.serialize_str("int");
    s.serialize_u64(1);
    s.serialize_str("seq");
    s.begin_composite();
    s.serialize_str("a");
    s.serialize_str("b");
    s.end_list().unwrap();
    s.end_map().unwrap();
    assert_eq!(text(s.into_bytes()), "27:3:int,1:1#3:seq,8:1:a,1:b,]}");
}

#[test]
fn test_enum() {
    let mut s = Serializer::new();
    s.serialize_str("Unit");
    assert_eq!(text(s.into_bytes()), "4:Unit,");

    let mut s = Serializer::new();
    s.begin_composite();
    s.serialize_str("Newtype");
    s.serialize_u64(1);
    s.end_map().unwrap();
    assert_eq!(text(s.into_bytes()), "14:7:Newtype,1:1#}");

    let mut s = Serializer::new();
    s.begin_composite();
    s.serialize_str("Tuple");
    s.begin_composite();
    s.serialize_u64(1);
    s.serialize_u64(2);
    s.end_list().unwrap();
    s.end_map().unwrap();
    assert_eq!(text(s.into_bytes()), "19:5:Tuple,8:1:1#1:2#]}");

    let mut s = Serializer::new();
    s.begin_composite();
    s.serialize_str("Struct");
    s.begin_composite();
    s.serialize_str("a");
    s.serialize_u64(1);
    s.end_map().unwrap();
    s.end_map().unwrap();
    assert_eq!(text(s.into_bytes()), "20:6:Struct,8:1:a,1:1#}}");
}

#[test]
fn ending_without_a_composite_fails() {
    let mut s = Serializer::new();
    match s.end_list() {
        Err(e) => assert!(matches!(e.0, TNetStrError::SerializationError(_))),
        Ok(()) => panic!("ended a composite that was never begun"),
    }
    assert_eq!(s.into_bytes(), Vec::<u8>::new());
}

#[test]
fn scalars_encode_to_fixed_text() {
    let mut s = Serializer::new();
    s.serialize_bool(true);
    s.serialize_bool(false);
    s.serialize_unit();
    s.serialize_i64(-42);
    s.serialize_i64(i64::MIN);
    s.serialize_float(TNetFloat { integral: 3, fractional: 25 });
    s.serialize_bytes(&[0u8, 255u8]);
    let mut expected = b"4:true!5:false!0:~3:-42#20:-9223372036854775808#4:3.25^2:".to_vec();
    expected.extend_from_slice(&[0u8, 255u8, b',']);
    assert_eq!(s.into_bytes(), expected);
}

#[test]
fn round_trip_of_a_nested_tree() {
    let dict = TNetDictionary::from_vec(vec![
        bytes_entry("k"),
        entry(2, DataType::Integer, TNetData::Integer(-7)),
        bytes_entry("k"),
        entry(0, DataType::Null, TNetData::Null),
    ])
    .unwrap();
    let value = TNetData::List(vec![
        entry(4, DataType::Boolean, TNetData::Boolean(true)),
        entry(4, DataType::Float, TNetData::Float(TNetFloat { integral: 12, fractional: 5 })),
        entry(16, DataType::Dictionary, TNetData::Dictionary(dict)),
        entry(0, DataType::List, TNetData::List(vec![])),
    ]);
    let wire = to_bytes(&value);
    assert_eq!(text(wire.clone()), "37:4:true!4:12.5^16:1:k,2:-7#1:k,0:~}0:]]");
    let decoded = parse(&wire).unwrap();
    assert_eq!(decoded.size, 37);
    assert_eq!(decoded.data_type, DataType::List);
    assert_eq!(decoded.data, value);
}

#[test]
fn decoding_then_encoding_keeps_dictionary_order() {
    let wire = b"16:1:b,1:2#1:a,1:1#}";
    let decoded = parse(wire).unwrap();
    assert_eq!(to_bytes(&decoded.data), wire.to_vec());
}

#[test]
fn boundary_lengths() {
    let null = parse(b"0:~").unwrap();
    assert_eq!(null, entry(0, DataType::Null, TNetData::Null));
    let empty = parse(b"0:,").unwrap();
    assert_eq!(empty, entry(0, DataType::Bytes, TNetData::Bytes(vec![])));
    assert_eq!(parse(b"000000003:abc,").unwrap(), bytes_entry("abc"));
    assert_eq!(parse(b"0000000003:abc,"), Err(TNetStrError::LengthTooLong));
}

#[test]
fn trailing_bytes_are_ignored() {
    assert_eq!(parse(b"1:a,garbage").unwrap(), bytes_entry("a"));
}

#[test]
fn payload_errors() {
    assert_eq!(parse(b"1:a?"), Err(TNetStrError::UnrecognizedDataType(b'?')));
    assert_eq!(parse(b"2:\xff\xfe#"), Err(TNetStrError::DataNotUTF8Compatible));
    assert_eq!(parse(b"2:1x#"), Err(TNetStrError::CouldNotParseData));
    assert_eq!(parse(b"19:9223372036854775808#"), Err(TNetStrError::CouldNotParseData));
    assert_eq!(parse(b"4:True!"), Err(TNetStrError::CouldNotParseData));
    assert_eq!(parse(b"5:1.2.3^"), Err(TNetStrError::FloatParseError("1.2.3".to_string())));
    assert_eq!(parse(b"2:-1^"), Err(TNetStrError::FloatParseError("-1".to_string())));
    assert_eq!(parse(b"5:1:a,"), Err(TNetStrError::LengthWasNotAccurate));
    assert_eq!(parse(b"7:1:a,0:#}"), Err(TNetStrError::CouldNotParseData));
}

#[test]
fn integer_text_follows_the_standard_grammar() {
    let v = parse(b"2:+5#").unwrap();
    assert_eq!(v.data, TNetData::Integer(5));
    let v = parse(b"20:-9223372036854775808#").unwrap();
    assert_eq!(v.data, TNetData::Integer(i64::MIN));
    assert_eq!(parse(b"1:-#"), Err(TNetStrError::CouldNotParseData));
    assert_eq!(parse(b"0:#"), Err(TNetStrError::CouldNotParseData));
}

#[test]
fn float_text_keeps_digit_runs() {
    assert_eq!(TNetFloat::from_decimal_str("10.21"), Ok(TNetFloat { integral: 10, fractional: 21 }));
    assert_eq!(TNetFloat::from_decimal_str("0.04529"), Ok(TNetFloat { integral: 0, fractional: 4529 }));
    assert_eq!(TNetFloat::from_decimal_str("12"), Err(TNetStrError::FloatParseError("12".to_string())));
    assert_eq!(TNetFloat::from_decimal_str(".5"), Err(TNetStrError::FloatParseError(".5".to_string())));
}

#[test]
fn dictionary_keeps_duplicates_and_looks_up_all() {
    let d = TNetDictionary::from_vec(vec![
        bytes_entry("a"),
        bytes_entry("1"),
        bytes_entry("b"),
        bytes_entry("2"),
        bytes_entry("a"),
        bytes_entry("3"),
    ])
    .unwrap();
    assert_eq!(d.entries.len(), 3);
    let found = d.get(b"a");
    assert_eq!(found, vec![&bytes_entry("1"), &bytes_entry("3")]);
    assert!(d.get(b"c").is_empty());
}

#[test]
fn dictionary_construction_errors() {
    let odd = TNetDictionary::from_vec(vec![bytes_entry("a"), bytes_entry("1"), bytes_entry("b")]);
    assert_eq!(odd, Err(TNetStrError::UnbalancedDictionary));
    let bad_key = TNetDictionary::from_vec(vec![
        entry(1, DataType::Integer, TNetData::Integer(1)),
        bytes_entry("x"),
    ]);
    assert_eq!(bad_key, Err(TNetStrError::DictionaryKeyWasNotBytes));
    let mut d = TNetDictionary::new();
    assert_eq!(d.add(entry(0, DataType::Null, TNetData::Null), bytes_entry("v")), Err(TNetStrError::DictionaryKeyWasNotBytes));
    assert!(d.entries.is_empty());
}

#[test]
fn data_type_markers() {
    let all = [
        (DataType::Bytes, b','),
        (DataType::Integer, b'#'),
        (DataType::Float, b'^'),
        (DataType::Boolean, b'!'),
        (DataType::Null, b'~'),
        (DataType::Dictionary, b'}'),
        (DataType::List, b']'),
    ];
    for (t, b) in all {
        assert_eq!(t.to_byte(), b);
        assert_eq!(t.to_char(), b as char);
        assert_eq!(DataType::from_byte(&b), Ok(t));
    }
    assert_eq!(DataType::from_byte(&b'x'), Err(TNetStrError::UnrecognizedDataType(b'x')));
}

#[test]
fn length_matches_children() {
    let e = parse(b"24:4:true!6:0.4529^5:abcde,]").unwrap();
    match &e.data {
        TNetData::List(items) => {
            let total: u32 = items.iter().map(|c| c.size + 2 + c.size.to_string().len() as u32).sum();
            assert_eq!(total, e.size);
        }
        _ => panic!("not a list"),
    }
}

/// Decoding then encoding is not the identity on bytes: the encoder writes
/// canonical text, so a non-canonical input comes back rewritten, while the
/// decoded value is the same.
#[test]
fn encoding_after_decoding_rewrites_non_canonical_text() {
    let decoded = parse(b"2:+5#").unwrap();
    let wire = to_bytes(&decoded.data);
    assert_eq!(wire, b"1:5#".to_vec());
    assert_eq!(parse(&wire).unwrap().data, decoded.data);
    let padded = parse(b"01:a,").unwrap();
    assert_eq!(to_bytes(&padded.data), b"1:a,".to_vec());
}

#[test]
fn frames_expose_the_stack() {
    let mut s = Serializer::new();
    s.begin_composite();
    s.serialize_u64(7);
    let frames = s.frames();
    assert_eq!(frames.len(), 2);
    assert!(frames[0].is_empty());
    assert_eq!(frames[1], b"1:7#".to_vec());
}
