use tnetstr::{
    parse_entry, parse_framed, parse_length, parse_list, read_length_byte, DataType,
    TNetData, TNetDictionary, TNetEntry, TNetFloat, TNetStrError,
};

fn bytes(s: &str) -> Vec<u8> {
    s.as_bytes().to_vec()
}

fn entry(size: u32, data_type: DataType, data: TNetData) -> TNetEntry {
    TNetEntry { size, data_type, data }
}

#[test]
fn parses_length_from_start() {
    let s = "10:aaaaaaaaaa,".as_bytes();
    let mut index = 0;
    match parse_length(s, &mut index) {
        Ok(len) => {
            assert_eq!(len, 10);
            assert_eq!(index, 3);
        }
        Err(e) => panic!("Failed to parse length: {:?}", e),
    }
}

#[test]
fn parses_length_from_middle() {
    let s = "1234#9:aaaaaaaaa,".as_bytes();
    let mut index = 5;
    match parse_length(s, &mut index) {
        Ok(len) => {
            assert_eq!(len, 9);
            assert_eq!(index, 7);
        }
        Err(e) => panic!("Failed to parse length: {:?}", e),
    }
}

#[test]
fn parses_length_for_null() {
    let s = "0:~".as_bytes();
    let mut index = 0;
    match parse_length(s, &mut index) {
        Ok(len) => {
            assert_eq!(len, 0);
            assert_eq!(index, 2);
        }
        Err(e) => panic!("Failed to parse length: {:?}", e),
    }
}

fn check(input: &[u8], expected: &TNetEntry) {
    match parse_list(input) {
        Err(e) => panic!("Failed to parse: {:?}", e),
        Ok(entries) => {
            assert_eq!(entries.len(), 1);
            let entry = &entries[0];
            assert_eq!(entry.size, expected.size);
            assert_eq!(entry.data_type, expected.data_type);
            assert_eq!(entry.data, expected.data);
        }
    }
}

#[test]
fn parses_null() {
    check("0:~".as_bytes(), &entry(0, DataType::Null, TNetData::Null));
}

#[test]
fn parses_bytes() {
    check("10:aaaaaaaaaa,".as_bytes(), &entry(10, DataType::Bytes, TNetData::Bytes(bytes("aaaaaaaaaa"))));
}

#[test]
fn parses_int() {
    check("3:123#".as_bytes(), &entry(3, DataType::Integer, TNetData::Integer(123)));
}

#[test]
fn parses_float() {
    check(
        "6:12.543^".as_bytes(),
        &entry(6, DataType::Float, TNetData::Float(TNetFloat { integral: 12, fractional: 543 })),
    );
}

#[test]
fn parses_bool() {
    check("4:true!".as_bytes(), &entry(4, DataType::Boolean, TNetData::Boolean(true)));
}

#[test]
fn parses_list() {
    let input = "24:4:true!6:0.4529^5:abcde,]".as_bytes();
    check(
        input,
        &entry(
            24,
            DataType::List,
            TNetData::List(vec![
                entry(4, DataType::Boolean, TNetData::Boolean(true)),
                entry(6, DataType::Float, TNetData::Float(TNetFloat { integral: 0, fractional: 4529 })),
                entry(5, DataType::Bytes, TNetData::Bytes(bytes("abcde"))),
            ]),
        ),
    );
}

#[test]
fn parses_dict() {
    let input = "19:1:a,1:1#3:bbb,2:hi,}".as_bytes();
    check(
        input,
        &entry(
            19,
            DataType::Dictionary,
            TNetData::Dictionary(
                TNetDictionary::from_vec(vec![
                    entry(1, DataType::Bytes, TNetData::Bytes(bytes("a"))),
                    entry(1, DataType::Integer, TNetData::Integer(1)),
                    entry(3, DataType::Bytes, TNetData::Bytes(bytes("bbb"))),
                    entry(2, DataType::Bytes, TNetData::Bytes(bytes("hi"))),
                ])
                .unwrap(),
            ),
        ),
    );
}

/// Reads an entry from a byte source the way a stream reader does: the
/// length digits first, then payload and marker in one read.
fn read_from_source(source: &[u8], body_reads: &mut usize) -> Result<TNetEntry, TNetStrError> {
    let mut pos = 0;
    let mut digits: Vec<u8> = Vec::new();
    let length = loop {
        let byte = source[pos];
        pos += 1;
        if let Some(l) = read_length_byte(&byte, &mut digits)? {
            break l as usize;
        }
    };
    *body_reads += 1;
    let body = &source[pos..pos + length + 1];
    parse_framed(&digits, body)
}

#[test]
fn parses_stream() {
    let input = "10:aaaaaaaaaa,".as_bytes();
    let expected = entry(10, DataType::Bytes, TNetData::Bytes(bytes("aaaaaaaaaa")));
    let mut body_reads = 0;
    let actual = read_from_source(input, &mut body_reads).unwrap();
    assert_eq!(expected, actual);
    assert_eq!(body_reads, 1);
}

fn expect_error(test: &str, input: &[u8], expected_error: TNetStrError) {
    let mut pos = 0;
    match parse_entry(input, &mut pos) {
        Err(e) => assert_eq!(e, expected_error),
        _ => panic!("Did not error on {}", test),
    }
}

#[test]
fn error_if_length_not_specified() {
    expect_error("missing length", ":abc,".as_bytes(), TNetStrError::NoLengthSpecified)
}

#[test]
fn error_if_length_not_ascii_numeric() {
    expect_error(
        "non-ascii numeric input",
        "z:abc,".as_bytes(),
        TNetStrError::NonASCIINumericValueInLengthField(b'z'),
    )
}

#[test]
fn error_if_length_greater_than_9_digits() {
    expect_error("length greater than 9 digits", "9999999991:abc,".as_bytes(), TNetStrError::LengthTooLong)
}

#[test]
fn error_if_length_not_terminated_with_colon() {
    expect_error("missing length terminator", "11".as_bytes(), TNetStrError::LengthTerminatorNotFound)
}

#[test]
fn error_on_incorrect_length() {
    expect_error("missing length terminator", "2:a,".as_bytes(), TNetStrError::LengthWasNotAccurate)
}

#[test]
fn error_on_unbalanced_dictionary() {
    expect_error("unbalanced dictionary", "4:1:a,}".as_bytes(), TNetStrError::UnbalancedDictionary)
}

#[test]
fn error_on_non_byte_dictionary_key() {
    expect_error("non-byte dictionary key", "8:1:1#1:a,}".as_bytes(), TNetStrError::DictionaryKeyWasNotBytes)
}
