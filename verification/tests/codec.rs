use bencode2::decode;
use bencode2::encode;
use bencode2::to_encodable;
use bencode2::ConverterError;
use bencode2::DecodeError;
use bencode2::Encodable;
use bencode2::EncodeError;
use bencode2::Type;
use bencode2::ValueKind;

fn dec(s: &[u8]) -> Result<Type, DecodeError> {
    decode(&s.to_vec())
}

// ---- integer boundaries ----

#[test]
fn decode_integer_zero() {
    assert_eq!(dec(b"i0e"), Ok(Type::Integer(0)));
}

#[test]
fn decode_negative_zero_rejected() {
    assert_eq!(dec(b"i-0e"), Err(DecodeError::NegativeZeroInteger));
}

#[test]
fn decode_leading_zeros_rejected() {
    assert_eq!(dec(b"i01e"), Err(DecodeError::IntegerWithLeadingZeros));
}

#[test]
fn decode_i64_max() {
    assert_eq!(
        dec(b"i9223372036854775807e"),
        Ok(Type::Integer(9223372036854775807))
    );
}

#[test]
fn decode_one_past_i64_max_rejected() {
    assert_eq!(dec(b"i9223372036854775808e"), Err(DecodeError::InvalidInteger));
}

#[test]
fn decode_negative_integer() {
    assert_eq!(dec(b"i-42e"), Ok(Type::Integer(-42)));
}

#[test]
fn decode_integer_bad_end_byte() {
    assert_eq!(
        dec(b"i12x3e"),
        Err(DecodeError::InvalidEndByte(ValueKind::Integer))
    );
}

#[test]
fn decode_integer_empty_digits() {
    assert_eq!(dec(b"i-e"), Err(DecodeError::InvalidInteger));
    assert_eq!(dec(b"ie"), Err(DecodeError::InvalidInteger));
}

// ---- byte strings ----

#[test]
fn decode_byte_string() {
    assert_eq!(dec(b"4:spam"), Ok(Type::ByteString(b"spam".to_vec())));
}

#[test]
fn decode_empty_byte_string() {
    assert_eq!(dec(b"0:"), Ok(Type::ByteString(Vec::new())));
}

#[test]
fn decode_short_byte_string_rejected() {
    assert_eq!(dec(b"5:spam"), Err(DecodeError::InvalidByteStringLength));
}

#[test]
fn decode_byte_string_bad_length_separator() {
    assert_eq!(
        dec(b"4x:spam"),
        Err(DecodeError::InvalidEndByte(ValueKind::ByteString))
    );
}

#[test]
fn decode_byte_string_zero_padded_length() {
    assert_eq!(dec(b"04:spam"), Ok(Type::ByteString(b"spam".to_vec())));
}

// ---- structures ----

#[test]
fn decode_list() {
    assert_eq!(
        dec(b"l4:spam4:eggse"),
        Ok(Type::List(vec![
            Type::ByteString(b"spam".to_vec()),
            Type::ByteString(b"eggs".to_vec()),
        ]))
    );
}

#[test]
fn decode_dictionary() {
    assert_eq!(
        dec(b"d3:cow3:moo4:spam4:eggse"),
        Ok(Type::Dictionary(vec![
            (b"cow".to_vec(), Type::ByteString(b"moo".to_vec())),
            (b"spam".to_vec(), Type::ByteString(b"eggs".to_vec())),
        ]))
    );
}

#[test]
fn decode_dictionary_sorts_unsorted_input() {
    assert_eq!(
        dec(b"d4:spam4:eggs3:cow3:mooe"),
        Ok(Type::Dictionary(vec![
            (b"cow".to_vec(), Type::ByteString(b"moo".to_vec())),
            (b"spam".to_vec(), Type::ByteString(b"eggs".to_vec())),
        ]))
    );
}

#[test]
fn decode_dictionary_duplicate_key_rejected() {
    assert_eq!(dec(b"d3:cowi1e3:cowi2ee"), Err(DecodeError::InvalidDictionary));
}

#[test]
fn decode_dictionary_dangling_key_rejected() {
    assert_eq!(dec(b"d3:cowe"), Err(DecodeError::InvalidDictionary));
}

#[test]
fn decode_dictionary_non_string_key_rejected() {
    assert_eq!(dec(b"di1ei2ee"), Err(DecodeError::InvalidDictionaryKey));
}

#[test]
fn decode_nested() {
    assert_eq!(
        dec(b"d1:ali1ei2eee"),
        Ok(Type::Dictionary(vec![(
            b"a".to_vec(),
            Type::List(vec![Type::Integer(1), Type::Integer(2)]),
        )]))
    );
}

#[test]
fn decode_unterminated_list_rejected() {
    assert_eq!(dec(b"li1e"), Err(DecodeError::InvalidList));
}

#[test]
fn decode_unterminated_dictionary_rejected() {
    assert_eq!(dec(b"d3:cowi1e"), Err(DecodeError::InvalidDictionary));
}

// ---- end-of-input leniency ----

#[test]
fn decode_integer_without_terminator_at_end_of_input() {
    assert_eq!(dec(b"i12"), Ok(Type::Integer(12)));
}

#[test]
fn decode_length_prefix_without_colon_at_end_of_input() {
    assert_eq!(dec(b"0"), Ok(Type::ByteString(Vec::new())));
    assert_eq!(dec(b"4"), Err(DecodeError::InvalidByteStringLength));
}

// ---- top-level framing ----

#[test]
fn decode_empty_input_rejected() {
    assert_eq!(dec(b""), Err(DecodeError::Empty));
}

#[test]
fn decode_bad_start_byte_rejected() {
    assert_eq!(dec(b"x"), Err(DecodeError::InvalidStartByte));
}

#[test]
fn decode_trailing_bytes_rejected() {
    assert_eq!(dec(b"i1ei2e"), Err(DecodeError::InvalidByteSequence));
}

// ---- encoding ----

#[test]
fn encode_integer() {
    assert_eq!(encode(&Encodable::Integer(42)), Ok(b"i42e".to_vec()));
    assert_eq!(encode(&Encodable::Integer(0)), Ok(b"i0e".to_vec()));
    assert_eq!(encode(&Encodable::Integer(-7)), Ok(b"i-7e".to_vec()));
    assert_eq!(
        encode(&Encodable::Integer(i64::MIN)),
        Ok(b"i-9223372036854775808e".to_vec())
    );
}

#[test]
fn encode_boolean_as_integer() {
    assert_eq!(encode(&Encodable::Boolean(true)), Ok(b"i1e".to_vec()));
    assert_eq!(encode(&Encodable::Boolean(false)), Ok(b"i0e".to_vec()));
}

#[test]
fn encode_text_and_bytes() {
    assert_eq!(encode(&Encodable::Text(b"spam".to_vec())), Ok(b"4:spam".to_vec()));
    assert_eq!(encode(&Encodable::Bytes(vec![0, 255])), Ok(b"2:\x00\xff".to_vec()));
    assert_eq!(encode(&Encodable::Bytes(Vec::new())), Ok(b"0:".to_vec()));
}

#[test]
fn encode_list() {
    assert_eq!(
        encode(&Encodable::List(vec![
            Encodable::Text(b"spam".to_vec()),
            Encodable::Text(b"eggs".to_vec()),
        ])),
        Ok(b"l4:spam4:eggse".to_vec())
    );
}

#[test]
fn encode_dictionary_sorts_keys() {
    assert_eq!(
        encode(&Encodable::Dictionary(vec![
            (
                Encodable::Text(b"spam".to_vec()),
                Encodable::Text(b"eggs".to_vec())
            ),
            (
                Encodable::Text(b"cow".to_vec()),
                Encodable::Text(b"moo".to_vec())
            ),
        ])),
        Ok(b"d3:cow3:moo4:spam4:eggse".to_vec())
    );
}

#[test]
fn encode_dictionary_duplicate_key_rejected() {
    assert_eq!(
        encode(&Encodable::Dictionary(vec![
            (Encodable::Text(b"a".to_vec()), Encodable::Integer(1)),
            (Encodable::Bytes(b"a".to_vec()), Encodable::Integer(2)),
        ])),
        Err(EncodeError::DuplicatedKeys(b"a".to_vec()))
    );
}

#[test]
fn encode_dictionary_bad_key_type_rejected() {
    assert_eq!(
        encode(&Encodable::Dictionary(vec![(
            Encodable::Integer(1),
            Encodable::Integer(2)
        )])),
        Err(EncodeError::InvalidDictionaryKeyType)
    );
}

#[test]
fn encode_nested_dictionary() {
    assert_eq!(
        encode(&Encodable::Dictionary(vec![(
            Encodable::Text(b"l".to_vec()),
            Encodable::List(vec![Encodable::Integer(1), Encodable::Boolean(false)]),
        )])),
        Ok(b"d1:lli1ei0eee".to_vec())
    );
}

#[test]
fn encode_nested_error_propagates() {
    assert_eq!(
        encode(&Encodable::List(vec![Encodable::Dictionary(vec![(
            Encodable::Boolean(true),
            Encodable::Integer(2)
        )])])),
        Err(EncodeError::InvalidDictionaryKeyType)
    );
}

// ---- round trips ----

#[test]
fn round_trip_concrete_tree() {
    let v = Encodable::Dictionary(vec![
        (
            Encodable::Text(b"b".to_vec()),
            Encodable::List(vec![Encodable::Integer(-3), Encodable::Text(b"x".to_vec())]),
        ),
        (Encodable::Text(b"a".to_vec()), Encodable::Integer(7)),
    ]);
    let bytes = encode(&v).unwrap();
    assert_eq!(bytes, b"d1:ai7e1:bli-3e1:xee".to_vec());
    let back = decode(&bytes).unwrap();
    assert_eq!(
        back,
        Type::Dictionary(vec![
            (b"a".to_vec(), Type::Integer(7)),
            (
                b"b".to_vec(),
                Type::List(vec![Type::Integer(-3), Type::ByteString(b"x".to_vec())])
            ),
        ])
    );
}

#[test]
fn idempotent_on_canonical_document() {
    let doc = b"d3:cow3:moo4:spamli1ei2eee".to_vec();
    let tree = decode(&doc).unwrap();
    let again = encode(&to_encodable(&tree)).unwrap();
    assert_eq!(again, doc);
}

#[test]
fn idempotent_on_nested_canonical_document() {
    let doc = b"d1:ad1:bli-5e0:ee1:ci9ee".to_vec();
    let tree = decode(&doc).unwrap();
    let again = encode(&to_encodable(&tree)).unwrap();
    assert_eq!(again, doc);
}

#[test]
fn reencoding_sorts_a_lenient_document() {
    let unsorted = b"d4:spam4:eggs3:cow3:mooe".to_vec();
    let tree = decode(&unsorted).unwrap();
    let canonical = encode(&to_encodable(&tree)).unwrap();
    assert_eq!(canonical, b"d3:cow3:moo4:spam4:eggse".to_vec());
}

// ---- accessors ----

#[test]
fn get_finds_key() {
    let t = dec(b"d3:cow3:moo4:spam4:eggse").unwrap();
    assert_eq!(
        t.get(&b"cow".to_vec()),
        Ok(&Type::ByteString(b"moo".to_vec()))
    );
    assert_eq!(
        t.get(&b"gnu".to_vec()),
        Err(ConverterError::InvalidDictionary)
    );
    assert_eq!(
        Type::Integer(1).get(&b"cow".to_vec()),
        Err(ConverterError::InvalidDictionary)
    );
}

#[test]
fn conversions() {
    assert_eq!(Type::Integer(9).into_integer(), Ok(9));
    assert_eq!(
        Type::ByteString(b"x".to_vec()).into_integer(),
        Err(ConverterError::InvalidInteger)
    );
    assert_eq!(
        Type::ByteString(b"x".to_vec()).into_byte_string(),
        Ok(b"x".to_vec())
    );
    assert_eq!(
        Type::Integer(1).into_byte_string(),
        Err(ConverterError::InvalidString)
    );
}
