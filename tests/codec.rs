use fractional_index::{DecodeError, FractionalIndex};

#[test]
fn from_string_empty() {
    assert_eq!(FractionalIndex::from_string(""), Err(DecodeError::EmptyString));
}

#[test]
fn from_string_invalid_chars() {
    assert_eq!(FractionalIndex::from_string("zz80"), Err(DecodeError::InvalidChars));
    assert_eq!(FractionalIndex::from_string("80Z"), Err(DecodeError::InvalidChars));
    assert_eq!(FractionalIndex::from_string("8F80"), Err(DecodeError::InvalidChars));
}

#[test]
fn from_string_missing_terminator() {
    assert_eq!(FractionalIndex::from_string("7f"), Err(DecodeError::MissingTerminator));
    assert_eq!(FractionalIndex::from_string("8"), Err(DecodeError::MissingTerminator));
    assert_eq!(FractionalIndex::from_string("807f"), Err(DecodeError::MissingTerminator));
}

#[test]
fn from_string_valid() {
    let x = FractionalIndex::from_string("8180").unwrap();
    assert_eq!(x.as_bytes(), &[129, 128]);
    let y = FractionalIndex::from_string("80").unwrap();
    assert_eq!(y, FractionalIndex::default());
}

#[test]
fn to_string_values() {
    let a = FractionalIndex::default();
    let b = FractionalIndex::new_after(&a);
    let c = FractionalIndex::new_between(&a, &b).unwrap();
    assert_eq!(a.to_string(), "80");
    assert_eq!(b.to_string(), "8180");
    assert_eq!(c.to_string(), "817f80");
}

#[test]
fn from_bytes_checks_terminator() {
    assert_eq!(FractionalIndex::from_bytes(vec![]), Err(DecodeError::MissingTerminator));
    assert_eq!(FractionalIndex::from_bytes(vec![1, 2]), Err(DecodeError::MissingTerminator));
    assert_eq!(FractionalIndex::from_bytes(vec![128, 5]), Err(DecodeError::MissingTerminator));
    let x = FractionalIndex::from_bytes(vec![5, 128]).unwrap();
    assert_eq!(x.as_bytes(), &[5, 128]);
    let y = FractionalIndex::from_bytes(vec![128, 128]).unwrap();
    assert_eq!(y.as_bytes(), &[128, 128]);
}

#[test]
fn decode_error_messages() {
    assert_eq!(
        DecodeError::EmptyString.to_string(),
        "Attempted to decode an empty string as a fractional index."
    );
    assert_eq!(
        DecodeError::MissingTerminator.to_string(),
        "Attempted to decode a corrupt fractional index (missing terminator)."
    );
    assert_eq!(
        DecodeError::InvalidChars.to_string(),
        "Attempted to decode a corrupt fractional index (invalid characters)."
    );
}

#[test]
fn text_round_trip_and_order() {
    let xs = vec![
        FractionalIndex::from_vec_unterminated(vec![0, 0]),
        FractionalIndex::from_vec_unterminated(vec![15]),
        FractionalIndex::from_vec_unterminated(vec![16]),
        FractionalIndex::from_vec_unterminated(vec![127, 255]),
        FractionalIndex::default(),
        FractionalIndex::from_vec_unterminated(vec![128, 0]),
        FractionalIndex::from_vec_unterminated(vec![160]),
        FractionalIndex::from_vec_unterminated(vec![255, 255, 255]),
    ];
    for i in 0..xs.len() {
        let text = xs[i].to_string();
        assert_eq!(FractionalIndex::from_string(&text).unwrap(), xs[i]);
        if i + 1 < xs.len() {
            assert!(xs[i] < xs[i + 1]);
            assert!(text < xs[i + 1].to_string());
        }
    }
}
