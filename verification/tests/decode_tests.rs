use mail_tracker::decode::{decode, ByteParseReason, DecodeError};

const SIXTEEN: &str = "0,0,0,0,0,0,0,0,0,0,0,0,0,0,0,1";

#[test]
fn decodes_sixteen_bytes_in_order() {
    let id = decode(SIXTEEN).unwrap();
    assert_eq!(*id.as_bytes(), vec![0, 0, 0, 0, 0, 0, 0, 0, 0, 0, 0, 0, 0, 0, 0, 1]);
}

#[test]
fn decodes_arbitrary_values() {
    let id = decode("255,0,17,34,51,68,85,102,119,136,153,170,187,204,221,238").unwrap();
    assert_eq!(
        *id.as_bytes(),
        vec![255, 0, 17, 34, 51, 68, 85, 102, 119, 136, 153, 170, 187, 204, 221, 238]
    );
}

#[test]
fn too_few_tokens_is_wrong_length() {
    match decode("1,2,3") {
        Err(DecodeError::WrongLength { count, bytes }) => {
            assert_eq!(count, 3);
            assert_eq!(bytes, vec![1, 2, 3]);
        }
        other => panic!("expected WrongLength, got {:?}", other),
    }
}

#[test]
fn too_many_tokens_is_wrong_length() {
    match decode("1,2,3,4,5,6,7,8,9,10,11,12,13,14,15,16,17") {
        Err(DecodeError::WrongLength { count, .. }) => assert_eq!(count, 17),
        other => panic!("expected WrongLength, got {:?}", other),
    }
}

#[test]
fn out_of_range_token_is_invalid_byte() {
    match decode("1,2,300,4,5,6,7,8,9,10,11,12,13,14,15,16") {
        Err(DecodeError::InvalidByte { token, reason }) => {
            assert_eq!(token, "300");
            assert_eq!(reason, ByteParseReason::OutOfRange);
        }
        other => panic!("expected InvalidByte, got {:?}", other),
    }
}

#[test]
fn boundary_value_256_is_out_of_range() {
    match decode("256") {
        Err(DecodeError::InvalidByte { token, reason }) => {
            assert_eq!(token, "256");
            assert_eq!(reason, ByteParseReason::OutOfRange);
        }
        other => panic!("expected InvalidByte, got {:?}", other),
    }
}

#[test]
fn huge_numeral_is_out_of_range() {
    match decode("99999999999999999999999999") {
        Err(DecodeError::InvalidByte { token, reason }) => {
            assert_eq!(token, "99999999999999999999999999");
            assert_eq!(reason, ByteParseReason::OutOfRange);
        }
        other => panic!("expected InvalidByte, got {:?}", other),
    }
}

#[test]
fn non_numeric_token_is_invalid_byte() {
    match decode("1,2,ab,4") {
        Err(DecodeError::InvalidByte { token, reason }) => {
            assert_eq!(token, "ab");
            assert_eq!(reason, ByteParseReason::NonNumeric);
        }
        other => panic!("expected InvalidByte, got {:?}", other),
    }
}

#[test]
fn mixed_token_is_non_numeric() {
    match decode("12a") {
        Err(DecodeError::InvalidByte { token, reason }) => {
            assert_eq!(token, "12a");
            assert_eq!(reason, ByteParseReason::NonNumeric);
        }
        other => panic!("expected InvalidByte, got {:?}", other),
    }
}

#[test]
fn invalid_byte_takes_precedence_over_length() {
    // Three tokens, one bad: the bad token is reported, not the count.
    match decode("1,abc,3") {
        Err(DecodeError::InvalidByte { token, .. }) => assert_eq!(token, "abc"),
        other => panic!("expected InvalidByte, got {:?}", other),
    }
}

#[test]
fn empty_token_is_invalid_byte() {
    match decode("1,,3") {
        Err(DecodeError::InvalidByte { token, reason }) => {
            assert_eq!(token, "");
            assert_eq!(reason, ByteParseReason::EmptyToken);
        }
        other => panic!("expected InvalidByte, got {:?}", other),
    }
}

#[test]
fn empty_input_is_invalid_byte() {
    match decode("") {
        Err(DecodeError::InvalidByte { token, reason }) => {
            assert_eq!(token, "");
            assert_eq!(reason, ByteParseReason::EmptyToken);
        }
        other => panic!("expected InvalidByte, got {:?}", other),
    }
}

#[test]
fn whitespace_around_tokens_is_tolerated() {
    let spaced = decode(" 0 ,\t1 , 2 ,3 , 4,5,6,7,8,9,10,11,12,13,14, 15 ").unwrap();
    let plain = decode("0,1,2,3,4,5,6,7,8,9,10,11,12,13,14,15").unwrap();
    assert_eq!(*spaced.as_bytes(), *plain.as_bytes());
}

#[test]
fn leading_zeros_are_accepted() {
    let id = decode("007,0,0,0,0,0,0,0,0,0,0,0,0,0,0,00255").unwrap();
    assert_eq!(id.as_bytes()[0], 7);
    assert_eq!(id.as_bytes()[15], 255);
}

#[test]
fn all_zero_identifier_decodes() {
    // A legitimately all-zero identifier is a successful decode, not a
    // failure sentinel.
    let id = decode("0,0,0,0,0,0,0,0,0,0,0,0,0,0,0,0").unwrap();
    assert_eq!(*id.as_bytes(), vec![0u8; 16]);
}

#[test]
fn plus_sign_is_non_numeric() {
    match decode("+5") {
        Err(DecodeError::InvalidByte { token, reason }) => {
            assert_eq!(token, "+5");
            assert_eq!(reason, ByteParseReason::NonNumeric);
        }
        other => panic!("expected InvalidByte, got {:?}", other),
    }
}
