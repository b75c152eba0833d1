use torrent_client::bencode::{BencodeData, BencodeDecoder, ParseError};

#[test]
fn byte_string_spam() {
    let data = b"4:spam".to_vec();
    let mut p: usize = 0;
    let r = BencodeDecoder::decode_byte_string(&mut p, &data).unwrap();
    match r {
        BencodeData::ByteString(b) => assert_eq!(b, b"spam".to_vec()),
        _ => panic!("expected a byte string"),
    }
    assert_eq!(p, 6);
}

#[test]
fn integer_three() {
    let data = b"i3e".to_vec();
    let mut p: usize = 0;
    let r = BencodeDecoder::decode_int(&mut p, &data).unwrap();
    match r {
        BencodeData::Integer(n) => assert_eq!(n, 3),
        _ => panic!("expected an integer"),
    }
    assert_eq!(p, 3);
}

#[test]
fn list_spam_eggs() {
    let data = b"l4:spam4:eggse".to_vec();
    let mut p: usize = 0;
    let r = BencodeDecoder::decode_list(&mut p, &data).unwrap();
    let items = r.get_list().unwrap();
    assert_eq!(items.len(), 2);
    match &items[0] {
        BencodeData::ByteString(b) => assert_eq!(b, &b"spam".to_vec()),
        _ => panic!("expected a byte string"),
    }
    match &items[1] {
        BencodeData::ByteString(b) => assert_eq!(b, &b"eggs".to_vec()),
        _ => panic!("expected a byte string"),
    }
    assert_eq!(p, data.len());
}

#[test]
fn dict_cow_spam() {
    let data = b"d3:cow3:moo4:spam4:eggse".to_vec();
    let mut p: usize = 0;
    let r = BencodeDecoder::decode_dict(&mut p, &data).unwrap();
    let dict = r.get_dict().unwrap();
    assert_eq!(dict.len(), 2);
    let cow = BencodeDecoder::get_from_dict(&dict, &b"cow".to_vec()).unwrap();
    match cow {
        BencodeData::ByteString(b) => assert_eq!(b, &b"moo".to_vec()),
        _ => panic!("expected a byte string"),
    }
    let spam = BencodeDecoder::get_from_dict(&dict, &b"spam".to_vec()).unwrap();
    match spam {
        BencodeData::ByteString(b) => assert_eq!(b, &b"eggs".to_vec()),
        _ => panic!("expected a byte string"),
    }
    assert_eq!(p, data.len());
}

#[test]
fn truncated_byte_string_underruns() {
    let data = b"5:abc".to_vec();
    let mut p: usize = 0;
    let r = BencodeDecoder::decode_byte_string(&mut p, &data);
    assert!(matches!(r, Err(ParseError::BufferUnderrun(5, 3))));
}

#[test]
fn duplicate_key_rejected() {
    let data = b"d3:cowi1e3:cowi2ee".to_vec();
    let mut p: usize = 0;
    let r = BencodeDecoder::decode_dict(&mut p, &data);
    assert!(matches!(r, Err(ParseError::DuplicateKey(k)) if k == b"cow".to_vec()));
}

#[test]
fn non_string_key_rejected() {
    let data = b"di1ei2ee".to_vec();
    let mut p: usize = 0;
    let r = BencodeDecoder::decode_dict(&mut p, &data);
    assert!(matches!(r, Err(ParseError::InvalidKey(1))));
}

#[test]
fn empty_digit_run_rejected() {
    let data = b"ie".to_vec();
    let mut p: usize = 0;
    let r = BencodeDecoder::decode_int(&mut p, &data);
    assert!(matches!(r, Err(ParseError::InvalidInteger(1))));
}

#[test]
fn broken_digit_run_rejected() {
    let data = b"i12xe".to_vec();
    let mut p: usize = 0;
    let r = BencodeDecoder::decode_int(&mut p, &data);
    assert!(matches!(r, Err(ParseError::InvalidInteger(3))));
}

#[test]
fn negative_integer_rejected() {
    let data = b"i-3e".to_vec();
    let mut p: usize = 0;
    let r = BencodeDecoder::decode_int(&mut p, &data);
    assert!(matches!(r, Err(ParseError::InvalidInteger(1))));
}

#[test]
fn oversized_integer_rejected() {
    // One past u64::MAX.
    let data = b"i18446744073709551616e".to_vec();
    let mut p: usize = 0;
    let r = BencodeDecoder::decode_int(&mut p, &data);
    assert!(matches!(r, Err(ParseError::InvalidInteger(1))));
}

#[test]
fn largest_integer_accepted() {
    let data = b"i18446744073709551615e".to_vec();
    let mut p: usize = 0;
    let r = BencodeDecoder::decode_int(&mut p, &data).unwrap();
    match r {
        BencodeData::Integer(n) => assert_eq!(n, u64::MAX),
        _ => panic!("expected an integer"),
    }
    assert_eq!(p, data.len());
}

#[test]
fn unterminated_integer_hits_end() {
    let data = b"i12".to_vec();
    let mut p: usize = 0;
    let r = BencodeDecoder::decode_int(&mut p, &data);
    assert!(matches!(r, Err(ParseError::UnexpectedEndOfInput)));
}

#[test]
fn bad_length_prefix_rejected() {
    let data = b"1x".to_vec();
    let mut p: usize = 0;
    let r = BencodeDecoder::decode_byte_string(&mut p, &data);
    assert!(matches!(r, Err(ParseError::InvalidLength(1))));
}

#[test]
fn length_without_colon_hits_end() {
    let data = b"12".to_vec();
    let mut p: usize = 0;
    let r = BencodeDecoder::decode_byte_string(&mut p, &data);
    assert!(matches!(r, Err(ParseError::UnexpectedEndOfInput)));
}

#[test]
fn unknown_token_rejected() {
    let data = b"x".to_vec();
    let mut p: usize = 0;
    let r = BencodeDecoder::decode_int(&mut p, &data);
    assert!(matches!(r, Err(ParseError::UnexpectedToken(0))));
}

#[test]
fn empty_list_accepted() {
    let data = b"le".to_vec();
    let mut p: usize = 0;
    let r = BencodeDecoder::decode_list(&mut p, &data).unwrap();
    let items = r.get_list().unwrap();
    assert_eq!(items.len(), 0);
    assert_eq!(p, 2);
}

#[test]
fn empty_dict_accepted() {
    let data = b"de".to_vec();
    let mut p: usize = 0;
    let r = BencodeDecoder::decode_dict(&mut p, &data).unwrap();
    let dict = r.get_dict().unwrap();
    assert_eq!(dict.len(), 0);
    assert_eq!(p, 2);
}

#[test]
fn over_deep_nesting_rejected() {
    let data = vec![b'l'; 250];
    let mut p: usize = 0;
    let r = BencodeDecoder::decode_list(&mut p, &data);
    assert!(matches!(r, Err(ParseError::NestingTooDeep)));
}

#[test]
fn redecoding_same_bytes_gives_same_tree() {
    let data = b"l4:spami7ed1:a1:bee".to_vec();
    let mut p1: usize = 0;
    let mut p2: usize = 0;
    let r1 = BencodeDecoder::decode_list(&mut p1, &data).unwrap();
    let r2 = BencodeDecoder::decode_list(&mut p2, &data).unwrap();
    assert_eq!(p1, p2);
    assert_eq!(format!("{:?}", r1), format!("{:?}", r2));
}

#[test]
fn accessor_kinds_checked() {
    let data = b"i3e".to_vec();
    let mut p: usize = 0;
    let n = BencodeDecoder::decode_int(&mut p, &data).unwrap();
    assert!(n.get_byte_string().is_err());

    let data = b"4:spam".to_vec();
    let mut p: usize = 0;
    let s = BencodeDecoder::decode_byte_string(&mut p, &data).unwrap();
    assert!(s.get_int().is_err());

    let data = b"le".to_vec();
    let mut p: usize = 0;
    let l = BencodeDecoder::decode_list(&mut p, &data).unwrap();
    assert!(l.get_dict().is_err());

    let data = b"de".to_vec();
    let mut p: usize = 0;
    let d = BencodeDecoder::decode_dict(&mut p, &data).unwrap();
    assert!(d.get_list().is_err());
}

#[test]
fn accessor_payloads_returned() {
    let data = b"i42e".to_vec();
    let mut p: usize = 0;
    let n = BencodeDecoder::decode_int(&mut p, &data).unwrap();
    assert_eq!(n.get_int().unwrap(), 42);

    let data = b"3:moo".to_vec();
    let mut p: usize = 0;
    let s = BencodeDecoder::decode_byte_string(&mut p, &data).unwrap();
    assert_eq!(s.get_byte_string().unwrap(), b"moo".to_vec());
}

#[test]
fn missing_dict_key_reported() {
    let data = b"d3:cow3:mooe".to_vec();
    let mut p: usize = 0;
    let dict = BencodeDecoder::decode_dict(&mut p, &data).unwrap().get_dict().unwrap();
    let r = BencodeDecoder::get_from_dict(&dict, &b"hen".to_vec());
    assert!(
        matches!(r, Err(torrent_client::torrent::ExtractError::MissingField(k)) if k == b"hen".to_vec())
    );
}
