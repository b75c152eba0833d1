use sha1::{Digest, Sha1};
use torrent_client::bencode::{BencodeDecoder, BencodeKind, ParseError};
use torrent_client::torrent::{ExtractError, Torrent};

/// A well-formed torrent file, returned together with the exact bytes of
/// its info dictionary.
fn sample_torrent(pieces: &[u8]) -> (Vec<u8>, Vec<u8>) {
    let mut info: Vec<u8> = Vec::new();
    info.extend_from_slice(b"d6:lengthi1e4:name1:x12:piece lengthi1e6:pieces");
    info.extend_from_slice(format!("{}:", pieces.len()).as_bytes());
    info.extend_from_slice(pieces);
    info.extend_from_slice(b"e");

    let mut file: Vec<u8> = Vec::new();
    file.extend_from_slice(b"d8:announce9:localhost4:info");
    file.extend_from_slice(&info);
    file.extend_from_slice(b"e");
    (file, info)
}

#[test]
fn info_span_recorded_exactly() {
    let data = b"d4:infod6:lengthi1eee".to_vec();
    let (_value, span) = BencodeDecoder::decode(&data).unwrap();
    assert_eq!(span.info, Some((7, 20)));
    assert_eq!(&data[7..20], b"d6:lengthi1ee");
}

#[test]
fn info_hash_is_sha1_of_raw_span() {
    let pieces = [0u8; 20];
    let (file, info) = sample_torrent(&pieces);
    let torrent = Torrent::from_file(&file).unwrap();
    let expected = Sha1::digest(&info).to_vec();
    assert_eq!(torrent.info_hash, expected);
    assert_eq!(torrent.info_hash.len(), 20);
}

#[test]
fn fields_extracted() {
    let pieces = [7u8; 40];
    let (file, _info) = sample_torrent(&pieces);
    let torrent = Torrent::from_file(&file).unwrap();
    assert_eq!(torrent.announce, b"localhost".to_vec());
    assert_eq!(torrent.info.length, 1);
    assert_eq!(torrent.info.name, b"x".to_vec());
    assert_eq!(torrent.info.piece_length, 1);
    assert_eq!(torrent.info.pieces, pieces.to_vec());
}

#[test]
fn ragged_piece_table_rejected() {
    let pieces = [7u8; 21];
    let (file, _info) = sample_torrent(&pieces);
    let r = Torrent::from_file(&file);
    assert!(matches!(r, Err(ExtractError::InvalidPieceTable)));
}

#[test]
fn missing_announce_reported() {
    let file = b"d4:infod6:lengthi1e4:name1:x12:piece lengthi1e6:pieces0:ee".to_vec();
    let r = Torrent::from_file(&file);
    assert!(matches!(r, Err(ExtractError::MissingField(k)) if k == b"announce".to_vec()));
}

#[test]
fn missing_info_field_reported() {
    let file = b"d8:announce9:localhost4:infod6:lengthi1eee".to_vec();
    let r = Torrent::from_file(&file);
    assert!(matches!(r, Err(ExtractError::MissingField(k)) if k == b"name".to_vec()));
}

#[test]
fn announce_of_wrong_kind_reported() {
    let file = b"d8:announcei7e4:infodee".to_vec();
    let r = Torrent::from_file(&file);
    assert!(
        matches!(
            r,
            Err(ExtractError::TypeMismatch(BencodeKind::ByteString, BencodeKind::Integer))
        )
    );
}

#[test]
fn info_of_wrong_kind_reported() {
    let file = b"d8:announce9:localhost4:infoi7ee".to_vec();
    let r = Torrent::from_file(&file);
    assert!(
        matches!(
            r,
            Err(ExtractError::TypeMismatch(BencodeKind::Dictionary, BencodeKind::Integer))
        )
    );
}

#[test]
fn non_dictionary_top_level_reported() {
    let file = b"i3e".to_vec();
    let r = Torrent::from_file(&file);
    assert!(matches!(r, Err(ExtractError::NotADictionary)));
}

#[test]
fn empty_file_reported_as_decode_error() {
    let file = Vec::new();
    let r = Torrent::from_file(&file);
    assert!(matches!(r, Err(ExtractError::Decode(ParseError::UnexpectedEndOfInput))));
}

#[test]
fn malformed_file_reported_as_decode_error() {
    let file = b"d8:announce".to_vec();
    let r = Torrent::from_file(&file);
    assert!(matches!(r, Err(ExtractError::Decode(ParseError::UnexpectedEndOfInput))));
}

#[test]
fn duplicate_key_surfaces_through_extraction() {
    let file = b"d4:infode4:infodee".to_vec();
    let r = Torrent::from_file(&file);
    assert!(
        matches!(r, Err(ExtractError::Decode(ParseError::DuplicateKey(k))) if k == b"info".to_vec())
    );
}

#[test]
fn nested_info_span_is_not_recorded_at_top_level() {
    // The "info" key sits inside an inner dictionary, not at the top level,
    // so extraction must fail for want of a top-level "info" key.
    let file = b"d8:announce9:localhost5:outerd4:infodeee".to_vec();
    let r = Torrent::from_file(&file);
    assert!(matches!(r, Err(ExtractError::MissingField(k)) if k == b"info".to_vec()));
}
