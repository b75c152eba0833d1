//! Torrent metadata extraction: walks a decoded bencode dictionary, pulls
//! the required fields into a typed aggregate, and computes the SHA-1
//! identity hash over the exact original bytes of the "info" value — never
//! over a re-encoding, whose key order could differ from the source bytes.

use vstd::prelude::*;

use sha1::Digest;

use crate::bencode::BencodeData;
use crate::bencode::BencodeDecoder;
use crate::bencode::BencodeKind;
use crate::bencode::BencodeView;
use crate::bencode::ParseError;
use crate::bencode::ParseErrorV;
use crate::bencode::entry_views;
use crate::bencode::info_key;
use crate::bencode::spec_decode;
use crate::bencode::spec_info_key;
use crate::bencode::spec_kind;
use crate::bencode::spec_lookup;
use crate::bencode::span_view;

verus! {

/// An extraction error: either a decoding failure, or a semantic failure of
/// the decoded tree against what a torrent file must contain.
#[derive(Debug)]
pub enum ExtractError {
    /// The buffer is not well-formed bencode.
    Decode(ParseError),
    /// The top-level value is not a dictionary.
    NotADictionary,
    /// A required key is absent; carries the key.
    MissingField(Vec<u8>),
    /// A field has the wrong kind: (expected, actual).
    TypeMismatch(BencodeKind, BencodeKind),
    /// The piece table's length is not a multiple of twenty bytes.
    InvalidPieceTable,
    /// The span bookkeeping disagrees with the tree structure; this marks a
    /// defect in the decoder, never malformed input.
    InternalError,
}

/// The mathematical shape of an `ExtractError`.
pub enum ExtractErrorV {
    Decode(ParseErrorV),
    NotADictionary,
    MissingField(Seq<u8>),
    TypeMismatch(BencodeKind, BencodeKind),
    InvalidPieceTable,
    InternalError,
}

impl View for ExtractError {
    type V = ExtractErrorV;

    open spec fn view(&self) -> ExtractErrorV {
        match self {
            ExtractError::Decode(e) => ExtractErrorV::Decode(e@),
            ExtractError::NotADictionary => ExtractErrorV::NotADictionary,
            ExtractError::MissingField(k) => ExtractErrorV::MissingField(k@),
            ExtractError::TypeMismatch(a, b) => ExtractErrorV::TypeMismatch(*a, *b),
            ExtractError::InvalidPieceTable => ExtractErrorV::InvalidPieceTable,
            ExtractError::InternalError => ExtractErrorV::InternalError,
        }
    }
}

/// The fields a torrent's info dictionary must carry.
#[derive(Debug)]
pub struct TorrentInfo {
    /// Total content size in bytes.
    pub length: u64,
    /// Suggested file or directory name.
    pub name: Vec<u8>,
    /// Bytes per fixed-size chunk.
    pub piece_length: u64,
    /// Concatenation of 20-byte SHA-1 digests, one per chunk.
    pub pieces: Vec<u8>,
}

/// The mathematical shape of a `TorrentInfo`.
pub struct TorrentInfoView {
    pub length: u64,
    pub name: Seq<u8>,
    pub piece_length: u64,
    pub pieces: Seq<u8>,
}

impl View for TorrentInfo {
    type V = TorrentInfoView;

    open spec fn view(&self) -> TorrentInfoView {
        TorrentInfoView {
            length: self.length,
            name: self.name@,
            piece_length: self.piece_length,
            pieces: self.pieces@,
        }
    }
}

/// A parsed torrent: the tracker URL, the info fields, and the 20-byte
/// SHA-1 digest of the raw bytes of the info dictionary.
#[derive(Debug)]
pub struct Torrent {
    /// Tracker URL, as the raw bytes the file carries.
    pub announce: Vec<u8>,
    /// The extracted info fields.
    pub info: TorrentInfo,
    /// SHA-1 over the exact original bytes of the "info" value.
    pub info_hash: Vec<u8>,
}

/// The mathematical shape of a `Torrent`.
pub struct TorrentView {
    pub announce: Seq<u8>,
    pub info: TorrentInfoView,
    pub info_hash: Seq<u8>,
}

impl View for Torrent {
    type V = TorrentView;

    open spec fn view(&self) -> TorrentView {
        TorrentView { announce: self.announce@, info: self.info@, info_hash: self.info_hash@ }
    }
}

/// The 20-byte SHA-1 digest of a byte sequence, named but not written out:
/// every fact about it flows through `sha1_digest` below.
pub uninterp spec fn sha1_of(data: Seq<u8>) -> Seq<u8>;

/// Relies on the sha1 crate (`Sha1` through the `Digest` trait): the digest
/// is 20 bytes long and a function of the input bytes alone.
#[verifier::external_body]
fn sha1_digest(data: &[u8]) -> (r: Vec<u8>)
    ensures
        r@ == sha1_of(data@),
        r@.len() == 20,
{
    let mut hasher = sha1::Sha1::new();
    hasher.update(data);
    hasher.finalize().to_vec()
}

/// The bytes of the key `"announce"`.
pub open spec fn spec_announce_key() -> Seq<u8> {
    seq![97u8, 110u8, 110u8, 111u8, 117u8, 110u8, 99u8, 101u8]
}

/// The bytes of the key `"length"`.
pub open spec fn spec_length_key() -> Seq<u8> {
    seq![108u8, 101u8, 110u8, 103u8, 116u8, 104u8]
}

/// The bytes of the key `"name"`.
pub open spec fn spec_name_key() -> Seq<u8> {
    seq![110u8, 97u8, 109u8, 101u8]
}

/// The bytes of the key `"piece length"`.
pub open spec fn spec_piece_length_key() -> Seq<u8> {
    seq![112u8, 105u8, 101u8, 99u8, 101u8, 32u8, 108u8, 101u8, 110u8, 103u8, 116u8, 104u8]
}

/// The bytes of the key `"pieces"`.
pub open spec fn spec_pieces_key() -> Seq<u8> {
    seq![112u8, 105u8, 101u8, 99u8, 101u8, 115u8]
}

/// The bytes of the key `"announce"`, as a vector.
fn announce_key() -> (r: Vec<u8>)
    ensures
        r@ == spec_announce_key(),
{
    let mut v: Vec<u8> = Vec::new();
    v.push(97);
    v.push(110);
    v.push(110);
    v.push(111);
    v.push(117);
    v.push(110);
    v.push(99);
    v.push(101);
    proof {
        assert(v@ =~= spec_announce_key());
    }
    v
}

/// The bytes of the key `"length"`, as a vector.
fn length_key() -> (r: Vec<u8>)
    ensures
        r@ == spec_length_key(),
{
    let mut v: Vec<u8> = Vec::new();
    v.push(108);
    v.push(101);
    v.push(110);
    v.push(103);
    v.push(116);
    v.push(104);
    proof {
        assert(v@ =~= spec_length_key());
    }
    v
}

/// The bytes of the key `"name"`, as a vector.
fn name_key() -> (r: Vec<u8>)
    ensures
        r@ == spec_name_key(),
{
    let mut v: Vec<u8> = Vec::new();
    v.push(110);
    v.push(97);
    v.push(109);
    v.push(101);
    proof {
        assert(v@ =~= spec_name_key());
    }
    v
}

/// The bytes of the key `"piece length"`, as a vector.
fn piece_length_key() -> (r: Vec<u8>)
    ensures
        r@ == spec_piece_length_key(),
{
    let mut v: Vec<u8> = Vec::new();
    v.push(112);
    v.push(105);
    v.push(101);
    v.push(99);
    v.push(101);
    v.push(32);
    v.push(108);
    v.push(101);
    v.push(110);
    v.push(103);
    v.push(116);
    v.push(104);
    proof {
        assert(v@ =~= spec_piece_length_key());
    }
    v
}

/// The bytes of the key `"pieces"`, as a vector.
fn pieces_key() -> (r: Vec<u8>)
    ensures
        r@ == spec_pieces_key(),
{
    let mut v: Vec<u8> = Vec::new();
    v.push(112);
    v.push(105);
    v.push(101);
    v.push(99);
    v.push(101);
    v.push(115);
    proof {
        assert(v@ =~= spec_pieces_key());
    }
    v
}

/// What extracting a torrent from a buffer yields: the typed aggregate with
/// the hash of the raw "info" bytes, or the first failure, checked in the
/// order: decode, top-level shape, announce, info, length, name,
/// piece length, pieces, piece-table size, span bookkeeping.
pub open spec fn spec_extract(data: Seq<u8>) -> Result<TorrentView, ExtractErrorV> {
    match spec_decode(data) {
        Err(e) => Err(ExtractErrorV::Decode(e)),
        Ok((v, sp, _end)) => match v {
            BencodeView::Dictionary(es) => spec_extract_fields(data, es, sp),
            _ => Err(ExtractErrorV::NotADictionary),
        },
    }
}

/// Field extraction from the decoded top-level dictionary entries.
pub open spec fn spec_extract_fields(
    data: Seq<u8>,
    es: Seq<(Seq<u8>, BencodeView)>,
    sp: Option<(int, int)>,
) -> Result<TorrentView, ExtractErrorV> {
    match spec_lookup(es, spec_announce_key()) {
        None => Err(ExtractErrorV::MissingField(spec_announce_key())),
        Some(av) => match av {
            BencodeView::ByteString(announce) => match spec_lookup(es, spec_info_key()) {
                None => Err(ExtractErrorV::MissingField(spec_info_key())),
                Some(iv) => match iv {
                    BencodeView::Dictionary(ies) => spec_extract_info(data, announce, ies, sp),
                    _ => Err(
                        ExtractErrorV::TypeMismatch(BencodeKind::Dictionary, spec_kind(iv)),
                    ),
                },
            },
            _ => Err(ExtractErrorV::TypeMismatch(BencodeKind::ByteString, spec_kind(av))),
        },
    }
}

/// Field extraction from the info dictionary entries.
pub open spec fn spec_extract_info(
    data: Seq<u8>,
    announce: Seq<u8>,
    ies: Seq<(Seq<u8>, BencodeView)>,
    sp: Option<(int, int)>,
) -> Result<TorrentView, ExtractErrorV> {
    match spec_lookup(ies, spec_length_key()) {
        None => Err(ExtractErrorV::MissingField(spec_length_key())),
        Some(lv) => match lv {
            BencodeView::Integer(length) => match spec_lookup(ies, spec_name_key()) {
                None => Err(ExtractErrorV::MissingField(spec_name_key())),
                Some(nv) => match nv {
                    BencodeView::ByteString(name) => match spec_lookup(
                        ies,
                        spec_piece_length_key(),
                    ) {
                        None => Err(ExtractErrorV::MissingField(spec_piece_length_key())),
                        Some(pv) => match pv {
                            BencodeView::Integer(piece_length) => match spec_lookup(
                                ies,
                                spec_pieces_key(),
                            ) {
                                None => Err(ExtractErrorV::MissingField(spec_pieces_key())),
                                Some(sv) => match sv {
                                    BencodeView::ByteString(pieces) => if pieces.len() % 20 != 0 {
                                        Err(ExtractErrorV::InvalidPieceTable)
                                    } else {
                                        match sp {
                                            None => Err(ExtractErrorV::InternalError),
                                            Some((s, e)) => Ok(
                                                TorrentView {
                                                    announce,
                                                    info: TorrentInfoView {
                                                        length,
                                                        name,
                                                        piece_length,
                                                        pieces,
                                                    },
                                                    info_hash: sha1_of(data.subrange(s, e)),
                                                },
                                            ),
                                        }
                                    },
                                    _ => Err(
                                        ExtractErrorV::TypeMismatch(
                                            BencodeKind::ByteString,
                                            spec_kind(sv),
                                        ),
                                    ),
                                },
                            },
                            _ => Err(
                                ExtractErrorV::TypeMismatch(BencodeKind::Integer, spec_kind(pv)),
                            ),
                        },
                    },
                    _ => Err(
                        ExtractErrorV::TypeMismatch(BencodeKind::ByteString, spec_kind(nv)),
                    ),
                },
            },
            _ => Err(ExtractErrorV::TypeMismatch(BencodeKind::Integer, spec_kind(lv))),
        },
    }
}

/// Law: a `pieces` field whose length is not a multiple of twenty always
/// fails extraction with `InvalidPieceTable`, before any span is consulted
/// or any hashing happens — whatever the other fields hold.
pub proof fn lemma_invalid_piece_table(
    data: Seq<u8>,
    es: Seq<(Seq<u8>, BencodeView)>,
    sp: Option<(int, int)>,
    end: int,
    announce: Seq<u8>,
    ies: Seq<(Seq<u8>, BencodeView)>,
    length: u64,
    name: Seq<u8>,
    piece_length: u64,
    pieces: Seq<u8>,
)
    requires
        spec_decode(data) == Ok::<(BencodeView, Option<(int, int)>, int), ParseErrorV>(
            (BencodeView::Dictionary(es), sp, end),
        ),
        spec_lookup(es, spec_announce_key()) == Some(BencodeView::ByteString(announce)),
        spec_lookup(es, spec_info_key()) == Some(BencodeView::Dictionary(ies)),
        spec_lookup(ies, spec_length_key()) == Some(BencodeView::Integer(length)),
        spec_lookup(ies, spec_name_key()) == Some(BencodeView::ByteString(name)),
        spec_lookup(ies, spec_piece_length_key()) == Some(BencodeView::Integer(piece_length)),
        spec_lookup(ies, spec_pieces_key()) == Some(BencodeView::ByteString(pieces)),
        pieces.len() % 20 != 0,
    ensures
        spec_extract(data) == Err::<TorrentView, ExtractErrorV>(ExtractErrorV::InvalidPieceTable),
{
}

impl Torrent {
    /// Parses a whole torrent file: decodes the top-level dictionary, pulls
    /// the required fields into owned copies, and hashes the exact original
    /// bytes of the "info" value, sliced from the buffer by the recorded
    /// span.
    pub fn from_file(contents: &Vec<u8>) -> (r: Result<Torrent, ExtractError>)
        ensures
            match r {
                Ok(t) => spec_extract(contents@) == Ok::<TorrentView, ExtractErrorV>(t@),
                Err(e) => spec_extract(contents@) == Err::<TorrentView, ExtractErrorV>(e@),
            },
    {
        let (value, span) = match BencodeDecoder::decode(contents) {
            Err(e) => {
                return Err(ExtractError::Decode(e));
            },
            Ok(x) => x,
        };
        let entries = match &value {
            BencodeData::Dictionary(es) => es,
            _ => {
                return Err(ExtractError::NotADictionary);
            },
        };
        let announce = match BencodeDecoder::get_from_dict(entries, &announce_key()) {
            Err(e) => {
                return Err(e);
            },
            Ok(BencodeData::ByteString(b)) => vstd::slice::slice_to_vec(b.as_slice()),
            Ok(v) => {
                return Err(ExtractError::TypeMismatch(BencodeKind::ByteString, v.kind()));
            },
        };
        let info_entries = match BencodeDecoder::get_from_dict(entries, &info_key()) {
            Err(e) => {
                return Err(e);
            },
            Ok(BencodeData::Dictionary(es)) => es,
            Ok(v) => {
                return Err(ExtractError::TypeMismatch(BencodeKind::Dictionary, v.kind()));
            },
        };
        let length = match BencodeDecoder::get_from_dict(info_entries, &length_key()) {
            Err(e) => {
                return Err(e);
            },
            Ok(BencodeData::Integer(n)) => *n,
            Ok(v) => {
                return Err(ExtractError::TypeMismatch(BencodeKind::Integer, v.kind()));
            },
        };
        let name = match BencodeDecoder::get_from_dict(info_entries, &name_key()) {
            Err(e) => {
                return Err(e);
            },
            Ok(BencodeData::ByteString(b)) => vstd::slice::slice_to_vec(b.as_slice()),
            Ok(v) => {
                return Err(ExtractError::TypeMismatch(BencodeKind::ByteString, v.kind()));
            },
        };
        let piece_length = match BencodeDecoder::get_from_dict(info_entries, &piece_length_key()) {
            Err(e) => {
                return Err(e);
            },
            Ok(BencodeData::Integer(n)) => *n,
            Ok(v) => {
                return Err(ExtractError::TypeMismatch(BencodeKind::Integer, v.kind()));
            },
        };
        let pieces = match BencodeDecoder::get_from_dict(info_entries, &pieces_key()) {
            Err(e) => {
                return Err(e);
            },
            Ok(BencodeData::ByteString(b)) => vstd::slice::slice_to_vec(b.as_slice()),
            Ok(v) => {
                return Err(ExtractError::TypeMismatch(BencodeKind::ByteString, v.kind()));
            },
        };
        if pieces.len() % 20 != 0 {
            return Err(ExtractError::InvalidPieceTable);
        }
        let (start, end) = match span.info {
            None => {
                return Err(ExtractError::InternalError);
            },
            Some(p) => p,
        };
        let raw_info = vstd::slice::slice_subrange(contents.as_slice(), start, end);
        let info_hash = sha1_digest(raw_info);
        Ok(
            Torrent {
                announce,
                info: TorrentInfo { length, name, piece_length, pieces },
                info_hash,
            },
        )
    }
}

} // verus!
