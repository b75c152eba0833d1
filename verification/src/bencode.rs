//! The bencode value model and a single-pass recursive-descent decoder.
//!
//! The decoder is specified against a mathematical decoder (`spec_value` and
//! its companions) that maps a byte sequence, a starting offset and a nesting
//! budget to either a decoded value together with the offset just past it, or
//! to the exact error the decoder reports.

use vstd::prelude::*;

verus! {

/// ASCII byte values the grammar dispatches on.
pub const TOK_INT: u8 = 105;

/// ASCII `'e'`, terminating integers, lists and dictionaries.
pub const TOK_END: u8 = 101;

/// ASCII `'l'`, opening a list.
pub const TOK_LIST: u8 = 108;

/// ASCII `'d'`, opening a dictionary.
pub const TOK_DICT: u8 = 100;

/// ASCII `':'`, separating a byte string's length from its payload.
pub const TOK_COLON: u8 = 58;

/// ASCII `'0'`.
pub const DIGIT_ZERO: u8 = 48;

/// ASCII `'9'`.
pub const DIGIT_NINE: u8 = 57;

/// Maximum nesting depth of lists and dictionaries the decoder accepts;
/// deeper input fails with `NestingTooDeep` instead of recursing unboundedly.
pub const MAX_DEPTH: u64 = 200;

/// A bencode value: one of the four shapes the format defines.
/// Dictionary entries keep their original order; keys are raw byte strings.
#[derive(Debug)]
pub enum BencodeData {
    Integer(u64),
    ByteString(Vec<u8>),
    List(Vec<BencodeData>),
    Dictionary(Vec<(Vec<u8>, BencodeData)>),
}

/// The mathematical shape of a `BencodeData` value.
pub enum BencodeView {
    Integer(u64),
    ByteString(Seq<u8>),
    List(Seq<BencodeView>),
    Dictionary(Seq<(Seq<u8>, BencodeView)>),
}

/// The views of a sequence of values, element by element.
pub open spec fn seq_views(s: Seq<BencodeData>) -> Seq<BencodeView>
    decreases s,
{
    Seq::new(
        s.len(),
        |i: int| if 0 <= i < s.len() { s[i].view() } else { BencodeView::Integer(0) },
    )
}

/// The views of a sequence of dictionary entries, element by element.
pub open spec fn entry_views(s: Seq<(Vec<u8>, BencodeData)>) -> Seq<(Seq<u8>, BencodeView)>
    decreases s,
{
    Seq::new(
        s.len(),
        |i: int| if 0 <= i < s.len() { (s[i].0@, s[i].1.view()) } else {
            (Seq::<u8>::empty(), BencodeView::Integer(0))
        },
    )
}

impl View for BencodeData {
    type V = BencodeView;

    open spec fn view(&self) -> BencodeView
        decreases self,
    {
        match self {
            BencodeData::Integer(n) => BencodeView::Integer(*n),
            BencodeData::ByteString(b) => BencodeView::ByteString(b@),
            BencodeData::List(l) => BencodeView::List(seq_views(l@)),
            BencodeData::Dictionary(es) => BencodeView::Dictionary(entry_views(es@)),
        }
    }
}

/// A decoding error, carrying the offending byte offset where one is known.
#[derive(Debug, Clone)]
pub enum ParseError {
    /// The byte at this offset starts no bencode value.
    UnexpectedToken(usize),
    /// An integer whose digit run is empty, broken, or over 64 bits.
    InvalidInteger(usize),
    /// A byte-string length prefix that is malformed.
    InvalidLength(usize),
    /// A byte string declares more bytes than remain: (declared, available).
    /// A declared length over `u64::MAX` is reported as `u64::MAX`.
    BufferUnderrun(u64, u64),
    /// The buffer ended in the middle of a value.
    UnexpectedEndOfInput,
    /// Nesting deeper than `MAX_DEPTH`.
    NestingTooDeep,
    /// A dictionary key that is not a byte string.
    InvalidKey(usize),
    /// A dictionary key that was already present.
    DuplicateKey(Vec<u8>),
}

/// The mathematical shape of a `ParseError`, with exact offsets.
pub enum ParseErrorV {
    UnexpectedToken(int),
    InvalidInteger(int),
    InvalidLength(int),
    BufferUnderrun(u64, u64),
    UnexpectedEndOfInput,
    NestingTooDeep,
    InvalidKey(int),
    DuplicateKey(Seq<u8>),
}

impl View for ParseError {
    type V = ParseErrorV;

    open spec fn view(&self) -> ParseErrorV {
        match self {
            ParseError::UnexpectedToken(p) => ParseErrorV::UnexpectedToken(*p as int),
            ParseError::InvalidInteger(p) => ParseErrorV::InvalidInteger(*p as int),
            ParseError::InvalidLength(p) => ParseErrorV::InvalidLength(*p as int),
            ParseError::BufferUnderrun(a, b) => ParseErrorV::BufferUnderrun(*a, *b),
            ParseError::UnexpectedEndOfInput => ParseErrorV::UnexpectedEndOfInput,
            ParseError::NestingTooDeep => ParseErrorV::NestingTooDeep,
            ParseError::InvalidKey(p) => ParseErrorV::InvalidKey(*p as int),
            ParseError::DuplicateKey(k) => ParseErrorV::DuplicateKey(k@),
        }
    }
}

/// An ASCII decimal digit.
pub open spec fn is_digit_byte(b: u8) -> bool {
    DIGIT_ZERO <= b && b <= DIGIT_NINE
}

/// The numeric value of one ASCII digit.
pub open spec fn digit_val(b: u8) -> nat {
    (b - DIGIT_ZERO) as nat
}

/// The value of a run of ASCII digits read in base 10.
pub open spec fn digits_value(s: Seq<u8>) -> nat
    decreases s.len(),
{
    if s.len() == 0 {
        0
    } else {
        digits_value(s.drop_last()) * 10 + digit_val(s.last())
    }
}

/// The first offset at or after `i` holding no ASCII digit (or the end).
pub open spec fn end_of_digits(data: Seq<u8>, i: int) -> int
    decreases data.len() - i,
{
    if i < 0 || i >= data.len() {
        i
    } else if is_digit_byte(data[i]) {
        end_of_digits(data, i + 1)
    } else {
        i
    }
}

/// What decoding an integer (`'i' <digits> 'e'`) at offset `i` yields:
/// the value and the offset just past the `'e'`, or the exact error.
pub open spec fn spec_int(data: Seq<u8>, i: int) -> Result<(BencodeView, int), ParseErrorV> {
    if !(0 <= i < data.len()) {
        Err(ParseErrorV::UnexpectedEndOfInput)
    } else if data[i] != TOK_INT {
        Err(ParseErrorV::UnexpectedToken(i))
    } else {
        let j = end_of_digits(data, i + 1);
        if j >= data.len() {
            Err(ParseErrorV::UnexpectedEndOfInput)
        } else if data[j] != TOK_END {
            Err(ParseErrorV::InvalidInteger(j))
        } else if j == i + 1 {
            Err(ParseErrorV::InvalidInteger(j))
        } else if digits_value(data.subrange(i + 1, j)) > u64::MAX {
            Err(ParseErrorV::InvalidInteger(i + 1))
        } else {
            Ok((BencodeView::Integer(digits_value(data.subrange(i + 1, j)) as u64), j + 1))
        }
    }
}

/// What decoding a byte string (`<digits> ':' <bytes>`) at offset `i` yields:
/// the payload and the offset just past it, or the exact error.
pub open spec fn spec_byte_string(data: Seq<u8>, i: int) -> Result<(Seq<u8>, int), ParseErrorV> {
    if !(0 <= i < data.len()) {
        Err(ParseErrorV::UnexpectedEndOfInput)
    } else if !is_digit_byte(data[i]) {
        Err(ParseErrorV::InvalidLength(i))
    } else {
        let j = end_of_digits(data, i);
        if j >= data.len() {
            Err(ParseErrorV::UnexpectedEndOfInput)
        } else if data[j] != TOK_COLON {
            Err(ParseErrorV::InvalidLength(j))
        } else {
            let n = digits_value(data.subrange(i, j));
            if n > data.len() - j - 1 {
                Err(ParseErrorV::BufferUnderrun(
                    if n > u64::MAX { u64::MAX } else { n as u64 },
                    (data.len() - j - 1) as u64,
                ))
            } else {
                Ok((data.subrange(j + 1, j + 1 + n), j + 1 + n))
            }
        }
    }
}

/// The key under which a torrent file stores its info dictionary: `"info"`.
pub open spec fn spec_info_key() -> Seq<u8> {
    seq![105u8, 110u8, 102u8, 111u8]
}

/// What decoding one value at offset `i` with nesting budget `depth` yields.
pub open spec fn spec_value(data: Seq<u8>, i: int, depth: nat) -> Result<
    (BencodeView, int),
    ParseErrorV,
>
    decreases depth, data.len() - i, 0int,
{
    if !(0 <= i < data.len()) {
        Err(ParseErrorV::UnexpectedEndOfInput)
    } else if data[i] == TOK_INT {
        spec_int(data, i)
    } else if is_digit_byte(data[i]) {
        match spec_byte_string(data, i) {
            Ok((b, j)) => Ok((BencodeView::ByteString(b), j)),
            Err(e) => Err(e),
        }
    } else if data[i] == TOK_LIST {
        if depth == 0 {
            Err(ParseErrorV::NestingTooDeep)
        } else {
            match spec_items(data, i + 1, (depth - 1) as nat) {
                Ok((vs, j)) => Ok((BencodeView::List(vs), j)),
                Err(e) => Err(e),
            }
        }
    } else if data[i] == TOK_DICT {
        if depth == 0 {
            Err(ParseErrorV::NestingTooDeep)
        } else {
            match spec_entries(data, i + 1, (depth - 1) as nat, Seq::empty()) {
                Ok((es, _sp, j)) => Ok((BencodeView::Dictionary(es), j)),
                Err(e) => Err(e),
            }
        }
    } else {
        Err(ParseErrorV::UnexpectedToken(i))
    }
}

/// What decoding list items from offset `i` up to and past the closing `'e'`
/// yields. Elements are decoded with the same budget `depth`. The guard on
/// the element's end offset carries the termination measure; a decoded value
/// always satisfies it (`lemma_spec_value_advances`), so that branch decides
/// nothing.
pub open spec fn spec_items(data: Seq<u8>, i: int, depth: nat) -> Result<
    (Seq<BencodeView>, int),
    ParseErrorV,
>
    decreases depth, data.len() - i, 1int,
{
    if !(0 <= i < data.len()) {
        Err(ParseErrorV::UnexpectedEndOfInput)
    } else if data[i] == TOK_END {
        Ok((Seq::empty(), i + 1))
    } else {
        match spec_value(data, i, depth) {
            Err(e) => Err(e),
            Ok((v, j)) => if !(i < j <= data.len()) {
                Err(ParseErrorV::UnexpectedEndOfInput)
            } else {
                match spec_items(data, j, depth) {
                    Err(e) => Err(e),
                    Ok((vs, end)) => Ok((seq![v] + vs, end)),
                }
            },
        }
    }
}

/// What decoding dictionary entries from offset `i` up to and past the
/// closing `'e'` yields, given the keys `seen` so far: the entries in their
/// original order, the byte span of the value under the key `"info"` if that
/// key occurs, and the offset just past the `'e'`. A key equal to one in
/// `seen` fails with `DuplicateKey` once its value has been decoded. The
/// guards on end offsets carry the termination measure; decoded keys and
/// values always satisfy them (`lemma_spec_byte_string_bounds`,
/// `lemma_spec_value_advances`), so those branches decide nothing.
pub open spec fn spec_entries(data: Seq<u8>, i: int, depth: nat, seen: Seq<Seq<u8>>) -> Result<
    (Seq<(Seq<u8>, BencodeView)>, Option<(int, int)>, int),
    ParseErrorV,
>
    decreases depth, data.len() - i, 1int,
{
    if !(0 <= i < data.len()) {
        Err(ParseErrorV::UnexpectedEndOfInput)
    } else if data[i] == TOK_END {
        Ok((Seq::empty(), None, i + 1))
    } else if !is_digit_byte(data[i]) {
        Err(ParseErrorV::InvalidKey(i))
    } else {
        match spec_byte_string(data, i) {
            Err(e) => Err(e),
            Ok((k, j)) => if !(i < j <= data.len()) {
                Err(ParseErrorV::UnexpectedEndOfInput)
            } else {
                match spec_value(data, j, depth) {
                    Err(e) => Err(e),
                    Ok((v, m)) => if seen.contains(k) {
                        Err(ParseErrorV::DuplicateKey(k))
                    } else if !(j < m <= data.len()) {
                        Err(ParseErrorV::UnexpectedEndOfInput)
                    } else {
                        match spec_entries(data, m, depth, seen.push(k)) {
                            Err(e) => Err(e),
                            Ok((es, sp, end)) => Ok((
                                seq![(k, v)] + es,
                                if k == spec_info_key() {
                                    Some((j, m))
                                } else {
                                    sp
                                },
                                end,
                            )),
                        }
                    },
                }
            },
        }
    }
}

/// Appending one digit multiplies the value so far by ten and adds the digit.
proof fn lemma_digits_value_step(data: Seq<u8>, a: int, p: int)
    requires
        0 <= a <= p < data.len(),
    ensures
        digits_value(data.subrange(a, p + 1)) == digits_value(data.subrange(a, p)) * 10
            + digit_val(data[p]),
{
    assert(data.subrange(a, p + 1).drop_last() =~= data.subrange(a, p));
    assert(data.subrange(a, p + 1).last() == data[p]);
}

/// A value over `u64::MAX` stays over it when more digits follow.
proof fn lemma_digits_value_grows(data: Seq<u8>, a: int, p: int)
    requires
        0 <= a <= p < data.len(),
        digits_value(data.subrange(a, p)) > u64::MAX,
    ensures
        digits_value(data.subrange(a, p + 1)) > u64::MAX,
{
    lemma_digits_value_step(data, a, p);
    let v = digits_value(data.subrange(a, p));
    assert(v * 10 == v + 9 * v);
}

/// The decoder: static methods that advance a cursor over a byte buffer.
/// Each is proved to return exactly what the corresponding `spec_` function
/// says, so decoding is a function of the buffer and the starting offset.
pub struct BencodeDecoder;

impl BencodeDecoder {
    /// Decodes `'i' <digits> 'e'` at the cursor into an `Integer`, leaving
    /// the cursor just past the `'e'`; on any malformed input it returns the
    /// exact error `spec_int` assigns.
    pub fn decode_int(pointer: &mut usize, data: &Vec<u8>) -> (r: Result<
        BencodeData,
        ParseError,
    >)
        ensures
            match r {
                Ok(v) => ({
                    &&& spec_int(data@, *old(pointer) as int) == Ok::<
                        (BencodeView, int),
                        ParseErrorV,
                    >((v@, *final(pointer) as int))
                    &&& *old(pointer) < *final(pointer) <= data@.len()
                }),
                Err(e) => spec_int(data@, *old(pointer) as int) == Err::<
                    (BencodeView, int),
                    ParseErrorV,
                >(e@),
            },
    {
        let ghost i0: int = *pointer as int;
        if *pointer >= data.len() {
            return Err(ParseError::UnexpectedEndOfInput);
        }
        if data[*pointer] != TOK_INT {
            return Err(ParseError::UnexpectedToken(*pointer));
        }
        let start: usize = *pointer + 1;
        let mut p: usize = start;
        let mut val: u64 = 0;
        let mut overflow: bool = false;
        while p < data.len() && DIGIT_ZERO <= data[p] && data[p] <= DIGIT_NINE
            invariant
                i0 + 1 == start as int,
                start <= p <= data@.len(),
                forall|t: int| start <= t < p ==> is_digit_byte(data@[t]),
                end_of_digits(data@, p as int) == end_of_digits(data@, start as int),
                !overflow ==> val == digits_value(data@.subrange(start as int, p as int)),
                overflow ==> digits_value(data@.subrange(start as int, p as int)) > u64::MAX,
            decreases data@.len() - p,
        {
            let d: u64 = (data[p] - DIGIT_ZERO) as u64;
            proof {
                lemma_digits_value_step(data@, start as int, p as int);
            }
            if overflow {
                proof {
                    lemma_digits_value_grows(data@, start as int, p as int);
                }
            } else if val > (u64::MAX - d) / 10 {
                proof {
                    assert(val as int * 10 + d as int > u64::MAX as int) by (nonlinear_arith)
                        requires
                            val as int > (u64::MAX as int - d as int) / 10,
                            0 <= d as int <= 9,
                    ;
                }
                overflow = true;
            } else {
                proof {
                    assert(val as int * 10 + d as int <= u64::MAX as int) by (nonlinear_arith)
                        requires
                            val as int <= (u64::MAX as int - d as int) / 10,
                            0 <= d as int <= 9,
                    ;
                }
                val = val * 10 + d;
            }
            p = p + 1;
        }
        assert(end_of_digits(data@, p as int) == p as int);
        if p >= data.len() {
            return Err(ParseError::UnexpectedEndOfInput);
        }
        if data[p] != TOK_END {
            return Err(ParseError::InvalidInteger(p));
        }
        if p == start {
            return Err(ParseError::InvalidInteger(p));
        }
        if overflow {
            return Err(ParseError::InvalidInteger(start));
        }
        *pointer = p + 1;
        Ok(BencodeData::Integer(val))
    }

    /// Decodes `<digits> ':' <bytes>` at the cursor into a `ByteString`,
    /// leaving the cursor just past the payload; on any malformed or
    /// truncated input it returns the exact error `spec_byte_string` assigns.
    pub fn decode_byte_string(pointer: &mut usize, data: &Vec<u8>) -> (r: Result<
        BencodeData,
        ParseError,
    >)
        ensures
            match r {
                Ok(v) => ({
                    &&& v matches BencodeData::ByteString(bs) && spec_byte_string(
                        data@,
                        *old(pointer) as int,
                    ) == Ok::<(Seq<u8>, int), ParseErrorV>((bs@, *final(pointer) as int))
                    &&& *old(pointer) < *final(pointer) <= data@.len()
                }),
                Err(e) => spec_byte_string(data@, *old(pointer) as int) == Err::<
                    (Seq<u8>, int),
                    ParseErrorV,
                >(e@),
            },
    {
        match Self::decode_raw_byte_string(pointer, data) {
            Ok(bytes) => Ok(BencodeData::ByteString(bytes)),
            Err(e) => Err(e),
        }
    }

    /// The byte-string decoder proper, yielding the raw payload; dictionary
    /// keys are decoded through this as well.
    fn decode_raw_byte_string(pointer: &mut usize, data: &Vec<u8>) -> (r: Result<
        Vec<u8>,
        ParseError,
    >)
        ensures
            match r {
                Ok(bs) => ({
                    &&& spec_byte_string(data@, *old(pointer) as int) == Ok::<
                        (Seq<u8>, int),
                        ParseErrorV,
                    >((bs@, *final(pointer) as int))
                    &&& *old(pointer) < *final(pointer) <= data@.len()
                }),
                Err(e) => spec_byte_string(data@, *old(pointer) as int) == Err::<
                    (Seq<u8>, int),
                    ParseErrorV,
                >(e@),
            },
    {
        let ghost i0: int = *pointer as int;
        if *pointer >= data.len() {
            return Err(ParseError::UnexpectedEndOfInput);
        }
        if !(DIGIT_ZERO <= data[*pointer] && data[*pointer] <= DIGIT_NINE) {
            return Err(ParseError::InvalidLength(*pointer));
        }
        let start: usize = *pointer;
        let mut p: usize = start;
        let mut val: u64 = 0;
        let mut overflow: bool = false;
        while p < data.len() && DIGIT_ZERO <= data[p] && data[p] <= DIGIT_NINE
            invariant
                i0 == start as int,
                start <= p <= data@.len(),
                forall|t: int| start <= t < p ==> is_digit_byte(data@[t]),
                end_of_digits(data@, p as int) == end_of_digits(data@, start as int),
                !overflow ==> val == digits_value(data@.subrange(start as int, p as int)),
                overflow ==> digits_value(data@.subrange(start as int, p as int)) > u64::MAX,
            decreases data@.len() - p,
        {
            let d: u64 = (data[p] - DIGIT_ZERO) as u64;
            proof {
                lemma_digits_value_step(data@, start as int, p as int);
            }
            if overflow {
                proof {
                    lemma_digits_value_grows(data@, start as int, p as int);
                }
            } else if val > (u64::MAX - d) / 10 {
                proof {
                    assert(val as int * 10 + d as int > u64::MAX as int) by (nonlinear_arith)
                        requires
                            val as int > (u64::MAX as int - d as int) / 10,
                            0 <= d as int <= 9,
                    ;
                }
                overflow = true;
            } else {
                proof {
                    assert(val as int * 10 + d as int <= u64::MAX as int) by (nonlinear_arith)
                        requires
                            val as int <= (u64::MAX as int - d as int) / 10,
                            0 <= d as int <= 9,
                    ;
                }
                val = val * 10 + d;
            }
            p = p + 1;
        }
        assert(end_of_digits(data@, p as int) == p as int);
        if p >= data.len() {
            return Err(ParseError::UnexpectedEndOfInput);
        }
        if data[p] != TOK_COLON {
            return Err(ParseError::InvalidLength(p));
        }
        let available: usize = data.len() - p - 1;
        if overflow {
            return Err(ParseError::BufferUnderrun(u64::MAX, available as u64));
        }
        if val > available as u64 {
            return Err(ParseError::BufferUnderrun(val, available as u64));
        }
        let len: usize = val as usize;
        let payload_start: usize = p + 1;
        let s = vstd::slice::slice_subrange(data.as_slice(), payload_start, payload_start + len);
        let payload = vstd::slice::slice_to_vec(s);
        *pointer = payload_start + len;
        Ok(payload)
    }

    /// Decodes one value of any kind at the cursor, with `depth` remaining
    /// levels of list/dictionary nesting allowed.
    fn decode_value(pointer: &mut usize, data: &Vec<u8>, depth: u64) -> (r: Result<
        BencodeData,
        ParseError,
    >)
        ensures
            match r {
                Ok(v) => ({
                    &&& spec_value(data@, *old(pointer) as int, depth as nat) == Ok::<
                        (BencodeView, int),
                        ParseErrorV,
                    >((v@, *final(pointer) as int))
                    &&& *old(pointer) < *final(pointer) <= data@.len()
                }),
                Err(e) => spec_value(data@, *old(pointer) as int, depth as nat) == Err::<
                    (BencodeView, int),
                    ParseErrorV,
                >(e@),
            },
        decreases depth, 0int,
    {
        if *pointer >= data.len() {
            return Err(ParseError::UnexpectedEndOfInput);
        }
        let c = data[*pointer];
        if c == TOK_INT {
            Self::decode_int(pointer, data)
        } else if DIGIT_ZERO <= c && c <= DIGIT_NINE {
            Self::decode_byte_string(pointer, data)
        } else if c == TOK_LIST {
            if depth == 0 {
                return Err(ParseError::NestingTooDeep);
            }
            *pointer = *pointer + 1;
            match Self::decode_items(pointer, data, depth - 1) {
                Ok(items) => Ok(BencodeData::List(items)),
                Err(e) => Err(e),
            }
        } else if c == TOK_DICT {
            if depth == 0 {
                return Err(ParseError::NestingTooDeep);
            }
            *pointer = *pointer + 1;
            match Self::decode_entries(pointer, data, depth - 1) {
                Ok((es, _span)) => Ok(BencodeData::Dictionary(es)),
                Err(e) => Err(e),
            }
        } else {
            Err(ParseError::UnexpectedToken(*pointer))
        }
    }

    /// Decodes list elements up to and past the closing `'e'`.
    fn decode_items(pointer: &mut usize, data: &Vec<u8>, depth: u64) -> (r: Result<
        Vec<BencodeData>,
        ParseError,
    >)
        requires
            *old(pointer) <= data@.len(),
        ensures
            match r {
                Ok(items) => ({
                    &&& spec_items(data@, *old(pointer) as int, depth as nat) == Ok::<
                        (Seq<BencodeView>, int),
                        ParseErrorV,
                    >((seq_views(items@), *final(pointer) as int))
                    &&& *old(pointer) < *final(pointer) <= data@.len()
                }),
                Err(e) => spec_items(data@, *old(pointer) as int, depth as nat) == Err::<
                    (Seq<BencodeView>, int),
                    ParseErrorV,
                >(e@),
            },
        decreases depth, 1int,
    {
        let ghost i0: int = *pointer as int;
        let ghost d: nat = depth as nat;
        let mut items: Vec<BencodeData> = Vec::new();
        proof {
            assert(seq_views(items@) =~= Seq::<BencodeView>::empty());
            if let Ok((vs, end)) = spec_items(data@, i0, d) {
                assert(seq_views(items@) + vs =~= vs);
            }
        }
        loop
            invariant
                i0 == *old(pointer) as int,
                i0 <= *pointer as int <= data@.len(),
                spec_items(data@, i0, d) == (match spec_items(data@, *pointer as int, d) {
                    Ok((vs, end)) => Ok::<(Seq<BencodeView>, int), ParseErrorV>(
                        (seq_views(items@) + vs, end),
                    ),
                    Err(e) => Err::<(Seq<BencodeView>, int), ParseErrorV>(e),
                }),
                d == depth as nat,
            decreases data@.len() - *pointer,
        {
            if *pointer >= data.len() {
                proof {
                    assert(spec_items(data@, *pointer as int, d) == Err::<
                        (Seq<BencodeView>, int),
                        ParseErrorV,
                    >(ParseErrorV::UnexpectedEndOfInput));
                }
                return Err(ParseError::UnexpectedEndOfInput);
            }
            if data[*pointer] == TOK_END {
                *pointer = *pointer + 1;
                proof {
                    assert(seq_views(items@) + Seq::<BencodeView>::empty() =~= seq_views(items@));
                }
                return Ok(items);
            }
            let ghost p_pre: int = *pointer as int;
            match Self::decode_value(pointer, data, depth) {
                Err(e) => {
                    proof {
                        assert(spec_items(data@, p_pre, d) == Err::<
                            (Seq<BencodeView>, int),
                            ParseErrorV,
                        >(e@));
                    }
                    return Err(e);
                },
                Ok(v) => {
                    let ghost old_items = items@;
                    items.push(v);
                    proof {
                        assert(spec_items(data@, p_pre, d) == (match spec_items(
                            data@,
                            *pointer as int,
                            d,
                        ) {
                            Ok((vs, end)) => Ok::<(Seq<BencodeView>, int), ParseErrorV>(
                                (seq![v@] + vs, end),
                            ),
                            Err(e) => Err::<(Seq<BencodeView>, int), ParseErrorV>(e),
                        }));
                        assert(seq_views(items@) =~= seq_views(old_items) + seq![v@]);
                        if let Ok((vs, end)) = spec_items(data@, *pointer as int, d) {
                            assert(seq_views(old_items) + (seq![v@] + vs) =~= seq_views(items@)
                                + vs);
                        }
                    }
                },
            }
        }
    }

    /// Decodes dictionary entries up to and past the closing `'e'`, returning
    /// them in their original order together with the byte span of the value
    /// stored under the key `"info"`, if that key occurs.
    fn decode_entries(pointer: &mut usize, data: &Vec<u8>, depth: u64) -> (r: Result<
        (Vec<(Vec<u8>, BencodeData)>, Option<(usize, usize)>),
        ParseError,
    >)
        requires
            *old(pointer) <= data@.len(),
        ensures
            match r {
                Ok((es, sp)) => ({
                    &&& spec_entries(data@, *old(pointer) as int, depth as nat, Seq::empty())
                        == Ok::<
                        (Seq<(Seq<u8>, BencodeView)>, Option<(int, int)>, int),
                        ParseErrorV,
                    >((entry_views(es@), span_view(sp), *final(pointer) as int))
                    &&& *old(pointer) < *final(pointer) <= data@.len()
                    &&& (sp matches Some(s2) ==> *old(pointer) <= s2.0 < s2.1 <= data@.len())
                }),
                Err(e) => spec_entries(data@, *old(pointer) as int, depth as nat, Seq::empty())
                    == Err::<(Seq<(Seq<u8>, BencodeView)>, Option<(int, int)>, int), ParseErrorV>(
                    e@,
                ),
            },
        decreases depth, 1int,
    {
        let ghost i0: int = *pointer as int;
        let ghost d: nat = depth as nat;
        let mut entries: Vec<(Vec<u8>, BencodeData)> = Vec::new();
        let mut span: Option<(usize, usize)> = None;
        let ikey = info_key();
        proof {
            assert(entry_views(entries@) =~= Seq::<(Seq<u8>, BencodeView)>::empty());
            assert(entry_keys(entries@) =~= Seq::<Seq<u8>>::empty());
            if let Ok((es2, sp2, end)) = spec_entries(data@, i0, d, entry_keys(entries@)) {
                assert(entry_views(entries@) + es2 =~= es2);
            }
        }
        loop
            invariant
                i0 == *old(pointer) as int,
                i0 <= *pointer as int <= data@.len(),
                spec_entries(data@, i0, d, Seq::empty()) == (match spec_entries(
                    data@,
                    *pointer as int,
                    d,
                    entry_keys(entries@),
                ) {
                    Ok((es2, sp2, end)) => Ok::<
                        (Seq<(Seq<u8>, BencodeView)>, Option<(int, int)>, int),
                        ParseErrorV,
                    >(
                        (
                            entry_views(entries@) + es2,
                            if span_view(span) is Some {
                                span_view(span)
                            } else {
                                sp2
                            },
                            end,
                        ),
                    ),
                    Err(e) => Err::<
                        (Seq<(Seq<u8>, BencodeView)>, Option<(int, int)>, int),
                        ParseErrorV,
                    >(e),
                }),
                span matches Some(s2) ==> i0 <= s2.0 < s2.1 <= *pointer as int,
                ikey@ == spec_info_key(),
                d == depth as nat,
            decreases data@.len() - *pointer,
        {
            let ghost seen = entry_keys(entries@);
            if *pointer >= data.len() {
                proof {
                    assert(spec_entries(data@, *pointer as int, d, seen) == Err::<
                        (Seq<(Seq<u8>, BencodeView)>, Option<(int, int)>, int),
                        ParseErrorV,
                    >(ParseErrorV::UnexpectedEndOfInput));
                }
                return Err(ParseError::UnexpectedEndOfInput);
            }
            if data[*pointer] == TOK_END {
                *pointer = *pointer + 1;
                proof {
                    assert(entry_views(entries@) + Seq::<(Seq<u8>, BencodeView)>::empty()
                        =~= entry_views(entries@));
                }
                return Ok((entries, span));
            }
            if !(DIGIT_ZERO <= data[*pointer] && data[*pointer] <= DIGIT_NINE) {
                proof {
                    assert(spec_entries(data@, *pointer as int, d, seen) == Err::<
                        (Seq<(Seq<u8>, BencodeView)>, Option<(int, int)>, int),
                        ParseErrorV,
                    >(ParseErrorV::InvalidKey(*pointer as int)));
                }
                return Err(ParseError::InvalidKey(*pointer));
            }
            let ghost p_pre: int = *pointer as int;
            let key = match Self::decode_raw_byte_string(pointer, data) {
                Err(e) => {
                    proof {
                        assert(spec_entries(data@, p_pre, d, seen) == Err::<
                            (Seq<(Seq<u8>, BencodeView)>, Option<(int, int)>, int),
                            ParseErrorV,
                        >(e@));
                    }
                    return Err(e);
                },
                Ok(k) => k,
            };
            let value_start = *pointer;
            let value = match Self::decode_value(pointer, data, depth) {
                Err(e) => {
                    proof {
                        assert(spec_entries(data@, p_pre, d, seen) == Err::<
                            (Seq<(Seq<u8>, BencodeView)>, Option<(int, int)>, int),
                            ParseErrorV,
                        >(e@));
                    }
                    return Err(e);
                },
                Ok(v) => v,
            };
            let value_end = *pointer;
            if dict_contains_key(&entries, &key) {
                proof {
                    assert(spec_entries(data@, p_pre, d, seen) == Err::<
                        (Seq<(Seq<u8>, BencodeView)>, Option<(int, int)>, int),
                        ParseErrorV,
                    >(ParseErrorV::DuplicateKey(key@)));
                }
                return Err(ParseError::DuplicateKey(key));
            }
            let key_is_info = bytes_eq(&key, &ikey);
            if span.is_none() && key_is_info {
                span = Some((value_start, value_end));
            }
            let ghost old_entries = entries@;
            let ghost old_span = span;
            let ghost kv: Seq<u8> = key@;
            let ghost vv: BencodeView = value@;
            entries.push((key, value));
            proof {
                assert(spec_entries(data@, p_pre, d, entry_keys(old_entries)) == (match
                    spec_entries(data@, *pointer as int, d, entry_keys(old_entries).push(kv)) {
                    Ok((es2, sp2, end)) => Ok::<
                        (Seq<(Seq<u8>, BencodeView)>, Option<(int, int)>, int),
                        ParseErrorV,
                    >(
                        (
                            seq![(kv, vv)] + es2,
                            if kv == spec_info_key() {
                                Some((value_start as int, value_end as int))
                            } else {
                                sp2
                            },
                            end,
                        ),
                    ),
                    Err(e) => Err::<
                        (Seq<(Seq<u8>, BencodeView)>, Option<(int, int)>, int),
                        ParseErrorV,
                    >(e),
                }));
                assert(entry_keys(entries@) =~= entry_keys(old_entries).push(kv));
                assert(entry_views(entries@) =~= entry_views(old_entries) + seq![(kv, vv)]);
                if let Ok((es2, sp2, end)) = spec_entries(
                    data@,
                    *pointer as int,
                    d,
                    entry_keys(entries@),
                ) {
                    assert(entry_views(old_entries) + (seq![(kv, vv)] + es2) =~= entry_views(
                        entries@,
                    ) + es2);
                }
            }
        }
    }
}

impl BencodeDecoder {
    /// Decodes a list (`'l' <value>* 'e'`) at the cursor; a cursor that does
    /// not rest on a list opener is rejected outright.
    pub fn decode_list(pointer: &mut usize, data: &Vec<u8>) -> (r: Result<
        BencodeData,
        ParseError,
    >)
        ensures
            ({
                let i = *old(pointer) as int;
                if i < data@.len() && data@[i] == TOK_LIST {
                    match r {
                        Ok(v) => spec_value(data@, i, MAX_DEPTH as nat) == Ok::<
                            (BencodeView, int),
                            ParseErrorV,
                        >((v@, *final(pointer) as int)) && i < *final(pointer) as int
                            <= data@.len(),
                        Err(e) => spec_value(data@, i, MAX_DEPTH as nat) == Err::<
                            (BencodeView, int),
                            ParseErrorV,
                        >(e@),
                    }
                } else if i >= data@.len() {
                    r matches Err(e) && e@ == ParseErrorV::UnexpectedEndOfInput
                } else {
                    r matches Err(e) && e@ == ParseErrorV::UnexpectedToken(i)
                }
            }),
    {
        if *pointer >= data.len() {
            return Err(ParseError::UnexpectedEndOfInput);
        }
        if data[*pointer] != TOK_LIST {
            return Err(ParseError::UnexpectedToken(*pointer));
        }
        Self::decode_value(pointer, data, MAX_DEPTH)
    }

    /// Decodes a dictionary (`'d' (<key> <value>)* 'e'`) at the cursor; a
    /// cursor that does not rest on a dictionary opener is rejected outright.
    pub fn decode_dict(pointer: &mut usize, data: &Vec<u8>) -> (r: Result<
        BencodeData,
        ParseError,
    >)
        ensures
            ({
                let i = *old(pointer) as int;
                if i < data@.len() && data@[i] == TOK_DICT {
                    match r {
                        Ok(v) => spec_value(data@, i, MAX_DEPTH as nat) == Ok::<
                            (BencodeView, int),
                            ParseErrorV,
                        >((v@, *final(pointer) as int)) && i < *final(pointer) as int
                            <= data@.len(),
                        Err(e) => spec_value(data@, i, MAX_DEPTH as nat) == Err::<
                            (BencodeView, int),
                            ParseErrorV,
                        >(e@),
                    }
                } else if i >= data@.len() {
                    r matches Err(e) && e@ == ParseErrorV::UnexpectedEndOfInput
                } else {
                    r matches Err(e) && e@ == ParseErrorV::UnexpectedToken(i)
                }
            }),
    {
        if *pointer >= data.len() {
            return Err(ParseError::UnexpectedEndOfInput);
        }
        if data[*pointer] != TOK_DICT {
            return Err(ParseError::UnexpectedToken(*pointer));
        }
        Self::decode_value(pointer, data, MAX_DEPTH)
    }

    /// Decodes a whole buffer from offset zero, handing back the value tree
    /// and, separately, the span index: parser metadata that records where
    /// the value under the top-level key `"info"` lies in the buffer.
    pub fn decode(data: &Vec<u8>) -> (r: Result<(BencodeData, SpanIndex), ParseError>)
        ensures
            match r {
                Ok((v, si)) => ({
                    &&& spec_decode(data@) matches Ok((vv, sp, end)) && vv == v@ && sp
                        == span_view(si.info)
                    &&& (si.info matches Some(s2) ==> 0 <= s2.0 < s2.1 <= data@.len())
                }),
                Err(e) => spec_decode(data@) == Err::<
                    (BencodeView, Option<(int, int)>, int),
                    ParseErrorV,
                >(e@),
            },
    {
        let mut p: usize = 0;
        if data.len() == 0 {
            return Err(ParseError::UnexpectedEndOfInput);
        }
        if data[0] == TOK_DICT {
            p = 1;
            match Self::decode_entries(&mut p, data, MAX_DEPTH - 1) {
                Ok((es, sp)) => Ok((BencodeData::Dictionary(es), SpanIndex { info: sp })),
                Err(e) => Err(e),
            }
        } else {
            match Self::decode_value(&mut p, data, MAX_DEPTH) {
                Ok(v) => Ok((v, SpanIndex { info: None })),
                Err(e) => Err(e),
            }
        }
    }

    /// Looks a key up in decoded dictionary entries, returning the first
    /// (and, for a decoded dictionary, only) value stored under it.
    pub fn get_from_dict<'a>(dict: &'a Vec<(Vec<u8>, BencodeData)>, key: &Vec<u8>) -> (r: Result<
        &'a BencodeData,
        crate::torrent::ExtractError,
    >)
        ensures
            match r {
                Ok(v) => spec_lookup(entry_views(dict@), key@) == Some(v@),
                Err(e) => ({
                    &&& spec_lookup(entry_views(dict@), key@) is None
                    &&& e matches crate::torrent::ExtractError::MissingField(k2) && k2@ == key@
                }),
            },
    {
        let mut i: usize = 0;
        proof {
            assert(entry_views(dict@).skip(0) =~= entry_views(dict@));
        }
        while i < dict.len()
            invariant
                i <= dict@.len(),
                spec_lookup(entry_views(dict@), key@) == spec_lookup(
                    entry_views(dict@).skip(i as int),
                    key@,
                ),
            decreases dict@.len() - i,
        {
            let ghost es = entry_views(dict@);
            proof {
                assert(es.skip(i as int)[0] == es[i as int]);
            }
            if bytes_eq(&dict[i].0, key) {
                return Ok(&dict[i].1);
            }
            proof {
                assert(es.skip(i as int).drop_first() =~= es.skip(i as int + 1));
            }
            i = i + 1;
        }
        proof {
            assert(entry_views(dict@).skip(i as int) =~= Seq::<(Seq<u8>, BencodeView)>::empty());
        }
        Err(crate::torrent::ExtractError::MissingField(vstd::slice::slice_to_vec(key.as_slice())))
    }
}

/// What decoding a whole buffer from offset zero yields: the value, the
/// recorded span of the top-level `"info"` value, and the end offset.
pub open spec fn spec_decode(data: Seq<u8>) -> Result<
    (BencodeView, Option<(int, int)>, int),
    ParseErrorV,
> {
    if data.len() == 0 {
        Err(ParseErrorV::UnexpectedEndOfInput)
    } else if data[0] == TOK_DICT {
        match spec_entries(data, 1, (MAX_DEPTH - 1) as nat, Seq::empty()) {
            Ok((es, sp, end)) => Ok((BencodeView::Dictionary(es), sp, end)),
            Err(e) => Err(e),
        }
    } else {
        match spec_value(data, 0, MAX_DEPTH as nat) {
            Ok((v, end)) => Ok((v, None, end)),
            Err(e) => Err(e),
        }
    }
}

/// Parser metadata a decode hands back beside the value tree: the byte span
/// `[start, end)` of the value under the top-level key `"info"`, if any.
/// It is kept apart from the value tree so that a caller can hash the
/// original bytes of that value rather than a re-encoding.
pub struct SpanIndex {
    pub info: Option<(usize, usize)>,
}

/// The first value stored under a key, searched in entry order.
pub open spec fn spec_lookup(es: Seq<(Seq<u8>, BencodeView)>, k: Seq<u8>) -> Option<BencodeView>
    decreases es.len(),
{
    if es.len() == 0 {
        None
    } else if es[0].0 == k {
        Some(es[0].1)
    } else {
        spec_lookup(es.drop_first(), k)
    }
}

/// The kind of a bencode value, for reporting type mismatches.
#[derive(Debug, Clone, Copy, PartialEq, Eq, Structural)]
pub enum BencodeKind {
    Integer,
    ByteString,
    List,
    Dictionary,
}

/// The kind of a value's mathematical shape.
pub open spec fn spec_kind(v: BencodeView) -> BencodeKind {
    match v {
        BencodeView::Integer(_) => BencodeKind::Integer,
        BencodeView::ByteString(_) => BencodeKind::ByteString,
        BencodeView::List(_) => BencodeKind::List,
        BencodeView::Dictionary(_) => BencodeKind::Dictionary,
    }
}

impl BencodeData {
    /// The kind of this value.
    pub fn kind(&self) -> (k: BencodeKind)
        ensures
            k == spec_kind(self@),
    {
        match self {
            BencodeData::Integer(_) => BencodeKind::Integer,
            BencodeData::ByteString(_) => BencodeKind::ByteString,
            BencodeData::List(_) => BencodeKind::List,
            BencodeData::Dictionary(_) => BencodeKind::Dictionary,
        }
    }

    /// The integer payload, or a `TypeMismatch` naming both kinds.
    pub fn get_int(self) -> (r: Result<u64, crate::torrent::ExtractError>)
        ensures
            match r {
                Ok(n) => self@ == BencodeView::Integer(n),
                Err(e) => !(self@ is Integer) && e == crate::torrent::ExtractError::TypeMismatch(
                    BencodeKind::Integer,
                    spec_kind(self@),
                ),
            },
    {
        match self {
            BencodeData::Integer(n) => Ok(n),
            v => Err(crate::torrent::ExtractError::TypeMismatch(BencodeKind::Integer, v.kind())),
        }
    }

    /// The byte-string payload, or a `TypeMismatch` naming both kinds.
    pub fn get_byte_string(self) -> (r: Result<Vec<u8>, crate::torrent::ExtractError>)
        ensures
            match r {
                Ok(b) => self@ == BencodeView::ByteString(b@),
                Err(e) => !(self@ is ByteString) && e
                    == crate::torrent::ExtractError::TypeMismatch(
                    BencodeKind::ByteString,
                    spec_kind(self@),
                ),
            },
    {
        match self {
            BencodeData::ByteString(b) => Ok(b),
            v => Err(
                crate::torrent::ExtractError::TypeMismatch(BencodeKind::ByteString, v.kind()),
            ),
        }
    }

    /// The list elements, or a `TypeMismatch` naming both kinds.
    pub fn get_list(self) -> (r: Result<Vec<BencodeData>, crate::torrent::ExtractError>)
        ensures
            match r {
                Ok(l) => self@ == BencodeView::List(seq_views(l@)),
                Err(e) => !(self@ is List) && e == crate::torrent::ExtractError::TypeMismatch(
                    BencodeKind::List,
                    spec_kind(self@),
                ),
            },
    {
        match self {
            BencodeData::List(l) => Ok(l),
            v => Err(crate::torrent::ExtractError::TypeMismatch(BencodeKind::List, v.kind())),
        }
    }

    /// The dictionary entries, or a `TypeMismatch` naming both kinds.
    pub fn get_dict(self) -> (r: Result<
        Vec<(Vec<u8>, BencodeData)>,
        crate::torrent::ExtractError,
    >)
        ensures
            match r {
                Ok(d) => self@ == BencodeView::Dictionary(entry_views(d@)),
                Err(e) => !(self@ is Dictionary) && e
                    == crate::torrent::ExtractError::TypeMismatch(
                    BencodeKind::Dictionary,
                    spec_kind(self@),
                ),
            },
    {
        match self {
            BencodeData::Dictionary(d) => Ok(d),
            v => Err(
                crate::torrent::ExtractError::TypeMismatch(BencodeKind::Dictionary, v.kind()),
            ),
        }
    }
}

/// The span of dictionary-entry offsets as mathematical integers.
pub open spec fn span_view(sp: Option<(usize, usize)>) -> Option<(int, int)> {
    match sp {
        Some((a, b)) => Some((a as int, b as int)),
        None => None,
    }
}

/// The keys of a sequence of dictionary entries, in order.
pub open spec fn entry_keys(s: Seq<(Vec<u8>, BencodeData)>) -> Seq<Seq<u8>> {
    Seq::new(s.len(), |i: int| if 0 <= i < s.len() { s[i].0@ } else { Seq::<u8>::empty() })
}

/// The shortest ASCII decimal digit run for a number (one `'0'` for zero).
pub open spec fn spec_decimal(n: nat) -> Seq<u8>
    decreases n,
{
    if n < 10 {
        seq![(DIGIT_ZERO + n) as u8]
    } else {
        spec_decimal(n / 10).push((DIGIT_ZERO + n % 10) as u8)
    }
}

/// A decimal run is nonempty, holds digits only, and reads back as its
/// number.
pub proof fn lemma_decimal_digits(n: nat)
    ensures
        spec_decimal(n).len() >= 1,
        forall|i: int| 0 <= i < spec_decimal(n).len() ==> is_digit_byte(#[trigger] spec_decimal(n)[i]),
        digits_value(spec_decimal(n)) == n,
    decreases n,
{
    if n < 10 {
        assert(spec_decimal(n).drop_last() =~= Seq::<u8>::empty());
        assert(digits_value(Seq::<u8>::empty()) == 0);
        assert(spec_decimal(n).last() == (DIGIT_ZERO + n) as u8);
        assert(digits_value(spec_decimal(n)) == digit_val((DIGIT_ZERO + n) as u8));
    } else {
        lemma_decimal_digits(n / 10);
        let s = spec_decimal(n / 10);
        let full = spec_decimal(n);
        assert(full.drop_last() =~= s);
        assert(full.last() == (DIGIT_ZERO + n % 10) as u8);
        assert(digits_value(full) == digits_value(s) * 10 + digit_val((DIGIT_ZERO + n % 10) as u8));
        assert forall|i: int| 0 <= i < full.len() implies is_digit_byte(#[trigger] full[i]) by {
            if i < s.len() {
                assert(full[i] == s[i]);
            }
        }
    }
}

/// Bounds of a digit scan: it never moves backwards nor past the end, it
/// covers digits only, and it stops at the first non-digit.
pub proof fn lemma_end_of_digits_bounds(data: Seq<u8>, i: int)
    requires
        0 <= i <= data.len(),
    ensures
        i <= end_of_digits(data, i) <= data.len(),
        forall|t: int| i <= t < end_of_digits(data, i) ==> is_digit_byte(data[t]),
        end_of_digits(data, i) < data.len() ==> !is_digit_byte(data[end_of_digits(data, i)]),
    decreases data.len() - i,
{
    if i < data.len() && is_digit_byte(data[i]) {
        lemma_end_of_digits_bounds(data, i + 1);
    }
}

/// A scan started at the front of an all-digit run ends exactly at the
/// first offset past it that holds no digit.
pub proof fn lemma_end_of_digits_run(data: Seq<u8>, i: int, j: int)
    requires
        0 <= i <= j <= data.len(),
        forall|t: int| i <= t < j ==> is_digit_byte(data[t]),
        j == data.len() || !is_digit_byte(data[j]),
    ensures
        end_of_digits(data, i) == j,
    decreases j - i,
{
    if i < j {
        lemma_end_of_digits_run(data, i + 1, j);
    }
}

/// A decoded byte string ends after its start and within the buffer.
pub proof fn lemma_spec_byte_string_bounds(data: Seq<u8>, i: int)
    ensures
        spec_byte_string(data, i) matches Ok((b, j)) ==> i < j <= data.len(),
{
    if 0 <= i < data.len() && is_digit_byte(data[i]) {
        lemma_end_of_digits_bounds(data, i);
    }
}

/// Decoded list items end after their start and within the buffer.
pub proof fn lemma_spec_items_advance(data: Seq<u8>, i: int, depth: nat)
    ensures
        spec_items(data, i, depth) matches Ok((vs, end)) ==> i < end <= data.len(),
    decreases data.len() - i,
{
    if 0 <= i < data.len() && data[i] != TOK_END {
        if let Ok((v, j)) = spec_value(data, i, depth) {
            if i < j <= data.len() {
                lemma_spec_items_advance(data, j, depth);
            }
        }
    }
}

/// Decoded dictionary entries end after their start and within the buffer.
pub proof fn lemma_spec_entries_advance(data: Seq<u8>, i: int, depth: nat, seen: Seq<Seq<u8>>)
    ensures
        spec_entries(data, i, depth, seen) matches Ok((es, sp, end)) ==> i < end <= data.len(),
    decreases data.len() - i,
{
    if 0 <= i < data.len() && data[i] != TOK_END && is_digit_byte(data[i]) {
        if let Ok((k, j)) = spec_byte_string(data, i) {
            if i < j <= data.len() {
                if let Ok((v, m)) = spec_value(data, j, depth) {
                    if !seen.contains(k) && j < m <= data.len() {
                        lemma_spec_entries_advance(data, m, depth, seen.push(k));
                    }
                }
            }
        }
    }
}

/// A decoded value ends after its start and within the buffer.
pub proof fn lemma_spec_value_advances(data: Seq<u8>, i: int, depth: nat)
    ensures
        spec_value(data, i, depth) matches Ok((v, j)) ==> i < j <= data.len(),
{
    if 0 <= i < data.len() {
        if data[i] == TOK_INT {
            lemma_end_of_digits_bounds(data, i + 1);
        } else if is_digit_byte(data[i]) {
            lemma_spec_byte_string_bounds(data, i);
        } else if data[i] == TOK_LIST && depth > 0 {
            lemma_spec_items_advance(data, i + 1, (depth - 1) as nat);
        } else if data[i] == TOK_DICT && depth > 0 {
            lemma_spec_entries_advance(data, i + 1, (depth - 1) as nat, Seq::empty());
        }
    }
}

/// The span bookkeeping is consistent with the tree structure: decoded
/// dictionary entries come with an `"info"` span exactly when they carry
/// the `"info"` key. Extraction can therefore only report an internal
/// error on a tree that did not come from the decoder.
pub proof fn lemma_info_span_present(data: Seq<u8>, i: int, depth: nat, seen: Seq<Seq<u8>>)
    ensures
        spec_entries(data, i, depth, seen) matches Ok((es, sp, end)) ==> (spec_lookup(
            es,
            spec_info_key(),
        ) is Some <==> sp is Some),
    decreases data.len() - i,
{
    if 0 <= i < data.len() && data[i] != TOK_END && is_digit_byte(data[i]) {
        if let Ok((k, j)) = spec_byte_string(data, i) {
            if i < j <= data.len() {
                if let Ok((v, m)) = spec_value(data, j, depth) {
                    if !seen.contains(k) && j < m <= data.len() {
                        lemma_info_span_present(data, m, depth, seen.push(k));
                        if let Ok((es2, sp2, end2)) = spec_entries(data, m, depth, seen.push(k)) {
                            let full = seq![(k, v)] + es2;
                            assert(full[0] == (k, v));
                            assert(full.drop_first() =~= es2);
                        }
                    }
                }
            }
        }
    }
}

/// Law: for every 64-bit integer, decoding `'i' <decimal> 'e'` yields that
/// integer, with the cursor just past the `'e'`. `decode_int` returns
/// exactly this outcome by its contract.
pub proof fn lemma_integer_round_trip(n: u64)
    ensures
        ({
            let data = seq![TOK_INT] + spec_decimal(n as nat) + seq![TOK_END];
            spec_int(data, 0) == Ok::<(BencodeView, int), ParseErrorV>(
                (BencodeView::Integer(n), data.len() as int),
            )
        }),
{
    lemma_decimal_digits(n as nat);
    let dec = spec_decimal(n as nat);
    let data = seq![TOK_INT] + dec + seq![TOK_END];
    assert(data[0] == TOK_INT);
    assert forall|t: int| 1 <= t < 1 + dec.len() implies is_digit_byte(data[t]) by {
        assert(data[t] == dec[t - 1]);
    }
    assert(data[dec.len() as int + 1] == TOK_END);
    lemma_end_of_digits_run(data, 1, dec.len() as int + 1);
    assert(data.subrange(1, dec.len() as int + 1) =~= dec);
}

/// Law: for every byte sequence, decoding `<decimal(len)> ':' <bytes>`
/// yields exactly those bytes, with the cursor at the end of the buffer.
/// `decode_byte_string` returns exactly this outcome by its contract.
pub proof fn lemma_byte_string_round_trip(b: Seq<u8>)
    ensures
        ({
            let data = spec_decimal(b.len()) + seq![TOK_COLON] + b;
            spec_byte_string(data, 0) == Ok::<(Seq<u8>, int), ParseErrorV>(
                (b, data.len() as int),
            )
        }),
{
    lemma_decimal_digits(b.len());
    let dec = spec_decimal(b.len());
    let data = dec + seq![TOK_COLON] + b;
    assert forall|t: int| 0 <= t < dec.len() implies is_digit_byte(data[t]) by {
        assert(data[t] == dec[t]);
    }
    assert(data[dec.len() as int] == TOK_COLON);
    lemma_end_of_digits_run(data, 0, dec.len() as int);
    assert(data.subrange(0, dec.len() as int) =~= dec);
    assert(data.subrange(dec.len() as int + 1, dec.len() as int + 1 + b.len() as int) =~= b);
}

/// Law: decoding is a strict function of the buffer and the starting
/// offset; equal bytes decoded from equal offsets yield equal results.
/// Through the decoder's contracts, every run on the same input returns
/// the same tree, errors included.
pub proof fn lemma_decode_deterministic(data1: Seq<u8>, data2: Seq<u8>, i: int, depth: nat)
    requires
        data1 == data2,
    ensures
        spec_value(data1, i, depth) == spec_value(data2, i, depth),
        spec_decode(data1) == spec_decode(data2),
{
}

/// Law: a byte-string declaration whose declared length exceeds the bytes
/// remaining always fails with `BufferUnderrun`; the verified decoder never
/// reads past the end of the buffer.
pub proof fn lemma_truncated_byte_string(data: Seq<u8>, i: int)
    requires
        0 <= i < data.len(),
        is_digit_byte(data[i]),
        ({
            let j = end_of_digits(data, i);
            &&& j < data.len()
            &&& data[j] == TOK_COLON
            &&& digits_value(data.subrange(i, j)) > data.len() - j - 1
        }),
    ensures
        spec_byte_string(data, i) matches Err(e) && e is BufferUnderrun,
{
}

/// Law: a dictionary that repeats a key always fails with `DuplicateKey`
/// carrying that key, whatever the two values are.
pub proof fn lemma_duplicate_key(
    data: Seq<u8>,
    i: int,
    depth: nat,
    k: Seq<u8>,
    j1: int,
    j2: int,
    j3: int,
    v1: BencodeView,
    v2: BencodeView,
    j4: int,
)
    requires
        0 <= i < data.len(),
        data[i] == TOK_DICT,
        depth >= 1,
        spec_byte_string(data, i + 1) == Ok::<(Seq<u8>, int), ParseErrorV>((k, j1)),
        spec_value(data, j1, (depth - 1) as nat) == Ok::<(BencodeView, int), ParseErrorV>(
            (v1, j2),
        ),
        spec_byte_string(data, j2) == Ok::<(Seq<u8>, int), ParseErrorV>((k, j3)),
        spec_value(data, j3, (depth - 1) as nat) == Ok::<(BencodeView, int), ParseErrorV>(
            (v2, j4),
        ),
    ensures
        spec_value(data, i, depth) == Err::<(BencodeView, int), ParseErrorV>(
            ParseErrorV::DuplicateKey(k),
        ),
{
    let d = (depth - 1) as nat;
    lemma_spec_byte_string_bounds(data, i + 1);
    lemma_spec_value_advances(data, j1, d);
    lemma_spec_byte_string_bounds(data, j2);
    lemma_spec_value_advances(data, j3, d);
    assert(!Seq::<Seq<u8>>::empty().contains(k));
    assert(Seq::<Seq<u8>>::empty().push(k)[0] == k);
    assert(Seq::<Seq<u8>>::empty().push(k).contains(k));
    assert(is_digit_byte(data[i + 1]));
    assert(is_digit_byte(data[j2]));
    assert(spec_entries(data, j2, d, Seq::<Seq<u8>>::empty().push(k)) == Err::<
        (Seq<(Seq<u8>, BencodeView)>, Option<(int, int)>, int),
        ParseErrorV,
    >(ParseErrorV::DuplicateKey(k)));
    assert(spec_entries(data, i + 1, d, Seq::empty()) == Err::<
        (Seq<(Seq<u8>, BencodeView)>, Option<(int, int)>, int),
        ParseErrorV,
    >(ParseErrorV::DuplicateKey(k)));
}

/// Byte-for-byte equality of two byte vectors.
fn bytes_eq(a: &Vec<u8>, b: &Vec<u8>) -> (r: bool)
    ensures
        r == (a@ == b@),
{
    if a.len() != b.len() {
        return false;
    }
    let mut i: usize = 0;
    while i < a.len()
        invariant
            i <= a@.len(),
            a@.len() == b@.len(),
            forall|t: int| 0 <= t < i ==> a@[t] == b@[t],
        decreases a@.len() - i,
    {
        if a[i] != b[i] {
            return false;
        }
        i = i + 1;
    }
    proof {
        assert(a@ =~= b@);
    }
    true
}

/// Whether some entry already carries this key.
fn dict_contains_key(entries: &Vec<(Vec<u8>, BencodeData)>, key: &Vec<u8>) -> (r: bool)
    ensures
        r == entry_keys(entries@).contains(key@),
{
    let mut i: usize = 0;
    while i < entries.len()
        invariant
            i <= entries@.len(),
            forall|t: int| 0 <= t < i ==> entries@[t].0@ != key@,
        decreases entries@.len() - i,
    {
        if bytes_eq(&entries[i].0, key) {
            proof {
                assert(entry_keys(entries@)[i as int] == key@);
            }
            return true;
        }
        i = i + 1;
    }
    proof {
        assert forall|t: int| 0 <= t < entry_keys(entries@).len() implies entry_keys(entries@)[t]
            != key@ by {}
    }
    false
}

/// The four bytes of the reserved key `"info"`, as a vector.
pub(crate) fn info_key() -> (r: Vec<u8>)
    ensures
        r@ == spec_info_key(),
{
    let mut v: Vec<u8> = Vec::new();
    v.push(105);
    v.push(110);
    v.push(102);
    v.push(111);
    proof {
        assert(v@ =~= spec_info_key());
    }
    v
}


} // verus!
