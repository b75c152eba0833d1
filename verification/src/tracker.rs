//! The pure computations behind a tracker announce and its response:
//! percent-encoding the info hash, writing the announce URL, generating a
//! peer id, and splitting the compact peer list a tracker returns.

use vstd::prelude::*;

use rand::RngExt;

use crate::bencode::spec_decimal;

verus! {

/// An ASCII letter or digit.
pub open spec fn is_alnum_byte(b: u8) -> bool {
    (48 <= b && b <= 57) || (65 <= b && b <= 90) || (97 <= b && b <= 122)
}

/// The lowercase hex digit for a value below sixteen.
pub open spec fn hex_digit(n: u8) -> u8
    recommends
        n < 16,
{
    if n < 10 {
        (48 + n) as u8
    } else {
        (87 + n) as u8
    }
}

/// The percent-encoding the tracker protocol expects: an ASCII letter or
/// digit stands as itself, every other byte as `'%'` and two lowercase hex
/// digits.
pub open spec fn percent_encoded(s: Seq<u8>) -> Seq<u8>
    decreases s.len(),
{
    if s.len() == 0 {
        Seq::empty()
    } else {
        percent_encoded(s.drop_last()) + (if is_alnum_byte(s.last()) {
            seq![s.last()]
        } else {
            seq![37u8, hex_digit(s.last() / 16), hex_digit(s.last() % 16)]
        })
    }
}

/// Percent-encodes a byte sequence, such as an info hash, for a query
/// string.
pub fn percent_encode_bytes(data: &Vec<u8>) -> (r: Vec<u8>)
    ensures
        r@ == percent_encoded(data@),
{
    let mut out: Vec<u8> = Vec::new();
    let mut i: usize = 0;
    proof {
        assert(data@.subrange(0, 0) =~= Seq::<u8>::empty());
        assert(out@ =~= percent_encoded(data@.subrange(0, 0)));
    }
    while i < data.len()
        invariant
            i <= data@.len(),
            out@ == percent_encoded(data@.subrange(0, i as int)),
        decreases data@.len() - i,
    {
        let ghost prefix = data@.subrange(0, i as int);
        let b = data[i];
        if (48 <= b && b <= 57) || (65 <= b && b <= 90) || (97 <= b && b <= 122) {
            out.push(b);
        } else {
            out.push(37);
            let hi = b / 16;
            let lo = b % 16;
            out.push(if hi < 10 { 48 + hi } else { 87 + hi });
            out.push(if lo < 10 { 48 + lo } else { 87 + lo });
        }
        proof {
            assert(data@.subrange(0, i as int + 1).drop_last() =~= prefix);
            assert(data@.subrange(0, i as int + 1).last() == data@[i as int]);
            assert(out@ =~= percent_encoded(data@.subrange(0, i as int + 1)));
        }
        i = i + 1;
    }
    proof {
        assert(data@.subrange(0, data@.len() as int) =~= data@);
    }
    out
}

/// Writes a number in ASCII decimal, shortest form.
pub fn u64_to_decimal(n: u64) -> (r: Vec<u8>)
    ensures
        r@ == spec_decimal(n as nat),
    decreases n,
{
    if n < 10 {
        let mut v: Vec<u8> = Vec::new();
        v.push(48 + (n as u8));
        proof {
            assert(v@ =~= spec_decimal(n as nat));
        }
        v
    } else {
        let mut v = u64_to_decimal(n / 10);
        v.push(48 + ((n % 10) as u8));
        proof {
            assert(v@ =~= spec_decimal(n as nat));
        }
        v
    }
}

/// Appends one byte vector to another.
fn append_bytes(dst: &mut Vec<u8>, src: &Vec<u8>)
    ensures
        final(dst)@ == old(dst)@ + src@,
{
    let mut i: usize = 0;
    while i < src.len()
        invariant
            i <= src@.len(),
            dst@ == old(dst)@ + src@.subrange(0, i as int),
        decreases src@.len() - i,
    {
        dst.push(src[i]);
        proof {
            assert(old(dst)@ + src@.subrange(0, i as int + 1) =~= (old(dst)@ + src@.subrange(
                0,
                i as int,
            )).push(src@[i as int]));
        }
        i = i + 1;
    }
    proof {
        assert(src@.subrange(0, src@.len() as int) =~= src@);
    }
}

/// The query-string bytes `"?info_hash="`.
pub open spec fn spec_query_head() -> Seq<u8> {
    seq![63u8, 105u8, 110u8, 102u8, 111u8, 95u8, 104u8, 97u8, 115u8, 104u8, 61u8]
}

/// The query-string bytes `"&peer_id="`.
pub open spec fn spec_query_peer() -> Seq<u8> {
    seq![38u8, 112u8, 101u8, 101u8, 114u8, 95u8, 105u8, 100u8, 61u8]
}

/// The query-string bytes `"&port=6881&uploaded=0&downloaded=0&left="`.
pub open spec fn spec_query_mid() -> Seq<u8> {
    seq![38u8, 112u8, 111u8, 114u8, 116u8, 61u8, 54u8, 56u8, 56u8, 49u8, 38u8, 117u8, 112u8, 108u8, 111u8, 97u8, 100u8, 101u8, 100u8, 61u8, 48u8, 38u8, 100u8, 111u8, 119u8, 110u8, 108u8, 111u8, 97u8, 100u8, 101u8, 100u8, 61u8, 48u8, 38u8, 108u8, 101u8, 102u8, 116u8, 61u8]
}

/// The query-string bytes `"&compact=1&event=started"`.
pub open spec fn spec_query_tail() -> Seq<u8> {
    seq![38u8, 99u8, 111u8, 109u8, 112u8, 97u8, 99u8, 116u8, 61u8, 49u8, 38u8, 101u8, 118u8, 101u8, 110u8, 116u8, 61u8, 115u8, 116u8, 97u8, 114u8, 116u8, 101u8, 100u8]
}

/// Appends `"?info_hash="`.
fn push_query_head(v: &mut Vec<u8>)
    ensures
        final(v)@ == old(v)@ + spec_query_head(),
{
    v.push(63);
    v.push(105);
    v.push(110);
    v.push(102);
    v.push(111);
    v.push(95);
    v.push(104);
    v.push(97);
    v.push(115);
    v.push(104);
    v.push(61);
    proof {
        assert(v@ =~= old(v)@ + spec_query_head());
    }
}

/// Appends `"&peer_id="`.
fn push_query_peer(v: &mut Vec<u8>)
    ensures
        final(v)@ == old(v)@ + spec_query_peer(),
{
    v.push(38);
    v.push(112);
    v.push(101);
    v.push(101);
    v.push(114);
    v.push(95);
    v.push(105);
    v.push(100);
    v.push(61);
    proof {
        assert(v@ =~= old(v)@ + spec_query_peer());
    }
}

/// Appends `"&port=6881&uploaded=0&downloaded=0&left="`.
fn push_query_mid(v: &mut Vec<u8>)
    ensures
        final(v)@ == old(v)@ + spec_query_mid(),
{
    v.push(38);
    v.push(112);
    v.push(111);
    v.push(114);
    v.push(116);
    v.push(61);
    v.push(54);
    v.push(56);
    v.push(56);
    v.push(49);
    v.push(38);
    v.push(117);
    v.push(112);
    v.push(108);
    v.push(111);
    v.push(97);
    v.push(100);
    v.push(101);
    v.push(100);
    v.push(61);
    v.push(48);
    v.push(38);
    v.push(100);
    v.push(111);
    v.push(119);
    v.push(110);
    v.push(108);
    v.push(111);
    v.push(97);
    v.push(100);
    v.push(101);
    v.push(100);
    v.push(61);
    v.push(48);
    v.push(38);
    v.push(108);
    v.push(101);
    v.push(102);
    v.push(116);
    v.push(61);
    proof {
        assert(v@ =~= old(v)@ + spec_query_mid());
    }
}

/// Appends `"&compact=1&event=started"`.
fn push_query_tail(v: &mut Vec<u8>)
    ensures
        final(v)@ == old(v)@ + spec_query_tail(),
{
    v.push(38);
    v.push(99);
    v.push(111);
    v.push(109);
    v.push(112);
    v.push(97);
    v.push(99);
    v.push(116);
    v.push(61);
    v.push(49);
    v.push(38);
    v.push(101);
    v.push(118);
    v.push(101);
    v.push(110);
    v.push(116);
    v.push(61);
    v.push(115);
    v.push(116);
    v.push(97);
    v.push(114);
    v.push(116);
    v.push(101);
    v.push(100);
    proof {
        assert(v@ =~= old(v)@ + spec_query_tail());
    }
}

/// The announce URL for a "started" event: the tracker URL, then the
/// percent-encoded info hash, the peer id, port 6881, zero progress
/// counters, and the remaining byte count, in the tracker's query syntax.
pub open spec fn spec_tracker_url(
    announce: Seq<u8>,
    info_hash: Seq<u8>,
    peer_id: Seq<u8>,
    left: u64,
) -> Seq<u8> {
    announce + spec_query_head() + percent_encoded(info_hash) + spec_query_peer() + peer_id
        + spec_query_mid() + spec_decimal(left as nat) + spec_query_tail()
}

/// Writes the announce URL for a "started" event.
pub fn tracker_request_url(
    announce: &Vec<u8>,
    info_hash: &Vec<u8>,
    peer_id: &Vec<u8>,
    left: u64,
) -> (r: Vec<u8>)
    ensures
        r@ == spec_tracker_url(announce@, info_hash@, peer_id@, left),
{
    let mut out = vstd::slice::slice_to_vec(announce.as_slice());
    push_query_head(&mut out);
    let encoded_hash = percent_encode_bytes(info_hash);
    append_bytes(&mut out, &encoded_hash);
    push_query_peer(&mut out);
    append_bytes(&mut out, peer_id);
    push_query_mid(&mut out);
    let left_decimal = u64_to_decimal(left);
    append_bytes(&mut out, &left_decimal);
    push_query_tail(&mut out);
    proof {
        assert(out@ =~= spec_tracker_url(announce@, info_hash@, peer_id@, left));
    }
    out
}

/// Relies on rand (`Alphanumeric` sampled through `Rng::sample_iter`): each
/// of the twenty sampled bytes is an ASCII letter or digit. Nothing more is
/// assumed of a random value.
#[verifier::external_body]
fn random_alnum_bytes() -> (r: Vec<u8>)
    ensures
        r@.len() == 20,
        forall|i: int| 0 <= i < r@.len() ==> is_alnum_byte(r@[i]),
{
    rand::rng().sample_iter(rand::distr::Alphanumeric).take(20).collect()
}

/// Relies on urlencoding::encode_binary: it percent-encodes every byte
/// except ASCII alphanumerics and `-`, `_`, `.`, `~`, so an input of
/// letters and digits alone comes back unchanged.
#[verifier::external_body]
fn url_encode_alnum(data: &Vec<u8>) -> (r: Vec<u8>)
    requires
        forall|i: int| 0 <= i < data@.len() ==> is_alnum_byte(data@[i]),
    ensures
        r@ == data@,
{
    urlencoding::encode_binary(data.as_slice()).into_owned().into_bytes()
}

/// Draws a fresh twenty-byte alphanumeric peer id and runs it through the
/// URL encoder, which leaves such bytes unchanged.
pub fn make_peer_id() -> (r: Vec<u8>)
    ensures
        r@.len() == 20,
        forall|i: int| 0 <= i < r@.len() ==> is_alnum_byte(r@[i]),
{
    let id = random_alnum_bytes();
    url_encode_alnum(&id)
}

/// One peer of a tracker's compact response: four IPv4 octets and a port.
#[derive(Debug, Clone, Copy, PartialEq, Eq, Structural)]
pub struct PeerAddr {
    pub ip0: u8,
    pub ip1: u8,
    pub ip2: u8,
    pub ip3: u8,
    pub port: u16,
}

/// The peers of a compact response: each six bytes hold four address
/// octets and a big-endian port.
pub open spec fn spec_peers(data: Seq<u8>) -> Seq<PeerAddr>
    recommends
        data.len() % 6 == 0,
{
    Seq::new(
        data.len() / 6,
        |i: int|
            (PeerAddr {
                ip0: data[6 * i],
                ip1: data[6 * i + 1],
                ip2: data[6 * i + 2],
                ip3: data[6 * i + 3],
                port: ((data[6 * i + 4] as int) * 256 + (data[6 * i + 5] as int)) as u16,
            }),
    )
}

/// Splits a compact peer list into addresses; a length that is no multiple
/// of six bytes is rejected.
pub fn parse_compact_peers(data: &Vec<u8>) -> (r: Option<Vec<PeerAddr>>)
    ensures
        data@.len() % 6 == 0 ==> (r matches Some(v) && v@ == spec_peers(data@)),
        data@.len() % 6 != 0 ==> r is None,
{
    if data.len() % 6 != 0 {
        return None;
    }
    let count = data.len() / 6;
    let mut out: Vec<PeerAddr> = Vec::new();
    let mut k: usize = 0;
    while k < count
        invariant
            k <= count,
            count == data@.len() / 6,
            data@.len() % 6 == 0,
            data@.len() <= usize::MAX,
            out@.len() == k,
            forall|t: int| 0 <= t < k ==> out@[t] == spec_peers(data@)[t],
        decreases count - k,
    {
        proof {
            vstd::arithmetic::div_mod::lemma_fundamental_div_mod(data@.len() as int, 6);
            let q: int = data@.len() as int / 6;
            assert(6 * (k as int) + 6 <= 6 * q) by (nonlinear_arith)
                requires
                    (k as int) < q,
            ;
            assert(6 * (k as int) + 6 <= data@.len());
        }
        let base = 6 * k;
        let peer = PeerAddr {
            ip0: data[base],
            ip1: data[base + 1],
            ip2: data[base + 2],
            ip3: data[base + 3],
            port: (data[base + 4] as u16) * 256 + (data[base + 5] as u16),
        };
        out.push(peer);
        k = k + 1;
    }
    proof {
        assert(out@ =~= spec_peers(data@));
    }
    Some(out)
}

} // verus!
