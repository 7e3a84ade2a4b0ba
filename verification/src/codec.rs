//! The binary wire protocol: the handshake magic, address records, and
//! the four framed message kinds. Every encoder is pinned to a spec-level
//! byte sequence, every parser to a spec-level parse function, and the
//! two are proved inverse for address records.

use vstd::prelude::*;
use vstd::string::StringSliceAdditionalSpecFns;
use crate::types::{GossipId, Ip, PeerAddress, bytes_eq, copy_bytes};

verus! {

/// Largest number of address records a peer-list response may carry.
pub const PEER_LIST_MAX: u16 = 5;

/// Big-endian recombination of two bytes into a `u16`.
pub open spec fn u16_of_be(hi: u8, lo: u8) -> u16 {
    (hi as u16 * 256 + lo as u16) as u16
}

/// High (most significant) byte of a `u16` in big-endian order.
pub open spec fn be_hi(n: u16) -> u8 {
    (n / 256) as u8
}

/// Low (least significant) byte of a `u16` in big-endian order.
pub open spec fn be_lo(n: u16) -> u8 {
    (n % 256) as u8
}

/// Splitting a `u16` big-endian and recombining the bytes yields it back.
pub proof fn lemma_be_u16_round_trip(n: u16)
    ensures
        u16_of_be(be_hi(n), be_lo(n)) == n,
{
}

/// Relies on byteorder's `BigEndian::read_u16`: reads a `u16` from two
/// bytes in big-endian order.
#[verifier::external_body]
fn be_read_u16(hi: u8, lo: u8) -> (r: u16)
    ensures
        r == u16_of_be(hi, lo),
{
    <byteorder::BigEndian as byteorder::ByteOrder>::read_u16(&[hi, lo])
}

/// Relies on byteorder's `BigEndian::write_u16`: stores a `u16` as two
/// bytes in big-endian order.
#[verifier::external_body]
fn be_split_u16(n: u16) -> (r: (u8, u8))
    ensures
        r.0 == be_hi(n),
        r.1 == be_lo(n),
{
    let mut buf = [0u8; 2];
    <byteorder::BigEndian as byteorder::ByteOrder>::write_u16(&mut buf, n);
    (buf[0], buf[1])
}

/// The bytes of the fixed handshake magic string.
pub open spec fn magic_bytes_spec() -> Seq<u8> {
    "Hello there I am a peer from the fantastic p2p_gossip program version v0.1".spec_bytes()
}

/// The handshake magic string as owned bytes.
pub fn magic_bytes() -> (r: Vec<u8>)
    ensures
        r@ == magic_bytes_spec(),
{
    let s = "Hello there I am a peer from the fantastic p2p_gossip program version v0.1";
    vstd::slice::slice_to_vec(s.as_bytes())
}

/// Whether `buf` holds exactly the handshake magic bytes.
pub fn check_magic(buf: &Vec<u8>) -> (r: bool)
    ensures
        r == (buf@ == magic_bytes_spec()),
{
    let m = magic_bytes();
    bytes_eq(buf, &m)
}

/// The encoding of one address record: a tag byte (`0` for IPv4, `1`
/// for IPv6), the address bytes, then the port, all big-endian.
pub open spec fn spec_addr_bytes(a: PeerAddress) -> Seq<u8> {
    match a.ip {
        Ip::V4(o0, o1, o2, o3) => seq![0u8, o0, o1, o2, o3, be_hi(a.port), be_lo(a.port)],
        Ip::V6(s0, s1, s2, s3, s4, s5, s6, s7) => seq![
            1u8,
            be_hi(s0), be_lo(s0),
            be_hi(s1), be_lo(s1),
            be_hi(s2), be_lo(s2),
            be_hi(s3), be_lo(s3),
            be_hi(s4), be_lo(s4),
            be_hi(s5), be_lo(s5),
            be_hi(s6), be_lo(s6),
            be_hi(s7), be_lo(s7),
            be_hi(a.port), be_lo(a.port),
        ],
    }
}

/// The unique parse of an address record starting at index `i` of `s`:
/// the record and the index just past it, or `None` when the tag is
/// neither 0 nor 1 or the bytes run out.
pub open spec fn spec_parse_addr(s: Seq<u8>, i: int) -> Option<(PeerAddress, int)> {
    if 0 <= i < s.len() {
        if s[i] == 0 {
            if i + 7 <= s.len() {
                Some((
                    PeerAddress {
                        ip: Ip::V4(s[i + 1], s[i + 2], s[i + 3], s[i + 4]),
                        port: u16_of_be(s[i + 5], s[i + 6]),
                    },
                    i + 7,
                ))
            } else {
                None
            }
        } else if s[i] == 1 {
            if i + 19 <= s.len() {
                Some((
                    PeerAddress {
                        ip: Ip::V6(
                            u16_of_be(s[i + 1], s[i + 2]),
                            u16_of_be(s[i + 3], s[i + 4]),
                            u16_of_be(s[i + 5], s[i + 6]),
                            u16_of_be(s[i + 7], s[i + 8]),
                            u16_of_be(s[i + 9], s[i + 10]),
                            u16_of_be(s[i + 11], s[i + 12]),
                            u16_of_be(s[i + 13], s[i + 14]),
                            u16_of_be(s[i + 15], s[i + 16]),
                        ),
                        port: u16_of_be(s[i + 17], s[i + 18]),
                    },
                    i + 19,
                ))
            } else {
                None
            }
        } else {
            None
        }
    } else {
        None
    }
}

/// Appends the encoding of `a` to `out`.
pub fn encode_addr_into(out: &mut Vec<u8>, a: &PeerAddress)
    ensures
        final(out)@ == old(out)@ + spec_addr_bytes(*a),
{
    match a.ip {
        Ip::V4(o0, o1, o2, o3) => {
            out.push(0);
            out.push(o0);
            out.push(o1);
            out.push(o2);
            out.push(o3);
            let (hi, lo) = be_split_u16(a.port);
            out.push(hi);
            out.push(lo);
            proof {
                assert(out@ =~= old(out)@ + spec_addr_bytes(*a));
            }
        },
        Ip::V6(s0, s1, s2, s3, s4, s5, s6, s7) => {
            out.push(1);
            let (h0, l0) = be_split_u16(s0);
            out.push(h0);
            out.push(l0);
            let (h1, l1) = be_split_u16(s1);
            out.push(h1);
            out.push(l1);
            let (h2, l2) = be_split_u16(s2);
            out.push(h2);
            out.push(l2);
            let (h3, l3) = be_split_u16(s3);
            out.push(h3);
            out.push(l3);
            let (h4, l4) = be_split_u16(s4);
            out.push(h4);
            out.push(l4);
            let (h5, l5) = be_split_u16(s5);
            out.push(h5);
            out.push(l5);
            let (h6, l6) = be_split_u16(s6);
            out.push(h6);
            out.push(l6);
            let (h7, l7) = be_split_u16(s7);
            out.push(h7);
            out.push(l7);
            let (hp, lp) = be_split_u16(a.port);
            out.push(hp);
            out.push(lp);
            proof {
                assert(out@ =~= old(out)@ + spec_addr_bytes(*a));
            }
        },
    }
}

/// The encoding of `a` on its own.
pub fn encode_addr(a: &PeerAddress) -> (r: Vec<u8>)
    ensures
        r@ == spec_addr_bytes(*a),
{
    let mut out: Vec<u8> = Vec::new();
    encode_addr_into(&mut out, a);
    proof {
        assert(Seq::<u8>::empty() + spec_addr_bytes(*a) =~= spec_addr_bytes(*a));
    }
    out
}

/// Parses one address record starting at `start`, returning the record
/// and the index just past it.
pub fn parse_addr(buf: &Vec<u8>, start: usize) -> (r: Option<(PeerAddress, usize)>)
    ensures
        match r {
            Some(p) => spec_parse_addr(buf@, start as int) == Some((p.0, p.1 as int)),
            None => spec_parse_addr(buf@, start as int) is None,
        },
{
    if start >= buf.len() {
        return None;
    }
    let tag = buf[start];
    if tag == 0 {
        if buf.len() - start < 7 {
            return None;
        }
        let port = be_read_u16(buf[start + 5], buf[start + 6]);
        let a = PeerAddress {
            ip: Ip::V4(buf[start + 1], buf[start + 2], buf[start + 3], buf[start + 4]),
            port,
        };
        Some((a, start + 7))
    } else if tag == 1 {
        if buf.len() - start < 19 {
            return None;
        }
        let s0 = be_read_u16(buf[start + 1], buf[start + 2]);
        let s1 = be_read_u16(buf[start + 3], buf[start + 4]);
        let s2 = be_read_u16(buf[start + 5], buf[start + 6]);
        let s3 = be_read_u16(buf[start + 7], buf[start + 8]);
        let s4 = be_read_u16(buf[start + 9], buf[start + 10]);
        let s5 = be_read_u16(buf[start + 11], buf[start + 12]);
        let s6 = be_read_u16(buf[start + 13], buf[start + 14]);
        let s7 = be_read_u16(buf[start + 15], buf[start + 16]);
        let port = be_read_u16(buf[start + 17], buf[start + 18]);
        let a = PeerAddress { ip: Ip::V6(s0, s1, s2, s3, s4, s5, s6, s7), port };
        Some((a, start + 19))
    } else {
        None
    }
}

/// Parsing the encoding of an address yields the address back.
pub proof fn lemma_addr_round_trip(a: PeerAddress)
    ensures
        spec_parse_addr(spec_addr_bytes(a), 0) == Some((a, spec_addr_bytes(a).len() as int)),
{
    lemma_be_u16_round_trip(a.port);
    match a.ip {
        Ip::V4(o0, o1, o2, o3) => {
        },
        Ip::V6(s0, s1, s2, s3, s4, s5, s6, s7) => {
            lemma_be_u16_round_trip(s0);
            lemma_be_u16_round_trip(s1);
            lemma_be_u16_round_trip(s2);
            lemma_be_u16_round_trip(s3);
            lemma_be_u16_round_trip(s4);
            lemma_be_u16_round_trip(s5);
            lemma_be_u16_round_trip(s6);
            lemma_be_u16_round_trip(s7);
        },
    }
}

/// The concatenated encodings of a list of address records.
pub open spec fn spec_addr_list_bytes(addrs: Seq<PeerAddress>) -> Seq<u8>
    decreases addrs.len(),
{
    if addrs.len() == 0 {
        Seq::empty()
    } else {
        spec_addr_bytes(addrs[0]) + spec_addr_list_bytes(addrs.drop_first())
    }
}

/// Appending one record to a list appends its bytes to the encoding.
pub proof fn lemma_addr_list_snoc(addrs: Seq<PeerAddress>, a: PeerAddress)
    ensures
        spec_addr_list_bytes(addrs.push(a)) == spec_addr_list_bytes(addrs) + spec_addr_bytes(a),
    decreases addrs.len(),
{
    assert(addrs.push(a)[0] == if addrs.len() == 0 { a } else { addrs[0] });
    if addrs.len() == 0 {
        assert(addrs.push(a).drop_first() =~= Seq::<PeerAddress>::empty());
        assert(spec_addr_list_bytes(Seq::<PeerAddress>::empty()) == Seq::<u8>::empty());
        assert(spec_addr_list_bytes(addrs.push(a)) == spec_addr_bytes(a) + Seq::<u8>::empty());
        assert(spec_addr_bytes(a) + Seq::<u8>::empty() =~= spec_addr_bytes(a));
        assert(spec_addr_list_bytes(addrs) == Seq::<u8>::empty());
        assert(Seq::<u8>::empty() + spec_addr_bytes(a) =~= spec_addr_bytes(a));
    } else {
        lemma_addr_list_snoc(addrs.drop_first(), a);
        assert(addrs.push(a).drop_first() =~= addrs.drop_first().push(a));
        assert(spec_addr_bytes(addrs[0]) + (spec_addr_list_bytes(addrs.drop_first())
            + spec_addr_bytes(a)) =~= (spec_addr_bytes(addrs[0]) + spec_addr_list_bytes(
            addrs.drop_first(),
        )) + spec_addr_bytes(a));
    }
}

/// Parsing at an offset sees only the record's own bytes: whatever
/// stands before or after, the embedded record parses back.
pub proof fn lemma_parse_addr_at(prefix: Seq<u8>, a: PeerAddress, rest: Seq<u8>)
    ensures
        spec_parse_addr(prefix + spec_addr_bytes(a) + rest, prefix.len() as int) == Some(
            (a, prefix.len() + spec_addr_bytes(a).len() as int),
        ),
{
    let s = prefix + spec_addr_bytes(a) + rest;
    let i = prefix.len() as int;
    let record = spec_addr_bytes(a);
    assert forall|k: int| 0 <= k < record.len() implies s[i + k] == record[k] by {
        assert((prefix + record)[i + k] == record[k]);
    }
    lemma_be_u16_round_trip(a.port);
    match a.ip {
        Ip::V4(o0, o1, o2, o3) => {
            assert(s[i] == 0u8);
            assert(s[i + 1] == o0 && s[i + 2] == o1 && s[i + 3] == o2 && s[i + 4] == o3);
            assert(s[i + 5] == be_hi(a.port) && s[i + 6] == be_lo(a.port));
        },
        Ip::V6(s0, s1, s2, s3, s4, s5, s6, s7) => {
            lemma_be_u16_round_trip(s0);
            lemma_be_u16_round_trip(s1);
            lemma_be_u16_round_trip(s2);
            lemma_be_u16_round_trip(s3);
            lemma_be_u16_round_trip(s4);
            lemma_be_u16_round_trip(s5);
            lemma_be_u16_round_trip(s6);
            lemma_be_u16_round_trip(s7);
            assert(s[i] == 1u8);
            assert(s[i + 1] == be_hi(s0) && s[i + 2] == be_lo(s0));
            assert(s[i + 3] == be_hi(s1) && s[i + 4] == be_lo(s1));
            assert(s[i + 5] == be_hi(s2) && s[i + 6] == be_lo(s2));
            assert(s[i + 7] == be_hi(s3) && s[i + 8] == be_lo(s3));
            assert(s[i + 9] == be_hi(s4) && s[i + 10] == be_lo(s4));
            assert(s[i + 11] == be_hi(s5) && s[i + 12] == be_lo(s5));
            assert(s[i + 13] == be_hi(s6) && s[i + 14] == be_lo(s6));
            assert(s[i + 15] == be_hi(s7) && s[i + 16] == be_lo(s7));
            assert(s[i + 17] == be_hi(a.port) && s[i + 18] == be_lo(a.port));
        },
    }
}

/// A run of encoded records, standing at the end of `s`, parses back
/// to exactly those records.
pub proof fn lemma_addr_list_parses(s: Seq<u8>, i: int, addrs: Seq<PeerAddress>)
    requires
        0 <= i <= s.len(),
        s.subrange(i, s.len() as int) == spec_addr_list_bytes(addrs),
    ensures
        spec_parse_addr_list(s, i, addrs.len()) == Some(addrs),
    decreases addrs.len(),
{
    if addrs.len() == 0 {
        assert(s.subrange(i, s.len() as int).len() == 0);
    } else {
        let a = addrs[0];
        let record = spec_addr_bytes(a);
        let restb = spec_addr_list_bytes(addrs.drop_first());
        assert(spec_addr_list_bytes(addrs) == record + restb);
        assert(s.subrange(i, s.len() as int) == record + restb);
        assert forall|j: int| 0 <= j < s.len() implies s[j] == (s.subrange(0, i) + record
            + restb)[j] by {
            if i <= j {
                assert(s.subrange(i, s.len() as int)[j - i] == s[j]);
                assert((record + restb)[j - i] == (s.subrange(0, i) + record + restb)[j]);
            }
        }
        assert(s =~= s.subrange(0, i) + record + restb);
        assert(s.subrange(0, i).len() == i);
        lemma_parse_addr_at(s.subrange(0, i), a, restb);
        let next = i + record.len() as int;
        assert(s.subrange(next, s.len() as int) =~= restb);
        lemma_addr_list_parses(s, next, addrs.drop_first());
        assert(seq![a] + addrs.drop_first() =~= addrs);
    }
}

/// A peer-list frame of at most `PEER_LIST_MAX` records parses back to
/// exactly its records: encoding and decoding a response are inverse.
pub proof fn lemma_peer_list_round_trip(addrs: Seq<PeerAddress>)
    requires
        addrs.len() <= PEER_LIST_MAX,
    ensures
        spec_parse_peer_list_body(spec_peer_list_frame(addrs).drop_first()) == Some(addrs),
{
    let n = addrs.len() as u16;
    let header = seq![3u8, be_hi(n), be_lo(n)];
    let frame = spec_peer_list_frame(addrs);
    let body = frame.drop_first();
    lemma_be_u16_round_trip(n);
    assert(frame[1] == be_hi(n) && frame[2] == be_lo(n)) by {
        assert(header + spec_addr_list_bytes(addrs) == frame);
        assert((header + spec_addr_list_bytes(addrs))[1] == be_hi(n));
        assert((header + spec_addr_list_bytes(addrs))[2] == be_lo(n));
    }
    assert(body[0] == be_hi(n) && body[1] == be_lo(n));
    assert(body.subrange(2, body.len() as int) =~= spec_addr_list_bytes(addrs));
    lemma_addr_list_parses(body, 2, addrs);
}

/// A peer-list response frame: opcode 3, the record count big-endian,
/// then the records.
pub open spec fn spec_peer_list_frame(addrs: Seq<PeerAddress>) -> Seq<u8> {
    seq![3u8, be_hi(addrs.len() as u16), be_lo(addrs.len() as u16)] + spec_addr_list_bytes(addrs)
}

/// Encodes a peer-list response for the first `min(len, PEER_LIST_MAX)`
/// of the given addresses. The emitted count never exceeds
/// `PEER_LIST_MAX`.
pub fn peer_list_frame(addrs: &Vec<PeerAddress>) -> (r: Vec<u8>)
    ensures
        ({
            let n = if addrs@.len() < PEER_LIST_MAX as int { addrs@.len() as int } else {
                PEER_LIST_MAX as int
            };
            &&& n <= PEER_LIST_MAX
            &&& r@ == spec_peer_list_frame(addrs@.take(n))
        }),
{
    let mut count: usize = addrs.len();
    if count > PEER_LIST_MAX as usize {
        count = PEER_LIST_MAX as usize;
    }
    let (hi, lo) = be_split_u16(count as u16);
    let mut out: Vec<u8> = Vec::new();
    out.push(3);
    out.push(hi);
    out.push(lo);
    let ghost header: Seq<u8> = seq![3u8, be_hi(count as u16), be_lo(count as u16)];
    proof {
        assert(out@ =~= header);
        assert(header + spec_addr_list_bytes(addrs@.take(0)) =~= header);
    }
    let mut i: usize = 0;
    while i < count
        invariant
            i <= count,
            count <= addrs@.len(),
            count <= PEER_LIST_MAX,
            out@ == header + spec_addr_list_bytes(addrs@.take(i as int)),
        decreases count - i,
    {
        encode_addr_into(&mut out, &addrs[i]);
        proof {
            lemma_addr_list_snoc(addrs@.take(i as int), addrs@[i as int]);
            assert(addrs@.take(i as int + 1) =~= addrs@.take(i as int).push(addrs@[i as int]));
            assert((header + spec_addr_list_bytes(addrs@.take(i as int))) + spec_addr_bytes(
                addrs@[i as int],
            ) =~= header + (spec_addr_list_bytes(addrs@.take(i as int)) + spec_addr_bytes(
                addrs@[i as int],
            )));
        }
        i = i + 1;
    }
    out
}

/// The unique parse of a peer-list response body: a big-endian count of
/// at most `PEER_LIST_MAX`, then exactly that many address records and
/// nothing else.
pub open spec fn spec_parse_addr_list(s: Seq<u8>, i: int, n: nat) -> Option<Seq<PeerAddress>>
    decreases n,
{
    if n == 0 {
        if i == s.len() {
            Some(Seq::empty())
        } else {
            None
        }
    } else {
        match spec_parse_addr(s, i) {
            Some(p) => match spec_parse_addr_list(s, p.1, (n - 1) as nat) {
                Some(rest) => Some(seq![p.0] + rest),
                None => None,
            },
            None => None,
        }
    }
}

/// The parse of a whole peer-list response body (everything after the
/// opcode byte).
pub open spec fn spec_parse_peer_list_body(s: Seq<u8>) -> Option<Seq<PeerAddress>> {
    if s.len() < 2 {
        None
    } else {
        let n = u16_of_be(s[0], s[1]);
        if n > PEER_LIST_MAX {
            None
        } else {
            spec_parse_addr_list(s, 2, n as nat)
        }
    }
}

/// Parses a peer-list response body: the count, then exactly that many
/// records. Returns `None` on any violation: a count above
/// `PEER_LIST_MAX`, a bad tag, missing or trailing bytes.
pub fn parse_peer_list_body(body: &Vec<u8>) -> (r: Option<Vec<PeerAddress>>)
    ensures
        match r {
            Some(v) => spec_parse_peer_list_body(body@) == Some(v@) && v@.len()
                <= PEER_LIST_MAX,
            None => spec_parse_peer_list_body(body@) is None,
        },
{
    if body.len() < 2 {
        return None;
    }
    let n16 = be_read_u16(body[0], body[1]);
    if n16 > PEER_LIST_MAX {
        return None;
    }
    let n = n16 as usize;
    let mut acc: Vec<PeerAddress> = Vec::new();
    let mut pos: usize = 2;
    let mut k: usize = 0;
    while k < n
        invariant
            k <= n,
            n <= PEER_LIST_MAX,
            pos <= body@.len(),
            acc@.len() == k,
            spec_parse_peer_list_body(body@) == match spec_parse_addr_list(
                body@,
                pos as int,
                (n - k) as nat,
            ) {
                Some(rest) => Some(acc@ + rest),
                None => None,
            },
        decreases n - k,
    {
        match parse_addr(body, pos) {
            None => {
                return None;
            },
            Some((a, next)) => {
                proof {
                    let tail = spec_parse_addr_list(body@, next as int, (n - k - 1) as nat);
                    if tail is Some {
                        let rest = tail->Some_0;
                        assert(acc@ + (seq![a] + rest) =~= acc@.push(a) + rest);
                    }
                }
                acc.push(a);
                pos = next;
                k = k + 1;
            },
        }
    }
    if pos != body.len() {
        return None;
    }
    proof {
        assert(acc@ + Seq::<PeerAddress>::empty() =~= acc@);
    }
    Some(acc)
}

/// How many bytes follow an address-record tag byte: 6 for IPv4
/// (4 octets and the port), 18 for IPv6 (8 segments and the port);
/// `None` for a tag that violates the protocol.
pub fn addr_tail_len(tag: u8) -> (r: Option<usize>)
    ensures
        tag == 0 ==> r == Some(6usize),
        tag == 1 ==> r == Some(18usize),
        tag != 0 && tag != 1 ==> r is None,
{
    if tag == 0 {
        Some(6)
    } else if tag == 1 {
        Some(18)
    } else {
        None
    }
}

/// A gossip frame: opcode 1 followed by the identifier bytes.
pub open spec fn spec_gossip_frame(id: Seq<u8>) -> Seq<u8> {
    seq![1u8] + id
}

/// Encodes a gossip frame for `id`.
pub fn gossip_frame(id: &GossipId) -> (r: Vec<u8>)
    ensures
        r@ == spec_gossip_frame(id@),
{
    let mut out: Vec<u8> = Vec::new();
    out.push(1);
    let mut b = copy_bytes(id.bytes());
    out.append(&mut b);
    proof {
        assert(out@ =~= seq![1u8] + id@);
    }
    out
}

/// A peer-list request frame: the bare opcode 2.
pub fn peer_request_frame() -> (r: Vec<u8>)
    ensures
        r@ == seq![2u8],
{
    let mut out: Vec<u8> = Vec::new();
    out.push(2);
    proof {
        assert(out@ =~= seq![2u8]);
    }
    out
}

/// A confirmation frame: opcode 4 followed by the magic bytes. The
/// acceptor sends it right after it has verified the dialer's magic.
pub fn confirmation_frame() -> (r: Vec<u8>)
    ensures
        r@ == seq![4u8] + magic_bytes_spec(),
{
    let mut out: Vec<u8> = Vec::new();
    out.push(4);
    let mut m = magic_bytes();
    out.append(&mut m);
    proof {
        assert(out@ =~= seq![4u8] + magic_bytes_spec());
    }
    out
}

/// The dialer's opening bytes: the magic string, then the address
/// record of its own listening endpoint.
pub fn hello_bytes(self_addr: &PeerAddress) -> (r: Vec<u8>)
    ensures
        r@ == magic_bytes_spec() + spec_addr_bytes(*self_addr),
{
    let mut out = magic_bytes();
    encode_addr_into(&mut out, self_addr);
    out
}

} // verus!
