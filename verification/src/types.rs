//! Plain data carried by the overlay: gossip identifiers and peer
//! addresses. Both are held as machine integers and byte vectors so
//! that every rule about them can be stated and proved directly.

use vstd::prelude::*;

verus! {

/// Width in bytes of a gossip identifier.
pub const GOSSIP_LEN: usize = 10;

/// An IP address in the two shapes the wire protocol knows: four
/// octets, or eight 16-bit segments in big-endian order.
#[derive(Clone, Copy, Debug, PartialEq, Eq, Structural)]
pub enum Ip {
    V4(u8, u8, u8, u8),
    V6(u16, u16, u16, u16, u16, u16, u16, u16),
}

/// A listening endpoint a peer can be reached at: an IP address plus
/// a TCP port.
#[derive(Clone, Copy, Debug, PartialEq, Eq, Structural)]
pub struct PeerAddress {
    pub ip: Ip,
    pub port: u16,
}

/// A fixed-width opaque gossip identifier. Equality is bytewise.
#[derive(Debug)]
pub struct GossipId {
    bytes: Vec<u8>,
}

impl View for GossipId {
    type V = Seq<u8>;

    closed spec fn view(&self) -> Seq<u8> {
        self.bytes@
    }
}

impl GossipId {
    /// An identifier is well formed when it holds exactly `GOSSIP_LEN` bytes.
    pub open spec fn wf(&self) -> bool {
        self@.len() == GOSSIP_LEN
    }

    /// Wraps `GOSSIP_LEN` raw bytes as an identifier.
    pub fn from_bytes(bytes: Vec<u8>) -> (r: GossipId)
        requires
            bytes@.len() == GOSSIP_LEN,
        ensures
            r@ == bytes@,
            r.wf(),
    {
        GossipId { bytes }
    }

    /// The identifier's bytes, in order.
    pub fn bytes(&self) -> (r: &Vec<u8>)
        ensures
            r@ == self@,
    {
        &self.bytes
    }

    /// Bytewise equality of two identifiers.
    pub fn eq_id(&self, other: &GossipId) -> (r: bool)
        ensures
            r == (self@ == other@),
    {
        bytes_eq(&self.bytes, &other.bytes)
    }
}

impl Clone for GossipId {
    fn clone(&self) -> (r: Self)
        ensures
            r@ == self@,
    {
        GossipId { bytes: copy_bytes(&self.bytes) }
    }
}

/// Byte-for-byte copy of a vector.
pub fn copy_bytes(v: &Vec<u8>) -> (r: Vec<u8>)
    ensures
        r@ == v@,
{
    let mut out: Vec<u8> = Vec::new();
    let mut i: usize = 0;
    while i < v.len()
        invariant
            i <= v@.len(),
            out@ == v@.take(i as int),
        decreases v@.len() - i,
    {
        out.push(v[i]);
        i = i + 1;
        proof {
            assert(out@ =~= v@.take(i as int));
        }
    }
    proof {
        assert(v@.take(v@.len() as int) =~= v@);
    }
    out
}

/// Bytewise equality of two vectors.
pub fn bytes_eq(a: &Vec<u8>, b: &Vec<u8>) -> (r: bool)
    ensures
        r == (a@ == b@),
{
    if a.len() != b.len() {
        return false;
    }
    let mut i: usize = 0;
    while i < a.len()
        invariant
            i <= a@.len(),
            a@.len() == b@.len(),
            forall|j: int| 0 <= j < i ==> a@[j] == b@[j],
        decreases a@.len() - i,
    {
        if a[i] != b[i] {
            return false;
        }
        i = i + 1;
    }
    proof {
        assert(a@ =~= b@);
    }
    true
}

/// Whether `list` holds `a`, by structural address equality.
pub fn addr_in(list: &Vec<PeerAddress>, a: PeerAddress) -> (r: bool)
    ensures
        r == list@.contains(a),
{
    let mut i: usize = 0;
    while i < list.len()
        invariant
            i <= list@.len(),
            forall|j: int| 0 <= j < i ==> list@[j] != a,
        decreases list@.len() - i,
    {
        if list[i] == a {
            return true;
        }
        i = i + 1;
    }
    false
}

} // verus!
