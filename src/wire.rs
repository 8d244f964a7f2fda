//! Framing of encoded packets into datagrams, and their reassembly.
//!
//! An encoded packet travels with its bytes in reverse order, so that the
//! receiver decodes it by popping bytes off the end of its buffer. A frame
//! longer than one datagram is cut into `CHUNK_SIZE`-byte pieces sent back to
//! back; the receiver joins the pieces that one peer sent within one wake.
use vstd::prelude::*;

use crate::server::PeerAddr;
use crate::CHUNK_SIZE;

verus! {

/// The bytes of `s` back to front.
pub open spec fn reversed(s: Seq<u8>) -> Seq<u8> {
    Seq::new(s.len(), |i: int| s[s.len() - 1 - i])
}

/// The pieces of `s`, joined in order.
pub open spec fn joined(s: Seq<Seq<u8>>) -> Seq<u8>
    decreases s.len(),
{
    if s.len() == 0 {
        Seq::empty()
    } else {
        joined(s.drop_last()) + s.last()
    }
}

pub open spec fn views(s: Seq<Vec<u8>>) -> Seq<Seq<u8>> {
    s.map_values(|c: Vec<u8>| c@)
}

/// Every piece is full but the last, which holds at least one byte.
pub open spec fn well_cut(s: Seq<Seq<u8>>) -> bool {
    forall|i: int|
        0 <= i < s.len() ==> if i < s.len() - 1 {
            #[trigger] s[i].len() == CHUNK_SIZE
        } else {
            0 < s[i].len() <= CHUNK_SIZE
        }
}

/// The bytes of `encoded` in reverse order.
pub fn reverse(encoded: &Vec<u8>) -> (r: Vec<u8>)
    ensures
        r@ == reversed(encoded@),
{
    let n = encoded.len();
    let mut r: Vec<u8> = Vec::with_capacity(n);
    let mut i: usize = 0;
    while i < n
        invariant
            n == encoded@.len(),
            i <= n,
            r@.len() == i,
            forall|j: int| 0 <= j < i ==> r@[j] == encoded@[n - 1 - j],
        decreases n - i,
    {
        r.push(encoded[n - 1 - i]);
        i = i + 1;
    }
    assert(r@ =~= reversed(encoded@));
    r
}

/// Cuts `bytes` into datagrams of at most `CHUNK_SIZE` bytes, in order.
pub fn chunks(bytes: &Vec<u8>) -> (r: Vec<Vec<u8>>)
    ensures
        joined(views(r@)) == bytes@,
        well_cut(views(r@)),
{
    let n = bytes.len();
    let mut r: Vec<Vec<u8>> = Vec::new();
    let mut start: usize = 0;
    while start < n
        invariant
            n == bytes@.len(),
            start <= n,
            joined(views(r@)) == bytes@.subrange(0, start as int),
            forall|i: int| 0 <= i < r@.len() - 1 ==> #[trigger] r@[i]@.len() == CHUNK_SIZE,
            r@.len() > 0 ==> 0 < r@.last()@.len() <= CHUNK_SIZE,
            r@.len() > 0 && start < n ==> r@.last()@.len() == CHUNK_SIZE,
        decreases n - start,
    {
        let end: usize = if n - start > CHUNK_SIZE {
            start + CHUNK_SIZE
        } else {
            n
        };
        let mut piece: Vec<u8> = Vec::with_capacity(end - start);
        let mut k: usize = start;
        while k < end
            invariant
                n == bytes@.len(),
                start <= k <= end <= n,
                piece@ == bytes@.subrange(start as int, k as int),
            decreases end - k,
        {
            piece.push(bytes[k]);
            k = k + 1;
            assert(piece@ =~= bytes@.subrange(start as int, k as int));
        }
        let ghost before = r@;
        r.push(piece);
        proof {
            assert(views(r@) =~= views(before).push(piece@));
            assert(views(r@).drop_last() =~= views(before));
            assert(bytes@.subrange(0, end as int) =~= bytes@.subrange(0, start as int) + bytes@.subrange(
                start as int,
                end as int,
            ));
        }
        start = end;
    }
    assert(bytes@.subrange(0, n as int) =~= bytes@);
    proof {
        let v = views(r@);
        assert forall|i: int| 0 <= i < v.len() implies if i < v.len() - 1 {
            #[trigger] v[i].len() == CHUNK_SIZE
        } else {
            0 < v[i].len() <= CHUNK_SIZE
        } by {
            assert(v[i] == r@[i]@);
        }
    }
    r
}

/// The datagrams that carry one encoded packet: its bytes reversed, cut into
/// pieces of at most `CHUNK_SIZE` bytes.
pub fn to_datagrams(encoded: &Vec<u8>) -> (r: Vec<Vec<u8>>)
    ensures
        joined(views(r@)) == reversed(encoded@),
        well_cut(views(r@)),
{
    let rev = reverse(encoded);
    chunks(&rev)
}

/// What one peer sent within one wake, joined.
pub struct PeerBuffers {
    peers: Vec<(PeerAddr, Vec<u8>)>,
}

pub open spec fn peer_views(s: Seq<(PeerAddr, Vec<u8>)>) -> Seq<(PeerAddr, Seq<u8>)> {
    s.map_values(|e: (PeerAddr, Vec<u8>)| (e.0, e.1@))
}

/// What a datagram `chunk` from `addr` does to the buffers: it is appended
/// to that peer's buffer, which is opened at the end if there is none yet.
pub open spec fn chunk_added(
    s: Seq<(PeerAddr, Seq<u8>)>,
    addr: PeerAddr,
    chunk: Seq<u8>,
    s2: Seq<(PeerAddr, Seq<u8>)>,
) -> bool {
    if exists|i: int| 0 <= i < s.len() && s[i].0 == addr {
        exists|i: int| 0 <= i < s.len() && s[i].0 == addr && s2 == s.update(i, (addr, s[i].1 + chunk))
    } else {
        s2 == s.push((addr, chunk))
    }
}

impl PeerBuffers {
    pub closed spec fn buffers(&self) -> Seq<(PeerAddr, Seq<u8>)> {
        peer_views(self.peers@)
    }

    pub fn new() -> (r: PeerBuffers)
        ensures
            r.buffers().len() == 0,
    {
        PeerBuffers { peers: Vec::new() }
    }

    /// Adds a datagram that came from `addr`.
    pub fn add(&mut self, addr: PeerAddr, chunk: &Vec<u8>)
        ensures
            chunk_added(old(self).buffers(), addr, chunk@, final(self).buffers()),
    {
        let ghost s = self.buffers();
        let mut i: usize = 0;
        while i < self.peers.len()
            invariant
                peer_views(self.peers@) == s,
                self.peers@.len() == s.len(),
                i <= s.len(),
                forall|j: int| 0 <= j < i ==> s[j].0 != addr,
            ensures
                peer_views(self.peers@) == s,
                self.peers@.len() == s.len(),
                i <= s.len(),
                forall|j: int| 0 <= j < i ==> s[j].0 != addr,
                i < s.len() ==> s[i as int].0 == addr,
            decreases s.len() - i,
        {
            if self.peers[i].0 == addr {
                break;
            }
            i = i + 1;
        }
        let mut copy: Vec<u8> = Vec::with_capacity(chunk.len());
        let mut k: usize = 0;
        while k < chunk.len()
            invariant
                k <= chunk@.len(),
                copy@ == chunk@.subrange(0, k as int),
            decreases chunk@.len() - k,
        {
            copy.push(chunk[k]);
            k = k + 1;
            assert(copy@ =~= chunk@.subrange(0, k as int));
        }
        assert(chunk@.subrange(0, chunk@.len() as int) =~= chunk@);
        if i < self.peers.len() {
            let mut buf: Vec<u8> = Vec::new();
            let ghost before = self.peers@;
            std::mem::swap(&mut buf, &mut self.peers[i].1);
            assert(buf@ == before[i as int].1@);
            buf.append(&mut copy);
            self.peers.set(i, (addr, buf));
            proof {
                assert(peer_views(self.peers@) =~= s.update(i as int, (addr, s[i as int].1 + chunk@)));
            }
        } else {
            self.peers.push((addr, copy));
            assert(peer_views(self.peers@) =~= s.push((addr, chunk@)));
        }
    }

    /// Hands out the joined buffers, one per peer, in order of first arrival.
    pub fn into_buffers(self) -> (r: Vec<(PeerAddr, Vec<u8>)>)
        ensures
            peer_views(r@) == self.buffers(),
    {
        self.peers
    }
}

} // verus!
