//! The handshake that opens a peer connection: the length of the protocol
//! name, the name, eight reserved bytes, the info hash and the peer id.

use vstd::prelude::*;
use crate::hash::hash_eq;
use crate::message::{put_slice, PeerError};
use crate::ID;

verus! {

/// The name of the protocol: "BitTorrent protocol".
pub const PROTOCOL: [u8; 19] = [
    0x42, 0x69, 0x74, 0x54, 0x6f, 0x72, 0x72, 0x65, 0x6e, 0x74,
    0x20, 0x70, 0x72, 0x6f, 0x74, 0x6f, 0x63, 0x6f, 0x6c,
];

/// Length in bytes of a handshake.
pub const HANDSHAKE_LEN: usize = 68;

/// A handshake.
#[derive(Debug, Clone, PartialEq, Eq)]
pub struct Handshake {
    /// The protocol name, as many bytes as its length byte says.
    pub protocol: Vec<u8>,
    /// Reserved bytes, for extensions.
    pub reserved: Vec<u8>,
    pub info_hash: ID,
    pub peer_id: ID,
}

/// The bytes of a handshake whose protocol name has 19 bytes.
pub open spec fn handshake_bytes(h: Handshake) -> Seq<u8> {
    seq![19u8] + h.protocol@ + h.reserved@ + h.info_hash@ + h.peer_id@
}

/// What reading a handshake from the front of `s` gives: nothing until all
/// of it has arrived; an error where the length byte names a protocol name
/// of other than 19 bytes; else the handshake, which takes 68 bytes.
pub open spec fn read_handshake(s: Seq<u8>) -> Option<Result<(Seq<u8>, Seq<u8>, Seq<u8>, Seq<u8>), ()>> {
    if s.len() < HANDSHAKE_LEN {
        None
    } else if s[0] != 19 {
        Some(Err(()))
    } else {
        Some(Ok((s.subrange(1, 20), s.subrange(20, 28), s.subrange(28, 48), s.subrange(48, 68))))
    }
}

/// Twenty bytes of `s` from `start`.
fn read_id(s: &[u8], start: usize) -> (a: ID)
    requires
        start + 20 <= s@.len(),
    ensures
        a@ == s@.subrange(start as int, start + 20),
{
    let mut a: [u8; 20] = [0u8; 20];
    let mut k: usize = 0;
    while k < 20
        invariant
            0 <= k <= 20,
            start + 20 <= s.len(),
            a@.len() == 20,
            forall|m: int| 0 <= m < k ==> a@[m] == s@[start + m],
        decreases 20 - k,
    {
        a[k] = s[start + k];
        k = k + 1;
    }
    proof {
        assert(a@ =~= s@.subrange(start as int, start + 20));
    }
    a
}

impl Handshake {
    /// The client's handshake for the torrent `info_hash`.
    pub fn new(info_hash: ID, peer_id: ID) -> (h: Self)
        ensures
            h.protocol@ == PROTOCOL@,
            h.reserved@ == seq![0u8; 8],
            h.info_hash == info_hash,
            h.peer_id == peer_id,
    {
        let protocol = vstd::slice::slice_to_vec(vstd::array::array_as_slice(&PROTOCOL));
        let reserved = vec![0u8; 8];
        proof {
            assert(reserved@ =~= seq![0u8; 8]);
        }
        Handshake { protocol, reserved, info_hash, peer_id }
    }

    /// Appends the handshake to `dst`.
    pub fn encode(&self, dst: &mut Vec<u8>)
        requires
            self.protocol@.len() == 19,
        ensures
            final(dst)@ == old(dst)@ + handshake_bytes(*self),
    {
        dst.push(19u8);
        put_slice(dst, self.protocol.as_slice());
        put_slice(dst, self.reserved.as_slice());
        put_slice(dst, vstd::array::array_as_slice(&self.info_hash));
        put_slice(dst, vstd::array::array_as_slice(&self.peer_id));
        proof {
            assert(dst@ =~= old(dst)@ + handshake_bytes(*self));
        }
    }

    /// Takes a handshake off the front of `src`: `None` until all of it has
    /// arrived, and an error where it names a protocol of another length.
    pub fn decode(src: &mut Vec<u8>) -> (r: Result<Option<Handshake>, PeerError>)
        ensures
            match read_handshake(old(src)@) {
                None => r matches Ok(None) && final(src)@ == old(src)@,
                Some(Err(())) => r matches Err(PeerError::IncorrectProtocol) && final(src)@ == old(src)@,
                Some(Ok((p, res, ih, id))) => r matches Ok(Some(h)) && h.protocol@ == p && h.reserved@ == res
                    && h.info_hash@ == ih && h.peer_id@ == id && final(src)@ == old(src)@.skip(HANDSHAKE_LEN as int),
            },
    {
        if src.len() < HANDSHAKE_LEN {
            return Ok(None);
        }
        if src[0] != 19 {
            return Err(PeerError::IncorrectProtocol);
        }
        let s = src.as_slice();
        let protocol = vstd::slice::slice_to_vec(vstd::slice::slice_subrange(s, 1, 20));
        let reserved = vstd::slice::slice_to_vec(vstd::slice::slice_subrange(s, 20, 28));
        let info_hash = read_id(s, 28);
        let peer_id = read_id(s, 48);
        let rest = vstd::slice::slice_to_vec(vstd::slice::slice_subrange(s, HANDSHAKE_LEN, s.len()));
        *src = rest;
        Ok(Some(Handshake { protocol, reserved, info_hash, peer_id }))
    }

    /// Checks a peer's handshake: it must name this protocol and the
    /// torrent `info_hash`.
    pub fn check(&self, info_hash: &ID) -> (r: Result<(), PeerError>)
        ensures
            self.protocol@ != PROTOCOL@ ==> r matches Err(PeerError::IncorrectProtocol),
            self.protocol@ == PROTOCOL@ && self.info_hash@ != info_hash@ ==> r matches Err(
                PeerError::IncorrectInfoHash,
            ),
            self.protocol@ == PROTOCOL@ && self.info_hash@ == info_hash@ ==> r is Ok,
    {
        if !same_bytes(self.protocol.as_slice(), vstd::array::array_as_slice(&PROTOCOL)) {
            return Err(PeerError::IncorrectProtocol);
        }
        if !hash_eq(&self.info_hash, info_hash) {
            return Err(PeerError::IncorrectInfoHash);
        }
        Ok(())
    }
}

/// Whether two byte strings are equal.
fn same_bytes(a: &[u8], b: &[u8]) -> (r: bool)
    ensures
        r == (a@ == b@),
{
    if a.len() != b.len() {
        return false;
    }
    let mut i: usize = 0;
    while i < a.len()
        invariant
            0 <= i <= a@.len(),
            a@.len() == b@.len(),
            forall|k: int| 0 <= k < i ==> a@[k] == b@[k],
        decreases a@.len() - i,
    {
        if a[i] != b[i] {
            return false;
        }
        i = i + 1;
    }
    proof {
        assert(a@ =~= b@);
    }
    true
}

/// Reading back the bytes of a handshake gives its fields.
pub proof fn law_read_encoded_handshake(h: Handshake, rest: Seq<u8>)
    requires
        h.protocol@.len() == 19,
        h.reserved@.len() == 8,
    ensures
        read_handshake(handshake_bytes(h) + rest) == Some(
            Ok::<(Seq<u8>, Seq<u8>, Seq<u8>, Seq<u8>), ()>((h.protocol@, h.reserved@, h.info_hash@, h.peer_id@)),
        ),
        (handshake_bytes(h) + rest).skip(HANDSHAKE_LEN as int) == rest,
{
    let s = handshake_bytes(h) + rest;
    assert(h.info_hash@.len() == 20);
    assert(h.peer_id@.len() == 20);
    assert(s.subrange(1, 20) =~= h.protocol@);
    assert(s.subrange(20, 28) =~= h.reserved@);
    assert(s.subrange(28, 48) =~= h.info_hash@);
    assert(s.subrange(48, 68) =~= h.peer_id@);
    assert(s.skip(68) =~= rest);
}

} // verus!
