//! The wire form of a gossip message, a canonical SCALE-style codec:
//! the 32-byte relay parent, then the payload length as a little-endian
//! `u32`, the payload bytes, the validator index as a little-endian
//! `u32`, and the 64-byte signature. Decoding is strict: it fails closed
//! on short input, on an oversized payload length, and on trailing bytes.
use crate::primitives::BitfieldGossipMessage;
use crate::primitives::MsgModel;
use crate::primitives::SignedAvailabilityBitfield;
use crate::primitives::SignedModel;
use crate::primitives::msg_wf;
use crate::primitives::HASH_LEN;
use crate::primitives::MAX_PAYLOAD_LEN;
use crate::primitives::SIGNATURE_LEN;
use vstd::prelude::*;

verus! {

/// Bytes taken by the fixed-size fields of the wire form: the relay
/// parent, the two length/index words, and the signature.
pub const WIRE_OVERHEAD: usize = 104;

/// The four bytes of `x` in little-endian order.
pub open spec fn u32_le(x: u32) -> Seq<u8> {
    seq![
        (x % 256) as u8,
        ((x / 256) % 256) as u8,
        ((x / 65536) % 256) as u8,
        ((x / 16777216) % 256) as u8,
    ]
}

/// The `u32` read out of four little-endian bytes.
pub open spec fn le_u32(b: Seq<u8>) -> u32
    recommends
        b.len() == 4,
{
    ((b[0] as int) + (b[1] as int) * 256 + (b[2] as int) * 65536 + (b[3] as int) * 16777216) as u32
}

/// Reading back the four little-endian bytes of `x` yields `x`.
pub proof fn lemma_u32_le_roundtrip(x: u32)
    ensures
        le_u32(u32_le(x)) == x,
{
    assert(x % 256 + (x / 256 % 256) * 256 + (x / 65536 % 256) * 65536 + (x / 16777216 % 256)
        * 16777216 == x) by (bit_vector);
}

/// The wire bytes of a signed availability bitfield.
pub open spec fn spec_encode_signed(s: SignedModel) -> Seq<u8> {
    u32_le(s.payload.len() as u32) + s.payload + u32_le(s.validator_index) + s.signature
}

/// The wire bytes of a gossip message.
pub open spec fn spec_encode(m: MsgModel) -> Seq<u8> {
    m.relay_parent + spec_encode_signed(m.signed)
}

/// The message the wire bytes decode to, or nothing when they are
/// rejected. Rejected are: input shorter than the fixed fields, a
/// payload length over the cap, and any input whose length is not
/// exactly what the payload length announces (no trailing bytes).
pub open spec fn spec_decode(b: Seq<u8>) -> Option<MsgModel> {
    if b.len() < WIRE_OVERHEAD {
        None
    } else {
        let plen = le_u32(b.subrange(32, 36)) as int;
        if plen > MAX_PAYLOAD_LEN {
            None
        } else if b.len() != WIRE_OVERHEAD + plen {
            None
        } else {
            Some(
                MsgModel {
                    relay_parent: b.subrange(0, 32),
                    signed: SignedModel {
                        payload: b.subrange(36, 36 + plen),
                        validator_index: le_u32(b.subrange(36 + plen, 40 + plen)),
                        signature: b.subrange(40 + plen, b.len() as int),
                    },
                },
            )
        }
    }
}

/// Decoding the wire bytes of any valid gossip message yields the
/// original message.
pub proof fn lemma_encode_decode_roundtrip(m: MsgModel)
    requires
        msg_wf(m),
    ensures
        spec_decode(spec_encode(m)) == Some(m),
{
    let e = spec_encode(m);
    let plen = m.signed.payload.len() as int;
    assert(e.len() == WIRE_OVERHEAD + plen);
    assert(e.subrange(32, 36) =~= u32_le(m.signed.payload.len() as u32));
    lemma_u32_le_roundtrip(m.signed.payload.len() as u32);
    assert(le_u32(e.subrange(32, 36)) as int == plen);
    assert(e.subrange(0, 32) =~= m.relay_parent);
    assert(e.subrange(36, 36 + plen) =~= m.signed.payload);
    assert(e.subrange(36 + plen, 40 + plen) =~= u32_le(m.signed.validator_index));
    lemma_u32_le_roundtrip(m.signed.validator_index);
    assert(e.subrange(40 + plen, e.len() as int) =~= m.signed.signature);
}

/// Decoding fails closed on trailing bytes: the wire bytes of a valid
/// message followed by anything more are rejected.
pub proof fn lemma_decode_rejects_trailing(m: MsgModel, extra: Seq<u8>)
    requires
        msg_wf(m),
        extra.len() > 0,
    ensures
        spec_decode(spec_encode(m) + extra) is None,
{
    let e = spec_encode(m);
    let g = e + extra;
    let plen = m.signed.payload.len() as int;
    assert(g.len() == WIRE_OVERHEAD + plen + extra.len());
    assert(g.subrange(32, 36) =~= u32_le(m.signed.payload.len() as u32));
    lemma_u32_le_roundtrip(m.signed.payload.len() as u32);
    if le_u32(g.subrange(32, 36)) as int <= MAX_PAYLOAD_LEN {
        assert(g.len() != WIRE_OVERHEAD + le_u32(g.subrange(32, 36)) as int);
    }
}

/// Appends the four little-endian bytes of `x`.
pub(crate) fn push_u32_le(out: &mut Vec<u8>, x: u32)
    ensures
        final(out)@ == old(out)@ + u32_le(x),
{
    out.push((x % 256) as u8);
    out.push(((x / 256) % 256) as u8);
    out.push(((x / 65536) % 256) as u8);
    out.push(((x / 16777216) % 256) as u8);
    proof {
        assert(out@ =~= old(out)@ + u32_le(x));
    }
}

/// Appends all of `src`.
pub(crate) fn push_bytes(out: &mut Vec<u8>, src: &Vec<u8>)
    ensures
        final(out)@ == old(out)@ + src@,
{
    let mut i: usize = 0;
    while i < src.len()
        invariant
            i <= src.len(),
            out@ == old(out)@ + src@.subrange(0, i as int),
        decreases src.len() - i,
    {
        out.push(src[i]);
        proof {
            assert(out@ =~= old(out)@ + src@.subrange(0, (i + 1) as int));
        }
        i = i + 1;
    }
    proof {
        assert(out@ =~= old(out)@ + src@);
    }
}

/// Reads the `u32` stored little-endian at `off`.
fn read_u32_le(b: &Vec<u8>, off: usize) -> (r: u32)
    requires
        off + 4 <= b@.len(),
    ensures
        r == le_u32(b@.subrange(off as int, off as int + 4)),
{
    let blen = b.len();
    assert(off + 4 <= blen);
    let r: u32 = b[off] as u32 + (b[off + 1] as u32) * 256 + (b[off + 2] as u32) * 65536 + (b[off
        + 3] as u32) * 16777216;
    proof {
        let s = b@.subrange(off as int, off as int + 4);
        assert(s[0] == b@[off as int] && s[1] == b@[off as int + 1] && s[2] == b@[off as int + 2]
            && s[3] == b@[off as int + 3]);
    }
    r
}

/// Copies `n` bytes starting at `off`.
fn copy_range(b: &Vec<u8>, off: usize, n: usize) -> (r: Vec<u8>)
    requires
        off + n <= b@.len(),
    ensures
        r@ == b@.subrange(off as int, off as int + n as int),
{
    let blen = b.len();
    let mut r: Vec<u8> = Vec::new();
    let mut i: usize = 0;
    while i < n
        invariant
            off + n <= blen == b@.len(),
            i <= n,
            r@ == b@.subrange(off as int, off as int + i as int),
        decreases n - i,
    {
        r.push(b[off + i]);
        proof {
            assert(r@ =~= b@.subrange(off as int, off as int + (i + 1) as int));
        }
        i = i + 1;
    }
    r
}

impl BitfieldGossipMessage {
    /// The wire bytes of this message.
    pub fn encode(&self) -> (r: Vec<u8>)
        requires
            self.wf(),
        ensures
            r@ == spec_encode(self@),
    {
        let mut out: Vec<u8> = Vec::new();
        push_bytes(&mut out, &self.relay_parent.bytes);
        push_u32_le(&mut out, self.signed_availability.payload.len() as u32);
        push_bytes(&mut out, &self.signed_availability.payload);
        push_u32_le(&mut out, self.signed_availability.validator_index);
        push_bytes(&mut out, &self.signed_availability.signature);
        proof {
            assert(out@ =~= spec_encode(self@));
        }
        out
    }

    /// The message the wire bytes decode to, or nothing when they are
    /// rejected.
    pub fn decode(bytes: &Vec<u8>) -> (r: Option<BitfieldGossipMessage>)
        ensures
            match r {
                Some(m) => spec_decode(bytes@) == Some(m@) && m.wf(),
                None => spec_decode(bytes@) is None,
            },
    {
        if bytes.len() < WIRE_OVERHEAD {
            return None;
        }
        let plen_word = read_u32_le(bytes, 32);
        let plen = plen_word as usize;
        if plen > MAX_PAYLOAD_LEN {
            return None;
        }
        if bytes.len() != WIRE_OVERHEAD + plen {
            return None;
        }
        let relay_bytes = copy_range(bytes, 0, HASH_LEN);
        let payload = copy_range(bytes, 36, plen);
        let validator_index = read_u32_le(bytes, 36 + plen);
        let signature = copy_range(bytes, 40 + plen, SIGNATURE_LEN);
        let m = BitfieldGossipMessage {
            relay_parent: crate::primitives::Hash { bytes: relay_bytes },
            signed_availability: SignedAvailabilityBitfield { payload, validator_index, signature },
        };
        proof {
            assert(bytes@.subrange(40 + plen as int, 40 + plen as int + SIGNATURE_LEN as int)
                =~= bytes@.subrange(40 + plen as int, bytes@.len() as int));
            assert(spec_decode(bytes@) == Some(m@));
        }
        Some(m)
    }
}

} // verus!
