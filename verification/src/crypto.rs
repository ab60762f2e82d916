//! Signature verification. The check itself is done by the schnorrkel
//! crate; the library only names its outcome and builds the context
//! bytes that tie a signature to a session and a relay parent.
use crate::codec::push_bytes;
use crate::codec::push_u32_le;
use crate::codec::u32_le;
use crate::primitives::signed_wf;
use crate::primitives::CtxModel;
use crate::primitives::SignedAvailabilityBitfield;
use crate::primitives::SigningContext;
use crate::primitives::ValidatorId;
use vstd::prelude::*;

verus! {

/// Whether `signature` is a valid signature by the public key
/// `public_key` over `msg` under the signing-context bytes `ctx`, as
/// schnorrkel decides it. The outcome depends on the four byte strings
/// alone.
pub uninterp spec fn sig_valid(
    ctx: Seq<u8>,
    msg: Seq<u8>,
    public_key: Seq<u8>,
    signature: Seq<u8>,
) -> bool;

/// The bytes a signing context contributes to a signature: the session
/// index, little-endian, then the parent hash. Mixing them in keeps a
/// signature from replaying across sessions or forks.
pub open spec fn ctx_bytes(c: CtxModel) -> Seq<u8> {
    u32_le(c.session_index) + c.parent_hash
}

/// Relies on schnorrkel's `PublicKey::from_bytes`,
/// `Signature::from_bytes` and `PublicKey::verify_simple`: the call
/// returns whether the two byte strings parse as a public key and a
/// signature and the signature verifies over the context and message;
/// verification is a pure function of the four byte strings. The
/// transcript underneath refuses context or message slices of more
/// than `u32::MAX` bytes by aborting, so such inputs are kept out.
#[verifier::external_body]
fn sr25519_verify(ctx: &Vec<u8>, msg: &Vec<u8>, public_key: &Vec<u8>, signature: &Vec<u8>) -> (r:
    bool)
    requires
        ctx@.len() < 0x1_0000_0000,
        msg@.len() < 0x1_0000_0000,
    ensures
        r == sig_valid(ctx@, msg@, public_key@, signature@),
{
    let pk = match schnorrkel::PublicKey::from_bytes(public_key.as_slice()) {
        Ok(pk) => pk,
        Err(_) => return false,
    };
    let sig = match schnorrkel::Signature::from_bytes(signature.as_slice()) {
        Ok(sig) => sig,
        Err(_) => return false,
    };
    pk.verify_simple(ctx.as_slice(), msg.as_slice(), &sig).is_ok()
}

/// The signing-context bytes of `c`.
pub fn signing_context_bytes(c: &SigningContext) -> (r: Vec<u8>)
    ensures
        r@ == ctx_bytes(c@),
{
    let mut out: Vec<u8> = Vec::new();
    push_u32_le(&mut out, c.session_index);
    push_bytes(&mut out, &c.parent_hash.bytes);
    out
}

impl SignedAvailabilityBitfield {
    /// Whether this bitfield's signature verifies for `validator` under
    /// the given signing context. The bitfield and the context's parent
    /// hash must be within the data model's bounds, which keeps the
    /// context and message handed to verification far below the
    /// transcript's size limit.
    pub fn check_signature(&self, signing_context: &SigningContext, validator: &ValidatorId) -> (r:
        bool)
        requires
            signed_wf(self@),
            signing_context.parent_hash.wf(),
        ensures
            r == sig_valid(
                ctx_bytes(signing_context@),
                self@.payload,
                validator@,
                self@.signature,
            ),
    {
        let ctx = signing_context_bytes(signing_context);
        sr25519_verify(&ctx, &self.payload, &validator.bytes, &self.signature)
    }
}

} // verus!
