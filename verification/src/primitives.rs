//! The plain data the gossip logic works on: block hashes, peer and
//! validator identities, views, signed availability bitfields, the gossip
//! message, reputation deltas and the outbound actions the handlers emit.
use vstd::prelude::*;

verus! {

/// Number of bytes in a relay-chain block hash.
pub const HASH_LEN: usize = 32;

/// Number of bytes in a validator public key.
pub const VALIDATOR_ID_LEN: usize = 32;

/// Number of bytes in a signature.
pub const SIGNATURE_LEN: usize = 64;

/// Upper bound on the byte length of a bitfield payload; longer payloads
/// are rejected by decoding and refused by construction.
pub const MAX_PAYLOAD_LEN: usize = 16777216;

/// 32-byte identifier of a relay-chain block, used as a key.
pub struct Hash {
    pub bytes: Vec<u8>,
}

impl View for Hash {
    type V = Seq<u8>;

    open spec fn view(&self) -> Seq<u8> {
        self.bytes@
    }
}

impl Hash {
    /// A hash is exactly 32 bytes.
    pub open spec fn wf(&self) -> bool {
        self@.len() == HASH_LEN
    }

    /// Builds a hash out of exactly 32 bytes; anything else is refused.
    pub fn new(bytes: Vec<u8>) -> (r: Option<Hash>)
        ensures
            match r {
                Some(h) => h@ == bytes@ && h.wf(),
                None => bytes@.len() != HASH_LEN,
            },
    {
        if bytes.len() == HASH_LEN {
            Some(Hash { bytes })
        } else {
            None
        }
    }

    /// The hash whose 32 bytes all hold `b`.
    pub fn repeat(b: u8) -> (r: Hash)
        ensures
            r.wf(),
            r@ == Seq::<u8>::new(HASH_LEN as nat, |i: int| b),
    {
        let mut bytes: Vec<u8> = Vec::new();
        let mut i: usize = 0;
        while i < HASH_LEN
            invariant
                i <= HASH_LEN,
                bytes@ == Seq::<u8>::new(i as nat, |j: int| b),
            decreases HASH_LEN - i,
        {
            bytes.push(b);
            proof {
                assert(bytes@ =~= Seq::<u8>::new((i + 1) as nat, |j: int| b));
            }
            i = i + 1;
        }
        Hash { bytes }
    }

    /// A copy with the same bytes.
    pub fn duplicate(&self) -> (r: Hash)
        ensures
            r@ == self@,
    {
        Hash { bytes: clone_bytes(&self.bytes) }
    }

    /// Byte-for-byte equality.
    pub fn same(&self, other: &Hash) -> (r: bool)
        ensures
            r == (self@ == other@),
    {
        bytes_eq(&self.bytes, &other.bytes)
    }
}

/// Opaque stable identity of a remote node.
#[derive(PartialEq, Eq, Structural, Clone, Copy, Hash, Debug)]
pub struct PeerId {
    pub id: u64,
}

impl PeerId {
    pub fn new(id: u64) -> (r: PeerId)
        ensures
            r.id == id,
    {
        PeerId { id }
    }
}

/// Public key of a validator.
pub struct ValidatorId {
    pub bytes: Vec<u8>,
}

impl View for ValidatorId {
    type V = Seq<u8>;

    open spec fn view(&self) -> Seq<u8> {
        self.bytes@
    }
}

impl ValidatorId {
    /// A validator id is exactly 32 bytes of public key.
    pub open spec fn wf(&self) -> bool {
        self@.len() == VALIDATOR_ID_LEN
    }

    pub fn new(bytes: Vec<u8>) -> (r: Option<ValidatorId>)
        ensures
            match r {
                Some(v) => v@ == bytes@ && v.wf(),
                None => bytes@.len() != VALIDATOR_ID_LEN,
            },
    {
        if bytes.len() == VALIDATOR_ID_LEN {
            Some(ValidatorId { bytes })
        } else {
            None
        }
    }

    /// A copy with the same bytes.
    pub fn duplicate(&self) -> (r: ValidatorId)
        ensures
            r@ == self@,
    {
        ValidatorId { bytes: clone_bytes(&self.bytes) }
    }

    /// Byte-for-byte equality.
    pub fn same(&self, other: &ValidatorId) -> (r: bool)
        ensures
            r == (self@ == other@),
    {
        bytes_eq(&self.bytes, &other.bytes)
    }
}

/// The `(session_index, parent_hash)` pair mixed into every signature so
/// that signatures cannot replay across sessions or forks.
pub struct SigningContext {
    pub session_index: u32,
    pub parent_hash: Hash,
}

/// Spec-level value of a signing context.
#[verifier::ext_equal]
pub struct CtxModel {
    pub session_index: u32,
    pub parent_hash: Seq<u8>,
}

impl View for SigningContext {
    type V = CtxModel;

    open spec fn view(&self) -> CtxModel {
        CtxModel { session_index: self.session_index, parent_hash: self.parent_hash@ }
    }
}

impl SigningContext {
    pub fn duplicate(&self) -> (r: SigningContext)
        ensures
            r@ == self@,
    {
        SigningContext {
            session_index: self.session_index,
            parent_hash: self.parent_hash.duplicate(),
        }
    }
}

/// An ordered sequence of relay-parent hashes with set-like membership:
/// the relay parents a node currently cares about.
pub struct NodeView {
    pub heads: Vec<Hash>,
}

impl View for NodeView {
    type V = Seq<Seq<u8>>;

    open spec fn view(&self) -> Seq<Seq<u8>> {
        self.heads@.map_values(|h: Hash| h@)
    }
}

impl NodeView {
    pub fn new(heads: Vec<Hash>) -> (r: NodeView)
        ensures
            r@ == heads@.map_values(|h: Hash| h@),
    {
        NodeView { heads }
    }

    pub fn empty() -> (r: NodeView)
        ensures
            r@ == Seq::<Seq<u8>>::empty(),
    {
        NodeView { heads: Vec::new() }
    }

    /// Set-style membership of a relay parent in the view.
    pub fn contains_hash(&self, h: &Hash) -> (r: bool)
        ensures
            r == self@.contains(h@),
    {
        let mut i: usize = 0;
        while i < self.heads.len()
            invariant
                i <= self.heads.len(),
                self@ == self.heads@.map_values(|x: Hash| x@),
                forall|j: int| 0 <= j < i ==> self.heads@[j]@ != h@,
            decreases self.heads.len() - i,
        {
            if self.heads[i].same(h) {
                proof {
                    assert(self@[i as int] == h@);
                }
                return true;
            }
            i = i + 1;
        }
        proof {
            assert(forall|j: int| 0 <= j < self@.len() ==> self@[j] != h@);
        }
        false
    }

    /// A copy holding the same hashes.
    pub fn duplicate(&self) -> (r: NodeView)
        ensures
            r@ == self@,
    {
        let mut heads: Vec<Hash> = Vec::new();
        let mut i: usize = 0;
        while i < self.heads.len()
            invariant
                i <= self.heads.len(),
                heads@.len() == i,
                forall|j: int| 0 <= j < i ==> heads@[j]@ == self.heads@[j]@,
            decreases self.heads.len() - i,
        {
            heads.push(self.heads[i].duplicate());
            i = i + 1;
        }
        let r = NodeView { heads };
        proof {
            assert(r@ =~= self@);
        }
        r
    }
}

/// An opaque signed payload carrying a bitmap, the signer's validator
/// index, and a signature over the bitmap under a signing context.
pub struct SignedAvailabilityBitfield {
    pub payload: Vec<u8>,
    pub validator_index: u32,
    pub signature: Vec<u8>,
}

/// Spec-level value of a signed availability bitfield.
#[verifier::ext_equal]
pub struct SignedModel {
    pub payload: Seq<u8>,
    pub validator_index: u32,
    pub signature: Seq<u8>,
}

impl View for SignedAvailabilityBitfield {
    type V = SignedModel;

    open spec fn view(&self) -> SignedModel {
        SignedModel {
            payload: self.payload@,
            validator_index: self.validator_index,
            signature: self.signature@,
        }
    }
}

/// Bounds that every signed bitfield handled by the library observes:
/// a 64-byte signature and a payload below the size cap.
pub open spec fn signed_wf(s: SignedModel) -> bool {
    s.signature.len() == SIGNATURE_LEN && s.payload.len() <= MAX_PAYLOAD_LEN
}

impl SignedAvailabilityBitfield {
    pub open spec fn wf(&self) -> bool {
        signed_wf(self@)
    }

    /// Builds a signed bitfield; refused when the signature is not 64
    /// bytes or the payload is over the size cap.
    pub fn new(payload: Vec<u8>, validator_index: u32, signature: Vec<u8>) -> (r: Option<
        SignedAvailabilityBitfield,
    >)
        ensures
            match r {
                Some(s) => s@ == (SignedModel {
                    payload: payload@,
                    validator_index,
                    signature: signature@,
                }) && s.wf(),
                None => signature@.len() != SIGNATURE_LEN || payload@.len() > MAX_PAYLOAD_LEN,
            },
    {
        if signature.len() == SIGNATURE_LEN && payload.len() <= MAX_PAYLOAD_LEN {
            Some(SignedAvailabilityBitfield { payload, validator_index, signature })
        } else {
            None
        }
    }

    /// The validator index the payload claims to be signed under.
    pub fn validator_index(&self) -> (r: u32)
        ensures
            r == self@.validator_index,
    {
        self.validator_index
    }

    /// A copy with the same contents.
    pub fn duplicate(&self) -> (r: SignedAvailabilityBitfield)
        ensures
            r@ == self@,
    {
        SignedAvailabilityBitfield {
            payload: clone_bytes(&self.payload),
            validator_index: self.validator_index,
            signature: clone_bytes(&self.signature),
        }
    }
}

/// Checked signed availability bitfield that is distributed to other
/// peers; the sole wire form.
pub struct BitfieldGossipMessage {
    /// The relay parent this message is relative to.
    pub relay_parent: Hash,
    /// The actual signed availability bitfield.
    pub signed_availability: SignedAvailabilityBitfield,
}

/// Spec-level value of a gossip message.
#[verifier::ext_equal]
pub struct MsgModel {
    pub relay_parent: Seq<u8>,
    pub signed: SignedModel,
}

impl View for BitfieldGossipMessage {
    type V = MsgModel;

    open spec fn view(&self) -> MsgModel {
        MsgModel { relay_parent: self.relay_parent@, signed: self.signed_availability@ }
    }
}

/// A valid wire message: 32-byte relay parent and a bounded signed
/// bitfield.
pub open spec fn msg_wf(m: MsgModel) -> bool {
    m.relay_parent.len() == HASH_LEN && signed_wf(m.signed)
}

impl BitfieldGossipMessage {
    pub open spec fn wf(&self) -> bool {
        msg_wf(self@)
    }

    /// A copy with the same contents.
    pub fn duplicate(&self) -> (r: BitfieldGossipMessage)
        ensures
            r@ == self@,
    {
        BitfieldGossipMessage {
            relay_parent: self.relay_parent.duplicate(),
            signed_availability: self.signed_availability.duplicate(),
        }
    }
}

/// A reputation delta reported to the network bridge for one peer.
/// The values form a fixed table; the bridge owns the accumulated score.
#[derive(PartialEq, Eq, Structural, Clone, Copy, Debug)]
pub enum ReputationChange {
    /// The bitfield signature did not verify.
    CostSignatureInvalid,
    /// The validator index was out of range for the validator set.
    CostValidatorIndexInvalid,
    /// The validator set at that relay parent was empty.
    CostMissingPeerSessionKey,
    /// The relay parent was not in our view or not in our working set.
    CostNotInterested,
    /// The bytes did not parse as a gossip message.
    CostMessageNotDecodable,
    /// Reserved: a valid message carrying new information.
    GainValidMessageFirst,
    /// An accepted valid bitfield.
    GainValidMessage,
}

impl ReputationChange {
    /// The normative delta of each reputation change.
    pub open spec fn spec_value(self) -> int {
        match self {
            ReputationChange::CostSignatureInvalid => -100,
            ReputationChange::CostValidatorIndexInvalid => -100,
            ReputationChange::CostMissingPeerSessionKey => -133,
            ReputationChange::CostNotInterested => -51,
            ReputationChange::CostMessageNotDecodable => -100,
            ReputationChange::GainValidMessageFirst => 15,
            ReputationChange::GainValidMessage => 5,
        }
    }

    pub fn value(&self) -> (r: i32)
        ensures
            r == self.spec_value(),
    {
        match self {
            ReputationChange::CostSignatureInvalid => -100,
            ReputationChange::CostValidatorIndexInvalid => -100,
            ReputationChange::CostMissingPeerSessionKey => -133,
            ReputationChange::CostNotInterested => -51,
            ReputationChange::CostMessageNotDecodable => -100,
            ReputationChange::GainValidMessageFirst => 15,
            ReputationChange::GainValidMessage => 5,
        }
    }
}

/// One outbound message to the bus, produced by a handler.
pub enum Action {
    /// Fan a wire-encoded gossip message out to the listed peers.
    SendMessage { peers: Vec<PeerId>, protocol: Vec<u8>, bytes: Vec<u8> },
    /// Report a reputation delta for a peer to the network bridge.
    ReportPeer { peer: PeerId, rep: ReputationChange },
    /// Hand an accepted bitfield to the block provisioner.
    ProvisionBitfield { relay_parent: Hash, signed: SignedAvailabilityBitfield },
}

/// Spec-level value of an outbound action.
#[verifier::ext_equal]
pub enum ActionModel {
    SendMessage { peers: Seq<PeerId>, protocol: Seq<u8>, bytes: Seq<u8> },
    ReportPeer { peer: PeerId, rep: ReputationChange },
    ProvisionBitfield { relay_parent: Seq<u8>, signed: SignedModel },
}

impl View for Action {
    type V = ActionModel;

    open spec fn view(&self) -> ActionModel {
        match self {
            Action::SendMessage { peers, protocol, bytes } => ActionModel::SendMessage {
                peers: peers@,
                protocol: protocol@,
                bytes: bytes@,
            },
            Action::ReportPeer { peer, rep } => ActionModel::ReportPeer { peer: *peer, rep: *rep },
            Action::ProvisionBitfield { relay_parent, signed } => ActionModel::ProvisionBitfield {
                relay_parent: relay_parent@,
                signed: signed@,
            },
        }
    }
}

/// The spec-level contents of a list of actions, in emission order.
pub open spec fn acts_model(s: Seq<Action>) -> Seq<ActionModel> {
    s.map_values(|a: Action| a@)
}

/// The fixed 4-byte protocol tag under which gossip messages travel.
pub open spec fn protocol_id_spec() -> Seq<u8> {
    seq![98u8, 105u8, 116u8, 100u8]
}

/// The protocol identifier, the ASCII bytes of "bitd".
pub fn protocol_id() -> (r: Vec<u8>)
    ensures
        r@ == protocol_id_spec(),
{
    let mut v: Vec<u8> = Vec::new();
    v.push(98);
    v.push(105);
    v.push(116);
    v.push(100);
    proof {
        assert(v@ =~= protocol_id_spec());
    }
    v
}

/// Byte-for-byte equality of two byte vectors.
pub fn bytes_eq(a: &Vec<u8>, b: &Vec<u8>) -> (r: bool)
    ensures
        r == (a@ == b@),
{
    if a.len() != b.len() {
        proof {
            assert(a@ != b@);
        }
        return false;
    }
    let mut i: usize = 0;
    while i < a.len()
        invariant
            i <= a.len(),
            a@.len() == b@.len(),
            forall|j: int| 0 <= j < i ==> a@[j] == b@[j],
        decreases a.len() - i,
    {
        if a[i] != b[i] {
            return false;
        }
        i = i + 1;
    }
    proof {
        assert(a@ =~= b@);
    }
    true
}

/// A copy of a byte vector with the same contents.
pub fn clone_bytes(a: &Vec<u8>) -> (r: Vec<u8>)
    ensures
        r@ == a@,
{
    let mut r: Vec<u8> = Vec::new();
    let mut i: usize = 0;
    while i < a.len()
        invariant
            i <= a.len(),
            r@ == a@.subrange(0, i as int),
        decreases a.len() - i,
    {
        r.push(a[i]);
        proof {
            assert(r@ =~= a@.subrange(0, (i + 1) as int));
        }
        i = i + 1;
    }
    proof {
        assert(r@ =~= a@);
    }
    r
}

} // verus!
