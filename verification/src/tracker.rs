//! The gossip state: per-relay-parent data (signing context, validator
//! set, seen bitfields, per-peer sent-sets) and the process-wide tracker
//! (our view, peer views, active relay parents). All maps are vectors of
//! pairs with unique keys; their models are association lists.
use crate::alist::al_unique;
use crate::primitives::BitfieldGossipMessage;
use crate::primitives::CtxModel;
use crate::primitives::MsgModel;
use crate::primitives::NodeView;
use crate::primitives::PeerId;
use crate::primitives::SigningContext;
use crate::primitives::ValidatorId;
use crate::primitives::msg_wf;
use vstd::prelude::*;

verus! {


/// The model of a validator set: each id as its bytes.
pub open spec fn vids_model(s: Seq<ValidatorId>) -> Seq<Seq<u8>> {
    s.map_values(|v: ValidatorId| v@)
}

/// The model of the seen-bitfields map.
pub open spec fn opv_model(s: Seq<(ValidatorId, BitfieldGossipMessage)>) -> Seq<(Seq<u8>, MsgModel)> {
    s.map_values(|p: (ValidatorId, BitfieldGossipMessage)| (p.0@, p.1@))
}

/// The model of the sent-sets map.
pub open spec fn sent_model(s: Seq<(PeerId, Vec<ValidatorId>)>) -> Seq<(PeerId, Seq<Seq<u8>>)> {
    s.map_values(|p: (PeerId, Vec<ValidatorId>)| (p.0, vids_model(p.1@)))
}

/// The model of the peer-views map.
pub open spec fn pvs_model(s: Seq<(PeerId, NodeView)>) -> Seq<(PeerId, Seq<Seq<u8>>)> {
    s.map_values(|p: (PeerId, NodeView)| (p.0, p.1@))
}

/// The model of the relay-parents map.
pub open spec fn rps_model(s: Seq<(crate::primitives::Hash, PerRelayParentData)>) -> Seq<(Seq<u8>, RpModel)> {
    s.map_values(|p: (crate::primitives::Hash, PerRelayParentData)| (p.0@, p.1@))
}

/// Data for a particular relay parent the orchestrator asked us to work
/// on.
pub struct PerRelayParentData {
    /// Signing context under which bitfields for this relay parent are
    /// signed; set at creation, immutable thereafter.
    pub signing_context: SigningContext,
    /// The validator set, indexed by validator index; immutable after
    /// creation.
    pub validator_set: Vec<ValidatorId>,
    /// At most one valid gossip message per validator; first seen wins.
    pub one_per_validator: Vec<(ValidatorId, BitfieldGossipMessage)>,
    /// Which validators' bitfields were already sent to which peer
    /// under this relay parent; grows only.
    pub message_sent_to_peer: Vec<(PeerId, Vec<ValidatorId>)>,
}

/// Spec-level value of the data for one relay parent.
#[verifier::ext_equal]
pub struct RpModel {
    pub signing_context: CtxModel,
    pub validator_set: Seq<Seq<u8>>,
    pub one_per_validator: Seq<(Seq<u8>, MsgModel)>,
    pub message_sent_to_peer: Seq<(PeerId, Seq<Seq<u8>>)>,
}

impl View for PerRelayParentData {
    type V = RpModel;

    open spec fn view(&self) -> RpModel {
        RpModel {
            signing_context: self.signing_context@,
            validator_set: vids_model(self.validator_set@),
            one_per_validator: opv_model(self.one_per_validator@),
            message_sent_to_peer: sent_model(self.message_sent_to_peer@),
        }
    }
}

impl RpModel {
    /// Unique keys in both maps, a real parent hash in the signing
    /// context, and every stored message within the wire bounds.
    pub open spec fn wf(self) -> bool {
        &&& al_unique(self.one_per_validator)
        &&& al_unique(self.message_sent_to_peer)
        &&& self.signing_context.parent_hash.len() == crate::primitives::HASH_LEN
        &&& forall|i: int|
            0 <= i < self.one_per_validator.len() ==> msg_wf(#[trigger] self.one_per_validator[i].1)
    }
}

/// Whether the peer still needs the bitfield signed by `validator`
/// under this relay parent: true unless that validator is already in
/// the peer's sent-set. A peer without a sent-set entry has been sent
/// nothing, hence needs it.
pub open spec fn needed_by_peer(e: RpModel, peer: PeerId, validator: Seq<u8>) -> bool {
    match crate::alist::al_get(e.message_sent_to_peer, peer) {
        Some(s) => !s.contains(validator),
        None => true,
    }
}

impl PerRelayParentData {
    /// A fresh entry: the given signing context and validator set, no
    /// seen bitfields, nothing sent.
    pub fn new(signing_context: SigningContext, validator_set: Vec<ValidatorId>) -> (r:
        PerRelayParentData)
        requires
            signing_context.parent_hash.wf(),
        ensures
            r@ == (RpModel {
                signing_context: signing_context@,
                validator_set: vids_model(validator_set@),
                one_per_validator: Seq::<(Seq<u8>, MsgModel)>::empty(),
                message_sent_to_peer: Seq::<(PeerId, Seq<Seq<u8>>)>::empty(),
            }),
            r@.wf(),
    {
        let r = PerRelayParentData {
            signing_context,
            validator_set,
            one_per_validator: Vec::new(),
            message_sent_to_peer: Vec::new(),
        };
        proof {
            assert(r@.one_per_validator =~= Seq::<(Seq<u8>, MsgModel)>::empty());
            assert(r@.message_sent_to_peer =~= Seq::<(PeerId, Seq<Seq<u8>>)>::empty());
        }
        r
    }

    /// The index of the peer's sent-set, if it has one.
    pub fn find_sent(&self, peer: PeerId) -> (r: Option<usize>)
        ensures
            match r {
                Some(i) => i < self.message_sent_to_peer@.len() && self@.message_sent_to_peer[
                    i as int].0 == peer,
                None => forall|j: int|
                    0 <= j < self@.message_sent_to_peer.len() ==> self@.message_sent_to_peer[j].0
                        != peer,
            },
    {
        let mut i: usize = 0;
        while i < self.message_sent_to_peer.len()
            invariant
                i <= self.message_sent_to_peer@.len(),
                forall|j: int| 0 <= j < i ==> self@.message_sent_to_peer[j].0 != peer,
            decreases self.message_sent_to_peer@.len() - i,
        {
            if self.message_sent_to_peer[i].0 == peer {
                return Some(i);
            }
            i = i + 1;
        }
        None
    }

    /// The index of the validator's entry among the seen bitfields, if
    /// one was recorded.
    pub fn find_validator_msg(&self, validator: &ValidatorId) -> (r: Option<usize>)
        ensures
            match r {
                Some(i) => i < self.one_per_validator@.len() && self@.one_per_validator[i as int].0
                    == validator@,
                None => forall|j: int|
                    0 <= j < self@.one_per_validator.len() ==> self@.one_per_validator[j].0
                        != validator@,
            },
    {
        let mut i: usize = 0;
        while i < self.one_per_validator.len()
            invariant
                i <= self.one_per_validator@.len(),
                forall|j: int| 0 <= j < i ==> self@.one_per_validator[j].0 != validator@,
            decreases self.one_per_validator@.len() - i,
        {
            if self.one_per_validator[i].0.same(validator) {
                return Some(i);
            }
            i = i + 1;
        }
        None
    }

    /// Determines if the bitfield signed by a validator is needed by
    /// the given peer: true iff the peer's sent-set, which may be
    /// missing and is then empty, does not contain the validator yet.
    pub fn message_from_validator_needed_by_peer(&self, peer: PeerId, validator: &ValidatorId) -> (
        r: bool)
        requires
            al_unique(self@.message_sent_to_peer),
        ensures
            r == needed_by_peer(self@, peer, validator@),
    {
        match self.find_sent(peer) {
            Some(i) => {
                proof {
                    crate::alist::lemma_al_idx_unique(
                        self@.message_sent_to_peer,
                        peer,
                        i as int,
                    );
                }
                let r = !contains_validator(&self.message_sent_to_peer[i].1, validator);
                r
            },
            None => {
                proof {
                    assert(!crate::alist::al_contains(self@.message_sent_to_peer, peer));
                }
                true
            },
        }
    }
}

/// Whether the list of validator ids holds one with these bytes.
pub fn contains_validator(s: &Vec<ValidatorId>, validator: &ValidatorId) -> (r: bool)
    ensures
        r == vids_model(s@).contains(validator@),
{
    let ghost model = vids_model(s@);
    let mut i: usize = 0;
    while i < s.len()
        invariant
            i <= s@.len(),
            model == vids_model(s@),
            forall|j: int| 0 <= j < i ==> model[j] != validator@,
        decreases s@.len() - i,
    {
        if s[i].same(validator) {
            proof {
                assert(model[i as int] == validator@);
            }
            return true;
        }
        i = i + 1;
    }
    proof {
        assert(forall|j: int| 0 <= j < model.len() ==> model[j] != validator@);
    }
    false
}

/// Data used to track information of peers and relay parents the
/// orchestrator ordered us to work on.
pub struct Tracker {
    /// All active peers and their views, to determine what is relevant
    /// to them.
    pub peer_views: Vec<(PeerId, NodeView)>,
    /// Our current view.
    pub our_view: NodeView,
    /// Additional data particular to each active relay parent.
    pub per_relay_parent: Vec<(crate::primitives::Hash, PerRelayParentData)>,
}

/// Spec-level value of the whole tracker.
#[verifier::ext_equal]
pub struct TrackerModel {
    pub our_view: Seq<Seq<u8>>,
    pub peer_views: Seq<(PeerId, Seq<Seq<u8>>)>,
    pub per_relay_parent: Seq<(Seq<u8>, RpModel)>,
}

impl View for Tracker {
    type V = TrackerModel;

    open spec fn view(&self) -> TrackerModel {
        TrackerModel {
            our_view: self.our_view@,
            peer_views: pvs_model(self.peer_views@),
            per_relay_parent: rps_model(self.per_relay_parent@),
        }
    }
}

impl TrackerModel {
    /// Unique keys in every map, and every relay-parent entry well
    /// formed.
    pub open spec fn wf(self) -> bool {
        &&& al_unique(self.peer_views)
        &&& al_unique(self.per_relay_parent)
        &&& forall|i: int|
            0 <= i < self.per_relay_parent.len() ==> (#[trigger] self.per_relay_parent[i].1).wf()
    }

    /// The tracker holding nothing.
    pub open spec fn empty() -> TrackerModel {
        TrackerModel {
            our_view: Seq::empty(),
            peer_views: Seq::empty(),
            per_relay_parent: Seq::empty(),
        }
    }
}

impl Tracker {
    /// The empty tracker every run starts from.
    pub fn new() -> (r: Tracker)
        ensures
            r@ == TrackerModel::empty(),
            r@.wf(),
    {
        let r = Tracker {
            peer_views: Vec::new(),
            our_view: NodeView::empty(),
            per_relay_parent: Vec::new(),
        };
        proof {
            assert(r@ =~~= TrackerModel::empty());
        }
        r
    }

    /// The index of the entry for this relay parent, if it is active.
    pub fn find_rp(&self, relay_parent: &crate::primitives::Hash) -> (r: Option<usize>)
        ensures
            match r {
                Some(i) => i < self.per_relay_parent@.len() && self@.per_relay_parent[i as int].0
                    == relay_parent@,
                None => forall|j: int|
                    0 <= j < self@.per_relay_parent.len() ==> self@.per_relay_parent[j].0
                        != relay_parent@,
            },
    {
        let mut i: usize = 0;
        while i < self.per_relay_parent.len()
            invariant
                i <= self.per_relay_parent@.len(),
                forall|j: int| 0 <= j < i ==> self@.per_relay_parent[j].0 != relay_parent@,
            decreases self.per_relay_parent@.len() - i,
        {
            if self.per_relay_parent[i].0.same(relay_parent) {
                return Some(i);
            }
            i = i + 1;
        }
        None
    }

    /// The index of the peer's view entry, if the peer is connected.
    pub fn find_peer(&self, peer: PeerId) -> (r: Option<usize>)
        ensures
            match r {
                Some(i) => i < self.peer_views@.len() && self@.peer_views[i as int].0 == peer,
                None => forall|j: int|
                    0 <= j < self@.peer_views.len() ==> self@.peer_views[j].0 != peer,
            },
    {
        let mut i: usize = 0;
        while i < self.peer_views.len()
            invariant
                i <= self.peer_views@.len(),
                forall|j: int| 0 <= j < i ==> self@.peer_views[j].0 != peer,
            decreases self.peer_views@.len() - i,
        {
            if self.peer_views[i].0 == peer {
                return Some(i);
            }
            i = i + 1;
        }
        None
    }
}

} // verus!
