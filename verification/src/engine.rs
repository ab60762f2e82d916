//! The gossip state machine: one spec-level transition per inbound
//! event, and the verified handlers that implement them. Each handler
//! takes the tracker and an event, mutates the tracker, and returns the
//! outbound actions in emission order; the embedding event loop performs
//! them.
use crate::alist::al_contains;
use crate::alist::al_get;
use crate::alist::al_idx;
use crate::alist::al_remove;
use crate::alist::al_set;
use crate::alist::al_unique;
use crate::alist::lemma_al_idx_unique;
use crate::alist::lemma_al_remove_unique;
use crate::alist::lemma_al_set_unique;
use crate::codec::spec_decode;
use crate::codec::spec_encode;
use crate::crypto::ctx_bytes;
use crate::crypto::sig_valid;
use crate::primitives::acts_model;
use crate::primitives::msg_wf;
use crate::primitives::protocol_id;
use crate::primitives::protocol_id_spec;
use crate::primitives::Action;
use crate::primitives::ActionModel;
use crate::primitives::BitfieldGossipMessage;
use crate::primitives::CtxModel;
use crate::primitives::MsgModel;
use crate::primitives::NodeView;
use crate::primitives::PeerId;
use crate::primitives::ReputationChange;
use crate::primitives::SignedAvailabilityBitfield;
use crate::primitives::SignedModel;
use crate::primitives::SigningContext;
use crate::primitives::ValidatorId;
use crate::tracker::contains_validator;
use crate::tracker::needed_by_peer;
use crate::tracker::opv_model;
use crate::tracker::rps_model;
use crate::tracker::sent_model;
use crate::tracker::vids_model;
use crate::tracker::PerRelayParentData;
use crate::tracker::RpModel;
use crate::tracker::Tracker;
use crate::tracker::TrackerModel;
use vstd::prelude::*;

verus! {

/// One inbound event, at the level the transitions are stated on:
/// lifecycle signals, a locally produced bitfield, and the network
/// bridge events.
pub enum StepModel {
    /// The orchestrator asks us to work on a relay parent; the runtime
    /// answered with its validator set and signing context.
    StartWork { relay_parent: Seq<u8>, validator_set: Seq<Seq<u8>>, signing_context: CtxModel },
    /// The orchestrator withdraws a relay parent from the working set.
    StopWork { relay_parent: Seq<u8> },
    /// The orchestrator shuts the subsystem down.
    Conclude,
    /// The local validator produced its own bitfield.
    DistributeBitfield { relay_parent: Seq<u8>, signed: SignedModel },
    /// The bridge reports a peer connected.
    PeerConnected { peer: PeerId },
    /// The bridge reports a peer disconnected.
    PeerDisconnected { peer: PeerId },
    /// The bridge reports a peer's view changed.
    PeerViewChange { peer: PeerId, new_view: Seq<Seq<u8>> },
    /// The bridge reports our own view changed.
    OurViewChange { new_view: Seq<Seq<u8>> },
    /// A peer sent us wire bytes.
    PeerMessage { peer: PeerId, bytes: Seq<u8> },
}

/// A single reputation report, the terminal side effect of handling a
/// peer message.
pub open spec fn report(origin: PeerId, rep: ReputationChange) -> Seq<ActionModel> {
    seq![ActionModel::ReportPeer { peer: origin, rep }]
}

/// The peers among the first `n` of `pvs` whose view contains `rp`, in
/// order.
pub open spec fn interested_upto(
    pvs: Seq<(PeerId, Seq<Seq<u8>>)>,
    rp: Seq<u8>,
    n: int,
) -> Seq<PeerId>
    decreases n,
{
    if n <= 0 {
        Seq::empty()
    } else {
        interested_upto(pvs, rp, n - 1) + (if pvs[n - 1].1.contains(rp) {
            seq![pvs[n - 1].0]
        } else {
            Seq::<PeerId>::empty()
        })
    }
}

/// The peers interested in `rp`: those whose last known view contains
/// it.
pub open spec fn interested_peers(pvs: Seq<(PeerId, Seq<Seq<u8>>)>, rp: Seq<u8>) -> Seq<PeerId> {
    interested_upto(pvs, rp, pvs.len() as int)
}

/// The sent-sets after recording that `validator`'s bitfield went to
/// `peer`: the validator enters the peer's sent-set, which is created
/// if missing.
pub open spec fn mark_sent_one(
    sent: Seq<(PeerId, Seq<Seq<u8>>)>,
    peer: PeerId,
    validator: Seq<u8>,
) -> Seq<(PeerId, Seq<Seq<u8>>)> {
    match al_get(sent, peer) {
        Some(s) => if s.contains(validator) {
            sent
        } else {
            al_set(sent, peer, s.push(validator))
        },
        None => sent.push((peer, seq![validator])),
    }
}

/// The sent-sets after recording `validator` for the first `n` peers of
/// `peers`.
pub open spec fn mark_sent_upto(
    sent: Seq<(PeerId, Seq<Seq<u8>>)>,
    peers: Seq<PeerId>,
    validator: Seq<u8>,
    n: int,
) -> Seq<(PeerId, Seq<Seq<u8>>)>
    decreases n,
{
    if n <= 0 {
        sent
    } else {
        mark_sent_one(mark_sent_upto(sent, peers, validator, n - 1), peers[n - 1], validator)
    }
}

/// Relaying a validated message signed by `validator`: hand it to the
/// provisioner, then fan it out in one batched send to every interested
/// peer, recording each as sent.
pub open spec fn step_relay(t: TrackerModel, validator: Seq<u8>, m: MsgModel) -> (
    TrackerModel,
    Seq<ActionModel>,
) {
    let peers = interested_peers(t.peer_views, m.relay_parent);
    let actions = seq![
        ActionModel::ProvisionBitfield { relay_parent: m.relay_parent, signed: m.signed },
        ActionModel::SendMessage { peers, protocol: protocol_id_spec(), bytes: spec_encode(m) },
    ];
    let t2 = match al_get(t.per_relay_parent, m.relay_parent) {
        Some(e) => TrackerModel {
            per_relay_parent: al_set(
                t.per_relay_parent,
                m.relay_parent,
                RpModel {
                    message_sent_to_peer: mark_sent_upto(
                        e.message_sent_to_peer,
                        peers,
                        validator,
                        peers.len() as int,
                    ),
                    ..e
                },
            ),
            ..t
        },
        None => t,
    };
    (t2, actions)
}

/// The decision ladder for a decoded peer message: stop with one
/// reputation report at the first failing check; accept a fresh valid
/// bitfield by storing it, relaying it, and reporting the gain last.
pub open spec fn step_process_incoming(t: TrackerModel, origin: PeerId, m: MsgModel) -> (
    TrackerModel,
    Seq<ActionModel>,
) {
    if !t.our_view.contains(m.relay_parent) {
        (t, report(origin, ReputationChange::CostNotInterested))
    } else {
        match al_get(t.per_relay_parent, m.relay_parent) {
            None => (t, report(origin, ReputationChange::CostNotInterested)),
            Some(e) => {
                if e.validator_set.len() == 0 {
                    (t, report(origin, ReputationChange::CostMissingPeerSessionKey))
                } else if m.signed.validator_index as int >= e.validator_set.len() {
                    (t, report(origin, ReputationChange::CostValidatorIndexInvalid))
                } else {
                    let v = e.validator_set[m.signed.validator_index as int];
                    if !sig_valid(
                        ctx_bytes(e.signing_context),
                        m.signed.payload,
                        v,
                        m.signed.signature,
                    ) {
                        (t, report(origin, ReputationChange::CostSignatureInvalid))
                    } else if al_contains(e.one_per_validator, v) {
                        (t, report(origin, ReputationChange::GainValidMessage))
                    } else {
                        let t1 = TrackerModel {
                            per_relay_parent: al_set(
                                t.per_relay_parent,
                                m.relay_parent,
                                RpModel { one_per_validator: e.one_per_validator.push((v, m)), ..e },
                            ),
                            ..t
                        };
                        let r = step_relay(t1, v, m);
                        (r.0, r.1 + report(origin, ReputationChange::GainValidMessage))
                    }
                }
            },
        }
    }
}

/// A peer message: decode the bytes, then run the decision ladder;
/// bytes that do not decode cost the peer reputation.
pub open spec fn step_peer_message(t: TrackerModel, origin: PeerId, bytes: Seq<u8>) -> (
    TrackerModel,
    Seq<ActionModel>,
) {
    match spec_decode(bytes) {
        None => (t, report(origin, ReputationChange::CostMessageNotDecodable)),
        Some(m) => step_process_incoming(t, origin, m),
    }
}

/// Why a locally produced bitfield was not distributed: each names the
/// orchestrator contract that was broken.
#[derive(PartialEq, Eq, Structural, Clone, Copy, Debug)]
pub enum DistributeError {
    /// The relay parent is not in the working set.
    UnknownRelayParent,
    /// The claimed validator index is out of range for the validator
    /// set at that relay parent.
    InvalidValidatorIndex,
    /// The signature does not verify for the claimed validator.
    InvalidSignature,
}

/// The checks a locally produced bitfield must pass before it is
/// distributed; nothing is reported to the bridge on failure, since no
/// peer misbehaved.
pub open spec fn distribute_err(t: TrackerModel, relay_parent: Seq<u8>, s: SignedModel) -> Option<
    DistributeError,
> {
    match al_get(t.per_relay_parent, relay_parent) {
        None => Some(DistributeError::UnknownRelayParent),
        Some(e) => {
            if s.validator_index as int >= e.validator_set.len() {
                Some(DistributeError::InvalidValidatorIndex)
            } else if !sig_valid(
                ctx_bytes(e.signing_context),
                s.payload,
                e.validator_set[s.validator_index as int],
                s.signature,
            ) {
                Some(DistributeError::InvalidSignature)
            } else {
                None
            }
        },
    }
}

/// A locally produced bitfield: after the orchestrator-contract checks,
/// store it under its validator (first seen wins; a duplicate is
/// dropped silently) and relay it.
pub open spec fn step_distribute(t: TrackerModel, relay_parent: Seq<u8>, s: SignedModel) -> (
    TrackerModel,
    Seq<ActionModel>,
) {
    if distribute_err(t, relay_parent, s) is Some {
        (t, Seq::empty())
    } else {
        let e = al_get(t.per_relay_parent, relay_parent)->Some_0;
        let v = e.validator_set[s.validator_index as int];
        let m = MsgModel { relay_parent, signed: s };
        if al_contains(e.one_per_validator, v) {
            (t, Seq::empty())
        } else {
            let t1 = TrackerModel {
                per_relay_parent: al_set(
                    t.per_relay_parent,
                    relay_parent,
                    RpModel { one_per_validator: e.one_per_validator.push((v, m)), ..e },
                ),
                ..t
            };
            step_relay(t1, v, m)
        }
    }
}

/// The relay parents among the first `n` of `new_view` that are not in
/// `old_view`: what the peer newly cares about, in view order.
pub open spec fn view_delta_upto(new_view: Seq<Seq<u8>>, old_view: Seq<Seq<u8>>, n: int) -> Seq<
    Seq<u8>,
>
    decreases n,
{
    if n <= 0 {
        Seq::empty()
    } else {
        view_delta_upto(new_view, old_view, n - 1) + (if old_view.contains(new_view[n - 1]) {
            Seq::<Seq<u8>>::empty()
        } else {
            seq![new_view[n - 1]]
        })
    }
}

/// Walking one relay parent's seen bitfields during catch-up: a pair is
/// collected when the peer still needs it and no message of that
/// validator was collected yet in this round.
pub open spec fn collect_rp_upto(
    e: RpModel,
    origin: PeerId,
    acc: Seq<(Seq<u8>, MsgModel)>,
    n: int,
) -> Seq<(Seq<u8>, MsgModel)>
    decreases n,
{
    if n <= 0 {
        acc
    } else {
        let acc1 = collect_rp_upto(e, origin, acc, n - 1);
        let v = e.one_per_validator[n - 1].0;
        let m = e.one_per_validator[n - 1].1;
        if needed_by_peer(e, origin, v) && !al_contains(acc1, v) {
            acc1.push((v, m))
        } else {
            acc1
        }
    }
}

/// Collecting over the first `n` relay parents of the delta: relay
/// parents outside the working set contribute nothing.
pub open spec fn collect_upto(
    t: TrackerModel,
    origin: PeerId,
    delta: Seq<Seq<u8>>,
    n: int,
) -> Seq<(Seq<u8>, MsgModel)>
    decreases n,
{
    if n <= 0 {
        Seq::empty()
    } else {
        let acc = collect_upto(t, origin, delta, n - 1);
        match al_get(t.per_relay_parent, delta[n - 1]) {
            None => acc,
            Some(e) => collect_rp_upto(e, origin, acc, e.one_per_validator.len() as int),
        }
    }
}

/// One tracked catch-up send: the message goes to the peer alone and
/// its validator is recorded as sent; a message whose relay parent has
/// meanwhile left the working set is skipped.
pub open spec fn send_one(t: TrackerModel, origin: PeerId, validator: Seq<u8>, m: MsgModel) -> (
    TrackerModel,
    Seq<ActionModel>,
) {
    match al_get(t.per_relay_parent, m.relay_parent) {
        None => (t, Seq::empty()),
        Some(e) => {
            let t2 = TrackerModel {
                per_relay_parent: al_set(
                    t.per_relay_parent,
                    m.relay_parent,
                    RpModel {
                        message_sent_to_peer: mark_sent_one(
                            e.message_sent_to_peer,
                            origin,
                            validator,
                        ),
                        ..e
                    },
                ),
                ..t
            };
            (
                t2,
                seq![
                    ActionModel::SendMessage {
                        peers: seq![origin],
                        protocol: protocol_id_spec(),
                        bytes: spec_encode(m),
                    },
                ],
            )
        },
    }
}

/// Sending the first `n` collected messages to the peer, one tracked
/// single-recipient send each.
pub open spec fn send_collected_upto(
    t: TrackerModel,
    origin: PeerId,
    coll: Seq<(Seq<u8>, MsgModel)>,
    n: int,
) -> (TrackerModel, Seq<ActionModel>)
    decreases n,
{
    if n <= 0 {
        (t, Seq::empty())
    } else {
        let r = send_collected_upto(t, origin, coll, n - 1);
        let r2 = send_one(r.0, origin, coll[n - 1].0, coll[n - 1].1);
        (r2.0, r.1 + r2.1)
    }
}

/// A peer's view change is catch-up: record the new view, then send the
/// peer every seen bitfield of a relay parent it newly cares about and
/// still needs, at most one per validator in the round.
pub open spec fn step_peer_view_change(t: TrackerModel, origin: PeerId, new_view: Seq<Seq<u8>>) -> (
    TrackerModel,
    Seq<ActionModel>,
) {
    let old_view = match al_get(t.peer_views, origin) {
        Some(v) => v,
        None => Seq::<Seq<u8>>::empty(),
    };
    let t1 = TrackerModel { peer_views: al_set(t.peer_views, origin, new_view), ..t };
    let delta = view_delta_upto(new_view, old_view, new_view.len() as int);
    let coll = collect_upto(t1, origin, delta, delta.len() as int);
    send_collected_upto(t1, origin, coll, coll.len() as int)
}

/// One transition of the state machine: the new tracker and the
/// outbound actions, in emission order.
pub open spec fn step(t: TrackerModel, s: StepModel) -> (TrackerModel, Seq<ActionModel>) {
    match s {
        StepModel::StartWork { relay_parent, validator_set, signing_context } => (
            TrackerModel {
                per_relay_parent: al_set(
                    t.per_relay_parent,
                    relay_parent,
                    RpModel {
                        signing_context,
                        validator_set,
                        one_per_validator: Seq::empty(),
                        message_sent_to_peer: Seq::empty(),
                    },
                ),
                ..t
            },
            Seq::empty(),
        ),
        StepModel::StopWork { relay_parent } => (
            TrackerModel { per_relay_parent: al_remove(t.per_relay_parent, relay_parent), ..t },
            Seq::empty(),
        ),
        StepModel::Conclude => (TrackerModel::empty(), Seq::empty()),
        StepModel::DistributeBitfield { relay_parent, signed } => step_distribute(
            t,
            relay_parent,
            signed,
        ),
        StepModel::PeerConnected { peer } => (
            if al_contains(t.peer_views, peer) {
                t
            } else {
                TrackerModel {
                    peer_views: t.peer_views.push((peer, Seq::empty())),
                    ..t
                }
            },
            Seq::empty(),
        ),
        StepModel::PeerDisconnected { peer } => (
            TrackerModel { peer_views: al_remove(t.peer_views, peer), ..t },
            Seq::empty(),
        ),
        StepModel::PeerViewChange { peer, new_view } => step_peer_view_change(t, peer, new_view),
        StepModel::OurViewChange { new_view } => (
            TrackerModel { our_view: new_view, ..t },
            Seq::empty(),
        ),
        StepModel::PeerMessage { peer, bytes } => step_peer_message(t, peer, bytes),
    }
}


/// Recording a mark keeps the sent-set keys unique.
pub proof fn lemma_mark_sent_one_unique(
    sent: Seq<(PeerId, Seq<Seq<u8>>)>,
    peer: PeerId,
    validator: Seq<u8>,
)
    requires
        al_unique(sent),
    ensures
        al_unique(mark_sent_one(sent, peer, validator)),
{
    match al_get(sent, peer) {
        Some(s) => {
            if !s.contains(validator) {
                lemma_al_set_unique(sent, peer, s.push(validator));
            }
        },
        None => {
            let s2 = sent.push((peer, seq![validator]));
            assert(!al_contains(sent, peer));
            assert forall|x: int, y: int|
                0 <= x < s2.len() && 0 <= y < s2.len() && x != y implies s2[x].0 != s2[y].0 by {
                if x < sent.len() && y < sent.len() {
                } else if x == sent.len() {
                    assert(s2[y].0 == sent[y].0);
                } else {
                    assert(s2[x].0 == sent[x].0);
                }
            }
        },
    }
}

/// Records that `validator`'s bitfield has been sent to `peer`,
/// creating the peer's sent-set when missing.
#[verifier::loop_isolation(false)]
fn mark_sent(sent: &mut Vec<(PeerId, Vec<ValidatorId>)>, peer: PeerId, validator: &ValidatorId)
    requires
        al_unique(sent_model(old(sent)@)),
    ensures
        sent_model(final(sent)@) == mark_sent_one(sent_model(old(sent)@), peer, validator@),
        al_unique(sent_model(final(sent)@)),
{
    let ghost m0 = sent_model(old(sent)@);
    proof {
        lemma_mark_sent_one_unique(m0, peer, validator@);
    }
    let mut j: usize = 0;
    while j < sent.len()
        invariant
            *sent == *old(sent),
            j <= sent@.len(),
            forall|k: int| 0 <= k < j ==> sent_model(sent@)[k].0 != peer,
        decreases sent@.len() - j,
    {
        if sent[j].0 == peer {
            proof {
                lemma_al_idx_unique(m0, peer, j as int);
            }
            if !contains_validator(&sent[j].1, validator) {
                sent[j].1.push(validator.duplicate());
                proof {
                    let s = m0[j as int].1;
                    assert(sent_model(sent@) =~~= al_set(m0, peer, s.push(validator@)));
                }
            } else {
                proof {
                    assert(sent_model(sent@) =~~= mark_sent_one(m0, peer, validator@));
                }
            }
            return ;
        }
        j = j + 1;
    }
    proof {
        assert(!al_contains(m0, peer));
    }
    let mut single: Vec<ValidatorId> = Vec::new();
    single.push(validator.duplicate());
    let ghost sv = single@;
    sent.push((peer, single));
    proof {
        assert(vids_model(sv) =~= seq![validator@]);
        assert(sent_model(sent@) =~~= mark_sent_one(m0, peer, validator@));
    }
}

/// The peers whose last known view contains the relay parent, in the
/// order the peer views are stored.
fn collect_interested(t: &Tracker, relay_parent: &crate::primitives::Hash) -> (peers: Vec<PeerId>)
    ensures
        peers@ == interested_peers(t@.peer_views, relay_parent@),
{
    let mut peers: Vec<PeerId> = Vec::new();
    let mut i: usize = 0;
    while i < t.peer_views.len()
        invariant
            i <= t.peer_views@.len(),
            peers@ == interested_upto(t@.peer_views, relay_parent@, i as int),
        decreases t.peer_views@.len() - i,
    {
        if t.peer_views[i].1.contains_hash(relay_parent) {
            peers.push(t.peer_views[i].0);
            proof {
                assert(peers@ =~= interested_upto(t@.peer_views, relay_parent@, i as int + 1));
            }
        } else {
            proof {
                assert(peers@ =~= interested_upto(t@.peer_views, relay_parent@, i as int + 1));
            }
        }
        i = i + 1;
    }
    peers
}

/// Distribute a given valid and signature-checked bitfield message to
/// all peers interested in its relay parent, after handing it to the
/// block provisioner, and record each fan-out recipient as sent.
///
/// `idx` is the index of the tracker entry for the message's relay
/// parent.
#[verifier::loop_isolation(false)]
pub fn relay_message(
    t: &mut Tracker,
    idx: usize,
    validator: &ValidatorId,
    message: &BitfieldGossipMessage,
) -> (actions: Vec<Action>)
    requires
        old(t)@.wf(),
        idx < old(t)@.per_relay_parent.len(),
        old(t)@.per_relay_parent[idx as int].0 == message@.relay_parent,
        message.wf(),
    ensures
        final(t)@ == step_relay(old(t)@, validator@, message@).0,
        acts_model(actions@) == step_relay(old(t)@, validator@, message@).1,
        final(t)@.wf(),
{
    let ghost t0 = old(t)@;
    let ghost rp = message@.relay_parent;
    let ghost e0 = t0.per_relay_parent[idx as int].1;
    proof {
        lemma_al_idx_unique(t0.per_relay_parent, rp, idx as int);
    }
    let peers = collect_interested(t, &message.relay_parent);
    let mut k: usize = 0;
    while k < peers.len()
        invariant
            idx < t.per_relay_parent@.len(),
            t.per_relay_parent@.len() == t0.per_relay_parent.len(),
            k <= peers@.len(),
            peers@ == interested_peers(t0.peer_views, rp),
            t@.per_relay_parent == t0.per_relay_parent.update(
                idx as int,
                (
                    rp,
                    RpModel {
                        message_sent_to_peer: mark_sent_upto(
                            e0.message_sent_to_peer,
                            peers@,
                            validator@,
                            k as int,
                        ),
                        ..e0
                    },
                ),
            ),
            al_unique(t@.per_relay_parent[idx as int].1.message_sent_to_peer),
            t@.our_view == t0.our_view,
            t@.peer_views == t0.peer_views,
        decreases peers@.len() - k,
    {
        proof {
            assert(sent_model(t.per_relay_parent@[idx as int].1.message_sent_to_peer@)
                == mark_sent_upto(e0.message_sent_to_peer, peers@, validator@, k as int));
        }
        let ghost pre_vec = t.per_relay_parent@;
        mark_sent(&mut t.per_relay_parent[idx].1.message_sent_to_peer, peers[k], validator);
        proof {
            assert(t.per_relay_parent@.len() == pre_vec.len());
            assert(forall|i: int|
                0 <= i < pre_vec.len() && i != idx as int ==> t.per_relay_parent@[i] == pre_vec[i]);
            let target_e = RpModel {
                message_sent_to_peer: mark_sent_upto(
                    e0.message_sent_to_peer,
                    peers@,
                    validator@,
                    k as int + 1,
                ),
                ..e0
            };
            assert(sent_model(t.per_relay_parent@[idx as int].1.message_sent_to_peer@)
                == target_e.message_sent_to_peer);
            assert(t@.per_relay_parent[idx as int].1 =~~= target_e);
            assert forall|i: int|
                0 <= i < t@.per_relay_parent.len() && i != idx as int implies t@.per_relay_parent[i]
                == t0.per_relay_parent[i] by {
                assert(t@.per_relay_parent[i] == rps_model(pre_vec)[i]);
            }
            assert(t@.per_relay_parent =~~= t0.per_relay_parent.update(
                idx as int,
                (rp, target_e),
            ));
        }
        k = k + 1;
    }
    let mut actions: Vec<Action> = Vec::new();
    actions.push(
        Action::ProvisionBitfield {
            relay_parent: message.relay_parent.duplicate(),
            signed: message.signed_availability.duplicate(),
        },
    );
    let bytes = message.encode();
    actions.push(Action::SendMessage { peers, protocol: protocol_id(), bytes });
    proof {
        let r = step_relay(t0, validator@, message@);
        assert(t@.per_relay_parent =~~= r.0.per_relay_parent);
        assert(t@ =~~= r.0);
        assert(acts_model(actions@) =~~= r.1);
        assert forall|i: int| 0 <= i < t@.per_relay_parent.len() implies (
        #[trigger] t@.per_relay_parent[i].1).wf() by {
            if i != idx as int {
                assert(t@.per_relay_parent[i] == t0.per_relay_parent[i]);
            } else {
                assert(t@.per_relay_parent[i].1.one_per_validator == e0.one_per_validator);
            }
        }
        assert(al_unique(t@.per_relay_parent)) by {
            lemma_al_set_unique(t0.per_relay_parent, rp, t@.per_relay_parent[idx as int].1);
            assert(t@.per_relay_parent =~~= al_set(
                t0.per_relay_parent,
                rp,
                t@.per_relay_parent[idx as int].1,
            ));
        }
    }
    actions
}


/// The single reputation report a rejected or duplicate peer message
/// ends in.
fn report_one(origin: PeerId, rep: ReputationChange) -> (r: Vec<Action>)
    ensures
        acts_model(r@) == report(origin, rep),
{
    let mut r: Vec<Action> = Vec::new();
    r.push(Action::ReportPeer { peer: origin, rep });
    proof {
        assert(acts_model(r@) =~= report(origin, rep));
    }
    r
}

/// The orchestrator asked us to work on `relay_parent`; the runtime
/// answered with its validator set and signing context. Installs a
/// fresh entry, replacing any prior one for the same relay parent.
pub fn start_work(
    t: &mut Tracker,
    relay_parent: crate::primitives::Hash,
    validator_set: Vec<ValidatorId>,
    signing_context: SigningContext,
)
    requires
        old(t)@.wf(),
        signing_context.parent_hash.wf(),
    ensures
        final(t)@ == step(
            old(t)@,
            StepModel::StartWork {
                relay_parent: relay_parent@,
                validator_set: vids_model(validator_set@),
                signing_context: signing_context@,
            },
        ).0,
        final(t)@.wf(),
{
    let ghost t0 = old(t)@;
    let ghost key = relay_parent@;
    let ghost new_e = RpModel {
        signing_context: signing_context@,
        validator_set: vids_model(validator_set@),
        one_per_validator: Seq::empty(),
        message_sent_to_peer: Seq::empty(),
    };
    let entry = PerRelayParentData::new(signing_context, validator_set);
    match t.find_rp(&relay_parent) {
        Some(i) => {
            proof {
                lemma_al_idx_unique(t0.per_relay_parent, key, i as int);
            }
            t.per_relay_parent[i] = (relay_parent, entry);
            proof {
                assert(t@.per_relay_parent =~~= al_set(t0.per_relay_parent, key, new_e));
            }
        },
        None => {
            t.per_relay_parent.push((relay_parent, entry));
            proof {
                assert(!al_contains(t0.per_relay_parent, key));
                assert(t@.per_relay_parent =~~= al_set(t0.per_relay_parent, key, new_e));
            }
        },
    }
    proof {
        lemma_al_set_unique(t0.per_relay_parent, key, new_e);
        assert forall|i2: int| 0 <= i2 < t@.per_relay_parent.len() implies (
        #[trigger] t@.per_relay_parent[i2].1).wf() by {
            if al_contains(t0.per_relay_parent, key) {
                if i2 != al_idx(t0.per_relay_parent, key) {
                    assert(t@.per_relay_parent[i2] == t0.per_relay_parent[i2]);
                }
            } else {
                if i2 < t0.per_relay_parent.len() {
                    assert(t@.per_relay_parent[i2] == t0.per_relay_parent[i2]);
                }
            }
        }
        assert(t@ =~~= step(
            t0,
            StepModel::StartWork {
                relay_parent: key,
                validator_set: new_e.validator_set,
                signing_context: new_e.signing_context,
            },
        ).0);
    }
}

/// The orchestrator withdrew `relay_parent` from the working set: drop
/// its entry; later events referring to it count as not interested.
pub fn stop_work(t: &mut Tracker, relay_parent: &crate::primitives::Hash)
    requires
        old(t)@.wf(),
    ensures
        final(t)@ == step(old(t)@, StepModel::StopWork { relay_parent: relay_parent@ }).0,
        final(t)@.wf(),
{
    let ghost t0 = old(t)@;
    let ghost key = relay_parent@;
    match t.find_rp(relay_parent) {
        Some(i) => {
            proof {
                lemma_al_idx_unique(t0.per_relay_parent, key, i as int);
            }
            t.per_relay_parent.remove(i);
            proof {
                assert(t@.per_relay_parent =~~= al_remove(t0.per_relay_parent, key));
            }
        },
        None => {
            proof {
                assert(!al_contains(t0.per_relay_parent, key));
            }
        },
    }
    proof {
        lemma_al_remove_unique(t0.per_relay_parent, key);
        assert forall|i2: int| 0 <= i2 < t@.per_relay_parent.len() implies (
        #[trigger] t@.per_relay_parent[i2].1).wf() by {
            if al_contains(t0.per_relay_parent, key) {
                let j = al_idx(t0.per_relay_parent, key);
                let src: int = if i2 < j {
                    i2
                } else {
                    i2 + 1
                };
                assert(t@.per_relay_parent[i2] == t0.per_relay_parent[src]);
            }
        }
        assert(t@ =~~= step(t0, StepModel::StopWork { relay_parent: key }).0);
    }
}

/// The orchestrator shut the subsystem down: the tracker is fully
/// cleared; the embedding loop returns after performing this.
pub fn conclude(t: &mut Tracker)
    ensures
        final(t)@ == TrackerModel::empty(),
        final(t)@ == step(old(t)@, StepModel::Conclude).0,
        final(t)@.wf(),
{
    t.our_view = NodeView::empty();
    t.peer_views = Vec::new();
    t.per_relay_parent = Vec::new();
    proof {
        assert(t@ =~~= TrackerModel::empty());
    }
}

/// A peer connected: give it an empty view entry unless it already has
/// one; never overwrite.
fn peer_connected(t: &mut Tracker, peer: PeerId)
    requires
        old(t)@.wf(),
    ensures
        final(t)@ == step(old(t)@, StepModel::PeerConnected { peer }).0,
        final(t)@.wf(),
{
    let ghost t0 = old(t)@;
    match t.find_peer(peer) {
        Some(i) => {
            proof {
                assert(al_contains(t0.peer_views, peer));
            }
        },
        None => {
            t.peer_views.push((peer, NodeView::empty()));
            proof {
                assert(!al_contains(t0.peer_views, peer));
                let s2 = t@.peer_views;
                assert(s2 =~~= t0.peer_views.push((peer, Seq::<Seq<u8>>::empty())));
                assert forall|x: int, y: int|
                    0 <= x < s2.len() && 0 <= y < s2.len() && x != y implies s2[x].0 != s2[y].0 by {
                    if x < t0.peer_views.len() && y < t0.peer_views.len() {
                        assert(s2[x].0 == t0.peer_views[x].0 && s2[y].0 == t0.peer_views[y].0);
                    } else if x == t0.peer_views.len() {
                        assert(s2[y].0 == t0.peer_views[y].0);
                    } else {
                        assert(s2[x].0 == t0.peer_views[x].0);
                    }
                }
                assert(t@ =~~= step(t0, StepModel::PeerConnected { peer }).0);
            }
        },
    }
}

/// A peer disconnected: drop its view entry. Sent-sets keyed by the
/// peer are deliberately kept, so a reconnecting peer is not sent the
/// same bitfields again.
fn peer_disconnected(t: &mut Tracker, peer: PeerId)
    requires
        old(t)@.wf(),
    ensures
        final(t)@ == step(old(t)@, StepModel::PeerDisconnected { peer }).0,
        final(t)@.wf(),
{
    let ghost t0 = old(t)@;
    match t.find_peer(peer) {
        Some(i) => {
            proof {
                lemma_al_idx_unique(t0.peer_views, peer, i as int);
            }
            t.peer_views.remove(i);
            proof {
                assert(t@.peer_views =~~= al_remove(t0.peer_views, peer));
            }
        },
        None => {
            proof {
                assert(!al_contains(t0.peer_views, peer));
            }
        },
    }
    proof {
        lemma_al_remove_unique(t0.peer_views, peer);
        assert(t@ =~~= step(t0, StepModel::PeerDisconnected { peer }).0);
    }
}

/// Our own view changed: replace it. Distribution of our own bitfields
/// arrives separately, so nothing is sent here.
fn our_view_change(t: &mut Tracker, new_view: NodeView)
    requires
        old(t)@.wf(),
    ensures
        final(t)@ == step(old(t)@, StepModel::OurViewChange { new_view: new_view@ }).0,
        final(t)@.wf(),
{
    let ghost t0 = old(t)@;
    let ghost nv = new_view@;
    t.our_view = new_view;
    proof {
        assert(t@ =~~= step(t0, StepModel::OurViewChange { new_view: nv }).0);
    }
}

/// Handle an incoming, already decoded message from a peer: walk the
/// decision ladder, stop with one reputation report at the first
/// failing check, and accept a fresh valid bitfield by storing it,
/// relaying it, and reporting the gain last.
pub fn process_incoming_peer_message(
    t: &mut Tracker,
    origin: PeerId,
    message: BitfieldGossipMessage,
) -> (actions: Vec<Action>)
    requires
        old(t)@.wf(),
        message.wf(),
    ensures
        final(t)@ == step_process_incoming(old(t)@, origin, message@).0,
        acts_model(actions@) == step_process_incoming(old(t)@, origin, message@).1,
        final(t)@.wf(),
{
    let ghost t0 = old(t)@;
    let ghost m = message@;
    if !t.our_view.contains_hash(&message.relay_parent) {
        return report_one(origin, ReputationChange::CostNotInterested);
    }
    let idx = match t.find_rp(&message.relay_parent) {
        Some(i) => i,
        None => {
            proof {
                assert(!al_contains(t0.per_relay_parent, m.relay_parent));
            }
            return report_one(origin, ReputationChange::CostNotInterested);
        },
    };
    proof {
        lemma_al_idx_unique(t0.per_relay_parent, m.relay_parent, idx as int);
    }
    let ghost e = t0.per_relay_parent[idx as int].1;
    if t.per_relay_parent[idx].1.validator_set.len() == 0 {
        proof {
            assert(e.validator_set.len() == 0);
        }
        return report_one(origin, ReputationChange::CostMissingPeerSessionKey);
    }
    let vi = message.signed_availability.validator_index() as usize;
    if vi >= t.per_relay_parent[idx].1.validator_set.len() {
        proof {
            assert(m.signed.validator_index as int >= e.validator_set.len());
        }
        return report_one(origin, ReputationChange::CostValidatorIndexInvalid);
    }
    let validator = t.per_relay_parent[idx].1.validator_set[vi].duplicate();
    proof {
        assert(validator@ == e.validator_set[m.signed.validator_index as int]);
    }
    if !message.signed_availability.check_signature(
        &t.per_relay_parent[idx].1.signing_context,
        &validator,
    ) {
        return report_one(origin, ReputationChange::CostSignatureInvalid);
    }
    if t.per_relay_parent[idx].1.find_validator_msg(&validator).is_some() {
        proof {
            assert(al_contains(e.one_per_validator, validator@));
        }
        return report_one(origin, ReputationChange::GainValidMessage);
    }
    proof {
        assert(!al_contains(e.one_per_validator, validator@));
    }
    let ghost e1 = RpModel { one_per_validator: e.one_per_validator.push((validator@, m)), ..e };
    let validator_key = validator.duplicate();
    let message_copy = message.duplicate();
    t.per_relay_parent[idx].1.one_per_validator.push((validator_key, message_copy));
    proof {
        assert(t@.per_relay_parent[idx as int].1 =~~= e1);
        assert(t@.per_relay_parent =~~= al_set(t0.per_relay_parent, m.relay_parent, e1));
        lemma_al_set_unique(t0.per_relay_parent, m.relay_parent, e1);
        assert(al_unique(e1.one_per_validator)) by {
            let s2 = e1.one_per_validator;
            assert forall|x: int, y: int|
                0 <= x < s2.len() && 0 <= y < s2.len() && x != y implies s2[x].0 != s2[y].0 by {
                if x < e.one_per_validator.len() && y < e.one_per_validator.len() {
                    assert(s2[x].0 == e.one_per_validator[x].0 && s2[y].0 == e.one_per_validator[
                        y].0);
                } else if x == e.one_per_validator.len() {
                    assert(s2[y].0 == e.one_per_validator[y].0);
                } else {
                    assert(s2[x].0 == e.one_per_validator[x].0);
                }
            }
        }
        assert(e1.wf());
        assert forall|i2: int| 0 <= i2 < t@.per_relay_parent.len() implies (
        #[trigger] t@.per_relay_parent[i2].1).wf() by {
            if i2 != al_idx(t0.per_relay_parent, m.relay_parent) {
                assert(t@.per_relay_parent[i2] == t0.per_relay_parent[i2]);
            }
        }
        assert(t@.wf());
    }
    let ghost t1 = t@;
    proof {
        assert(t1 =~~= TrackerModel {
            per_relay_parent: al_set(t0.per_relay_parent, m.relay_parent, e1),
            ..t0
        });
        assert(t1.per_relay_parent[idx as int].0 == m.relay_parent);
    }
    let mut actions = relay_message(t, idx, &validator, &message);
    actions.push(Action::ReportPeer { peer: origin, rep: ReputationChange::GainValidMessage });
    proof {
        let spec_r = step_process_incoming(t0, origin, m);
        assert(t@ == step_relay(t1, validator@, m).0);
        assert(spec_r.0 == step_relay(t1, validator@, m).0);
        assert(acts_model(actions@) =~~= spec_r.1);
    }
    actions
}

/// The local validator produced its own bitfield for `relay_parent`:
/// after the orchestrator-contract checks, store it under its validator
/// (first seen wins; a duplicate is dropped silently) and relay it. No
/// reputation is involved: no peer misbehaved; a broken check is
/// returned as the error naming it.
pub fn handle_distribute(
    t: &mut Tracker,
    relay_parent: &crate::primitives::Hash,
    signed: &SignedAvailabilityBitfield,
) -> (r: Result<Vec<Action>, DistributeError>)
    requires
        old(t)@.wf(),
        relay_parent.wf(),
        signed.wf(),
    ensures
        final(t)@ == step(
            old(t)@,
            StepModel::DistributeBitfield { relay_parent: relay_parent@, signed: signed@ },
        ).0,
        final(t)@.wf(),
        match r {
            Ok(actions) => distribute_err(old(t)@, relay_parent@, signed@) is None && acts_model(
                actions@,
            ) == step(
                old(t)@,
                StepModel::DistributeBitfield { relay_parent: relay_parent@, signed: signed@ },
            ).1,
            Err(err) => distribute_err(old(t)@, relay_parent@, signed@) == Some(err),
        },
{
    let ghost t0 = old(t)@;
    let ghost key = relay_parent@;
    let ghost s = signed@;
    let idx = match t.find_rp(relay_parent) {
        Some(i) => i,
        None => {
            proof {
                assert(!al_contains(t0.per_relay_parent, key));
            }
            return Err(DistributeError::UnknownRelayParent);
        },
    };
    proof {
        lemma_al_idx_unique(t0.per_relay_parent, key, idx as int);
    }
    let ghost e = t0.per_relay_parent[idx as int].1;
    let vi = signed.validator_index() as usize;
    if vi >= t.per_relay_parent[idx].1.validator_set.len() {
        return Err(DistributeError::InvalidValidatorIndex);
    }
    let validator = t.per_relay_parent[idx].1.validator_set[vi].duplicate();
    proof {
        assert(validator@ == e.validator_set[s.validator_index as int]);
    }
    if !signed.check_signature(&t.per_relay_parent[idx].1.signing_context, &validator) {
        return Err(DistributeError::InvalidSignature);
    }
    let message = BitfieldGossipMessage {
        relay_parent: relay_parent.duplicate(),
        signed_availability: signed.duplicate(),
    };
    let ghost m = message@;
    if t.per_relay_parent[idx].1.find_validator_msg(&validator).is_some() {
        proof {
            assert(al_contains(e.one_per_validator, validator@));
        }
        let empty_actions: Vec<Action> = Vec::new();
        proof {
            assert(acts_model(empty_actions@) =~= Seq::<ActionModel>::empty());
        }
        return Ok(empty_actions);
    }
    proof {
        assert(!al_contains(e.one_per_validator, validator@));
    }
    let ghost e1 = RpModel { one_per_validator: e.one_per_validator.push((validator@, m)), ..e };
    let validator_key = validator.duplicate();
    let message_copy = message.duplicate();
    t.per_relay_parent[idx].1.one_per_validator.push((validator_key, message_copy));
    proof {
        assert(t@.per_relay_parent[idx as int].1 =~~= e1);
        assert(t@.per_relay_parent =~~= al_set(t0.per_relay_parent, key, e1));
        lemma_al_set_unique(t0.per_relay_parent, key, e1);
        assert(al_unique(e1.one_per_validator)) by {
            let s2 = e1.one_per_validator;
            assert forall|x: int, y: int|
                0 <= x < s2.len() && 0 <= y < s2.len() && x != y implies s2[x].0 != s2[y].0 by {
                if x < e.one_per_validator.len() && y < e.one_per_validator.len() {
                    assert(s2[x].0 == e.one_per_validator[x].0 && s2[y].0 == e.one_per_validator[
                        y].0);
                } else if x == e.one_per_validator.len() {
                    assert(s2[y].0 == e.one_per_validator[y].0);
                } else {
                    assert(s2[x].0 == e.one_per_validator[x].0);
                }
            }
        }
        assert(e1.wf());
        assert forall|i2: int| 0 <= i2 < t@.per_relay_parent.len() implies (
        #[trigger] t@.per_relay_parent[i2].1).wf() by {
            if i2 != al_idx(t0.per_relay_parent, key) {
                assert(t@.per_relay_parent[i2] == t0.per_relay_parent[i2]);
            }
        }
        assert(t@.wf());
    }
    let ghost t1 = t@;
    proof {
        assert(t1 =~~= TrackerModel {
            per_relay_parent: al_set(t0.per_relay_parent, key, e1),
            ..t0
        });
        assert(t1.per_relay_parent[idx as int].0 == m.relay_parent);
    }
    let actions = relay_message(t, idx, &validator, &message);
    proof {
        let spec_r = step_distribute(t0, key, s);
        assert(t@ == step_relay(t1, validator@, m).0);
        assert(spec_r.0 == step_relay(t1, validator@, m).0);
        assert(acts_model(actions@) == spec_r.1);
    }
    Ok(actions)
}


/// Whether a collected list already holds a message of this validator.
fn coll_contains_key(
    coll: &Vec<(ValidatorId, BitfieldGossipMessage)>,
    validator: &ValidatorId,
) -> (r: bool)
    ensures
        r == al_contains(opv_model(coll@), validator@),
{
    let mut i: usize = 0;
    while i < coll.len()
        invariant
            i <= coll@.len(),
            forall|j: int| 0 <= j < i ==> opv_model(coll@)[j].0 != validator@,
        decreases coll@.len() - i,
    {
        if coll[i].0.same(validator) {
            proof {
                assert(opv_model(coll@)[i as int].0 == validator@);
            }
            return true;
        }
        i = i + 1;
    }
    proof {
        assert(forall|j: int| 0 <= j < opv_model(coll@).len() ==> opv_model(coll@)[j].0 != validator@);
    }
    false
}

/// Send one gossip message to one peer and track it in the per relay
/// parent data; a message whose relay parent has meanwhile left the
/// working set is skipped without punishment.
#[verifier::loop_isolation(false)]
pub fn send_tracked_gossip_message(
    t: &mut Tracker,
    dest: PeerId,
    validator: &ValidatorId,
    message: &BitfieldGossipMessage,
) -> (actions: Vec<Action>)
    requires
        old(t)@.wf(),
        message.wf(),
    ensures
        final(t)@ == send_one(old(t)@, dest, validator@, message@).0,
        acts_model(actions@) == send_one(old(t)@, dest, validator@, message@).1,
        final(t)@.wf(),
{
    let ghost t0 = old(t)@;
    let ghost m = message@;
    let idx = match t.find_rp(&message.relay_parent) {
        Some(i) => i,
        None => {
            proof {
                assert(!al_contains(t0.per_relay_parent, m.relay_parent));
            }
            let empty_actions: Vec<Action> = Vec::new();
            proof {
                assert(acts_model(empty_actions@) =~= Seq::<ActionModel>::empty());
            }
            return empty_actions;
        },
    };
    proof {
        lemma_al_idx_unique(t0.per_relay_parent, m.relay_parent, idx as int);
    }
    let ghost e0 = t0.per_relay_parent[idx as int].1;
    let ghost pre_vec = t.per_relay_parent@;
    mark_sent(&mut t.per_relay_parent[idx].1.message_sent_to_peer, dest, validator);
    proof {
        assert(t.per_relay_parent@.len() == pre_vec.len());
        assert(forall|i: int|
            0 <= i < pre_vec.len() && i != idx as int ==> t.per_relay_parent@[i] == pre_vec[i]);
        let target_e = RpModel {
            message_sent_to_peer: mark_sent_one(e0.message_sent_to_peer, dest, validator@),
            ..e0
        };
        assert(t@.per_relay_parent[idx as int].1 =~~= target_e);
        assert forall|i: int|
            0 <= i < t@.per_relay_parent.len() && i != idx as int implies t@.per_relay_parent[i]
            == t0.per_relay_parent[i] by {
            assert(t@.per_relay_parent[i] == rps_model(pre_vec)[i]);
        }
        assert(t@.per_relay_parent =~~= al_set(t0.per_relay_parent, m.relay_parent, target_e));
        assert(t@ =~~= send_one(t0, dest, validator@, m).0);
        lemma_al_set_unique(t0.per_relay_parent, m.relay_parent, target_e);
        assert forall|i2: int| 0 <= i2 < t@.per_relay_parent.len() implies (
        #[trigger] t@.per_relay_parent[i2].1).wf() by {
            if i2 != idx as int {
                assert(t@.per_relay_parent[i2] == t0.per_relay_parent[i2]);
            } else {
                assert(t@.per_relay_parent[i2].1.one_per_validator == e0.one_per_validator);
            }
        }
    }
    let mut peers_one: Vec<PeerId> = Vec::new();
    peers_one.push(dest);
    let bytes = message.encode();
    let mut actions: Vec<Action> = Vec::new();
    actions.push(Action::SendMessage { peers: peers_one, protocol: protocol_id(), bytes });
    proof {
        assert(peers_one@ =~= seq![dest]);
        assert(acts_model(actions@) =~~= send_one(t0, dest, validator@, m).1);
    }
    actions
}

/// A peer's view changed: this is catch-up. Record the new view, then
/// send the peer every bitfield seen under a relay parent the peer
/// newly cares about and still needs, at most one per validator in the
/// round, and track each send.
#[verifier::loop_isolation(false)]
pub fn catch_up_messages(t: &mut Tracker, origin: PeerId, new_view: NodeView) -> (actions: Vec<
    Action,
>)
    requires
        old(t)@.wf(),
    ensures
        final(t)@ == step_peer_view_change(old(t)@, origin, new_view@).0,
        acts_model(actions@) == step_peer_view_change(old(t)@, origin, new_view@).1,
        final(t)@.wf(),
{
    let ghost t0 = old(t)@;
    let ghost nv = new_view@;
    let idx_opt = t.find_peer(origin);
    let old_view = match idx_opt {
        Some(i) => t.peer_views[i].1.duplicate(),
        None => NodeView::empty(),
    };
    let ghost ov = old_view@;
    proof {
        match idx_opt {
            Some(i) => {
                lemma_al_idx_unique(t0.peer_views, origin, i as int);
                assert(al_get(t0.peer_views, origin) == Some(ov));
            },
            None => {
                assert(!al_contains(t0.peer_views, origin));
            },
        }
    }
    let mut delta: Vec<crate::primitives::Hash> = Vec::new();
    let mut i: usize = 0;
    while i < new_view.heads.len()
        invariant
            i <= new_view.heads@.len(),
            delta@.map_values(|h: crate::primitives::Hash| h@) == view_delta_upto(
                nv,
                ov,
                i as int,
            ),
        decreases new_view.heads@.len() - i,
    {
        if !old_view.contains_hash(&new_view.heads[i]) {
            delta.push(new_view.heads[i].duplicate());
            proof {
                assert(nv[i as int] == new_view.heads@[i as int]@);
                assert(delta@.map_values(|h: crate::primitives::Hash| h@) =~= view_delta_upto(
                    nv,
                    ov,
                    i as int + 1,
                ));
            }
        } else {
            proof {
                assert(nv[i as int] == new_view.heads@[i as int]@);
                assert(delta@.map_values(|h: crate::primitives::Hash| h@) =~= view_delta_upto(
                    nv,
                    ov,
                    i as int + 1,
                ));
            }
        }
        i = i + 1;
    }
    let ghost deltam = delta@.map_values(|h: crate::primitives::Hash| h@);
    match idx_opt {
        Some(j) => {
            t.peer_views[j] = (origin, new_view);
        },
        None => {
            t.peer_views.push((origin, new_view));
        },
    }
    proof {
        assert(t@.peer_views =~~= al_set(t0.peer_views, origin, nv));
        lemma_al_set_unique(t0.peer_views, origin, nv);
        assert(t@ =~~= TrackerModel { peer_views: al_set(t0.peer_views, origin, nv), ..t0 });
    }
    let ghost t1 = t@;
    proof {
        assert(t1.wf());
        assert(t1.per_relay_parent == t0.per_relay_parent);
    }
    // Collect, across the newly interesting relay parents, the seen
    // bitfields the peer still needs, at most one per validator.
    let mut coll: Vec<(ValidatorId, BitfieldGossipMessage)> = Vec::new();
    let mut d: usize = 0;
    while d < delta.len()
        invariant
            d <= delta@.len(),
            t@ == t1,
            deltam == delta@.map_values(|h: crate::primitives::Hash| h@),
            opv_model(coll@) == collect_upto(t1, origin, deltam, d as int),
            forall|k: int|
                0 <= k < coll@.len() ==> msg_wf(#[trigger] opv_model(coll@)[k].1),
        decreases delta@.len() - d,
    {
        let found = t.find_rp(&delta[d]);
        match found {
            None => {
                proof {
                    assert(deltam[d as int] == delta@[d as int]@);
                    assert(!al_contains(t1.per_relay_parent, deltam[d as int]));
                }
            },
            Some(ri) => {
                proof {
                    assert(deltam[d as int] == delta@[d as int]@);
                    lemma_al_idx_unique(t1.per_relay_parent, deltam[d as int], ri as int);
                }
                let ghost e = t1.per_relay_parent[ri as int].1;
                let ghost acc0 = opv_model(coll@);
                let mut j: usize = 0;
                while j < t.per_relay_parent[ri].1.one_per_validator.len()
                    invariant
                        ri < t.per_relay_parent@.len(),
                        j <= t.per_relay_parent@[ri as int].1.one_per_validator@.len(),
                        t@ == t1,
                        e == t1.per_relay_parent[ri as int].1,
                        acc0 == collect_upto(t1, origin, deltam, d as int),
                        opv_model(coll@) == collect_rp_upto(e, origin, acc0, j as int),
                        forall|k: int|
                            0 <= k < coll@.len() ==> msg_wf(#[trigger] opv_model(coll@)[k].1),
                    decreases t.per_relay_parent@[ri as int].1.one_per_validator@.len() - j,
                {
                    let needed = t.per_relay_parent[ri].1.message_from_validator_needed_by_peer(
                        origin,
                        &t.per_relay_parent[ri].1.one_per_validator[j].0,
                    );
                    let fresh = !coll_contains_key(
                        &coll,
                        &t.per_relay_parent[ri].1.one_per_validator[j].0,
                    );
                    proof {
                        assert(e.one_per_validator[j as int]
                            == opv_model(t.per_relay_parent@[ri as int].1.one_per_validator@)[
                            j as int]);
                    }
                    if needed && fresh {
                        coll.push(
                            (
                                t.per_relay_parent[ri].1.one_per_validator[j].0.duplicate(),
                                t.per_relay_parent[ri].1.one_per_validator[j].1.duplicate(),
                            ),
                        );
                        proof {
                            assert(opv_model(coll@) =~~= collect_rp_upto(
                                e,
                                origin,
                                acc0,
                                j as int + 1,
                            ));
                        }
                    } else {
                        proof {
                            assert(opv_model(coll@) =~~= collect_rp_upto(
                                e,
                                origin,
                                acc0,
                                j as int + 1,
                            ));
                        }
                    }
                    j = j + 1;
                }
            },
        }
        d = d + 1;
    }
    let ghost collm = opv_model(coll@);
    proof {
        assert(collm == collect_upto(t1, origin, deltam, deltam.len() as int));
    }
    // Send every collected message to the peer, one tracked send each.
    let mut actions: Vec<Action> = Vec::new();
    let mut k: usize = 0;
    while k < coll.len()
        invariant
            k <= coll@.len(),
            collm == opv_model(coll@),
            forall|k2: int|
                0 <= k2 < coll@.len() ==> msg_wf(#[trigger] opv_model(coll@)[k2].1),
            t@ == send_collected_upto(t1, origin, collm, k as int).0,
            acts_model(actions@) == send_collected_upto(t1, origin, collm, k as int).1,
            t@.wf(),
        decreases coll@.len() - k,
    {
        proof {
            assert(coll@[k as int].0@ == collm[k as int].0);
            assert(coll@[k as int].1@ == collm[k as int].1);
            assert(msg_wf(opv_model(coll@)[k as int].1));
        }
        let mut step_actions = send_tracked_gossip_message(t, origin, &coll[k].0, &coll[k].1);
        actions.append(&mut step_actions);
        proof {
            assert(acts_model(actions@) =~~= send_collected_upto(
                t1,
                origin,
                collm,
                k as int + 1,
            ).1);
        }
        k = k + 1;
    }
    proof {
        let spec_r = step_peer_view_change(t0, origin, nv);
        assert(spec_r.0 == send_collected_upto(t1, origin, collm, collm.len() as int).0);
        assert(t@ == spec_r.0);
        assert(acts_model(actions@) == spec_r.1);
    }
    actions
}

/// One network bridge event, as the bridge reports it.
pub enum NetworkBridgeEvent {
    /// A peer connected.
    PeerConnected(PeerId),
    /// A peer disconnected.
    PeerDisconnected(PeerId),
    /// A peer's view changed.
    PeerViewChange(PeerId, NodeView),
    /// Our own view changed.
    OurViewChange(NodeView),
    /// A peer sent us wire bytes.
    PeerMessage(PeerId, Vec<u8>),
}

impl View for NetworkBridgeEvent {
    type V = StepModel;

    open spec fn view(&self) -> StepModel {
        match self {
            NetworkBridgeEvent::PeerConnected(p) => StepModel::PeerConnected { peer: *p },
            NetworkBridgeEvent::PeerDisconnected(p) => StepModel::PeerDisconnected { peer: *p },
            NetworkBridgeEvent::PeerViewChange(p, v) => StepModel::PeerViewChange {
                peer: *p,
                new_view: v@,
            },
            NetworkBridgeEvent::OurViewChange(v) => StepModel::OurViewChange { new_view: v@ },
            NetworkBridgeEvent::PeerMessage(p, b) => StepModel::PeerMessage {
                peer: *p,
                bytes: b@,
            },
        }
    }
}

/// Deal with a network bridge update: track peers and their views,
/// decode and validate inbound gossip, and catch peers up on view
/// changes.
pub fn handle_network_msg(t: &mut Tracker, bridge_message: NetworkBridgeEvent) -> (actions: Vec<
    Action,
>)
    requires
        old(t)@.wf(),
    ensures
        final(t)@ == step(old(t)@, bridge_message@).0,
        acts_model(actions@) == step(old(t)@, bridge_message@).1,
        final(t)@.wf(),
{
    match bridge_message {
        NetworkBridgeEvent::PeerConnected(p) => {
            peer_connected(t, p);
            let actions: Vec<Action> = Vec::new();
            proof {
                assert(acts_model(actions@) =~= Seq::<ActionModel>::empty());
            }
            actions
        },
        NetworkBridgeEvent::PeerDisconnected(p) => {
            peer_disconnected(t, p);
            let actions: Vec<Action> = Vec::new();
            proof {
                assert(acts_model(actions@) =~= Seq::<ActionModel>::empty());
            }
            actions
        },
        NetworkBridgeEvent::PeerViewChange(p, v) => catch_up_messages(t, p, v),
        NetworkBridgeEvent::OurViewChange(v) => {
            our_view_change(t, v);
            let actions: Vec<Action> = Vec::new();
            proof {
                assert(acts_model(actions@) =~= Seq::<ActionModel>::empty());
            }
            actions
        },
        NetworkBridgeEvent::PeerMessage(p, bytes) => {
            match BitfieldGossipMessage::decode(&bytes) {
                Some(gossiped) => process_incoming_peer_message(t, p, gossiped),
                None => report_one(p, ReputationChange::CostMessageNotDecodable),
            }
        },
    }
}

} // verus!
