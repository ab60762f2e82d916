//! What holds of the state machine across events: the tracker
//! invariant, the reputation discipline, and the send discipline. Every
//! law is stated over the spec transitions of [`crate::engine`], which
//! the verified handlers are proved to implement.
use crate::alist::al_contains;
use crate::alist::al_get;
use crate::alist::al_idx;
use crate::alist::al_set;
use crate::alist::al_unique;
use crate::alist::lemma_al_set_get;
use crate::alist::lemma_al_set_unique;
use crate::codec::spec_decode;
use crate::crypto::ctx_bytes;
use crate::crypto::sig_valid;
use crate::engine::report;
use crate::engine::step;
use crate::engine::step_peer_message;
use crate::engine::step_process_incoming;
use crate::engine::step_relay;
use crate::engine::collect_rp_upto;
use crate::engine::collect_upto;
use crate::engine::interested_upto;
use crate::engine::view_delta_upto;
use crate::primitives::protocol_id_spec;
use crate::engine::interested_peers;
use crate::engine::mark_sent_one;
use crate::engine::mark_sent_upto;
use crate::engine::send_collected_upto;
use crate::engine::send_one;
use crate::engine::StepModel;
use crate::primitives::msg_wf;
use crate::primitives::signed_wf;
use crate::primitives::MsgModel;
use crate::primitives::ActionModel;
use crate::primitives::PeerId;
use crate::primitives::ReputationChange;
use crate::tracker::needed_by_peer;
use crate::tracker::RpModel;
use crate::tracker::TrackerModel;
use vstd::prelude::*;

verus! {

/// Validity of one relay-parent entry: every stored bitfield is stored
/// for this relay parent, its recorded index resolves to the validator
/// it is stored under, and its signature verified under the entry's
/// signing context.
pub open spec fn entry_valid(key: Seq<u8>, e: RpModel) -> bool {
    forall|i: int|
        0 <= i < e.one_per_validator.len() ==> {
            let v = (#[trigger] e.one_per_validator[i]).0;
            let m = e.one_per_validator[i].1;
            &&& m.relay_parent == key
            &&& (m.signed.validator_index as int) < e.validator_set.len()
            &&& e.validator_set[m.signed.validator_index as int] == v
            &&& sig_valid(ctx_bytes(e.signing_context), m.signed.payload, v, m.signed.signature)
        }
}

/// The tracker invariant: well-formed, and every entry valid.
pub open spec fn inv(t: TrackerModel) -> bool {
    t.wf() && forall|i: int|
        0 <= i < t.per_relay_parent.len() ==> entry_valid(
            t.per_relay_parent[i].0,
            #[trigger] t.per_relay_parent[i].1,
        )
}

/// How many reputation reports a list of actions carries.
pub open spec fn count_reports(acts: Seq<ActionModel>) -> int
    decreases acts.len(),
{
    if acts.len() == 0 {
        0
    } else {
        count_reports(acts.drop_last()) + if acts.last() is ReportPeer {
            1int
        } else {
            0int
        }
    }
}

/// Whether a list of actions carries a provisioner delivery.
pub open spec fn has_provision(acts: Seq<ActionModel>) -> bool {
    exists|i: int| 0 <= i < acts.len() && acts[i] is ProvisionBitfield
}

/// After the shutdown signal, the tracker is empty and nothing more is
/// emitted; the embedding loop then returns.
pub proof fn lemma_conclude_empties(t: TrackerModel)
    ensures
        step(t, crate::engine::StepModel::Conclude).0 == TrackerModel::empty(),
        step(t, crate::engine::StepModel::Conclude).1 == Seq::<ActionModel>::empty(),
{
}

/// A peer message rejected at a decision-ladder step costs the
/// originating peer exactly the reputation delta of the failing check,
/// with no other side effect, and the tracker does not change. The
/// checks are listed in ladder order, each under the failure of the
/// ones before it.
pub proof fn lemma_rejection_reputation(t: TrackerModel, origin: PeerId, bytes: Seq<u8>)
    requires
        t.wf(),
    ensures
        spec_decode(bytes) is None ==> step_peer_message(t, origin, bytes) == (
            t,
            report(origin, ReputationChange::CostMessageNotDecodable),
        ),
        ({
            let dm = spec_decode(bytes);
            dm is Some ==> {
                let m = dm->Some_0;
                &&& !t.our_view.contains(m.relay_parent) ==> step_peer_message(t, origin, bytes)
                    == (t, report(origin, ReputationChange::CostNotInterested))
                &&& t.our_view.contains(m.relay_parent) && al_get(t.per_relay_parent, m.relay_parent)
                    is None ==> step_peer_message(t, origin, bytes) == (
                    t,
                    report(origin, ReputationChange::CostNotInterested),
                )
                &&& t.our_view.contains(m.relay_parent) && al_get(t.per_relay_parent, m.relay_parent)
                    is Some ==> {
                    let e = al_get(t.per_relay_parent, m.relay_parent)->Some_0;
                    &&& e.validator_set.len() == 0 ==> step_peer_message(t, origin, bytes) == (
                        t,
                        report(origin, ReputationChange::CostMissingPeerSessionKey),
                    )
                    &&& e.validator_set.len() > 0 && m.signed.validator_index as int
                        >= e.validator_set.len() ==> step_peer_message(t, origin, bytes) == (
                        t,
                        report(origin, ReputationChange::CostValidatorIndexInvalid),
                    )
                    &&& (m.signed.validator_index as int) < e.validator_set.len() && !sig_valid(
                        ctx_bytes(e.signing_context),
                        m.signed.payload,
                        e.validator_set[m.signed.validator_index as int],
                        m.signed.signature,
                    ) ==> step_peer_message(t, origin, bytes) == (
                        t,
                        report(origin, ReputationChange::CostSignatureInvalid),
                    )
                }
            }
        }),
{
}

/// Every inbound peer message ends in exactly one reputation report,
/// addressed to the originating peer, emitted after every other side
/// effect; and a message that yields a provisioner delivery is reputed
/// with the positive gain.
pub proof fn lemma_peer_message_reputation(t: TrackerModel, origin: PeerId, bytes: Seq<u8>)
    requires
        t.wf(),
    ensures
        ({
            let acts = step_peer_message(t, origin, bytes).1;
            &&& count_reports(acts) == 1
            &&& acts.len() >= 1
            &&& acts.last() matches ActionModel::ReportPeer { peer, rep } && peer == origin
            &&& (has_provision(acts) ==> acts.last() == ActionModel::ReportPeer {
                peer: origin,
                rep: ReputationChange::GainValidMessage,
            })
            &&& (!has_provision(acts) ==> acts.len() == 1)
        }),
{
    let acts = step_peer_message(t, origin, bytes).1;
    assert(count_reports(Seq::<ActionModel>::empty()) == 0);
    match spec_decode(bytes) {
        None => {
            assert(acts =~= report(origin, ReputationChange::CostMessageNotDecodable));
            assert(acts.drop_last() =~= Seq::<ActionModel>::empty());
            assert(count_reports(acts) == 1);
        },
        Some(m) => {
            if !t.our_view.contains(m.relay_parent) {
                assert(acts.drop_last() =~= Seq::<ActionModel>::empty());
                assert(count_reports(acts) == 1);
            } else {
                match al_get(t.per_relay_parent, m.relay_parent) {
                    None => {
                        assert(acts.drop_last() =~= Seq::<ActionModel>::empty());
                        assert(count_reports(acts) == 1);
                    },
                    Some(e) => {
                        if e.validator_set.len() == 0 {
                            assert(acts.drop_last() =~= Seq::<ActionModel>::empty());
                            assert(count_reports(acts) == 1);
                        } else if m.signed.validator_index as int >= e.validator_set.len() {
                            assert(acts.drop_last() =~= Seq::<ActionModel>::empty());
                            assert(count_reports(acts) == 1);
                        } else {
                            let v = e.validator_set[m.signed.validator_index as int];
                            if !sig_valid(
                                ctx_bytes(e.signing_context),
                                m.signed.payload,
                                v,
                                m.signed.signature,
                            ) {
                                assert(acts.drop_last() =~= Seq::<ActionModel>::empty());
                                assert(count_reports(acts) == 1);
                            } else if al_contains(e.one_per_validator, v) {
                                assert(acts.drop_last() =~= Seq::<ActionModel>::empty());
                                assert(count_reports(acts) == 1);
                            } else {
                                let t1 = TrackerModel {
                                    per_relay_parent: al_set(
                                        t.per_relay_parent,
                                        m.relay_parent,
                                        RpModel {
                                            one_per_validator: e.one_per_validator.push((v, m)),
                                            ..e
                                        },
                                    ),
                                    ..t
                                };
                                let r = step_relay(t1, v, m);
                                assert(acts =~= r.1 + report(
                                    origin,
                                    ReputationChange::GainValidMessage,
                                ));
                                assert(acts.last() == ActionModel::ReportPeer {
                                    peer: origin,
                                    rep: ReputationChange::GainValidMessage,
                                });
                                assert(acts.drop_last() =~= r.1);
                                assert(r.1.drop_last() =~= seq![
                                    ActionModel::ProvisionBitfield {
                                        relay_parent: m.relay_parent,
                                        signed: m.signed,
                                    },
                                ]);
                                assert(r.1.drop_last().drop_last() =~= Seq::<
                                    ActionModel,
                                >::empty());
                                assert(count_reports(r.1.drop_last()) == 0);
                                assert(count_reports(r.1) == 0);
                                assert(count_reports(acts) == count_reports(acts.drop_last())
                                    + 1);
                                assert(count_reports(acts) == 1);
                                assert(acts[0] is ProvisionBitfield);
                                assert(has_provision(acts));
                            }
                        }
                    },
                }
            }
        },
    }
}

/// Delivering the same wire bytes twice: when the first delivery is
/// accepted with a provisioner delivery, the second changes nothing and
/// is still positively reputed — one delivery, one fan-out, two gains.
pub proof fn lemma_duplicate_delivery(t: TrackerModel, origin: PeerId, bytes: Seq<u8>)
    requires
        t.wf(),
        has_provision(step_peer_message(t, origin, bytes).1),
    ensures
        ({
            let r1 = step_peer_message(t, origin, bytes);
            let r2 = step_peer_message(r1.0, origin, bytes);
            &&& r2.0 == r1.0
            &&& r2.1 == report(origin, ReputationChange::GainValidMessage)
        }),
{
    let r1 = step_peer_message(t, origin, bytes);
    lemma_peer_message_reputation(t, origin, bytes);
    if spec_decode(bytes) is None {
        assert(!has_provision(r1.1));
    }
    let m = spec_decode(bytes)->Some_0;
    if !t.our_view.contains(m.relay_parent) {
        assert(!has_provision(r1.1));
    }
    if al_get(t.per_relay_parent, m.relay_parent) is None {
        assert(!has_provision(r1.1));
    }
    let e = al_get(t.per_relay_parent, m.relay_parent)->Some_0;
    if e.validator_set.len() == 0 || m.signed.validator_index as int >= e.validator_set.len() {
        assert(!has_provision(r1.1));
    }
    let v = e.validator_set[m.signed.validator_index as int];
    if !sig_valid(ctx_bytes(e.signing_context), m.signed.payload, v, m.signed.signature) {
        assert(!has_provision(r1.1));
    }
    if al_contains(e.one_per_validator, v) {
        assert(!has_provision(r1.1));
    }
    let e1 = RpModel { one_per_validator: e.one_per_validator.push((v, m)), ..e };
    let t1 = TrackerModel {
        per_relay_parent: al_set(t.per_relay_parent, m.relay_parent, e1),
        ..t
    };
    assert(r1.0 == step_relay(t1, v, m).0);
    lemma_al_set_unique(t.per_relay_parent, m.relay_parent, e1);
    lemma_al_set_get(t.per_relay_parent, m.relay_parent, e1, m.relay_parent);
    assert(al_get(t1.per_relay_parent, m.relay_parent) == Some(e1));
    let peers = crate::engine::interested_peers(t1.peer_views, m.relay_parent);
    let e2 = RpModel {
        message_sent_to_peer: crate::engine::mark_sent_upto(
            e1.message_sent_to_peer,
            peers,
            v,
            peers.len() as int,
        ),
        ..e1
    };
    let t2 = r1.0;
    assert(t2.per_relay_parent == al_set(t1.per_relay_parent, m.relay_parent, e2));
    lemma_al_set_get(t1.per_relay_parent, m.relay_parent, e2, m.relay_parent);
    assert(al_get(t2.per_relay_parent, m.relay_parent) == Some(e2));
    assert(t2.our_view == t.our_view);
    assert(e2.validator_set == e.validator_set);
    assert(e2.signing_context == e.signing_context);
    assert(e2.one_per_validator == e1.one_per_validator);
    assert(e1.one_per_validator[e.one_per_validator.len() as int].0 == v);
    assert(al_contains(e2.one_per_validator, v));
    assert(step_process_incoming(t2, origin, m) == (
        t2,
        report(origin, ReputationChange::GainValidMessage),
    ));
}


/// What a transition's input must observe for the laws to apply: a
/// locally produced bitfield comes with a real hash and a bounded,
/// 64-byte-signed payload, and new work comes with a real parent hash
/// in its signing context; everything else is unconstrained.
pub open spec fn step_input_wf(s: StepModel) -> bool {
    match s {
        StepModel::DistributeBitfield { relay_parent, signed } => relay_parent.len()
            == crate::primitives::HASH_LEN && signed_wf(signed),
        StepModel::StartWork { relay_parent, validator_set, signing_context } => signing_context
            .parent_hash.len() == crate::primitives::HASH_LEN,
        _ => true,
    }
}

/// Whatever decodes is a valid wire message.
pub proof fn lemma_decode_wf(bytes: Seq<u8>)
    ensures
        spec_decode(bytes) is Some ==> msg_wf(spec_decode(bytes)->Some_0),
{
}

/// Recording a validator for any list of peers keeps sent-set keys
/// unique.
pub proof fn lemma_mark_sent_upto_unique(
    sent: Seq<(PeerId, Seq<Seq<u8>>)>,
    peers: Seq<PeerId>,
    validator: Seq<u8>,
    n: int,
)
    requires
        al_unique(sent),
    ensures
        al_unique(mark_sent_upto(sent, peers, validator, n)),
    decreases n,
{
    if n > 0 {
        lemma_mark_sent_upto_unique(sent, peers, validator, n - 1);
        crate::engine::lemma_mark_sent_one_unique(
            mark_sent_upto(sent, peers, validator, n - 1),
            peers[n - 1],
            validator,
        );
    }
}

/// Entry validity does not depend on the sent-sets: an entry with the
/// same seen bitfields, validator set and signing context is as valid.
pub proof fn lemma_entry_valid_same_core(key: Seq<u8>, e: RpModel, e2: RpModel)
    requires
        entry_valid(key, e),
        e2.one_per_validator == e.one_per_validator,
        e2.validator_set == e.validator_set,
        e2.signing_context == e.signing_context,
    ensures
        entry_valid(key, e2),
{
    assert forall|i: int| 0 <= i < e2.one_per_validator.len() implies {
        let v = (#[trigger] e2.one_per_validator[i]).0;
        let m = e2.one_per_validator[i].1;
        &&& m.relay_parent == key
        &&& (m.signed.validator_index as int) < e2.validator_set.len()
        &&& e2.validator_set[m.signed.validator_index as int] == v
        &&& sig_valid(ctx_bytes(e2.signing_context), m.signed.payload, v, m.signed.signature)
    } by {
        assert(e.one_per_validator[i] == e2.one_per_validator[i]);
    }
}

/// Relaying only grows sent-sets: the invariant survives, and neither
/// our view nor the peer views move.
pub proof fn lemma_relay_preserves_inv(t: TrackerModel, validator: Seq<u8>, m: MsgModel)
    requires
        inv(t),
    ensures
        inv(step_relay(t, validator, m).0),
        step_relay(t, validator, m).0.our_view == t.our_view,
        step_relay(t, validator, m).0.peer_views == t.peer_views,
        step_relay(t, validator, m).0.per_relay_parent.len() == t.per_relay_parent.len(),
    decreases 0int,
{
    let rp = m.relay_parent;
    match al_get(t.per_relay_parent, rp) {
        None => {},
        Some(e) => {
            let i = al_idx(t.per_relay_parent, rp);
            assert(0 <= i < t.per_relay_parent.len() && t.per_relay_parent[i].0 == rp);
            let peers = interested_peers(t.peer_views, rp);
            let e2 = RpModel {
                message_sent_to_peer: mark_sent_upto(
                    e.message_sent_to_peer,
                    peers,
                    validator,
                    peers.len() as int,
                ),
                ..e
            };
            lemma_mark_sent_upto_unique(
                e.message_sent_to_peer,
                peers,
                validator,
                peers.len() as int,
            );
            lemma_al_set_unique(t.per_relay_parent, rp, e2);
            let t2 = step_relay(t, validator, m).0;
            assert(t2.per_relay_parent == t.per_relay_parent.update(i, (rp, e2)));
            assert forall|j: int| 0 <= j < t2.per_relay_parent.len() implies (
            #[trigger] t2.per_relay_parent[j].1).wf() && entry_valid(
                t2.per_relay_parent[j].0,
                t2.per_relay_parent[j].1,
            ) by {
                if j != i {
                    assert(t2.per_relay_parent[j] == t.per_relay_parent[j]);
                } else {
                    assert(t2.per_relay_parent[j] == (rp, e2));
                    assert(entry_valid(rp, e));
                    lemma_entry_valid_same_core(rp, e, e2);
                }
            }
        },
    }
}

/// One tracked catch-up send only grows one sent-set: the invariant
/// survives, and neither our view nor the peer views move.
pub proof fn lemma_send_one_preserves_inv(
    t: TrackerModel,
    origin: PeerId,
    validator: Seq<u8>,
    m: MsgModel,
)
    requires
        inv(t),
    ensures
        inv(send_one(t, origin, validator, m).0),
        send_one(t, origin, validator, m).0.our_view == t.our_view,
        send_one(t, origin, validator, m).0.peer_views == t.peer_views,
{
    let rp = m.relay_parent;
    match al_get(t.per_relay_parent, rp) {
        None => {},
        Some(e) => {
            let i = al_idx(t.per_relay_parent, rp);
            assert(0 <= i < t.per_relay_parent.len() && t.per_relay_parent[i].0 == rp);
            let e2 = RpModel {
                message_sent_to_peer: mark_sent_one(e.message_sent_to_peer, origin, validator),
                ..e
            };
            crate::engine::lemma_mark_sent_one_unique(e.message_sent_to_peer, origin, validator);
            lemma_al_set_unique(t.per_relay_parent, rp, e2);
            let t2 = send_one(t, origin, validator, m).0;
            assert(t2.per_relay_parent == t.per_relay_parent.update(i, (rp, e2)));
            assert forall|j: int| 0 <= j < t2.per_relay_parent.len() implies (
            #[trigger] t2.per_relay_parent[j].1).wf() && entry_valid(
                t2.per_relay_parent[j].0,
                t2.per_relay_parent[j].1,
            ) by {
                if j != i {
                    assert(t2.per_relay_parent[j] == t.per_relay_parent[j]);
                } else {
                    assert(t2.per_relay_parent[j] == (rp, e2));
                    assert(entry_valid(rp, e));
                    lemma_entry_valid_same_core(rp, e, e2);
                }
            }
        },
    }
}

/// The whole catch-up send phase preserves the invariant and the peer
/// views.
pub proof fn lemma_send_collected_preserves_inv(
    t: TrackerModel,
    origin: PeerId,
    coll: Seq<(Seq<u8>, MsgModel)>,
    n: int,
)
    requires
        inv(t),
    ensures
        inv(send_collected_upto(t, origin, coll, n).0),
        send_collected_upto(t, origin, coll, n).0.our_view == t.our_view,
        send_collected_upto(t, origin, coll, n).0.peer_views == t.peer_views,
    decreases n,
{
    if n > 0 {
        lemma_send_collected_preserves_inv(t, origin, coll, n - 1);
        let r = send_collected_upto(t, origin, coll, n - 1);
        lemma_send_one_preserves_inv(r.0, origin, coll[n - 1].0, coll[n - 1].1);
    }
}

/// Storing a freshly validated bitfield under its validator preserves
/// the invariant: the guards of the decision ladder are exactly what
/// entry validity asks of the new element.
pub proof fn lemma_insert_preserves_inv(t: TrackerModel, rp: Seq<u8>, validator: Seq<u8>, m: MsgModel)
    requires
        inv(t),
        al_get(t.per_relay_parent, rp) is Some,
        msg_wf(m),
        m.relay_parent == rp,
        ({
            let e = al_get(t.per_relay_parent, rp)->Some_0;
            &&& (m.signed.validator_index as int) < e.validator_set.len()
            &&& e.validator_set[m.signed.validator_index as int] == validator
            &&& sig_valid(
                ctx_bytes(e.signing_context),
                m.signed.payload,
                validator,
                m.signed.signature,
            )
            &&& !al_contains(e.one_per_validator, validator)
        }),
    ensures
        ({
            let e = al_get(t.per_relay_parent, rp)->Some_0;
            let t1 = TrackerModel {
                per_relay_parent: al_set(
                    t.per_relay_parent,
                    rp,
                    RpModel { one_per_validator: e.one_per_validator.push((validator, m)), ..e },
                ),
                ..t
            };
            inv(t1)
        }),
{
    let e = al_get(t.per_relay_parent, rp)->Some_0;
    let i = al_idx(t.per_relay_parent, rp);
    assert(0 <= i < t.per_relay_parent.len() && t.per_relay_parent[i].0 == rp);
    let opv2 = e.one_per_validator.push((validator, m));
    let e1 = RpModel { one_per_validator: opv2, ..e };
    assert(al_unique(opv2)) by {
        assert forall|x: int, y: int|
            0 <= x < opv2.len() && 0 <= y < opv2.len() && x != y implies opv2[x].0 != opv2[y].0 by {
            if x < e.one_per_validator.len() && y < e.one_per_validator.len() {
                assert(opv2[x].0 == e.one_per_validator[x].0 && opv2[y].0 == e.one_per_validator[
                    y].0);
            } else if x == e.one_per_validator.len() {
                assert(opv2[y].0 == e.one_per_validator[y].0);
            } else {
                assert(opv2[x].0 == e.one_per_validator[x].0);
            }
        }
    }
    assert(e1.wf()) by {
        assert forall|k: int| 0 <= k < opv2.len() implies msg_wf(#[trigger] opv2[k].1) by {
            if k < e.one_per_validator.len() {
                assert(opv2[k] == e.one_per_validator[k]);
            }
        }
    }
    assert(entry_valid(rp, e1)) by {
        assert(entry_valid(rp, e));
        assert forall|k: int| 0 <= k < opv2.len() implies {
            let v = (#[trigger] opv2[k]).0;
            let m2 = opv2[k].1;
            &&& m2.relay_parent == rp
            &&& (m2.signed.validator_index as int) < e1.validator_set.len()
            &&& e1.validator_set[m2.signed.validator_index as int] == v
            &&& sig_valid(ctx_bytes(e1.signing_context), m2.signed.payload, v, m2.signed.signature)
        } by {
            if k < e.one_per_validator.len() {
                assert(opv2[k] == e.one_per_validator[k]);
            }
        }
    }
    lemma_al_set_unique(t.per_relay_parent, rp, e1);
    let t1 = TrackerModel { per_relay_parent: al_set(t.per_relay_parent, rp, e1), ..t };
    assert forall|j: int| 0 <= j < t1.per_relay_parent.len() implies (
    #[trigger] t1.per_relay_parent[j].1).wf() && entry_valid(
        t1.per_relay_parent[j].0,
        t1.per_relay_parent[j].1,
    ) by {
        if j != i {
            assert(t1.per_relay_parent[j] == t.per_relay_parent[j]);
        } else {
            assert(t1.per_relay_parent[j] == (rp, e1));
        }
    }
}

/// The tracker invariant holds after every transition: entries carry
/// only bitfields whose recorded index resolves to the validator they
/// are stored under and whose signature verified, and all maps keep
/// unique keys.
pub proof fn lemma_step_preserves_invariant(t: TrackerModel, s: StepModel)
    requires
        inv(t),
        step_input_wf(s),
    ensures
        inv(step(t, s).0),
{
    let t2 = step(t, s).0;
    match s {
        StepModel::StartWork { relay_parent, validator_set, signing_context } => {
            let e1 = RpModel {
                signing_context,
                validator_set,
                one_per_validator: Seq::empty(),
                message_sent_to_peer: Seq::empty(),
            };
            lemma_al_set_unique(t.per_relay_parent, relay_parent, e1);
            assert forall|j: int| 0 <= j < t2.per_relay_parent.len() implies (
            #[trigger] t2.per_relay_parent[j].1).wf() && entry_valid(
                t2.per_relay_parent[j].0,
                t2.per_relay_parent[j].1,
            ) by {
                if al_contains(t.per_relay_parent, relay_parent) {
                    if j != al_idx(t.per_relay_parent, relay_parent) {
                        assert(t2.per_relay_parent[j] == t.per_relay_parent[j]);
                    }
                } else {
                    if j < t.per_relay_parent.len() {
                        assert(t2.per_relay_parent[j] == t.per_relay_parent[j]);
                    }
                }
            }
        },
        StepModel::StopWork { relay_parent } => {
            crate::alist::lemma_al_remove_unique(t.per_relay_parent, relay_parent);
            assert forall|j: int| 0 <= j < t2.per_relay_parent.len() implies (
            #[trigger] t2.per_relay_parent[j].1).wf() && entry_valid(
                t2.per_relay_parent[j].0,
                t2.per_relay_parent[j].1,
            ) by {
                if al_contains(t.per_relay_parent, relay_parent) {
                    let i = al_idx(t.per_relay_parent, relay_parent);
                    let src: int = if j < i {
                        j
                    } else {
                        j + 1
                    };
                    assert(t2.per_relay_parent[j] == t.per_relay_parent[src]);
                }
            }
        },
        StepModel::Conclude => {
            assert(t2 == TrackerModel::empty());
        },
        StepModel::DistributeBitfield { relay_parent, signed } => {
            if crate::engine::distribute_err(t, relay_parent, signed) is Some {
            } else {
                let e = al_get(t.per_relay_parent, relay_parent)->Some_0;
                let v = e.validator_set[signed.validator_index as int];
                let m = MsgModel { relay_parent, signed };
                if al_contains(e.one_per_validator, v) {
                } else {
                    lemma_insert_preserves_inv(t, relay_parent, v, m);
                    let t1 = TrackerModel {
                        per_relay_parent: al_set(
                            t.per_relay_parent,
                            relay_parent,
                            RpModel {
                                one_per_validator: e.one_per_validator.push((v, m)),
                                ..e
                            },
                        ),
                        ..t
                    };
                    lemma_relay_preserves_inv(t1, v, m);
                }
            }
        },
        StepModel::PeerConnected { peer } => {
            if al_contains(t.peer_views, peer) {
            } else {
                let s2 = t2.peer_views;
                assert forall|x: int, y: int|
                    0 <= x < s2.len() && 0 <= y < s2.len() && x != y implies s2[x].0 != s2[y].0 by {
                    if x < t.peer_views.len() && y < t.peer_views.len() {
                        assert(s2[x].0 == t.peer_views[x].0 && s2[y].0 == t.peer_views[y].0);
                    } else if x == t.peer_views.len() {
                        assert(s2[y].0 == t.peer_views[y].0);
                    } else {
                        assert(s2[x].0 == t.peer_views[x].0);
                    }
                }
            }
        },
        StepModel::PeerDisconnected { peer } => {
            crate::alist::lemma_al_remove_unique(t.peer_views, peer);
        },
        StepModel::PeerViewChange { peer, new_view } => {
            lemma_al_set_unique(t.peer_views, peer, new_view);
            let t1 = TrackerModel { peer_views: al_set(t.peer_views, peer, new_view), ..t };
            assert(inv(t1));
            let old_view = match al_get(t.peer_views, peer) {
                Some(v) => v,
                None => Seq::<Seq<u8>>::empty(),
            };
            let delta = crate::engine::view_delta_upto(new_view, old_view, new_view.len() as int);
            let coll = crate::engine::collect_upto(t1, peer, delta, delta.len() as int);
            lemma_send_collected_preserves_inv(t1, peer, coll, coll.len() as int);
        },
        StepModel::OurViewChange { new_view } => {},
        StepModel::PeerMessage { peer, bytes } => {
            match spec_decode(bytes) {
                None => {},
                Some(m) => {
                    lemma_decode_wf(bytes);
                    if !t.our_view.contains(m.relay_parent) {
                    } else {
                        match al_get(t.per_relay_parent, m.relay_parent) {
                            None => {},
                            Some(e) => {
                                if e.validator_set.len() == 0 {
                                } else if m.signed.validator_index as int
                                    >= e.validator_set.len() {
                                } else {
                                    let v = e.validator_set[m.signed.validator_index as int];
                                    if !sig_valid(
                                        ctx_bytes(e.signing_context),
                                        m.signed.payload,
                                        v,
                                        m.signed.signature,
                                    ) {
                                    } else if al_contains(e.one_per_validator, v) {
                                    } else {
                                        lemma_insert_preserves_inv(t, m.relay_parent, v, m);
                                        let t1 = TrackerModel {
                                            per_relay_parent: al_set(
                                                t.per_relay_parent,
                                                m.relay_parent,
                                                RpModel {
                                                    one_per_validator: e.one_per_validator.push(
                                                        (v, m),
                                                    ),
                                                    ..e
                                                },
                                            ),
                                            ..t
                                        };
                                        lemma_relay_preserves_inv(t1, v, m);
                                    }
                                }
                            },
                        }
                    }
                },
            }
        },
    }
}


/// Every peer the fan-out selects has the relay parent in its last
/// known view.
pub proof fn lemma_interested_elems(pvs: Seq<(PeerId, Seq<Seq<u8>>)>, rp: Seq<u8>, n: int)
    requires
        al_unique(pvs),
        n <= pvs.len(),
    ensures
        forall|j: int|
            0 <= j < interested_upto(pvs, rp, n).len() ==> {
                let q = #[trigger] interested_upto(pvs, rp, n)[j];
                &&& al_get(pvs, q) is Some
                &&& al_get(pvs, q)->Some_0.contains(rp)
            },
    decreases n,
{
    if n > 0 {
        lemma_interested_elems(pvs, rp, n - 1);
        let prev = interested_upto(pvs, rp, n - 1);
        let cur = interested_upto(pvs, rp, n);
        if pvs[n - 1].1.contains(rp) {
            crate::alist::lemma_al_idx_unique(pvs, pvs[n - 1].0, n - 1);
            assert(al_get(pvs, pvs[n - 1].0) == Some(pvs[n - 1].1));
            assert forall|j: int| 0 <= j < cur.len() implies {
                let q = #[trigger] cur[j];
                &&& al_get(pvs, q) is Some
                &&& al_get(pvs, q)->Some_0.contains(rp)
            } by {
                if j < prev.len() {
                    assert(cur[j] == prev[j]);
                } else {
                    assert(cur[j] == pvs[n - 1].0);
                }
            }
        } else {
            assert(cur =~= prev);
        }
    }
}

/// Catch-up only considers relay parents of the peer's new view.
pub proof fn lemma_delta_in_new(new_view: Seq<Seq<u8>>, old_view: Seq<Seq<u8>>, n: int)
    requires
        n <= new_view.len(),
    ensures
        forall|d: int|
            0 <= d < view_delta_upto(new_view, old_view, n).len() ==> new_view.contains(
                #[trigger] view_delta_upto(new_view, old_view, n)[d],
            ),
    decreases n,
{
    if n > 0 {
        lemma_delta_in_new(new_view, old_view, n - 1);
        let prev = view_delta_upto(new_view, old_view, n - 1);
        let cur = view_delta_upto(new_view, old_view, n);
        assert forall|d: int| 0 <= d < cur.len() implies new_view.contains(#[trigger] cur[d]) by {
            if d < prev.len() {
                assert(cur[d] == prev[d]);
            } else {
                assert(cur[d] == new_view[n - 1]);
            }
        }
    }
}

/// What one relay parent contributes to a catch-up round: the already
/// collected pairs stay a prefix, and every added pair is a valid
/// stored bitfield of this relay parent.
pub proof fn lemma_collect_rp_elems(
    e: RpModel,
    origin: PeerId,
    acc: Seq<(Seq<u8>, MsgModel)>,
    n: int,
    key: Seq<u8>,
)
    requires
        e.wf(),
        entry_valid(key, e),
        n <= e.one_per_validator.len(),
    ensures
        acc.len() <= collect_rp_upto(e, origin, acc, n).len(),
        forall|k: int|
            0 <= k < acc.len() ==> #[trigger] collect_rp_upto(e, origin, acc, n)[k] == acc[k],
        forall|k: int|
            acc.len() <= k < collect_rp_upto(e, origin, acc, n).len() ==> {
                let p = #[trigger] collect_rp_upto(e, origin, acc, n)[k];
                msg_wf(p.1) && p.1.relay_parent == key
            },
    decreases n,
{
    if n > 0 {
        lemma_collect_rp_elems(e, origin, acc, n - 1, key);
        let prev = collect_rp_upto(e, origin, acc, n - 1);
        let cur = collect_rp_upto(e, origin, acc, n);
        if cur.len() > prev.len() {
            assert(e.one_per_validator[n - 1].1 == cur[prev.len() as int].1);
        }
    }
}

/// What a whole catch-up round collects: every pair is a valid stored
/// bitfield of some relay parent of the delta.
pub proof fn lemma_collect_elems(t: TrackerModel, origin: PeerId, delta: Seq<Seq<u8>>, n: int)
    requires
        inv(t),
        n <= delta.len(),
    ensures
        forall|k: int|
            0 <= k < collect_upto(t, origin, delta, n).len() ==> {
                let p = #[trigger] collect_upto(t, origin, delta, n)[k];
                &&& msg_wf(p.1)
                &&& exists|d: int| 0 <= d < n && p.1.relay_parent == delta[d]
            },
    decreases n,
{
    if n > 0 {
        lemma_collect_elems(t, origin, delta, n - 1);
        let prev = collect_upto(t, origin, delta, n - 1);
        let cur = collect_upto(t, origin, delta, n);
        match al_get(t.per_relay_parent, delta[n - 1]) {
            None => {},
            Some(e) => {
                let i = al_idx(t.per_relay_parent, delta[n - 1]);
                assert(0 <= i < t.per_relay_parent.len() && t.per_relay_parent[i].0 == delta[n
                    - 1]);
                assert(t.per_relay_parent[i].1 == e);
                assert(e.wf() && entry_valid(delta[n - 1], e));
                lemma_collect_rp_elems(
                    e,
                    origin,
                    prev,
                    e.one_per_validator.len() as int,
                    delta[n - 1],
                );
                assert forall|k: int| 0 <= k < cur.len() implies {
                    let p = #[trigger] cur[k];
                    &&& msg_wf(p.1)
                    &&& exists|d: int| 0 <= d < n && p.1.relay_parent == delta[d]
                } by {
                    if k < prev.len() {
                        assert(cur[k] == prev[k]);
                        let d0 = choose|d: int|
                            0 <= d < n - 1 && prev[k].1.relay_parent == delta[d];
                        assert(0 <= d0 < n && cur[k].1.relay_parent == delta[d0]);
                    } else {
                        assert(cur[k].1.relay_parent == delta[n - 1]);
                    }
                }
            },
        }
    }
}

/// The shape of the catch-up send phase: every action is a send of one
/// collected message to the peer alone, under the protocol tag.
pub proof fn lemma_send_collected_shape(
    t: TrackerModel,
    origin: PeerId,
    coll: Seq<(Seq<u8>, MsgModel)>,
    n: int,
)
    requires
        n <= coll.len(),
        forall|k: int| 0 <= k < coll.len() ==> msg_wf((#[trigger] coll[k]).1),
    ensures
        forall|i: int|
            0 <= i < send_collected_upto(t, origin, coll, n).1.len() ==> {
                let a = #[trigger] send_collected_upto(t, origin, coll, n).1[i];
                &&& a matches ActionModel::SendMessage { peers, protocol, bytes }
                &&& a->SendMessage_peers == seq![origin]
                &&& a->SendMessage_protocol == protocol_id_spec()
                &&& exists|k: int|
                    0 <= k < n && spec_decode(a->SendMessage_bytes) == Some((#[trigger] coll[k]).1)
            },
    decreases n,
{
    if n > 0 {
        lemma_send_collected_shape(t, origin, coll, n - 1);
        let r = send_collected_upto(t, origin, coll, n - 1);
        let cur = send_collected_upto(t, origin, coll, n);
        let r2 = send_one(r.0, origin, coll[n - 1].0, coll[n - 1].1);
        crate::codec::lemma_encode_decode_roundtrip(coll[n - 1].1);
        assert forall|i: int| 0 <= i < cur.1.len() implies {
            let a = #[trigger] cur.1[i];
            &&& a matches ActionModel::SendMessage { peers, protocol, bytes }
            &&& a->SendMessage_peers == seq![origin]
            &&& a->SendMessage_protocol == protocol_id_spec()
            &&& exists|k: int|
                0 <= k < n && spec_decode(a->SendMessage_bytes) == Some((#[trigger] coll[k]).1)
        } by {
            if i < r.1.len() {
                assert(cur.1[i] == r.1[i]);
                let k0 = choose|k: int|
                    0 <= k < n - 1 && spec_decode(r.1[i]->SendMessage_bytes) == Some(
                        (#[trigger] coll[k]).1,
                    );
                assert(0 <= k0 < n && spec_decode(cur.1[i]->SendMessage_bytes) == Some(
                    coll[k0].1,
                ));
            } else {
                assert(cur.1[i] == r2.1[i - r.1.len()]);
                assert(spec_decode(cur.1[i]->SendMessage_bytes) == Some(coll[n - 1].1));
            }
        }
    }
}

/// Every outbound send goes only to interested peers: each recipient
/// of each send emitted by a transition has the sent message's relay
/// parent in its view as the tracker records it after the transition,
/// and every send travels under the fixed protocol tag.
pub proof fn lemma_sends_only_to_interested(t: TrackerModel, s: StepModel)
    requires
        inv(t),
        step_input_wf(s),
    ensures
        forall|i: int|
            0 <= i < step(t, s).1.len() ==> ((#[trigger] step(t, s).1[i]) matches
                ActionModel::SendMessage { peers, protocol, bytes } ==> {
                &&& protocol == protocol_id_spec()
                &&& spec_decode(bytes) is Some
                &&& forall|j: int|
                    0 <= j < peers.len() ==> {
                        let pv = al_get(step(t, s).0.peer_views, #[trigger] peers[j]);
                        &&& pv is Some
                        &&& pv->Some_0.contains(spec_decode(bytes)->Some_0.relay_parent)
                    }
            }),
{
    let acts = step(t, s).1;
    let post = step(t, s).0;
    match s {
        StepModel::StartWork { relay_parent, validator_set, signing_context } => {},
        StepModel::StopWork { relay_parent } => {},
        StepModel::Conclude => {},
        StepModel::DistributeBitfield { relay_parent, signed } => {
            if crate::engine::distribute_err(t, relay_parent, signed) is Some {
            } else {
                let e = al_get(t.per_relay_parent, relay_parent)->Some_0;
                let v = e.validator_set[signed.validator_index as int];
                let m = MsgModel { relay_parent, signed };
                if al_contains(e.one_per_validator, v) {
                } else {
                    lemma_accepted_relay_sends(t, v, m, e, acts, post);
                }
            }
        },
        StepModel::PeerConnected { peer } => {},
        StepModel::PeerDisconnected { peer } => {},
        StepModel::PeerViewChange { peer, new_view } => {
            lemma_al_set_unique(t.peer_views, peer, new_view);
            let t1 = TrackerModel { peer_views: al_set(t.peer_views, peer, new_view), ..t };
            let old_view = match al_get(t.peer_views, peer) {
                Some(v) => v,
                None => Seq::<Seq<u8>>::empty(),
            };
            let delta = crate::engine::view_delta_upto(new_view, old_view, new_view.len() as int);
            let coll = crate::engine::collect_upto(t1, peer, delta, delta.len() as int);
            assert(inv(t1));
            lemma_delta_in_new(new_view, old_view, new_view.len() as int);
            lemma_collect_elems(t1, peer, delta, delta.len() as int);
            lemma_send_collected_shape(t1, peer, coll, coll.len() as int);
            lemma_send_collected_preserves_inv(t1, peer, coll, coll.len() as int);
            assert(post.peer_views == t1.peer_views);
            lemma_al_set_get(t.peer_views, peer, new_view, peer);
            assert(al_get(post.peer_views, peer) == Some(new_view));
            assert forall|i: int| 0 <= i < acts.len() implies ((#[trigger] acts[i]) matches
                ActionModel::SendMessage { peers, protocol, bytes } ==> {
                &&& protocol == protocol_id_spec()
                &&& spec_decode(bytes) is Some
                &&& forall|j: int|
                    0 <= j < peers.len() ==> {
                        let pv = al_get(post.peer_views, #[trigger] peers[j]);
                        &&& pv is Some
                        &&& pv->Some_0.contains(spec_decode(bytes)->Some_0.relay_parent)
                    }
            }) by {
                if acts[i] is SendMessage {
                    let k0 = choose|k: int|
                        0 <= k < coll.len() && spec_decode(acts[i]->SendMessage_bytes) == Some(
                            (#[trigger] coll[k]).1,
                        );
                    let m0 = coll[k0].1;
                    let d0 = choose|d: int|
                        0 <= d < delta.len() && m0.relay_parent == delta[d];
                    assert(new_view.contains(delta[d0]));
                    assert forall|j: int|
                        0 <= j < acts[i]->SendMessage_peers.len() implies {
                        let pv = al_get(
                            post.peer_views,
                            #[trigger] acts[i]->SendMessage_peers[j],
                        );
                        &&& pv is Some
                        &&& pv->Some_0.contains(
                            spec_decode(acts[i]->SendMessage_bytes)->Some_0.relay_parent,
                        )
                    } by {
                        assert(acts[i]->SendMessage_peers[j] == peer);
                    }
                }
            }
        },
        StepModel::OurViewChange { new_view } => {},
        StepModel::PeerMessage { peer, bytes } => {
            match spec_decode(bytes) {
                None => {},
                Some(m) => {
                    lemma_decode_wf(bytes);
                    if !t.our_view.contains(m.relay_parent) {
                    } else {
                        match al_get(t.per_relay_parent, m.relay_parent) {
                            None => {},
                            Some(e) => {
                                if e.validator_set.len() == 0 {
                                } else if m.signed.validator_index as int
                                    >= e.validator_set.len() {
                                } else {
                                    let v = e.validator_set[m.signed.validator_index as int];
                                    if !sig_valid(
                                        ctx_bytes(e.signing_context),
                                        m.signed.payload,
                                        v,
                                        m.signed.signature,
                                    ) {
                                    } else if al_contains(e.one_per_validator, v) {
                                    } else {
                                        lemma_accepted_relay_sends(t, v, m, e, acts, post);
                                    }
                                }
                            },
                        }
                    }
                },
            }
        },
    }
}

/// The single fan-out send of an accepted bitfield: its recipients are
/// exactly the interested peers, whose views the transition does not
/// move.
proof fn lemma_accepted_relay_sends(
    t: TrackerModel,
    v: Seq<u8>,
    m: MsgModel,
    e: RpModel,
    acts: Seq<ActionModel>,
    post: TrackerModel,
)
    requires
        inv(t),
        msg_wf(m),
        al_get(t.per_relay_parent, m.relay_parent) == Some(e),
        ({
            let t1 = TrackerModel {
                per_relay_parent: al_set(
                    t.per_relay_parent,
                    m.relay_parent,
                    RpModel { one_per_validator: e.one_per_validator.push((v, m)), ..e },
                ),
                ..t
            };
            let r = step_relay(t1, v, m);
            (acts == r.1 || acts == r.1 + report(
                acts.last()->ReportPeer_peer,
                ReputationChange::GainValidMessage,
            )) && post == r.0
        }),
    ensures
        forall|i: int|
            0 <= i < acts.len() ==> ((#[trigger] acts[i]) matches ActionModel::SendMessage {
                peers,
                protocol,
                bytes,
            } ==> {
                &&& protocol == protocol_id_spec()
                &&& spec_decode(bytes) is Some
                &&& forall|j: int|
                    0 <= j < peers.len() ==> {
                        let pv = al_get(post.peer_views, #[trigger] peers[j]);
                        &&& pv is Some
                        &&& pv->Some_0.contains(spec_decode(bytes)->Some_0.relay_parent)
                    }
            }),
{
    let t1 = TrackerModel {
        per_relay_parent: al_set(
            t.per_relay_parent,
            m.relay_parent,
            RpModel { one_per_validator: e.one_per_validator.push((v, m)), ..e },
        ),
        ..t
    };
    let r = step_relay(t1, v, m);
    let peers0 = interested_peers(t1.peer_views, m.relay_parent);
    crate::codec::lemma_encode_decode_roundtrip(m);
    lemma_interested_elems(t.peer_views, m.relay_parent, t.peer_views.len() as int);
    assert(post.peer_views == t.peer_views);
    assert forall|i: int| 0 <= i < acts.len() implies ((#[trigger] acts[i]) matches
        ActionModel::SendMessage { peers, protocol, bytes } ==> {
        &&& protocol == protocol_id_spec()
        &&& spec_decode(bytes) is Some
        &&& forall|j: int|
            0 <= j < peers.len() ==> {
                let pv = al_get(post.peer_views, #[trigger] peers[j]);
                &&& pv is Some
                &&& pv->Some_0.contains(spec_decode(bytes)->Some_0.relay_parent)
            }
    }) by {
        if acts[i] is SendMessage {
            assert(acts[i] == r.1[1]);
            assert(acts[i]->SendMessage_peers == peers0);
            assert(spec_decode(acts[i]->SendMessage_bytes) == Some(m));
        }
    }
}


/// What one mark does to the sent-sets: the validator enters the peer's
/// set, other peers' sets do not move, and no membership is ever lost.
pub proof fn lemma_mark_sent_one_get(sent: Seq<(PeerId, Seq<Seq<u8>>)>, p: PeerId, v: Seq<u8>)
    requires
        al_unique(sent),
    ensures
        ({
            let r = mark_sent_one(sent, p, v);
            &&& al_get(r, p) is Some && al_get(r, p)->Some_0.contains(v)
            &&& forall|q: PeerId| q != p ==> #[trigger] al_get(r, q) == al_get(sent, q)
            &&& forall|q: PeerId, x: Seq<u8>|
                al_get(sent, q) is Some && #[trigger] al_get(sent, q)->Some_0.contains(
                    x,
                ) ==> al_get(r, q) is Some && al_get(r, q)->Some_0.contains(x)
        }),
{
    let r = mark_sent_one(sent, p, v);
    match al_get(sent, p) {
        Some(s0) => {
            if s0.contains(v) {
            } else {
                assert forall|q: PeerId| q != p implies #[trigger] al_get(r, q) == al_get(
                    sent,
                    q,
                ) by {
                    lemma_al_set_get(sent, p, s0.push(v), q);
                }
                lemma_al_set_get(sent, p, s0.push(v), p);
                assert(s0.push(v)[s0.len() as int] == v);
                assert forall|q: PeerId, x: Seq<u8>|
                    al_get(sent, q) is Some && #[trigger] al_get(sent, q)->Some_0.contains(
                        x,
                    ) implies al_get(r, q) is Some && al_get(r, q)->Some_0.contains(x) by {
                    lemma_al_set_get(sent, p, s0.push(v), q);
                    if q == p {
                        let w = choose|w: int| 0 <= w < s0.len() && s0[w] == x;
                        assert(s0.push(v)[w] == x);
                    }
                }
            }
        },
        None => {
            assert(r =~= al_set(sent, p, seq![v]));
            assert forall|q: PeerId| q != p implies #[trigger] al_get(r, q) == al_get(sent, q) by {
                lemma_al_set_get(sent, p, seq![v], q);
            }
            lemma_al_set_get(sent, p, seq![v], p);
            assert(seq![v][0] == v);
        },
    }
}

/// What the whole fan-out marking does: every selected peer's set gains
/// the validator, and no membership is ever lost.
pub proof fn lemma_mark_sent_upto_get(
    sent: Seq<(PeerId, Seq<Seq<u8>>)>,
    peers: Seq<PeerId>,
    v: Seq<u8>,
    n: int,
)
    requires
        al_unique(sent),
    ensures
        ({
            let r = mark_sent_upto(sent, peers, v, n);
            &&& forall|j: int|
                0 <= j < n && j < peers.len() ==> #[trigger] al_get(r, peers[j]) is Some && al_get(
                    r,
                    peers[j],
                )->Some_0.contains(v)
            &&& forall|q: PeerId, x: Seq<u8>|
                al_get(sent, q) is Some && #[trigger] al_get(sent, q)->Some_0.contains(
                    x,
                ) ==> al_get(r, q) is Some && al_get(r, q)->Some_0.contains(x)
        }),
    decreases n,
{
    if n > 0 {
        lemma_mark_sent_upto_get(sent, peers, v, n - 1);
        let prev = mark_sent_upto(sent, peers, v, n - 1);
        lemma_mark_sent_upto_unique(sent, peers, v, n - 1);
        lemma_mark_sent_one_get(prev, peers[n - 1], v);
    }
}


/// One act of sending: action `i` of `acts` is a send whose recipient
/// list holds `p` at position `j`, and whose bytes carry a bitfield for
/// relay parent `rp` recorded under validator index `vi`.
pub open spec fn send_occurrence(
    acts: Seq<ActionModel>,
    i: int,
    j: int,
    p: PeerId,
    rp: Seq<u8>,
    vi: u32,
) -> bool {
    &&& 0 <= i < acts.len()
    &&& acts[i] is SendMessage
    &&& 0 <= j < acts[i]->SendMessage_peers.len()
    &&& acts[i]->SendMessage_peers[j] == p
    &&& spec_decode(acts[i]->SendMessage_bytes) is Some
    &&& spec_decode(acts[i]->SendMessage_bytes)->Some_0.relay_parent == rp
    &&& spec_decode(acts[i]->SendMessage_bytes)->Some_0.signed.validator_index == vi
}

/// How one tracked catch-up send moves the entry under `rp`: presence,
/// seen bitfields, validator set and signing context stay; the sent-set
/// membership `(q, x)` survives; and under the sent message's own relay
/// parent, the recipient's set now holds the validator.
pub proof fn lemma_send_one_entry(
    t: TrackerModel,
    origin: PeerId,
    v: Seq<u8>,
    m: MsgModel,
    rp: Seq<u8>,
    q: PeerId,
    x: Seq<u8>,
)
    requires
        t.wf(),
    ensures
        ({
            let post = send_one(t, origin, v, m).0;
            &&& (al_get(post.per_relay_parent, rp) is Some <==> al_get(t.per_relay_parent, rp)
                is Some)
            &&& (al_get(t.per_relay_parent, rp) matches Some(e) ==> {
                let e2 = al_get(post.per_relay_parent, rp)->Some_0;
                &&& e2.one_per_validator == e.one_per_validator
                &&& e2.validator_set == e.validator_set
                &&& e2.signing_context == e.signing_context
                &&& (al_get(e.message_sent_to_peer, q) is Some && al_get(
                    e.message_sent_to_peer,
                    q,
                )->Some_0.contains(x) ==> al_get(e2.message_sent_to_peer, q) is Some && al_get(
                    e2.message_sent_to_peer,
                    q,
                )->Some_0.contains(x))
                &&& (rp == m.relay_parent ==> al_get(e2.message_sent_to_peer, origin) is Some
                    && al_get(e2.message_sent_to_peer, origin)->Some_0.contains(v))
            })
        }),
{
    match al_get(t.per_relay_parent, m.relay_parent) {
        None => {},
        Some(e0) => {
            let i = al_idx(t.per_relay_parent, m.relay_parent);
            assert(0 <= i < t.per_relay_parent.len() && t.per_relay_parent[i].0
                == m.relay_parent);
            assert(e0.wf());
            let e0b = RpModel {
                message_sent_to_peer: mark_sent_one(e0.message_sent_to_peer, origin, v),
                ..e0
            };
            lemma_al_set_get(t.per_relay_parent, m.relay_parent, e0b, rp);
            lemma_mark_sent_one_get(e0.message_sent_to_peer, origin, v);
        },
    }
}

/// How the whole catch-up send phase moves the entry under `rp`: the
/// same facts, accumulated over every send.
pub proof fn lemma_send_collected_entry(
    t: TrackerModel,
    origin: PeerId,
    coll: Seq<(Seq<u8>, MsgModel)>,
    n: int,
    rp: Seq<u8>,
    q: PeerId,
    x: Seq<u8>,
)
    requires
        inv(t),
    ensures
        ({
            let post = send_collected_upto(t, origin, coll, n).0;
            &&& (al_get(post.per_relay_parent, rp) is Some <==> al_get(t.per_relay_parent, rp)
                is Some)
            &&& (al_get(t.per_relay_parent, rp) matches Some(e) ==> {
                let e2 = al_get(post.per_relay_parent, rp)->Some_0;
                &&& e2.one_per_validator == e.one_per_validator
                &&& e2.validator_set == e.validator_set
                &&& e2.signing_context == e.signing_context
                &&& (al_get(e.message_sent_to_peer, q) is Some && al_get(
                    e.message_sent_to_peer,
                    q,
                )->Some_0.contains(x) ==> al_get(e2.message_sent_to_peer, q) is Some && al_get(
                    e2.message_sent_to_peer,
                    q,
                )->Some_0.contains(x))
            })
        }),
    decreases n,
{
    if n > 0 {
        lemma_send_collected_entry(t, origin, coll, n - 1, rp, q, x);
        let r = send_collected_upto(t, origin, coll, n - 1);
        lemma_send_collected_preserves_inv(t, origin, coll, n - 1);
        lemma_send_one_entry(r.0, origin, coll[n - 1].0, coll[n - 1].1, rp, q, x);
    }
}

/// After the catch-up send phase, the validator of each sent pair is in
/// the peer's sent-set under that pair's relay parent.
pub proof fn lemma_send_collected_marks(
    t: TrackerModel,
    origin: PeerId,
    coll: Seq<(Seq<u8>, MsgModel)>,
    n: int,
    k: int,
)
    requires
        inv(t),
        0 <= k < n,
        al_get(t.per_relay_parent, coll[k].1.relay_parent) is Some,
    ensures
        ({
            let post = send_collected_upto(t, origin, coll, n).0;
            let e2 = al_get(post.per_relay_parent, coll[k].1.relay_parent)->Some_0;
            &&& al_get(post.per_relay_parent, coll[k].1.relay_parent) is Some
            &&& al_get(e2.message_sent_to_peer, origin) is Some
            &&& al_get(e2.message_sent_to_peer, origin)->Some_0.contains(coll[k].0)
        }),
    decreases n,
{
    let rp = coll[k].1.relay_parent;
    let r = send_collected_upto(t, origin, coll, n - 1);
    lemma_send_collected_preserves_inv(t, origin, coll, n - 1);
    if k < n - 1 {
        lemma_send_collected_marks(t, origin, coll, n - 1, k);
        lemma_send_one_entry(r.0, origin, coll[n - 1].0, coll[n - 1].1, rp, origin, coll[k].0);
    } else {
        lemma_send_collected_entry(t, origin, coll, n - 1, rp, origin, coll[k].0);
        lemma_send_one_entry(r.0, origin, coll[k].0, coll[k].1, rp, origin, coll[k].0);
    }
}

/// What one relay parent contributes to a catch-up round, in full: the
/// collected pairs keep unique validators, and each added pair is a
/// stored bitfield of this relay parent that the peer still needs,
/// recorded under the validator its index resolves to.
pub proof fn lemma_collect_rp_rich(
    e: RpModel,
    origin: PeerId,
    acc: Seq<(Seq<u8>, MsgModel)>,
    n: int,
    key: Seq<u8>,
)
    requires
        e.wf(),
        entry_valid(key, e),
        n <= e.one_per_validator.len(),
        al_unique(acc),
    ensures
        ({
            let r = collect_rp_upto(e, origin, acc, n);
            &&& al_unique(r)
            &&& acc.len() <= r.len()
            &&& (forall|k: int| 0 <= k < acc.len() ==> #[trigger] r[k] == acc[k])
            &&& (forall|k: int|
                acc.len() <= k < r.len() ==> {
                    let p = #[trigger] r[k];
                    &&& msg_wf(p.1)
                    &&& p.1.relay_parent == key
                    &&& al_contains(e.one_per_validator, p.0)
                    &&& (p.1.signed.validator_index as int) < e.validator_set.len()
                    &&& e.validator_set[p.1.signed.validator_index as int] == p.0
                    &&& needed_by_peer(e, origin, p.0)
                })
        }),
    decreases n,
{
    if n > 0 {
        lemma_collect_rp_rich(e, origin, acc, n - 1, key);
        let prev = collect_rp_upto(e, origin, acc, n - 1);
        let cur = collect_rp_upto(e, origin, acc, n);
        let v = e.one_per_validator[n - 1].0;
        let m = e.one_per_validator[n - 1].1;
        if needed_by_peer(e, origin, v) && !al_contains(prev, v) {
            assert(cur == prev.push((v, m)));
            assert(al_contains(e.one_per_validator, v));
            assert forall|a: int, b: int|
                0 <= a < cur.len() && 0 <= b < cur.len() && a != b implies cur[a].0 != cur[b].0 by {
                if a < prev.len() && b < prev.len() {
                    assert(cur[a] == prev[a] && cur[b] == prev[b]);
                } else if a == prev.len() {
                    assert(cur[b] == prev[b]);
                    assert(!al_contains(prev, v));
                } else {
                    assert(cur[a] == prev[a]);
                    assert(!al_contains(prev, v));
                }
            }
        }
    }
}

/// What a whole catch-up round collects, in full: unique validators,
/// and each pair is a stored bitfield the peer still needs, under a
/// relay parent that is active in the tracker.
pub proof fn lemma_collect_rich(t: TrackerModel, origin: PeerId, delta: Seq<Seq<u8>>, n: int)
    requires
        inv(t),
        n <= delta.len(),
    ensures
        ({
            let r = collect_upto(t, origin, delta, n);
            &&& al_unique(r)
            &&& (forall|k: int|
                0 <= k < r.len() ==> {
                    let p = #[trigger] r[k];
                    &&& msg_wf(p.1)
                    &&& al_get(t.per_relay_parent, p.1.relay_parent) is Some
                    &&& {
                        let e = al_get(t.per_relay_parent, p.1.relay_parent)->Some_0;
                        &&& al_contains(e.one_per_validator, p.0)
                        &&& (p.1.signed.validator_index as int) < e.validator_set.len()
                        &&& e.validator_set[p.1.signed.validator_index as int] == p.0
                        &&& needed_by_peer(e, origin, p.0)
                    }
                })
        }),
    decreases n,
{
    if n > 0 {
        lemma_collect_rich(t, origin, delta, n - 1);
        let prev = collect_upto(t, origin, delta, n - 1);
        let cur = collect_upto(t, origin, delta, n);
        match al_get(t.per_relay_parent, delta[n - 1]) {
            None => {},
            Some(e) => {
                let i = al_idx(t.per_relay_parent, delta[n - 1]);
                assert(0 <= i < t.per_relay_parent.len() && t.per_relay_parent[i].0 == delta[n
                    - 1]);
                assert(t.per_relay_parent[i].1 == e);
                assert(e.wf() && entry_valid(delta[n - 1], e));
                lemma_collect_rp_rich(e, origin, prev, e.one_per_validator.len() as int, delta[n
                    - 1]);
                assert forall|k: int| 0 <= k < cur.len() implies {
                    let p = #[trigger] cur[k];
                    &&& msg_wf(p.1)
                    &&& al_get(t.per_relay_parent, p.1.relay_parent) is Some
                    &&& {
                        let e3 = al_get(t.per_relay_parent, p.1.relay_parent)->Some_0;
                        &&& al_contains(e3.one_per_validator, p.0)
                        &&& (p.1.signed.validator_index as int) < e3.validator_set.len()
                        &&& e3.validator_set[p.1.signed.validator_index as int] == p.0
                        &&& needed_by_peer(e3, origin, p.0)
                    }
                } by {
                    if k < prev.len() {
                        assert(cur[k] == prev[k]);
                    } else {
                        assert(cur[k].1.relay_parent == delta[n - 1]);
                        assert(al_get(t.per_relay_parent, cur[k].1.relay_parent) == Some(e));
                    }
                }
            },
        }
    }
}


/// The fan-out send of an accepted bitfield, dissected: its one send
/// action carries exactly the accepted message, and afterwards the
/// entry records the signing validator as seen and as sent to every
/// recipient.
proof fn lemma_accepted_relay_occurrence(
    t: TrackerModel,
    v: Seq<u8>,
    m: MsgModel,
    e: RpModel,
    acts: Seq<ActionModel>,
    post: TrackerModel,
    i: int,
    j: int,
    p: PeerId,
    rp: Seq<u8>,
    vi: u32,
)
    requires
        inv(t),
        msg_wf(m),
        al_get(t.per_relay_parent, m.relay_parent) == Some(e),
        (m.signed.validator_index as int) < e.validator_set.len(),
        e.validator_set[m.signed.validator_index as int] == v,
        !al_contains(e.one_per_validator, v),
        ({
            let t1 = TrackerModel {
                per_relay_parent: al_set(
                    t.per_relay_parent,
                    m.relay_parent,
                    RpModel { one_per_validator: e.one_per_validator.push((v, m)), ..e },
                ),
                ..t
            };
            let r = step_relay(t1, v, m);
            (acts == r.1 || acts == r.1 + report(
                acts.last()->ReportPeer_peer,
                ReputationChange::GainValidMessage,
            )) && post == r.0
        }),
        send_occurrence(acts, i, j, p, rp, vi),
    ensures
        rp == m.relay_parent,
        vi == m.signed.validator_index,
        al_get(post.per_relay_parent, rp) is Some,
        ({
            let e2 = al_get(post.per_relay_parent, rp)->Some_0;
            &&& e2.validator_set == e.validator_set
            &&& al_contains(e2.one_per_validator, v)
            &&& al_get(e2.message_sent_to_peer, p) is Some
            &&& al_get(e2.message_sent_to_peer, p)->Some_0.contains(v)
        }),
{
    let e1 = RpModel { one_per_validator: e.one_per_validator.push((v, m)), ..e };
    let t1 = TrackerModel {
        per_relay_parent: al_set(t.per_relay_parent, m.relay_parent, e1),
        ..t
    };
    let r = step_relay(t1, v, m);
    let peers0 = interested_peers(t1.peer_views, m.relay_parent);
    crate::codec::lemma_encode_decode_roundtrip(m);
    assert(acts[i] is SendMessage);
    assert(acts[0] is ProvisionBitfield);
    assert(i == 1);
    assert(acts[1] == r.1[1]);
    assert(spec_decode(acts[1]->SendMessage_bytes) == Some(m));
    assert(acts[1]->SendMessage_peers == peers0);
    assert(p == peers0[j]);
    lemma_al_set_unique(t.per_relay_parent, m.relay_parent, e1);
    lemma_al_set_get(t.per_relay_parent, m.relay_parent, e1, m.relay_parent);
    assert(al_get(t1.per_relay_parent, m.relay_parent) == Some(e1));
    let e2 = RpModel {
        message_sent_to_peer: mark_sent_upto(
            e1.message_sent_to_peer,
            peers0,
            v,
            peers0.len() as int,
        ),
        ..e1
    };
    assert(post.per_relay_parent == al_set(t1.per_relay_parent, m.relay_parent, e2));
    lemma_al_set_get(t1.per_relay_parent, m.relay_parent, e2, m.relay_parent);
    assert(al_get(post.per_relay_parent, rp) == Some(e2));
    let idx0 = al_idx(t.per_relay_parent, m.relay_parent);
    assert(0 <= idx0 < t.per_relay_parent.len() && t.per_relay_parent[idx0].0 == m.relay_parent);
    assert(e.wf());
    lemma_mark_sent_upto_get(e1.message_sent_to_peer, peers0, v, peers0.len() as int);
    assert(e1.one_per_validator[e.one_per_validator.len() as int].0 == v);
    assert(al_contains(e2.one_per_validator, v));
}

/// After a transition that sent a bitfield for `rp` under validator
/// index `vi` to peer `p`, the entry for `rp` records that validator
/// as seen and as sent to `p`.
pub proof fn lemma_send_post_facts(
    t: TrackerModel,
    s: StepModel,
    i: int,
    j: int,
    p: PeerId,
    rp: Seq<u8>,
    vi: u32,
)
    requires
        inv(t),
        step_input_wf(s),
        send_occurrence(step(t, s).1, i, j, p, rp, vi),
    ensures
        ({
            let post = step(t, s).0;
            &&& al_get(post.per_relay_parent, rp) is Some
            &&& {
                let e2 = al_get(post.per_relay_parent, rp)->Some_0;
                &&& (vi as int) < e2.validator_set.len()
                &&& al_contains(e2.one_per_validator, e2.validator_set[vi as int])
                &&& al_get(e2.message_sent_to_peer, p) is Some
                &&& al_get(e2.message_sent_to_peer, p)->Some_0.contains(
                    e2.validator_set[vi as int],
                )
            }
        }),
{
    let acts = step(t, s).1;
    let post = step(t, s).0;
    match s {
        StepModel::StartWork { relay_parent, validator_set, signing_context } => {
            assert(false);
        },
        StepModel::StopWork { relay_parent } => {
            assert(false);
        },
        StepModel::Conclude => {
            assert(false);
        },
        StepModel::DistributeBitfield { relay_parent, signed } => {
            if crate::engine::distribute_err(t, relay_parent, signed) is Some {
                assert(false);
            } else {
                let e = al_get(t.per_relay_parent, relay_parent)->Some_0;
                let v = e.validator_set[signed.validator_index as int];
                let m = MsgModel { relay_parent, signed };
                if al_contains(e.one_per_validator, v) {
                    assert(false);
                } else {
                    lemma_accepted_relay_occurrence(
                        t,
                        v,
                        m,
                        e,
                        acts,
                        post,
                        i,
                        j,
                        p,
                        rp,
                        vi,
                    );
                }
            }
        },
        StepModel::PeerConnected { peer } => {
            assert(false);
        },
        StepModel::PeerDisconnected { peer } => {
            assert(false);
        },
        StepModel::PeerViewChange { peer, new_view } => {
            lemma_al_set_unique(t.peer_views, peer, new_view);
            let t1 = TrackerModel { peer_views: al_set(t.peer_views, peer, new_view), ..t };
            assert(inv(t1));
            let old_view = match al_get(t.peer_views, peer) {
                Some(w) => w,
                None => Seq::<Seq<u8>>::empty(),
            };
            let delta = crate::engine::view_delta_upto(new_view, old_view, new_view.len() as int);
            let coll = crate::engine::collect_upto(t1, peer, delta, delta.len() as int);
            lemma_collect_rich(t1, peer, delta, delta.len() as int);
            lemma_send_collected_shape(t1, peer, coll, coll.len() as int);
            let k0 = choose|k: int|
                0 <= k < coll.len() && spec_decode(acts[i]->SendMessage_bytes) == Some(
                    (#[trigger] coll[k]).1,
                );
            let v = coll[k0].0;
            let m = coll[k0].1;
            assert(rp == m.relay_parent && vi == m.signed.validator_index);
            assert(acts[i]->SendMessage_peers == seq![peer]);
            assert(p == peer);
            let e = al_get(t1.per_relay_parent, rp)->Some_0;
            lemma_send_collected_entry(t1, peer, coll, coll.len() as int, rp, p, v);
            lemma_send_collected_marks(t1, peer, coll, coll.len() as int, k0);
        },
        StepModel::OurViewChange { new_view } => {
            assert(false);
        },
        StepModel::PeerMessage { peer, bytes } => {
            match spec_decode(bytes) {
                None => {
                    assert(acts[0] is ReportPeer);
                    assert(false);
                },
                Some(m) => {
                    lemma_decode_wf(bytes);
                    if !t.our_view.contains(m.relay_parent) {
                        assert(acts[0] is ReportPeer);
                        assert(false);
                    } else {
                        match al_get(t.per_relay_parent, m.relay_parent) {
                            None => {
                                assert(acts[0] is ReportPeer);
                                assert(false);
                            },
                            Some(e) => {
                                if e.validator_set.len() == 0 {
                                    assert(acts[0] is ReportPeer);
                                    assert(false);
                                } else if m.signed.validator_index as int
                                    >= e.validator_set.len() {
                                    assert(acts[0] is ReportPeer);
                                    assert(false);
                                } else {
                                    let v = e.validator_set[m.signed.validator_index as int];
                                    if !sig_valid(
                                        ctx_bytes(e.signing_context),
                                        m.signed.payload,
                                        v,
                                        m.signed.signature,
                                    ) {
                                        assert(acts[0] is ReportPeer);
                                        assert(false);
                                    } else if al_contains(e.one_per_validator, v) {
                                        assert(acts[0] is ReportPeer);
                                        assert(false);
                                    } else {
                                        lemma_accepted_relay_occurrence(
                                            t,
                                            v,
                                            m,
                                            e,
                                            acts,
                                            post,
                                            i,
                                            j,
                                            p,
                                            rp,
                                            vi,
                                        );
                                    }
                                }
                            },
                        }
                    }
                },
            }
        },
    }
}

/// Before a transition can send a bitfield for `rp` under validator
/// index `vi` to peer `p`, the entry for `rp` must not both hold that
/// validator's bitfield and record it as sent to `p`: sends happen only
/// for fresh bitfields or to peers that still need them.
pub proof fn lemma_send_pre_facts(
    t: TrackerModel,
    s: StepModel,
    i: int,
    j: int,
    p: PeerId,
    rp: Seq<u8>,
    vi: u32,
)
    requires
        inv(t),
        step_input_wf(s),
        send_occurrence(step(t, s).1, i, j, p, rp, vi),
    ensures
        ({
            &&& al_get(t.per_relay_parent, rp) is Some
            &&& {
                let e = al_get(t.per_relay_parent, rp)->Some_0;
                &&& (vi as int) < e.validator_set.len()
                &&& !(al_contains(e.one_per_validator, e.validator_set[vi as int]) && al_get(
                    e.message_sent_to_peer,
                    p,
                ) is Some && al_get(e.message_sent_to_peer, p)->Some_0.contains(
                    e.validator_set[vi as int],
                ))
            }
        }),
{
    let acts = step(t, s).1;
    let post = step(t, s).0;
    match s {
        StepModel::StartWork { relay_parent, validator_set, signing_context } => {
            assert(false);
        },
        StepModel::StopWork { relay_parent } => {
            assert(false);
        },
        StepModel::Conclude => {
            assert(false);
        },
        StepModel::DistributeBitfield { relay_parent, signed } => {
            if crate::engine::distribute_err(t, relay_parent, signed) is Some {
                assert(false);
            } else {
                let e = al_get(t.per_relay_parent, relay_parent)->Some_0;
                let v = e.validator_set[signed.validator_index as int];
                let m = MsgModel { relay_parent, signed };
                if al_contains(e.one_per_validator, v) {
                    assert(false);
                } else {
                    lemma_accepted_relay_occurrence(
                        t,
                        v,
                        m,
                        e,
                        acts,
                        post,
                        i,
                        j,
                        p,
                        rp,
                        vi,
                    );
                }
            }
        },
        StepModel::PeerConnected { peer } => {
            assert(false);
        },
        StepModel::PeerDisconnected { peer } => {
            assert(false);
        },
        StepModel::PeerViewChange { peer, new_view } => {
            lemma_al_set_unique(t.peer_views, peer, new_view);
            let t1 = TrackerModel { peer_views: al_set(t.peer_views, peer, new_view), ..t };
            assert(inv(t1));
            let old_view = match al_get(t.peer_views, peer) {
                Some(w) => w,
                None => Seq::<Seq<u8>>::empty(),
            };
            let delta = crate::engine::view_delta_upto(new_view, old_view, new_view.len() as int);
            let coll = crate::engine::collect_upto(t1, peer, delta, delta.len() as int);
            lemma_collect_rich(t1, peer, delta, delta.len() as int);
            lemma_send_collected_shape(t1, peer, coll, coll.len() as int);
            let k0 = choose|k: int|
                0 <= k < coll.len() && spec_decode(acts[i]->SendMessage_bytes) == Some(
                    (#[trigger] coll[k]).1,
                );
            let v = coll[k0].0;
            let m = coll[k0].1;
            assert(rp == m.relay_parent && vi == m.signed.validator_index);
            assert(p == peer);
            assert(al_get(t1.per_relay_parent, rp) == al_get(t.per_relay_parent, rp));
            let e = al_get(t.per_relay_parent, rp)->Some_0;
            assert(e.validator_set[vi as int] == v);
            assert(needed_by_peer(e, peer, v));
        },
        StepModel::OurViewChange { new_view } => {
            assert(false);
        },
        StepModel::PeerMessage { peer, bytes } => {
            match spec_decode(bytes) {
                None => {
                    assert(acts[0] is ReportPeer);
                    assert(false);
                },
                Some(m) => {
                    lemma_decode_wf(bytes);
                    if !t.our_view.contains(m.relay_parent) {
                        assert(acts[0] is ReportPeer);
                        assert(false);
                    } else {
                        match al_get(t.per_relay_parent, m.relay_parent) {
                            None => {
                                assert(acts[0] is ReportPeer);
                                assert(false);
                            },
                            Some(e) => {
                                if e.validator_set.len() == 0 {
                                    assert(acts[0] is ReportPeer);
                                    assert(false);
                                } else if m.signed.validator_index as int
                                    >= e.validator_set.len() {
                                    assert(acts[0] is ReportPeer);
                                    assert(false);
                                } else {
                                    let v = e.validator_set[m.signed.validator_index as int];
                                    if !sig_valid(
                                        ctx_bytes(e.signing_context),
                                        m.signed.payload,
                                        v,
                                        m.signed.signature,
                                    ) {
                                        assert(acts[0] is ReportPeer);
                                        assert(false);
                                    } else if al_contains(e.one_per_validator, v) {
                                        assert(acts[0] is ReportPeer);
                                        assert(false);
                                    } else {
                                        lemma_accepted_relay_occurrence(
                                            t,
                                            v,
                                            m,
                                            e,
                                            acts,
                                            post,
                                            i,
                                            j,
                                            p,
                                            rp,
                                            vi,
                                        );
                                    }
                                }
                            },
                        }
                    }
                },
            }
        },
    }
}

/// No two outbound sends across consecutive transitions carry a
/// bitfield signed by the same validator for the same relay parent to
/// the same peer: whatever the first transition sent, the next one
/// cannot send again.
pub proof fn lemma_no_duplicate_send_across_steps(
    t: TrackerModel,
    s1: StepModel,
    s2: StepModel,
    i1: int,
    j1: int,
    i2: int,
    j2: int,
    p: PeerId,
    rp: Seq<u8>,
    vi: u32,
)
    requires
        inv(t),
        step_input_wf(s1),
        step_input_wf(s2),
        send_occurrence(step(t, s1).1, i1, j1, p, rp, vi),
    ensures
        !send_occurrence(step(step(t, s1).0, s2).1, i2, j2, p, rp, vi),
{
    lemma_send_post_facts(t, s1, i1, j1, p, rp, vi);
    lemma_step_preserves_invariant(t, s1);
    let post1 = step(t, s1).0;
    if send_occurrence(step(post1, s2).1, i2, j2, p, rp, vi) {
        lemma_send_pre_facts(post1, s2, i2, j2, p, rp, vi);
        assert(false);
    }
}


/// The fan-out recipient list never names a peer twice: its entries
/// come from the peer-views map, whose keys are unique.
pub proof fn lemma_interested_distinct(pvs: Seq<(PeerId, Seq<Seq<u8>>)>, rp: Seq<u8>, n: int)
    requires
        al_unique(pvs),
        n <= pvs.len(),
    ensures
        forall|j: int|
            0 <= j < interested_upto(pvs, rp, n).len() ==> exists|k: int|
                0 <= k < n && #[trigger] interested_upto(pvs, rp, n)[j] == pvs[k].0,
        forall|a: int, b: int|
            0 <= a < interested_upto(pvs, rp, n).len() && 0 <= b < interested_upto(
                pvs,
                rp,
                n,
            ).len() && a != b ==> #[trigger] interested_upto(pvs, rp, n)[a] != #[trigger] interested_upto(
                pvs,
                rp,
                n,
            )[b],
    decreases n,
{
    if n > 0 {
        lemma_interested_distinct(pvs, rp, n - 1);
        let prev = interested_upto(pvs, rp, n - 1);
        let cur = interested_upto(pvs, rp, n);
        if pvs[n - 1].1.contains(rp) {
            assert forall|j: int| 0 <= j < cur.len() implies exists|k: int|
                0 <= k < n && #[trigger] cur[j] == pvs[k].0 by {
                if j < prev.len() {
                    assert(cur[j] == prev[j]);
                    let k0 = choose|k: int| 0 <= k < n - 1 && prev[j] == pvs[k].0;
                    assert(0 <= k0 < n && cur[j] == pvs[k0].0);
                } else {
                    assert(cur[j] == pvs[n - 1].0);
                }
            }
            assert forall|a: int, b: int|
                0 <= a < cur.len() && 0 <= b < cur.len() && a != b implies cur[a] != cur[b] by {
                if a < prev.len() && b < prev.len() {
                    assert(cur[a] == prev[a] && cur[b] == prev[b]);
                } else if a < prev.len() {
                    assert(cur[b] == pvs[n - 1].0 && cur[a] == prev[a]);
                    let k0 = choose|k: int| 0 <= k < n - 1 && prev[a] == pvs[k].0;
                    assert(pvs[k0].0 != pvs[n - 1].0);
                } else {
                    assert(cur[a] == pvs[n - 1].0 && cur[b] == prev[b]);
                    let k0 = choose|k: int| 0 <= k < n - 1 && prev[b] == pvs[k].0;
                    assert(pvs[k0].0 != pvs[n - 1].0);
                }
            }
        } else {
            assert(cur =~= prev);
        }
    }
}

/// The catch-up send phase never repeats a message: pairwise distinct
/// collected messages yield pairwise distinct sends.
pub proof fn lemma_send_collected_no_dup(
    t: TrackerModel,
    origin: PeerId,
    coll: Seq<(Seq<u8>, MsgModel)>,
    n: int,
)
    requires
        n <= coll.len(),
        forall|k: int| 0 <= k < coll.len() ==> msg_wf((#[trigger] coll[k]).1),
        forall|k1: int, k2: int|
            0 <= k1 < coll.len() && 0 <= k2 < coll.len() && (#[trigger] coll[k1]).1 == (
            #[trigger] coll[k2]).1 ==> k1 == k2,
    ensures
        forall|i1: int, i2: int|
            0 <= i1 < send_collected_upto(t, origin, coll, n).1.len() && 0 <= i2
                < send_collected_upto(t, origin, coll, n).1.len() && i1 != i2
                ==> spec_decode(
                #[trigger] send_collected_upto(t, origin, coll, n).1[i1]->SendMessage_bytes,
            ) != spec_decode(
                #[trigger] send_collected_upto(t, origin, coll, n).1[i2]->SendMessage_bytes,
            ),
    decreases n,
{
    if n > 0 {
        lemma_send_collected_no_dup(t, origin, coll, n - 1);
        lemma_send_collected_shape(t, origin, coll, n - 1);
        let r = send_collected_upto(t, origin, coll, n - 1);
        let cur = send_collected_upto(t, origin, coll, n);
        let r2 = send_one(r.0, origin, coll[n - 1].0, coll[n - 1].1);
        crate::codec::lemma_encode_decode_roundtrip(coll[n - 1].1);
        assert forall|i1: int, i2: int|
            0 <= i1 < cur.1.len() && 0 <= i2 < cur.1.len() && i1 != i2 implies spec_decode(
            #[trigger] cur.1[i1]->SendMessage_bytes,
        ) != spec_decode(#[trigger] cur.1[i2]->SendMessage_bytes) by {
            if i1 < r.1.len() && i2 < r.1.len() {
                assert(cur.1[i1] == r.1[i1] && cur.1[i2] == r.1[i2]);
            } else if i1 < r.1.len() {
                assert(cur.1[i2] == r2.1[0] && cur.1[i1] == r.1[i1]);
                let k0 = choose|k: int|
                    0 <= k < n - 1 && spec_decode(r.1[i1]->SendMessage_bytes) == Some(
                        (#[trigger] coll[k]).1,
                    );
                assert(spec_decode(cur.1[i2]->SendMessage_bytes) == Some(coll[n - 1].1));
                if spec_decode(cur.1[i1]->SendMessage_bytes) == spec_decode(
                    cur.1[i2]->SendMessage_bytes,
                ) {
                    assert(coll[k0].1 == coll[n - 1].1);
                    assert(k0 == n - 1);
                    assert(false);
                }
            } else if i2 < r.1.len() {
                assert(cur.1[i1] == r2.1[0] && cur.1[i2] == r.1[i2]);
                let k0 = choose|k: int|
                    0 <= k < n - 1 && spec_decode(r.1[i2]->SendMessage_bytes) == Some(
                        (#[trigger] coll[k]).1,
                    );
                assert(spec_decode(cur.1[i1]->SendMessage_bytes) == Some(coll[n - 1].1));
                if spec_decode(cur.1[i1]->SendMessage_bytes) == spec_decode(
                    cur.1[i2]->SendMessage_bytes,
                ) {
                    assert(coll[k0].1 == coll[n - 1].1);
                    assert(k0 == n - 1);
                    assert(false);
                }
            } else {
                assert(i1 - r.1.len() == 0 && i2 - r.1.len() == 0);
                assert(false);
            }
        }
    }
}

/// No transition sends the same validator's bitfield for the same
/// relay parent to the same peer twice: any two acts of sending within
/// one transition's actions that agree on peer, relay parent and
/// validator index are the same act.
pub proof fn lemma_no_duplicate_send_within_step(
    t: TrackerModel,
    s: StepModel,
    i1: int,
    j1: int,
    i2: int,
    j2: int,
    p: PeerId,
    rp: Seq<u8>,
    vi: u32,
)
    requires
        inv(t),
        step_input_wf(s),
        send_occurrence(step(t, s).1, i1, j1, p, rp, vi),
        send_occurrence(step(t, s).1, i2, j2, p, rp, vi),
    ensures
        i1 == i2,
        j1 == j2,
{
    let acts = step(t, s).1;
    let post = step(t, s).0;
    match s {
        StepModel::StartWork { relay_parent, validator_set, signing_context } => {
            assert(false);
        },
        StepModel::StopWork { relay_parent } => {
            assert(false);
        },
        StepModel::Conclude => {
            assert(false);
        },
        StepModel::DistributeBitfield { relay_parent, signed } => {
            if crate::engine::distribute_err(t, relay_parent, signed) is Some {
                assert(false);
            } else {
                let e = al_get(t.per_relay_parent, relay_parent)->Some_0;
                let v = e.validator_set[signed.validator_index as int];
                let m = MsgModel { relay_parent, signed };
                if al_contains(e.one_per_validator, v) {
                    assert(false);
                } else {
                    lemma_accepted_relay_one_send(t, v, m, e, acts, i1, j1, i2, j2, p);
                }
            }
        },
        StepModel::PeerConnected { peer } => {
            assert(false);
        },
        StepModel::PeerDisconnected { peer } => {
            assert(false);
        },
        StepModel::PeerViewChange { peer, new_view } => {
            lemma_al_set_unique(t.peer_views, peer, new_view);
            let t1 = TrackerModel { peer_views: al_set(t.peer_views, peer, new_view), ..t };
            assert(inv(t1));
            let old_view = match al_get(t.peer_views, peer) {
                Some(w) => w,
                None => Seq::<Seq<u8>>::empty(),
            };
            let delta = crate::engine::view_delta_upto(new_view, old_view, new_view.len() as int);
            let coll = crate::engine::collect_upto(t1, peer, delta, delta.len() as int);
            lemma_collect_rich(t1, peer, delta, delta.len() as int);
            lemma_send_collected_shape(t1, peer, coll, coll.len() as int);
            assert(j1 == 0 && j2 == 0);
            assert forall|k1: int, k2: int|
                0 <= k1 < coll.len() && 0 <= k2 < coll.len() && (#[trigger] coll[k1]).1 == (
                #[trigger] coll[k2]).1 implies k1 == k2 by {
                if coll[k1].1 == coll[k2].1 && k1 != k2 {
                    let mrp = coll[k1].1.relay_parent;
                    let e3 = al_get(t1.per_relay_parent, mrp)->Some_0;
                    assert(coll[k1].0 == e3.validator_set[coll[k1].1.signed.validator_index as int]);
                    assert(coll[k2].0 == e3.validator_set[coll[k2].1.signed.validator_index as int]);
                    assert(coll[k1].0 == coll[k2].0);
                    assert(false);
                }
            }
            lemma_send_collected_no_dup(t1, peer, coll, coll.len() as int);
            if i1 != i2 {
                assert(spec_decode(acts[i1]->SendMessage_bytes) != spec_decode(
                    acts[i2]->SendMessage_bytes,
                ));
                let ka = choose|k: int|
                    0 <= k < coll.len() && spec_decode(acts[i1]->SendMessage_bytes) == Some(
                        (#[trigger] coll[k]).1,
                    );
                let kb = choose|k: int|
                    0 <= k < coll.len() && spec_decode(acts[i2]->SendMessage_bytes) == Some(
                        (#[trigger] coll[k]).1,
                    );
                let ma = coll[ka].1;
                let mb = coll[kb].1;
                assert(ma.relay_parent == rp && mb.relay_parent == rp);
                assert(ma.signed.validator_index == vi && mb.signed.validator_index == vi);
                let e3 = al_get(t1.per_relay_parent, rp)->Some_0;
                assert(coll[ka].0 == e3.validator_set[vi as int]);
                assert(coll[kb].0 == e3.validator_set[vi as int]);
                assert(ka == kb);
                assert(false);
            }
        },
        StepModel::OurViewChange { new_view } => {
            assert(false);
        },
        StepModel::PeerMessage { peer, bytes } => {
            match spec_decode(bytes) {
                None => {
                    assert(acts[0] is ReportPeer);
                    assert(false);
                },
                Some(m) => {
                    lemma_decode_wf(bytes);
                    if !t.our_view.contains(m.relay_parent) {
                        assert(acts[0] is ReportPeer);
                        assert(false);
                    } else {
                        match al_get(t.per_relay_parent, m.relay_parent) {
                            None => {
                                assert(acts[0] is ReportPeer);
                                assert(false);
                            },
                            Some(e) => {
                                if e.validator_set.len() == 0 {
                                    assert(acts[0] is ReportPeer);
                                    assert(false);
                                } else if m.signed.validator_index as int
                                    >= e.validator_set.len() {
                                    assert(acts[0] is ReportPeer);
                                    assert(false);
                                } else {
                                    let v = e.validator_set[m.signed.validator_index as int];
                                    if !sig_valid(
                                        ctx_bytes(e.signing_context),
                                        m.signed.payload,
                                        v,
                                        m.signed.signature,
                                    ) {
                                        assert(acts[0] is ReportPeer);
                                        assert(false);
                                    } else if al_contains(e.one_per_validator, v) {
                                        assert(acts[0] is ReportPeer);
                                        assert(false);
                                    } else {
                                        lemma_accepted_relay_one_send(
                                            t,
                                            v,
                                            m,
                                            e,
                                            acts,
                                            i1,
                                            j1,
                                            i2,
                                            j2,
                                            p,
                                        );
                                    }
                                }
                            },
                        }
                    }
                },
            }
        },
    }
}

/// An accepted bitfield is fanned out in one single send whose
/// recipient list never repeats a peer.
proof fn lemma_accepted_relay_one_send(
    t: TrackerModel,
    v: Seq<u8>,
    m: MsgModel,
    e: RpModel,
    acts: Seq<ActionModel>,
    i1: int,
    j1: int,
    i2: int,
    j2: int,
    p: PeerId,
)
    requires
        inv(t),
        al_get(t.per_relay_parent, m.relay_parent) == Some(e),
        ({
            let t1 = TrackerModel {
                per_relay_parent: al_set(
                    t.per_relay_parent,
                    m.relay_parent,
                    RpModel { one_per_validator: e.one_per_validator.push((v, m)), ..e },
                ),
                ..t
            };
            let r = step_relay(t1, v, m);
            acts == r.1 || acts == r.1 + report(
                acts.last()->ReportPeer_peer,
                ReputationChange::GainValidMessage,
            )
        }),
        0 <= i1 < acts.len() && acts[i1] is SendMessage,
        0 <= j1 < acts[i1]->SendMessage_peers.len() && acts[i1]->SendMessage_peers[j1] == p,
        0 <= i2 < acts.len() && acts[i2] is SendMessage,
        0 <= j2 < acts[i2]->SendMessage_peers.len() && acts[i2]->SendMessage_peers[j2] == p,
    ensures
        i1 == i2,
        j1 == j2,
{
    let e1 = RpModel { one_per_validator: e.one_per_validator.push((v, m)), ..e };
    let t1 = TrackerModel {
        per_relay_parent: al_set(t.per_relay_parent, m.relay_parent, e1),
        ..t
    };
    let r = step_relay(t1, v, m);
    let peers0 = interested_peers(t1.peer_views, m.relay_parent);
    assert(acts[0] is ProvisionBitfield);
    assert(i1 == 1 && i2 == 1);
    assert(acts[1]->SendMessage_peers == peers0);
    lemma_interested_distinct(t.peer_views, m.relay_parent, t.peer_views.len() as int);
    if j1 != j2 {
        assert(peers0[j1] != peers0[j2]);
        assert(false);
    }
}

} // verus!
