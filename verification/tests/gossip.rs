use bitfield_distribution::engine::conclude;
use bitfield_distribution::engine::handle_distribute;
use bitfield_distribution::engine::handle_network_msg;
use bitfield_distribution::engine::start_work;
use bitfield_distribution::engine::stop_work;
use bitfield_distribution::engine::DistributeError;
use bitfield_distribution::engine::NetworkBridgeEvent;
use bitfield_distribution::primitives::Action;
use bitfield_distribution::primitives::BitfieldGossipMessage;
use bitfield_distribution::primitives::NodeView;
use bitfield_distribution::primitives::PeerId;
use bitfield_distribution::primitives::ReputationChange;
use bitfield_distribution::primitives::SignedAvailabilityBitfield;
use bitfield_distribution::primitives::SigningContext;
use bitfield_distribution::primitives::ValidatorId;
use bitfield_distribution::tracker::PerRelayParentData;
use bitfield_distribution::tracker::Tracker;
use bitfield_distribution::BitfieldDistribution;

fn mk_hash(b: u8) -> bitfield_distribution::primitives::Hash {
    bitfield_distribution::primitives::Hash::repeat(b)
}

fn keypair(seed: u8) -> schnorrkel::Keypair {
    schnorrkel::MiniSecretKey::from_bytes(&[seed; 32])
        .expect("32 bytes are a valid mini secret key")
        .expand_to_keypair(schnorrkel::ExpansionMode::Uniform)
}

fn validator_of(pair: &schnorrkel::Keypair) -> ValidatorId {
    ValidatorId::new(pair.public.to_bytes().to_vec()).expect("public keys are 32 bytes")
}

/// The bytes the library mixes into every signature for a signing
/// context: the session index, little-endian, then the parent hash.
fn ctx_bytes_of(ctx: &SigningContext) -> Vec<u8> {
    let mut out = ctx.session_index.to_le_bytes().to_vec();
    out.extend_from_slice(&ctx.parent_hash.bytes);
    out
}

fn sign_bitfield(
    pair: &schnorrkel::Keypair,
    ctx: &SigningContext,
    payload: Vec<u8>,
    validator_index: u32,
) -> SignedAvailabilityBitfield {
    let sig = pair.sign_simple(&ctx_bytes_of(ctx), &payload).to_bytes().to_vec();
    SignedAvailabilityBitfield::new(payload, validator_index, sig)
        .expect("signature is 64 bytes and payload small")
}

fn payload_ones() -> Vec<u8> {
    vec![0xFF; 4]
}

/// A very limited tracker, only interested in the relay parent of the
/// given message, which must be signed by `validator`, and a set of
/// peers which are also only interested in that relay parent.
fn prewarmed_tracker(
    validator: ValidatorId,
    signing_context: SigningContext,
    known_message: BitfieldGossipMessage,
    peers: Vec<PeerId>,
) -> Tracker {
    let relay_parent = known_message.relay_parent.duplicate();
    Tracker {
        per_relay_parent: vec![(
            relay_parent.duplicate(),
            PerRelayParentData {
                signing_context,
                validator_set: vec![validator.duplicate()],
                one_per_validator: vec![(validator, known_message)],
                message_sent_to_peer: Vec::new(),
            },
        )],
        peer_views: peers
            .into_iter()
            .map(|peer| (peer, NodeView::new(vec![relay_parent.duplicate()])))
            .collect(),
        our_view: NodeView::new(vec![relay_parent]),
    }
}

fn expect_single_report(actions: &[Action], peer: PeerId, rep: ReputationChange) {
    assert_eq!(actions.len(), 1);
    match &actions[0] {
        Action::ReportPeer { peer: p, rep: r } => {
            assert_eq!(*p, peer);
            assert_eq!(*r, rep);
        }
        _ => panic!("Received unexpected message type."),
    }
}

#[test]
fn receive_invalid_signature() {
    let hash_a = mk_hash(0);

    let peer_a = PeerId::new(1);
    let peer_b = PeerId::new(2);
    assert_ne!(peer_a, peer_b);

    let signing_context = SigningContext { session_index: 1, parent_hash: hash_a.duplicate() };

    // validator 0 key pair
    let validator_pair = keypair(7);
    let validator = validator_of(&validator_pair);

    // another validator not part of the validator set
    let mallicious = keypair(9);

    let signed = sign_bitfield(&mallicious, &signing_context, payload_ones(), 0);
    let msg = BitfieldGossipMessage {
        relay_parent: hash_a.duplicate(),
        signed_availability: signed,
    };

    let mut tracker = prewarmed_tracker(
        validator,
        signing_context.duplicate(),
        msg.duplicate(),
        vec![peer_b],
    );

    let actions = handle_network_msg(
        &mut tracker,
        NetworkBridgeEvent::PeerMessage(peer_b, msg.encode()),
    );

    // we should have a reputation change due to invalid signature
    expect_single_report(&actions, peer_b, ReputationChange::CostSignatureInvalid);
    assert_eq!(ReputationChange::CostSignatureInvalid.value(), -100);
}

#[test]
fn receive_invalid_validator_index() {
    let hash_a = mk_hash(0);

    let peer_a = PeerId::new(1);
    let peer_b = PeerId::new(2);
    assert_ne!(peer_a, peer_b);

    let signing_context = SigningContext { session_index: 1, parent_hash: hash_a.duplicate() };

    // validator 0 key pair
    let validator_pair = keypair(7);
    let validator = validator_of(&validator_pair);

    let signed = sign_bitfield(&validator_pair, &signing_context, payload_ones(), 42);
    let msg = BitfieldGossipMessage {
        relay_parent: hash_a.duplicate(),
        signed_availability: signed,
    };

    let mut tracker = prewarmed_tracker(
        validator,
        signing_context.duplicate(),
        msg.duplicate(),
        vec![peer_b],
    );

    let actions = handle_network_msg(
        &mut tracker,
        NetworkBridgeEvent::PeerMessage(peer_b, msg.encode()),
    );

    expect_single_report(&actions, peer_b, ReputationChange::CostValidatorIndexInvalid);
    assert_eq!(ReputationChange::CostValidatorIndexInvalid.value(), -100);
}

#[test]
fn duplicate_message() {
    let hash_a = mk_hash(0);

    let peer_a = PeerId::new(1);
    let peer_b = PeerId::new(2);
    assert_ne!(peer_a, peer_b);

    let signing_context = SigningContext { session_index: 1, parent_hash: hash_a.duplicate() };

    // validator 0 key pair
    let validator_pair = keypair(7);
    let validator = validator_of(&validator_pair);

    let signed = sign_bitfield(&validator_pair, &signing_context, payload_ones(), 42);
    let msg = BitfieldGossipMessage {
        relay_parent: hash_a.duplicate(),
        signed_availability: signed,
    };

    let mut tracker = prewarmed_tracker(
        validator,
        signing_context.duplicate(),
        msg.duplicate(),
        vec![peer_b],
    );

    let actions = handle_network_msg(
        &mut tracker,
        NetworkBridgeEvent::PeerMessage(peer_b, msg.encode()),
    );
    expect_single_report(&actions, peer_b, ReputationChange::CostValidatorIndexInvalid);

    let actions = handle_network_msg(
        &mut tracker,
        NetworkBridgeEvent::PeerMessage(peer_b, msg.encode()),
    );
    expect_single_report(&actions, peer_b, ReputationChange::CostValidatorIndexInvalid);
}

#[test]
fn encode_decode_round_trip() {
    let hash_a = mk_hash(3);
    let signing_context = SigningContext { session_index: 5, parent_hash: hash_a.duplicate() };
    let pair = keypair(11);
    let signed = sign_bitfield(&pair, &signing_context, vec![0xAB, 0, 0xCD], 17);
    let msg = BitfieldGossipMessage { relay_parent: hash_a, signed_availability: signed };

    let bytes = msg.encode();
    let back = BitfieldGossipMessage::decode(&bytes).expect("round trip decodes");
    assert_eq!(back.relay_parent.bytes, msg.relay_parent.bytes);
    assert_eq!(back.signed_availability.payload, msg.signed_availability.payload);
    assert_eq!(back.signed_availability.validator_index(), 17);
    assert_eq!(back.signed_availability.signature, msg.signed_availability.signature);

    // trailing garbage is rejected
    let mut longer = msg.encode();
    longer.push(0);
    assert!(BitfieldGossipMessage::decode(&longer).is_none());

    // short input is rejected
    assert!(BitfieldGossipMessage::decode(&vec![1, 2, 3]).is_none());
}

#[test]
fn undecodable_bytes_are_reported() {
    let hash_a = mk_hash(0);
    let peer = PeerId::new(4);
    let signing_context = SigningContext { session_index: 1, parent_hash: hash_a.duplicate() };
    let pair = keypair(7);
    let validator = validator_of(&pair);
    let signed = sign_bitfield(&pair, &signing_context, payload_ones(), 0);
    let msg = BitfieldGossipMessage {
        relay_parent: hash_a.duplicate(),
        signed_availability: signed,
    };
    let mut tracker = prewarmed_tracker(validator, signing_context, msg, vec![peer]);

    let actions = handle_network_msg(
        &mut tracker,
        NetworkBridgeEvent::PeerMessage(peer, vec![1, 2, 3]),
    );
    expect_single_report(&actions, peer, ReputationChange::CostMessageNotDecodable);
    assert_eq!(ReputationChange::CostMessageNotDecodable.value(), -100);
}

#[test]
fn not_interested_in_other_relay_parent() {
    let hash_a = mk_hash(0);
    let hash_b = mk_hash(1); // other
    let peer = PeerId::new(4);
    let signing_context = SigningContext { session_index: 1, parent_hash: hash_a.duplicate() };
    let pair = keypair(7);
    let validator = validator_of(&pair);
    let known = BitfieldGossipMessage {
        relay_parent: hash_a.duplicate(),
        signed_availability: sign_bitfield(&pair, &signing_context, payload_ones(), 0),
    };
    let mut tracker = prewarmed_tracker(validator, signing_context.duplicate(), known, vec![peer]);

    // the same payload, but relative to a relay parent outside our view
    let stray = BitfieldGossipMessage {
        relay_parent: hash_b,
        signed_availability: sign_bitfield(&pair, &signing_context, payload_ones(), 0),
    };
    let actions = handle_network_msg(
        &mut tracker,
        NetworkBridgeEvent::PeerMessage(peer, stray.encode()),
    );
    expect_single_report(&actions, peer, ReputationChange::CostNotInterested);
    assert_eq!(ReputationChange::CostNotInterested.value(), -51);
}

#[test]
fn missing_session_key_is_reported() {
    let hash_a = mk_hash(0);
    let peer = PeerId::new(4);
    let signing_context = SigningContext { session_index: 1, parent_hash: hash_a.duplicate() };
    let pair = keypair(7);
    let signed = sign_bitfield(&pair, &signing_context, payload_ones(), 0);
    let msg = BitfieldGossipMessage {
        relay_parent: hash_a.duplicate(),
        signed_availability: signed,
    };

    // entry present, but with an empty validator set
    let mut tracker = Tracker {
        per_relay_parent: vec![(
            hash_a.duplicate(),
            PerRelayParentData {
                signing_context,
                validator_set: Vec::new(),
                one_per_validator: Vec::new(),
                message_sent_to_peer: Vec::new(),
            },
        )],
        peer_views: vec![(peer, NodeView::new(vec![hash_a.duplicate()]))],
        our_view: NodeView::new(vec![hash_a]),
    };

    let actions = handle_network_msg(
        &mut tracker,
        NetworkBridgeEvent::PeerMessage(peer, msg.encode()),
    );
    expect_single_report(&actions, peer, ReputationChange::CostMissingPeerSessionKey);
    assert_eq!(ReputationChange::CostMissingPeerSessionKey.value(), -133);
}

fn fresh_tracker_for(
    hash: &bitfield_distribution::primitives::Hash,
    signing_context: SigningContext,
    validator: ValidatorId,
    peer_views: Vec<(PeerId, NodeView)>,
) -> Tracker {
    Tracker {
        per_relay_parent: vec![(
            hash.duplicate(),
            PerRelayParentData {
                signing_context,
                validator_set: vec![validator],
                one_per_validator: Vec::new(),
                message_sent_to_peer: Vec::new(),
            },
        )],
        peer_views,
        our_view: NodeView::new(vec![hash.duplicate()]),
    }
}

#[test]
fn accept_valid_message_provisions_and_fans_out() {
    let hash_a = mk_hash(0);
    let peer = PeerId::new(4);
    let signing_context = SigningContext { session_index: 1, parent_hash: hash_a.duplicate() };
    let pair = keypair(7);
    let validator = validator_of(&pair);
    let signed = sign_bitfield(&pair, &signing_context, payload_ones(), 0);
    let msg = BitfieldGossipMessage {
        relay_parent: hash_a.duplicate(),
        signed_availability: signed,
    };
    let mut tracker = fresh_tracker_for(
        &hash_a,
        signing_context,
        validator.duplicate(),
        vec![(peer, NodeView::new(vec![hash_a.duplicate()]))],
    );

    let actions = handle_network_msg(
        &mut tracker,
        NetworkBridgeEvent::PeerMessage(peer, msg.encode()),
    );
    assert_eq!(actions.len(), 3);
    match &actions[0] {
        Action::ProvisionBitfield { relay_parent, signed } => {
            assert_eq!(relay_parent.bytes, hash_a.bytes);
            assert_eq!(signed.payload, payload_ones());
        }
        _ => panic!("Received unexpected message type."),
    }
    match &actions[1] {
        Action::SendMessage { peers, protocol, bytes } => {
            assert_eq!(peers, &vec![peer]);
            assert_eq!(protocol, &BitfieldDistribution::protocol_id());
            assert_eq!(protocol, &b"bitd".to_vec());
            assert_eq!(bytes, &msg.encode());
        }
        _ => panic!("Received unexpected message type."),
    }
    match &actions[2] {
        Action::ReportPeer { peer: p, rep } => {
            assert_eq!(*p, peer);
            assert_eq!(*rep, ReputationChange::GainValidMessage);
            assert_eq!(rep.value(), 5);
        }
        _ => panic!("Received unexpected message type."),
    }

    // the fan-out was tracked
    let sent = &tracker.per_relay_parent[0].1.message_sent_to_peer;
    assert_eq!(sent.len(), 1);
    assert_eq!(sent[0].0, peer);
    assert_eq!(sent[0].1.len(), 1);
    assert_eq!(sent[0].1[0].bytes, validator.bytes);
}

#[test]
fn second_delivery_is_silent_on_the_wire_but_reputed() {
    let hash_a = mk_hash(0);
    let peer = PeerId::new(4);
    let signing_context = SigningContext { session_index: 1, parent_hash: hash_a.duplicate() };
    let pair = keypair(7);
    let validator = validator_of(&pair);
    let signed = sign_bitfield(&pair, &signing_context, payload_ones(), 0);
    let msg = BitfieldGossipMessage {
        relay_parent: hash_a.duplicate(),
        signed_availability: signed,
    };
    let mut tracker = fresh_tracker_for(
        &hash_a,
        signing_context,
        validator,
        vec![(peer, NodeView::new(vec![hash_a.duplicate()]))],
    );

    let first = handle_network_msg(
        &mut tracker,
        NetworkBridgeEvent::PeerMessage(peer, msg.encode()),
    );
    assert_eq!(first.len(), 3);

    // the second delivery yields no provisioner delivery and no send,
    // but is still positively reputed
    let second = handle_network_msg(
        &mut tracker,
        NetworkBridgeEvent::PeerMessage(peer, msg.encode()),
    );
    expect_single_report(&second, peer, ReputationChange::GainValidMessage);
}

#[test]
fn fan_out_reaches_only_interested_peers() {
    let hash_a = mk_hash(0);
    let hash_b = mk_hash(1);
    let peer_1 = PeerId::new(1);
    let peer_2 = PeerId::new(2);
    let signing_context = SigningContext { session_index: 1, parent_hash: hash_a.duplicate() };
    let pair = keypair(7);
    let validator = validator_of(&pair);
    let signed = sign_bitfield(&pair, &signing_context, payload_ones(), 0);
    let mut tracker = fresh_tracker_for(
        &hash_a,
        signing_context,
        validator.duplicate(),
        vec![
            (peer_1, NodeView::new(vec![hash_a.duplicate()])),
            (peer_2, NodeView::new(vec![hash_b.duplicate()])),
        ],
    );

    let actions =
        handle_distribute(&mut tracker, &hash_a, &signed).expect("relay parent is active");
    assert_eq!(actions.len(), 2);
    match &actions[0] {
        Action::ProvisionBitfield { relay_parent, .. } => {
            assert_eq!(relay_parent.bytes, hash_a.bytes);
        }
        _ => panic!("Received unexpected message type."),
    }
    match &actions[1] {
        Action::SendMessage { peers, protocol, .. } => {
            assert_eq!(peers, &vec![peer_1]);
            assert_eq!(protocol, &b"bitd".to_vec());
        }
        _ => panic!("Received unexpected message type."),
    }
    let sent = &tracker.per_relay_parent[0].1.message_sent_to_peer;
    assert_eq!(sent.len(), 1);
    assert_eq!(sent[0].0, peer_1);
    assert_eq!(sent[0].1[0].bytes, validator.bytes);
}

#[test]
fn catch_up_sends_what_the_peer_now_needs() {
    let hash_a = mk_hash(0);
    let hash_b = mk_hash(1);
    let peer_1 = PeerId::new(1);
    let peer_2 = PeerId::new(2);
    let signing_context = SigningContext { session_index: 1, parent_hash: hash_a.duplicate() };
    let pair = keypair(7);
    let validator = validator_of(&pair);
    let signed = sign_bitfield(&pair, &signing_context, payload_ones(), 0);
    let msg = BitfieldGossipMessage {
        relay_parent: hash_a.duplicate(),
        signed_availability: signed.duplicate(),
    };
    let mut tracker = fresh_tracker_for(
        &hash_a,
        signing_context,
        validator.duplicate(),
        vec![
            (peer_1, NodeView::new(vec![hash_a.duplicate()])),
            (peer_2, NodeView::new(vec![hash_b.duplicate()])),
        ],
    );
    handle_distribute(&mut tracker, &hash_a, &signed).expect("relay parent is active");

    // the second peer becomes interested in the relay parent
    let actions = handle_network_msg(
        &mut tracker,
        NetworkBridgeEvent::PeerViewChange(peer_2, NodeView::new(vec![hash_a.duplicate()])),
    );
    assert_eq!(actions.len(), 1);
    match &actions[0] {
        Action::SendMessage { peers, protocol, bytes } => {
            assert_eq!(peers, &vec![peer_2]);
            assert_eq!(protocol, &b"bitd".to_vec());
            assert_eq!(bytes, &msg.encode());
        }
        _ => panic!("Received unexpected message type."),
    }

    // the send was tracked and the view replaced
    let sent = &tracker.per_relay_parent[0].1.message_sent_to_peer;
    assert_eq!(sent.len(), 2);
    assert_eq!(sent[1].0, peer_2);
    assert_eq!(sent[1].1[0].bytes, validator.bytes);
    let views = &tracker.peer_views;
    assert_eq!(views[1].0, peer_2);
    assert_eq!(views[1].1.heads.len(), 1);
    assert_eq!(views[1].1.heads[0].bytes, hash_a.bytes);

    // a second identical view change sends nothing more
    let again = handle_network_msg(
        &mut tracker,
        NetworkBridgeEvent::PeerViewChange(peer_2, NodeView::new(vec![hash_a.duplicate()])),
    );
    assert!(again.is_empty());
}

#[test]
fn conclude_clears_the_tracker() {
    let hash_a = mk_hash(0);
    let peer = PeerId::new(4);
    let signing_context = SigningContext { session_index: 1, parent_hash: hash_a.duplicate() };
    let pair = keypair(7);
    let validator = validator_of(&pair);
    let known = BitfieldGossipMessage {
        relay_parent: hash_a.duplicate(),
        signed_availability: sign_bitfield(&pair, &signing_context, payload_ones(), 0),
    };
    let mut tracker = prewarmed_tracker(validator, signing_context, known, vec![peer]);

    conclude(&mut tracker);
    assert!(tracker.per_relay_parent.is_empty());
    assert!(tracker.peer_views.is_empty());
    assert!(tracker.our_view.heads.is_empty());
}

#[test]
fn start_and_stop_work_manage_entries() {
    let hash_a = mk_hash(0);
    let pair = keypair(7);
    let validator = validator_of(&pair);
    let signing_context = SigningContext { session_index: 1, parent_hash: hash_a.duplicate() };

    let mut tracker = Tracker::new();
    start_work(
        &mut tracker,
        hash_a.duplicate(),
        vec![validator],
        signing_context.duplicate(),
    );
    assert_eq!(tracker.per_relay_parent.len(), 1);
    assert_eq!(tracker.per_relay_parent[0].0.bytes, hash_a.bytes);
    assert_eq!(tracker.per_relay_parent[0].1.validator_set.len(), 1);
    assert!(tracker.per_relay_parent[0].1.one_per_validator.is_empty());

    // a second start for the same relay parent replaces the entry
    start_work(&mut tracker, hash_a.duplicate(), Vec::new(), signing_context);
    assert_eq!(tracker.per_relay_parent.len(), 1);
    assert!(tracker.per_relay_parent[0].1.validator_set.is_empty());

    stop_work(&mut tracker, &hash_a);
    assert!(tracker.per_relay_parent.is_empty());
}

#[test]
fn peer_lifecycle_tracks_views() {
    let hash_a = mk_hash(0);
    let peer = PeerId::new(4);
    let mut tracker = Tracker::new();

    let actions = handle_network_msg(&mut tracker, NetworkBridgeEvent::PeerConnected(peer));
    assert!(actions.is_empty());
    assert_eq!(tracker.peer_views.len(), 1);
    assert!(tracker.peer_views[0].1.heads.is_empty());

    // a view change installs the peer's view
    handle_network_msg(
        &mut tracker,
        NetworkBridgeEvent::PeerViewChange(peer, NodeView::new(vec![hash_a.duplicate()])),
    );
    assert_eq!(tracker.peer_views[0].1.heads.len(), 1);

    // reconnecting never overwrites a known view
    handle_network_msg(&mut tracker, NetworkBridgeEvent::PeerConnected(peer));
    assert_eq!(tracker.peer_views.len(), 1);
    assert_eq!(tracker.peer_views[0].1.heads.len(), 1);

    handle_network_msg(&mut tracker, NetworkBridgeEvent::PeerDisconnected(peer));
    assert!(tracker.peer_views.is_empty());

    let actions = handle_network_msg(
        &mut tracker,
        NetworkBridgeEvent::OurViewChange(NodeView::new(vec![hash_a.duplicate()])),
    );
    assert!(actions.is_empty());
    assert_eq!(tracker.our_view.heads.len(), 1);
    assert_eq!(tracker.our_view.heads[0].bytes, hash_a.bytes);
}

#[test]
fn distribute_rejects_broken_orchestrator_contracts() {
    let hash_a = mk_hash(0);
    let hash_b = mk_hash(1);
    let signing_context = SigningContext { session_index: 1, parent_hash: hash_a.duplicate() };
    let pair = keypair(7);
    let validator = validator_of(&pair);
    let signed = sign_bitfield(&pair, &signing_context, payload_ones(), 0);
    let mut tracker = fresh_tracker_for(&hash_a, signing_context.duplicate(), validator, vec![]);

    // unknown relay parent
    assert!(matches!(
        handle_distribute(&mut tracker, &hash_b, &signed),
        Err(DistributeError::UnknownRelayParent)
    ));

    // index out of range for the validator set
    let bad_index = sign_bitfield(&pair, &signing_context, payload_ones(), 3);
    assert!(matches!(
        handle_distribute(&mut tracker, &hash_a, &bad_index),
        Err(DistributeError::InvalidValidatorIndex)
    ));

    // a signature by a key outside the validator set
    let other = keypair(9);
    let bad_sig = sign_bitfield(&other, &signing_context, payload_ones(), 0);
    assert!(matches!(
        handle_distribute(&mut tracker, &hash_a, &bad_sig),
        Err(DistributeError::InvalidSignature)
    ));

    // the tracker did not move
    assert!(tracker.per_relay_parent[0].1.one_per_validator.is_empty());
}

#[test]
fn reputation_table_is_normative() {
    assert_eq!(ReputationChange::CostSignatureInvalid.value(), -100);
    assert_eq!(ReputationChange::CostValidatorIndexInvalid.value(), -100);
    assert_eq!(ReputationChange::CostMissingPeerSessionKey.value(), -133);
    assert_eq!(ReputationChange::CostNotInterested.value(), -51);
    assert_eq!(ReputationChange::CostMessageNotDecodable.value(), -100);
    assert_eq!(ReputationChange::GainValidMessageFirst.value(), 15);
    assert_eq!(ReputationChange::GainValidMessage.value(), 5);
}

#[test]
fn signature_check_accepts_only_the_right_key() {
    let hash_a = mk_hash(0);
    let signing_context = SigningContext { session_index: 1, parent_hash: hash_a.duplicate() };
    let pair = keypair(7);
    let validator = validator_of(&pair);
    let signed = sign_bitfield(&pair, &signing_context, payload_ones(), 0);
    assert!(signed.check_signature(&signing_context, &validator));

    // a different session context must not verify
    let other_ctx = SigningContext { session_index: 2, parent_hash: hash_a.duplicate() };
    assert!(!signed.check_signature(&other_ctx, &validator));

    // a different key must not verify
    let other = validator_of(&keypair(9));
    assert!(!signed.check_signature(&signing_context, &other));

    // a tampered signature must not verify
    let mut sig = signed.signature.clone();
    sig[0] ^= 1;
    let tampered =
        SignedAvailabilityBitfield::new(signed.payload.clone(), 0, sig).expect("still 64 bytes");
    assert!(!tampered.check_signature(&signing_context, &validator));
}

#[test]
fn view_change_of_unknown_peer_installs_view_and_catches_up() {
    let hash_a = mk_hash(0);
    let newcomer = PeerId::new(9);
    let signing_context = SigningContext { session_index: 1, parent_hash: hash_a.duplicate() };
    let pair = keypair(7);
    let validator = validator_of(&pair);
    let known = BitfieldGossipMessage {
        relay_parent: hash_a.duplicate(),
        signed_availability: sign_bitfield(&pair, &signing_context, payload_ones(), 0),
    };
    // a bitfield is already known, and no peer is connected
    let mut tracker = prewarmed_tracker(validator, signing_context, known.duplicate(), vec![]);

    let actions = handle_network_msg(
        &mut tracker,
        NetworkBridgeEvent::PeerViewChange(newcomer, NodeView::new(vec![hash_a.duplicate()])),
    );
    // the newcomer has no sent-set entry: nothing was sent, hence it
    // needs the known bitfield
    assert_eq!(actions.len(), 1);
    match &actions[0] {
        Action::SendMessage { peers, protocol, bytes } => {
            assert_eq!(peers, &vec![newcomer]);
            assert_eq!(protocol, &b"bitd".to_vec());
            assert_eq!(bytes, &known.encode());
        }
        _ => panic!("Received unexpected message type."),
    }
    assert_eq!(tracker.peer_views.len(), 1);
    assert_eq!(tracker.peer_views[0].0, newcomer);
}
