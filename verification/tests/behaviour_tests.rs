use floodsub::behaviour::FloodsubBehaviour;
use floodsub::types::{Action, Envelope, Message, PeerId, SubscriptionAction, Topic, TopicHash};

fn peer(name: &[u8]) -> PeerId {
    PeerId { bytes: name.to_vec() }
}

fn hash(name: &[u8]) -> TopicHash {
    TopicHash { bytes: name.to_vec() }
}

fn topic(name: &[u8]) -> Topic {
    Topic { hash: hash(name) }
}

fn message(source: &PeerId, seq: &[u8], data: &[u8], topics: &[&TopicHash]) -> Message {
    Message {
        source: source.clone(),
        data: data.to_vec(),
        sequence_number: seq.to_vec(),
        topics: topics.iter().map(|t| (*t).clone()).collect(),
    }
}

fn drain(b: &mut FloodsubBehaviour) -> Vec<Action> {
    let mut out = Vec::new();
    while let Some(a) = b.poll() {
        out.push(a);
    }
    out
}

fn set_peer_topics(b: &mut FloodsubBehaviour, peer_id: &PeerId, topics: &[&TopicHash]) {
    for entry in b.connected_peers.iter_mut() {
        if entry.id.bytes == peer_id.bytes {
            entry.topics = topics.iter().map(|t| (*t).clone()).collect();
            return;
        }
    }
    panic!("peer not registered");
}

#[test]
fn subscribe_new_topic_announces_to_each_peer() {
    let mut b = FloodsubBehaviour::new(peer(b"me"));
    b.inject_connected(peer(b"p1"));
    b.inject_connected(peer(b"p2"));
    assert!(drain(&mut b).is_empty());

    assert!(b.subscribe(topic(b"news")));
    let actions = drain(&mut b);
    assert_eq!(actions.len(), 2);
    let expected_peers = [b"p1".to_vec(), b"p2".to_vec()];
    for (a, want) in actions.iter().zip(expected_peers.iter()) {
        match a {
            Action::SendEnvelope { peer_id, envelope } => {
                assert_eq!(&peer_id.bytes, want);
                assert_eq!(envelope.messages.len(), 0);
                assert_eq!(envelope.subscriptions.len(), 1);
                assert_eq!(envelope.subscriptions[0].topic.bytes, b"news".to_vec());
                assert!(matches!(
                    envelope.subscriptions[0].action,
                    SubscriptionAction::Subscribe
                ));
            }
            _ => panic!("expected a SendEnvelope"),
        }
    }
}

#[test]
fn subscribe_twice_returns_false_and_enqueues_nothing() {
    let mut b = FloodsubBehaviour::new(peer(b"me"));
    b.inject_connected(peer(b"p1"));
    assert!(b.subscribe(topic(b"news")));
    drain(&mut b);
    assert!(!b.subscribe(topic(b"news")));
    assert!(drain(&mut b).is_empty());
}

#[test]
fn unsubscribe_announces_when_subscribed() {
    let mut b = FloodsubBehaviour::new(peer(b"me"));
    b.inject_connected(peer(b"p1"));
    assert!(b.subscribe(topic(b"news")));
    drain(&mut b);
    assert!(b.unsubscribe(&hash(b"news")));
    let actions = drain(&mut b);
    assert_eq!(actions.len(), 1);
    match &actions[0] {
        Action::SendEnvelope { peer_id, envelope } => {
            assert_eq!(peer_id.bytes, b"p1".to_vec());
            assert_eq!(envelope.subscriptions.len(), 1);
            assert!(matches!(
                envelope.subscriptions[0].action,
                SubscriptionAction::Unsubscribe
            ));
        }
        _ => panic!("expected a SendEnvelope"),
    }
    assert!(!b.unsubscribe(&hash(b"news")));
    assert!(drain(&mut b).is_empty());
}

#[test]
fn peer_connected_bootstraps_with_subscriptions() {
    let mut b = FloodsubBehaviour::new(peer(b"me"));
    assert!(b.subscribe(topic(b"a")));
    assert!(b.subscribe(topic(b"b")));
    assert!(drain(&mut b).is_empty());

    b.inject_connected(peer(b"p1"));
    let actions = drain(&mut b);
    assert_eq!(actions.len(), 2);
    let expected_topics = [b"a".to_vec(), b"b".to_vec()];
    for (a, want) in actions.iter().zip(expected_topics.iter()) {
        match a {
            Action::SendEnvelope { peer_id, envelope } => {
                assert_eq!(peer_id.bytes, b"p1".to_vec());
                assert_eq!(envelope.subscriptions.len(), 1);
                assert_eq!(&envelope.subscriptions[0].topic.bytes, want);
                assert!(matches!(
                    envelope.subscriptions[0].action,
                    SubscriptionAction::Subscribe
                ));
            }
            _ => panic!("expected a SendEnvelope"),
        }
    }
}

#[test]
fn publish_with_disjoint_topics_enqueues_nothing() {
    let mut b = FloodsubBehaviour::new(peer(b"me"));
    b.inject_connected(peer(b"p1"));
    let x = hash(b"x");
    set_peer_topics(&mut b, &peer(b"p1"), &[&x]);
    assert!(b.subscribe(topic(b"other")));
    drain(&mut b);
    b.publish(hash(b"x"), b"hello".to_vec());
    assert!(drain(&mut b).is_empty());
}

#[test]
fn publish_fan_out_reaches_exactly_interested_peers() {
    let mut b = FloodsubBehaviour::new(peer(b"me"));
    let x = hash(b"x");
    let y = hash(b"y");
    b.inject_connected(peer(b"a"));
    b.inject_connected(peer(b"b"));
    b.inject_connected(peer(b"c"));
    set_peer_topics(&mut b, &peer(b"a"), &[&x]);
    set_peer_topics(&mut b, &peer(b"b"), &[&y]);
    set_peer_topics(&mut b, &peer(b"c"), &[&x, &y]);
    assert!(b.subscribe(topic(b"x")));
    drain(&mut b);

    b.publish(hash(b"x"), b"payload".to_vec());
    let actions = drain(&mut b);
    let mut targets = Vec::new();
    for a in &actions {
        match a {
            Action::SendEnvelope { peer_id, envelope } => {
                assert_eq!(envelope.subscriptions.len(), 0);
                assert_eq!(envelope.messages.len(), 1);
                assert_eq!(envelope.messages[0].data, b"payload".to_vec());
                assert_eq!(envelope.messages[0].source.bytes, b"me".to_vec());
                targets.push(peer_id.bytes.clone());
            }
            _ => panic!("expected a SendEnvelope"),
        }
    }
    assert_eq!(targets, vec![b"a".to_vec(), b"c".to_vec()]);
}

#[test]
fn publish_mints_distinct_sequence_numbers() {
    let mut b = FloodsubBehaviour::new(peer(b"me"));
    let x = hash(b"x");
    b.inject_connected(peer(b"p1"));
    set_peer_topics(&mut b, &peer(b"p1"), &[&x]);
    assert!(b.subscribe(topic(b"x")));
    drain(&mut b);

    let n = 5;
    for _ in 0..n {
        b.publish(hash(b"x"), b"d".to_vec());
    }
    let actions = drain(&mut b);
    assert_eq!(actions.len(), n);
    let mut seqs: Vec<Vec<u8>> = Vec::new();
    for a in &actions {
        match a {
            Action::SendEnvelope { envelope, .. } => {
                seqs.push(envelope.messages[0].sequence_number.clone());
            }
            _ => panic!("expected a SendEnvelope"),
        }
    }
    for i in 0..seqs.len() {
        for j in 0..i {
            assert_ne!(seqs[i], seqs[j]);
        }
    }
}

#[test]
fn sequence_numbers_are_decimal_text() {
    let mut b = FloodsubBehaviour::new(peer(b"me"));
    let x = hash(b"x");
    b.inject_connected(peer(b"p1"));
    set_peer_topics(&mut b, &peer(b"p1"), &[&x]);
    assert!(b.subscribe(topic(b"x")));
    drain(&mut b);

    let mut seqs: Vec<Vec<u8>> = Vec::new();
    for _ in 0..11 {
        b.publish(hash(b"x"), b"d".to_vec());
    }
    b.seq_no = 90210;
    b.publish(hash(b"x"), b"d".to_vec());
    for a in drain(&mut b) {
        match a {
            Action::SendEnvelope { envelope, .. } => {
                seqs.push(envelope.messages[0].sequence_number.clone());
            }
            _ => panic!("expected a SendEnvelope"),
        }
    }
    assert_eq!(seqs.len(), 12);
    assert_eq!(seqs[0], b"0".to_vec());
    assert_eq!(seqs[9], b"9".to_vec());
    assert_eq!(seqs[10], b"10".to_vec());
    assert_eq!(seqs[11], b"90210".to_vec());
}

#[test]
fn inbound_message_is_delivered_and_relayed_once() {
    let mut b = FloodsubBehaviour::new(peer(b"me"));
    let x = hash(b"x");
    b.inject_connected(peer(b"src"));
    b.inject_connected(peer(b"other"));
    set_peer_topics(&mut b, &peer(b"other"), &[&x]);
    assert!(b.subscribe(topic(b"x")));
    drain(&mut b);

    let m = message(&peer(b"origin"), b"\x01", b"payload", &[&x]);
    let env = Envelope { subscriptions: Vec::new(), messages: vec![m] };
    b.inject_node_event(peer(b"src"), env);
    let actions = drain(&mut b);
    assert_eq!(actions.len(), 2);
    match &actions[0] {
        Action::Deliver { message } => {
            assert_eq!(message.data, b"payload".to_vec());
        }
        _ => panic!("expected a delivery first"),
    }
    match &actions[1] {
        Action::SendEnvelope { peer_id, envelope } => {
            assert_eq!(peer_id.bytes, b"other".to_vec());
            assert_eq!(envelope.messages.len(), 1);
            assert_eq!(envelope.messages[0].data, b"payload".to_vec());
        }
        _ => panic!("expected a relay"),
    }
}

#[test]
fn duplicate_inbound_message_is_dropped() {
    let mut b = FloodsubBehaviour::new(peer(b"me"));
    let x = hash(b"x");
    b.inject_connected(peer(b"src"));
    b.inject_connected(peer(b"other"));
    set_peer_topics(&mut b, &peer(b"other"), &[&x]);
    assert!(b.subscribe(topic(b"x")));
    drain(&mut b);

    let env1 = Envelope {
        subscriptions: Vec::new(),
        messages: vec![message(&peer(b"origin"), b"\x07", b"payload", &[&x])],
    };
    b.inject_node_event(peer(b"src"), env1);
    let first = drain(&mut b);
    assert_eq!(first.len(), 2);

    // The same logical message again, even from another peer: no effect.
    let env2 = Envelope {
        subscriptions: Vec::new(),
        messages: vec![message(&peer(b"origin"), b"\x07", b"payload", &[&x])],
    };
    b.inject_node_event(peer(b"other"), env2);
    assert!(drain(&mut b).is_empty());
}

#[test]
fn duplicate_within_one_batch_is_processed_once() {
    let mut b = FloodsubBehaviour::new(peer(b"me"));
    let x = hash(b"x");
    b.inject_connected(peer(b"src"));
    b.inject_connected(peer(b"other"));
    set_peer_topics(&mut b, &peer(b"other"), &[&x]);
    assert!(b.subscribe(topic(b"x")));
    drain(&mut b);

    let env = Envelope {
        subscriptions: Vec::new(),
        messages: vec![
            message(&peer(b"origin"), b"\x09", b"payload", &[&x]),
            message(&peer(b"origin"), b"\x09", b"payload", &[&x]),
        ],
    };
    b.inject_node_event(peer(b"src"), env);
    let actions = drain(&mut b);
    assert_eq!(actions.len(), 2);
    assert!(matches!(actions[0], Action::Deliver { .. }));
    match &actions[1] {
        Action::SendEnvelope { envelope, .. } => assert_eq!(envelope.messages.len(), 1),
        _ => panic!("expected a relay"),
    }
}

#[test]
fn inbound_message_is_never_relayed_back_to_its_source() {
    let mut b = FloodsubBehaviour::new(peer(b"me"));
    let x = hash(b"x");
    b.inject_connected(peer(b"src"));
    set_peer_topics(&mut b, &peer(b"src"), &[&x]);
    drain(&mut b);

    let env = Envelope {
        subscriptions: Vec::new(),
        messages: vec![message(&peer(b"origin"), b"\x02", b"d", &[&x])],
    };
    b.inject_node_event(peer(b"src"), env);
    for a in drain(&mut b) {
        if let Action::SendEnvelope { peer_id, .. } = a {
            assert_ne!(peer_id.bytes, b"src".to_vec());
        }
    }
}

#[test]
fn inbound_batch_coalesces_relays_per_peer() {
    let mut b = FloodsubBehaviour::new(peer(b"me"));
    let x = hash(b"x");
    b.inject_connected(peer(b"src"));
    b.inject_connected(peer(b"other"));
    set_peer_topics(&mut b, &peer(b"other"), &[&x]);
    drain(&mut b);

    let env = Envelope {
        subscriptions: Vec::new(),
        messages: vec![
            message(&peer(b"origin"), b"\x0a", b"one", &[&x]),
            message(&peer(b"origin"), b"\x0b", b"two", &[&x]),
        ],
    };
    b.inject_node_event(peer(b"src"), env);
    let actions = drain(&mut b);
    assert_eq!(actions.len(), 1);
    match &actions[0] {
        Action::SendEnvelope { peer_id, envelope } => {
            assert_eq!(peer_id.bytes, b"other".to_vec());
            assert_eq!(envelope.messages.len(), 2);
            assert_eq!(envelope.messages[0].data, b"one".to_vec());
            assert_eq!(envelope.messages[1].data, b"two".to_vec());
        }
        _ => panic!("expected a relay"),
    }
}

#[test]
fn message_with_no_topics_is_marked_but_not_routed() {
    let mut b = FloodsubBehaviour::new(peer(b"me"));
    let x = hash(b"x");
    b.inject_connected(peer(b"src"));
    b.inject_connected(peer(b"other"));
    set_peer_topics(&mut b, &peer(b"other"), &[&x]);
    assert!(b.subscribe(topic(b"x")));
    drain(&mut b);

    let env = Envelope {
        subscriptions: Vec::new(),
        messages: vec![message(&peer(b"origin"), b"\x03", b"d", &[])],
    };
    b.inject_node_event(peer(b"src"), env);
    assert!(drain(&mut b).is_empty());

    // Still marked seen: the same identity later, now with topics, stays dropped.
    let env2 = Envelope {
        subscriptions: Vec::new(),
        messages: vec![message(&peer(b"origin"), b"\x03", b"d", &[&x])],
    };
    b.inject_node_event(peer(b"src"), env2);
    assert!(drain(&mut b).is_empty());
}

#[test]
fn disconnect_removes_peer_from_all_routing() {
    let mut b = FloodsubBehaviour::new(peer(b"me"));
    let x = hash(b"x");
    b.inject_connected(peer(b"gone"));
    b.inject_connected(peer(b"src"));
    set_peer_topics(&mut b, &peer(b"gone"), &[&x]);
    assert!(b.subscribe(topic(b"x")));
    drain(&mut b);

    b.inject_disconnected(&peer(b"gone"));
    b.publish(hash(b"x"), b"d1".to_vec());
    let env = Envelope {
        subscriptions: Vec::new(),
        messages: vec![message(&peer(b"origin"), b"\x04", b"d2", &[&x])],
    };
    b.inject_node_event(peer(b"src"), env);
    assert!(b.subscribe(topic(b"more")));
    for a in drain(&mut b) {
        if let Action::SendEnvelope { peer_id, .. } = a {
            assert_ne!(peer_id.bytes, b"gone".to_vec());
        }
    }
}

#[test]
fn reconnect_registers_peer_with_empty_topics() {
    let mut b = FloodsubBehaviour::new(peer(b"me"));
    let x = hash(b"x");
    b.inject_connected(peer(b"p"));
    set_peer_topics(&mut b, &peer(b"p"), &[&x]);
    b.inject_disconnected(&peer(b"p"));
    b.inject_connected(peer(b"p"));
    assert_eq!(b.connected_peers.len(), 1);
    assert_eq!(b.connected_peers[0].id.bytes, b"p".to_vec());
    assert!(b.connected_peers[0].topics.is_empty());
    drain(&mut b);

    // With an empty topic set the reconnected peer gets no relay.
    assert!(b.subscribe(topic(b"x")));
    drain(&mut b);
    b.publish(hash(b"x"), b"d".to_vec());
    assert!(drain(&mut b).is_empty());
}

#[test]
fn poll_is_fifo_and_consumes_each_entry_once() {
    let mut b = FloodsubBehaviour::new(peer(b"me"));
    b.inject_connected(peer(b"p1"));
    assert!(b.subscribe(topic(b"a")));
    assert!(b.subscribe(topic(b"b")));
    let actions = drain(&mut b);
    assert_eq!(actions.len(), 2);
    let topics: Vec<Vec<u8>> = actions
        .iter()
        .map(|a| match a {
            Action::SendEnvelope { envelope, .. } => envelope.subscriptions[0].topic.bytes.clone(),
            _ => panic!("expected a SendEnvelope"),
        })
        .collect();
    assert_eq!(topics, vec![b"a".to_vec(), b"b".to_vec()]);
    assert!(b.poll().is_none());
}

#[test]
fn publish_marks_own_message_so_echo_is_dropped() {
    let mut b = FloodsubBehaviour::new(peer(b"me"));
    let x = hash(b"x");
    b.inject_connected(peer(b"p1"));
    set_peer_topics(&mut b, &peer(b"p1"), &[&x]);
    assert!(b.subscribe(topic(b"x")));
    drain(&mut b);

    b.publish(hash(b"x"), b"payload".to_vec());
    let sent = drain(&mut b);
    assert_eq!(sent.len(), 1);
    let echoed = match &sent[0] {
        Action::SendEnvelope { envelope, .. } => envelope.messages[0].clone(),
        _ => panic!("expected a SendEnvelope"),
    };

    // The network echoes the node's own message back: it must be ignored.
    let env = Envelope { subscriptions: Vec::new(), messages: vec![echoed] };
    b.inject_node_event(peer(b"p1"), env);
    assert!(drain(&mut b).is_empty());
}
