use vstd::prelude::*;
use crate::types::{
    ActionView, EnvelopeView, MessageView, PeerEntryView, SubscriptionAction,
    SubscriptionChangeView, Topic, TopicHash, hash_eq, hashes_view, msg_id, topics_view,
};

verus! {

/// Do two sequences of topic hashes share an element?
pub open spec fn seqs_intersect(a: Seq<Seq<u8>>, b: Seq<Seq<u8>>) -> bool {
    exists|i: int, j: int| 0 <= i < a.len() && 0 <= j < b.len() && a[i] == b[j]
}

/// The identifiers of the registered peers, in registry order.
pub open spec fn peer_ids_of(peers: Seq<PeerEntryView>) -> Seq<Seq<u8>> {
    peers.map(|i: int, p: PeerEntryView| p.id)
}

/// The envelope announcing one subscription change, with no messages.
pub open spec fn announcement_env(th: Seq<u8>, action: SubscriptionAction) -> EnvelopeView {
    EnvelopeView {
        subscriptions: seq![SubscriptionChangeView { topic: th, action }],
        messages: Seq::empty(),
    }
}

/// One announcement of the change to each listed peer, in order.
pub open spec fn announcements(
    peer_ids: Seq<Seq<u8>>,
    th: Seq<u8>,
    action: SubscriptionAction,
) -> Seq<ActionView> {
    peer_ids.map(
        |i: int, p: Seq<u8>| ActionView::SendEnvelope {
            peer_id: p,
            envelope: announcement_env(th, action),
        },
    )
}

/// One Subscribe announcement to the newly connected peer per locally
/// subscribed topic, in subscription order.
pub open spec fn bootstrap(id: Seq<u8>, subs: Seq<Seq<u8>>) -> Seq<ActionView> {
    subs.map(
        |i: int, th: Seq<u8>| ActionView::SendEnvelope {
            peer_id: id,
            envelope: announcement_env(th, SubscriptionAction::Subscribe),
        },
    )
}

/// The envelope carrying the given messages and no subscription changes.
pub open spec fn message_env(msgs: Seq<MessageView>) -> EnvelopeView {
    EnvelopeView { subscriptions: Seq::empty(), messages: msgs }
}

/// Fan-out of a published message over the first `k` registry entries.
pub open spec fn fanout_upto(peers: Seq<PeerEntryView>, m: MessageView, k: int) -> Seq<ActionView>
    decreases k,
{
    if k <= 0 {
        Seq::empty()
    } else {
        let prev = fanout_upto(peers, m, k - 1);
        if seqs_intersect(peers[k - 1].topics, m.topics) {
            prev.push(
                ActionView::SendEnvelope { peer_id: peers[k - 1].id, envelope: message_env(seq![m]) },
            )
        } else {
            prev
        }
    }
}

/// Fan-out of a published message: one envelope per registered peer whose
/// topic set intersects the message's topics, in registry order.
pub open spec fn publish_fanout(peers: Seq<PeerEntryView>, m: MessageView) -> Seq<ActionView> {
    fanout_upto(peers, m, peers.len() as int)
}

/// Deliveries of an inbound batch, over its first `n` messages: each fresh
/// message whose topics intersect the local subscriptions, in arrival order.
pub open spec fn deliveries_upto(
    subs: Seq<Seq<u8>>,
    msgs: Seq<MessageView>,
    fresh: Seq<bool>,
    n: int,
) -> Seq<ActionView>
    decreases n,
{
    if n <= 0 {
        Seq::empty()
    } else {
        let prev = deliveries_upto(subs, msgs, fresh, n - 1);
        if fresh[n - 1] && seqs_intersect(subs, msgs[n - 1].topics) {
            prev.push(ActionView::Deliver { message: msgs[n - 1] })
        } else {
            prev
        }
    }
}

/// The index of the relay entry addressed to `pid`, or -1 if there is none.
pub open spec fn rpc_find(rpcs: Seq<(Seq<u8>, Seq<MessageView>)>, pid: Seq<u8>) -> int
    decreases rpcs.len(),
{
    if rpcs.len() == 0 {
        -1
    } else if rpcs[0].0 == pid {
        0
    } else {
        let r = rpc_find(rpcs.drop_first(), pid);
        if r < 0 {
            -1
        } else {
            r + 1
        }
    }
}

/// Appends the message to the relay entry addressed to `pid`, creating the
/// entry at the end if there is none yet.
pub open spec fn insert_rpc(
    rpcs: Seq<(Seq<u8>, Seq<MessageView>)>,
    pid: Seq<u8>,
    m: MessageView,
) -> Seq<(Seq<u8>, Seq<MessageView>)> {
    let j = rpc_find(rpcs, pid);
    if j < 0 {
        rpcs.push((pid, seq![m]))
    } else {
        rpcs.update(j, (pid, rpcs[j].1.push(m)))
    }
}

/// Accumulates one fresh message into the relay entries of the first `k`
/// registry entries, skipping the batch's source peer.
pub open spec fn accum_peers_upto(
    peers: Seq<PeerEntryView>,
    src: Seq<u8>,
    rpcs: Seq<(Seq<u8>, Seq<MessageView>)>,
    m: MessageView,
    k: int,
) -> Seq<(Seq<u8>, Seq<MessageView>)>
    decreases k,
{
    if k <= 0 {
        rpcs
    } else {
        let prev = accum_peers_upto(peers, src, rpcs, m, k - 1);
        if peers[k - 1].id != src && seqs_intersect(peers[k - 1].topics, m.topics) {
            insert_rpc(prev, peers[k - 1].id, m)
        } else {
            prev
        }
    }
}

/// Accumulates one fresh message into the relay entries over all peers.
pub open spec fn accum_msg(
    peers: Seq<PeerEntryView>,
    src: Seq<u8>,
    rpcs: Seq<(Seq<u8>, Seq<MessageView>)>,
    m: MessageView,
) -> Seq<(Seq<u8>, Seq<MessageView>)> {
    accum_peers_upto(peers, src, rpcs, m, peers.len() as int)
}

/// The relay entries after the first `n` messages of an inbound batch.
pub open spec fn rpcs_upto(
    peers: Seq<PeerEntryView>,
    src: Seq<u8>,
    msgs: Seq<MessageView>,
    fresh: Seq<bool>,
    n: int,
) -> Seq<(Seq<u8>, Seq<MessageView>)>
    decreases n,
{
    if n <= 0 {
        Seq::empty()
    } else {
        let prev = rpcs_upto(peers, src, msgs, fresh, n - 1);
        if fresh[n - 1] {
            accum_msg(peers, src, prev, msgs[n - 1])
        } else {
            prev
        }
    }
}

/// One SendEnvelope per relay entry, in order of first qualification.
pub open spec fn rpc_sends(rpcs: Seq<(Seq<u8>, Seq<MessageView>)>) -> Seq<ActionView> {
    rpcs.map(
        |i: int, e: (Seq<u8>, Seq<MessageView>)| ActionView::SendEnvelope {
            peer_id: e.0,
            envelope: message_env(e.1),
        },
    )
}

/// Everything an inbound batch appends to the outbox: the deliveries in
/// arrival order, then one coalesced relay envelope per destination peer.
pub open spec fn route_batch(
    peers: Seq<PeerEntryView>,
    subs: Seq<Seq<u8>>,
    src: Seq<u8>,
    msgs: Seq<MessageView>,
    fresh: Seq<bool>,
) -> Seq<ActionView> {
    deliveries_upto(subs, msgs, fresh, msgs.len() as int) + rpc_sends(
        rpcs_upto(peers, src, msgs, fresh, msgs.len() as int),
    )
}

/// The seen set after recording the identities of the first `n` messages.
pub open spec fn seen_after(
    seen0: Set<(Seq<u8>, Seq<u8>)>,
    msgs: Seq<MessageView>,
    n: int,
) -> Set<(Seq<u8>, Seq<u8>)>
    decreases n,
{
    if n <= 0 {
        seen0
    } else {
        seen_after(seen0, msgs, n - 1).insert(msg_id(msgs[n - 1]))
    }
}

/// The mark at position `j` is not fresh if the message's identity was
/// already seen before the batch or appears earlier within the batch.
pub open spec fn mark_ok(
    seen0: Set<(Seq<u8>, Seq<u8>)>,
    msgs: Seq<MessageView>,
    fresh: Seq<bool>,
    j: int,
) -> bool {
    (seen0.contains(msg_id(msgs[j])) || exists|t: int|
        0 <= t < j && msg_id(msgs[t]) == msg_id(msgs[j])) ==> !fresh[j]
}

/// The marks of a batch never treat as fresh a message whose identity was
/// already seen before the batch or earlier within it.
pub open spec fn marks_respect_seen(
    seen0: Set<(Seq<u8>, Seq<u8>)>,
    msgs: Seq<MessageView>,
    fresh: Seq<bool>,
) -> bool {
    forall|j: int| 0 <= j < msgs.len() ==> #[trigger] mark_ok(seen0, msgs, fresh, j)
}

/// What `seen_after` holds: the prior identities and those of the prefix.
pub proof fn lemma_seen_after_contains(
    seen0: Set<(Seq<u8>, Seq<u8>)>,
    msgs: Seq<MessageView>,
    n: int,
)
    requires
        0 <= n <= msgs.len(),
    ensures
        forall|id: (Seq<u8>, Seq<u8>)| #![trigger seen_after(seen0, msgs, n).contains(id)]
            seen_after(seen0, msgs, n).contains(id) <==> (seen0.contains(id) || exists|j: int|
                0 <= j < n && msg_id(msgs[j]) == id),
    decreases n,
{
    if n > 0 {
        lemma_seen_after_contains(seen0, msgs, n - 1);
        assert forall|id: (Seq<u8>, Seq<u8>)| #![trigger seen_after(seen0, msgs, n).contains(id)]
            seen_after(seen0, msgs, n).contains(id) <==> (seen0.contains(id) || exists|j: int|
                0 <= j < n && msg_id(msgs[j]) == id) by {
            if seen_after(seen0, msgs, n).contains(id) {
                if id == msg_id(msgs[n - 1]) {
                    assert(0 <= n - 1 < n && msg_id(msgs[n - 1]) == id);
                } else {
                    assert(seen_after(seen0, msgs, n - 1).contains(id));
                }
            }
            if seen0.contains(id) {
                assert(seen_after(seen0, msgs, n - 1).contains(id));
            }
            if exists|j: int| 0 <= j < n && msg_id(msgs[j]) == id {
                let j = choose|j: int| 0 <= j < n && msg_id(msgs[j]) == id;
                if j < n - 1 {
                    assert(seen_after(seen0, msgs, n - 1).contains(id));
                }
            }
        }
    }
}

/// What holds of every action an inbound batch can append: a delivery is one
/// of the batch's fresh messages; a relay envelope is addressed to a
/// registered peer other than the source, carries no subscription records,
/// and holds only fresh messages of the batch.
/// Whether `m` is one of the batch's messages that was marked fresh.
pub open spec fn from_fresh(msgs: Seq<MessageView>, fresh: Seq<bool>, m: MessageView) -> bool {
    exists|i: int| 0 <= i < msgs.len() && #[trigger] fresh[i] && m == msgs[i]
}

pub open spec fn route_action_ok(
    peers: Seq<PeerEntryView>,
    src: Seq<u8>,
    msgs: Seq<MessageView>,
    fresh: Seq<bool>,
    a: ActionView,
) -> bool {
    match a {
        ActionView::Deliver { message } => from_fresh(msgs, fresh, message),
        ActionView::SendEnvelope { peer_id, envelope } => {
            &&& peer_id != src
            &&& peer_ids_of(peers).contains(peer_id)
            &&& envelope.subscriptions.len() == 0
            &&& forall|t: int|
                0 <= t < envelope.messages.len() ==> from_fresh(
                    msgs,
                    fresh,
                    #[trigger] envelope.messages[t],
                )
        },
    }
}

/// The relay entries are addressed to pairwise distinct, registered peers
/// other than the source, and hold only fresh messages of the batch.
pub open spec fn rpcs_ok(
    peers: Seq<PeerEntryView>,
    src: Seq<u8>,
    msgs: Seq<MessageView>,
    fresh: Seq<bool>,
    rpcs: Seq<(Seq<u8>, Seq<MessageView>)>,
) -> bool {
    &&& forall|a: int, b: int| 0 <= a < b < rpcs.len() ==> rpcs[a].0 != rpcs[b].0
    &&& forall|a: int|
        0 <= a < rpcs.len() ==> (#[trigger] rpcs[a]).0 != src && peer_ids_of(peers).contains(
            rpcs[a].0,
        )
    &&& forall|a: int, t: int|
        0 <= a < rpcs.len() && 0 <= t < rpcs[a].1.len() ==> from_fresh(
            msgs,
            fresh,
            #[trigger] rpcs[a].1[t],
        )
}

pub proof fn lemma_rpc_find(rpcs: Seq<(Seq<u8>, Seq<MessageView>)>, pid: Seq<u8>)
    ensures
        rpc_find(rpcs, pid) == -1 ==> forall|k: int| 0 <= k < rpcs.len() ==> (#[trigger] rpcs[k]).0
            != pid,
        rpc_find(rpcs, pid) != -1 ==> {
            &&& 0 <= rpc_find(rpcs, pid) < rpcs.len()
            &&& rpcs[rpc_find(rpcs, pid)].0 == pid
            &&& forall|k: int| 0 <= k < rpc_find(rpcs, pid) ==> (#[trigger] rpcs[k]).0 != pid
        },
    decreases rpcs.len(),
{
    if rpcs.len() != 0 && rpcs[0].0 != pid {
        let tail = rpcs.drop_first();
        lemma_rpc_find(tail, pid);
        assert(forall|k: int| 0 <= k < tail.len() ==> #[trigger] tail[k] == rpcs[k + 1]);
        let r = rpc_find(tail, pid);
        if r < 0 {
            assert forall|k: int| 0 <= k < rpcs.len() implies (#[trigger] rpcs[k]).0 != pid by {
                if k > 0 {
                    assert(rpcs[k] == tail[k - 1]);
                }
            }
        } else {
            assert(rpc_find(rpcs, pid) == r + 1);
            assert(rpcs[r + 1] == tail[r]);
            assert forall|k: int| 0 <= k < r + 1 implies (#[trigger] rpcs[k]).0 != pid by {
                if k > 0 {
                    assert(rpcs[k] == tail[k - 1]);
                }
            }
        }
    }
}

pub proof fn lemma_insert_rpc_ok(
    peers: Seq<PeerEntryView>,
    src: Seq<u8>,
    msgs: Seq<MessageView>,
    fresh: Seq<bool>,
    rpcs: Seq<(Seq<u8>, Seq<MessageView>)>,
    pid: Seq<u8>,
    m: MessageView,
)
    requires
        rpcs_ok(peers, src, msgs, fresh, rpcs),
        pid != src,
        peer_ids_of(peers).contains(pid),
        from_fresh(msgs, fresh, m),
    ensures
        rpcs_ok(peers, src, msgs, fresh, insert_rpc(rpcs, pid, m)),
{
    lemma_rpc_find(rpcs, pid);
}

pub proof fn lemma_accum_peers_ok(
    peers: Seq<PeerEntryView>,
    src: Seq<u8>,
    msgs: Seq<MessageView>,
    fresh: Seq<bool>,
    rpcs: Seq<(Seq<u8>, Seq<MessageView>)>,
    m: MessageView,
    k: int,
)
    requires
        rpcs_ok(peers, src, msgs, fresh, rpcs),
        from_fresh(msgs, fresh, m),
        k <= peers.len(),
    ensures
        rpcs_ok(peers, src, msgs, fresh, accum_peers_upto(peers, src, rpcs, m, k)),
    decreases k,
{
    if k > 0 {
        lemma_accum_peers_ok(peers, src, msgs, fresh, rpcs, m, k - 1);
        let prev = accum_peers_upto(peers, src, rpcs, m, k - 1);
        if peers[k - 1].id != src && seqs_intersect(peers[k - 1].topics, m.topics) {
            assert(peer_ids_of(peers)[k - 1] == peers[k - 1].id);
            assert(peer_ids_of(peers).contains(peers[k - 1].id));
            lemma_insert_rpc_ok(peers, src, msgs, fresh, prev, peers[k - 1].id, m);
        }
    }
}

pub proof fn lemma_rpcs_upto_ok(
    peers: Seq<PeerEntryView>,
    src: Seq<u8>,
    msgs: Seq<MessageView>,
    fresh: Seq<bool>,
    n: int,
)
    requires
        n <= msgs.len(),
        fresh.len() == msgs.len(),
    ensures
        rpcs_ok(peers, src, msgs, fresh, rpcs_upto(peers, src, msgs, fresh, n)),
    decreases n,
{
    if n <= 0 {
        assert(rpcs_ok(peers, src, msgs, fresh, Seq::empty()));
    } else {
        lemma_rpcs_upto_ok(peers, src, msgs, fresh, n - 1);
        if fresh[n - 1] {
            lemma_accum_peers_ok(
                peers,
                src,
                msgs,
                fresh,
                rpcs_upto(peers, src, msgs, fresh, n - 1),
                msgs[n - 1],
                peers.len() as int,
            );
        }
    }
}

/// Whether the action is the delivery of a fresh message of the batch.
pub open spec fn delivery_of_fresh(msgs: Seq<MessageView>, fresh: Seq<bool>, a: ActionView) -> bool {
    match a {
        ActionView::Deliver { message } => from_fresh(msgs, fresh, message),
        _ => false,
    }
}

/// Whether the action is not an envelope addressed to `pid`.
pub open spec fn not_addressed_to(a: ActionView, pid: Seq<u8>) -> bool {
    match a {
        ActionView::SendEnvelope { peer_id, envelope } => peer_id != pid,
        _ => true,
    }
}

/// Whether any envelope the action sends is addressed to a registered peer.
pub open spec fn target_registered(peers: Seq<PeerEntryView>, a: ActionView) -> bool {
    match a {
        ActionView::SendEnvelope { peer_id, envelope } => peer_ids_of(peers).contains(peer_id),
        _ => true,
    }
}

/// Whether the action neither delivers nor carries a message of identity `id`.
pub open spec fn excludes_identity(a: ActionView, id: (Seq<u8>, Seq<u8>)) -> bool {
    match a {
        ActionView::Deliver { message } => msg_id(message) != id,
        ActionView::SendEnvelope { peer_id, envelope } => forall|t: int|
            0 <= t < envelope.messages.len() ==> msg_id(#[trigger] envelope.messages[t]) != id,
    }
}

pub proof fn lemma_deliveries_ok(
    subs: Seq<Seq<u8>>,
    msgs: Seq<MessageView>,
    fresh: Seq<bool>,
    n: int,
)
    requires
        n <= msgs.len(),
        fresh.len() == msgs.len(),
    ensures
        forall|k: int|
            0 <= k < deliveries_upto(subs, msgs, fresh, n).len() ==> delivery_of_fresh(
                msgs,
                fresh,
                #[trigger] deliveries_upto(subs, msgs, fresh, n)[k],
            ),
    decreases n,
{
    if n > 0 {
        lemma_deliveries_ok(subs, msgs, fresh, n - 1);
        let prev = deliveries_upto(subs, msgs, fresh, n - 1);
        let cur = deliveries_upto(subs, msgs, fresh, n);
        if fresh[n - 1] && seqs_intersect(subs, msgs[n - 1].topics) {
            assert forall|k: int| 0 <= k < cur.len() implies delivery_of_fresh(
                msgs,
                fresh,
                #[trigger] cur[k],
            ) by {
                if k < prev.len() {
                    assert(cur[k] == prev[k]);
                } else {
                    assert(cur[k] == (ActionView::Deliver { message: msgs[n - 1] }));
                    assert(0 <= n - 1 < msgs.len() && fresh[n - 1] && msgs[n - 1] == msgs[n - 1]);
                }
            }
        }
    }
}

/// Every action routed from an inbound batch satisfies `route_action_ok`:
/// deliveries and relayed messages are fresh messages of the batch, and relay
/// envelopes go to registered peers other than the batch's source.
pub proof fn lemma_route_batch_ok(
    peers: Seq<PeerEntryView>,
    subs: Seq<Seq<u8>>,
    src: Seq<u8>,
    msgs: Seq<MessageView>,
    fresh: Seq<bool>,
)
    requires
        fresh.len() == msgs.len(),
    ensures
        forall|k: int|
            0 <= k < route_batch(peers, subs, src, msgs, fresh).len() ==> route_action_ok(
                peers,
                src,
                msgs,
                fresh,
                #[trigger] route_batch(peers, subs, src, msgs, fresh)[k],
            ),
{
    let n = msgs.len() as int;
    let dels = deliveries_upto(subs, msgs, fresh, n);
    let rpcs = rpcs_upto(peers, src, msgs, fresh, n);
    lemma_deliveries_ok(subs, msgs, fresh, n);
    lemma_rpcs_upto_ok(peers, src, msgs, fresh, n);
    assert forall|k: int| 0 <= k < route_batch(peers, subs, src, msgs, fresh).len() implies
        route_action_ok(peers, src, msgs, fresh, #[trigger] route_batch(
            peers,
            subs,
            src,
            msgs,
            fresh,
        )[k]) by {
        if k < dels.len() {
            assert(route_batch(peers, subs, src, msgs, fresh)[k] == dels[k]);
            assert(delivery_of_fresh(msgs, fresh, dels[k]));
        } else {
            let a = k - dels.len();
            assert(route_batch(peers, subs, src, msgs, fresh)[k] == rpc_sends(rpcs)[a]);
            let act = rpc_sends(rpcs)[a];
            assert(act == (ActionView::SendEnvelope {
                peer_id: rpcs[a].0,
                envelope: message_env(rpcs[a].1),
            }));
            assert(rpcs[a].0 != src && peer_ids_of(peers).contains(rpcs[a].0));
            assert(forall|t: int|
                0 <= t < rpcs[a].1.len() ==> from_fresh(msgs, fresh, #[trigger] rpcs[a].1[t]));
            assert(route_action_ok(peers, src, msgs, fresh, act));
        }
    }
}

/// No self-relay: an inbound batch from a peer never routes an envelope
/// addressed back to that peer.
pub proof fn lemma_no_self_relay(
    peers: Seq<PeerEntryView>,
    subs: Seq<Seq<u8>>,
    src: Seq<u8>,
    msgs: Seq<MessageView>,
    fresh: Seq<bool>,
)
    requires
        fresh.len() == msgs.len(),
    ensures
        forall|k: int|
            0 <= k < route_batch(peers, subs, src, msgs, fresh).len() ==> not_addressed_to(
                #[trigger] route_batch(peers, subs, src, msgs, fresh)[k],
                src,
            ),
{
    lemma_route_batch_ok(peers, subs, src, msgs, fresh);
}

/// Relay targets are registered: an inbound batch only routes envelopes to
/// peers present in the registry it was routed against. Together with the
/// disconnect contract, no action enqueued after a peer's disconnection is
/// addressed to it.
pub proof fn lemma_relay_targets_registered(
    peers: Seq<PeerEntryView>,
    subs: Seq<Seq<u8>>,
    src: Seq<u8>,
    msgs: Seq<MessageView>,
    fresh: Seq<bool>,
)
    requires
        fresh.len() == msgs.len(),
    ensures
        forall|k: int|
            0 <= k < route_batch(peers, subs, src, msgs, fresh).len() ==> target_registered(
                peers,
                #[trigger] route_batch(peers, subs, src, msgs, fresh)[k],
            ),
{
    lemma_route_batch_ok(peers, subs, src, msgs, fresh);
}

proof fn lemma_fanout_upto_targets(peers: Seq<PeerEntryView>, m: MessageView, n: int)
    requires
        n <= peers.len(),
    ensures
        forall|k: int|
            0 <= k < fanout_upto(peers, m, n).len() ==> target_registered(
                peers,
                #[trigger] fanout_upto(peers, m, n)[k],
            ),
    decreases n,
{
    if n > 0 {
        lemma_fanout_upto_targets(peers, m, n - 1);
        let prev = fanout_upto(peers, m, n - 1);
        let cur = fanout_upto(peers, m, n);
        if seqs_intersect(peers[n - 1].topics, m.topics) {
            assert forall|k: int|
                0 <= k < cur.len() implies target_registered(peers, #[trigger] cur[k]) by {
                if k < prev.len() {
                    assert(cur[k] == prev[k]);
                } else {
                    assert(peer_ids_of(peers)[n - 1] == peers[n - 1].id);
                    assert(peer_ids_of(peers).contains(peers[n - 1].id));
                }
            }
        }
    }
}

/// Fan-out targets are registered: a publish only addresses peers present in
/// the registry it was computed against. Together with the disconnect
/// contract, no action enqueued after a peer's disconnection is addressed to
/// it until it reconnects.
pub proof fn lemma_fanout_targets_registered(peers: Seq<PeerEntryView>, m: MessageView)
    ensures
        forall|k: int|
            0 <= k < publish_fanout(peers, m).len() ==> target_registered(
                peers,
                #[trigger] publish_fanout(peers, m)[k],
            ),
{
    lemma_fanout_upto_targets(peers, m, peers.len() as int);
}

/// Idempotence of delivery: when the batch's marks respect the seen set and
/// an identity was already seen before the batch, routing the batch neither
/// delivers nor relays any message with that identity.
pub proof fn lemma_seen_not_rerouted(
    peers: Seq<PeerEntryView>,
    subs: Seq<Seq<u8>>,
    src: Seq<u8>,
    msgs: Seq<MessageView>,
    fresh: Seq<bool>,
    seen0: Set<(Seq<u8>, Seq<u8>)>,
    id: (Seq<u8>, Seq<u8>),
)
    requires
        fresh.len() == msgs.len(),
        marks_respect_seen(seen0, msgs, fresh),
        seen0.contains(id),
    ensures
        forall|k: int|
            0 <= k < route_batch(peers, subs, src, msgs, fresh).len() ==> excludes_identity(
                #[trigger] route_batch(peers, subs, src, msgs, fresh)[k],
                id,
            ),
{
    lemma_route_batch_ok(peers, subs, src, msgs, fresh);
    assert forall|i: int| 0 <= i < msgs.len() && msg_id(#[trigger] msgs[i]) == id implies !fresh[i] by {
        assert(mark_ok(seen0, msgs, fresh, i));
    }
}

/// Within one batch whose marks respect the seen set, at most one message of
/// any identity is marked fresh, so it is delivered and relayed at most once.
pub proof fn lemma_fresh_identity_unique(
    seen0: Set<(Seq<u8>, Seq<u8>)>,
    msgs: Seq<MessageView>,
    fresh: Seq<bool>,
    i: int,
    j: int,
)
    requires
        marks_respect_seen(seen0, msgs, fresh),
        0 <= i < j < msgs.len(),
        msg_id(msgs[i]) == msg_id(msgs[j]),
    ensures
        !(fresh[i] && fresh[j]),
{
    assert(mark_ok(seen0, msgs, fresh, j));
}

/// A subscription change enqueues exactly one announcement per listed peer,
/// each a single-record envelope carrying no messages.
pub proof fn lemma_announcements_shape(
    peer_ids: Seq<Seq<u8>>,
    th: Seq<u8>,
    action: SubscriptionAction,
)
    ensures
        announcements(peer_ids, th, action).len() == peer_ids.len(),
        forall|i: int|
            0 <= i < peer_ids.len() ==> announcements(peer_ids, th, action)[i]
                == (ActionView::SendEnvelope {
                peer_id: #[trigger] peer_ids[i],
                envelope: announcement_env(th, action),
            }),
{
}

/// Do two lists of topic hashes share an element?
pub fn topics_intersect(a: &Vec<TopicHash>, b: &Vec<TopicHash>) -> (r: bool)
    ensures
        r == seqs_intersect(hashes_view(a@), hashes_view(b@)),
{
    let mut i: usize = 0;
    while i < a.len()
        invariant
            i <= a.len(),
            forall|x: int, y: int|
                0 <= x < i && 0 <= y < b@.len() ==> hashes_view(a@)[x] != hashes_view(b@)[y],
        decreases a.len() - i,
    {
        let mut j: usize = 0;
        while j < b.len()
            invariant
                i < a.len(),
                j <= b.len(),
                forall|y: int| 0 <= y < j ==> hashes_view(a@)[i as int] != hashes_view(b@)[y],
            decreases b.len() - j,
        {
            if hash_eq(&a[i], &b[j]) {
                assert(hashes_view(a@)[i as int] == hashes_view(b@)[j as int]);
                return true;
            }
            j += 1;
        }
        i += 1;
    }
    false
}

/// Does the local subscription list share a topic with the given hashes?
pub fn subs_intersect(subs: &Vec<Topic>, topics: &Vec<TopicHash>) -> (r: bool)
    ensures
        r == seqs_intersect(topics_view(subs@), hashes_view(topics@)),
{
    let mut i: usize = 0;
    while i < subs.len()
        invariant
            i <= subs.len(),
            forall|x: int, y: int|
                0 <= x < i && 0 <= y < topics@.len() ==> topics_view(subs@)[x] != hashes_view(
                    topics@,
                )[y],
        decreases subs.len() - i,
    {
        let mut j: usize = 0;
        while j < topics.len()
            invariant
                i < subs.len(),
                j <= topics.len(),
                forall|y: int|
                    0 <= y < j ==> topics_view(subs@)[i as int] != hashes_view(topics@)[y],
            decreases topics.len() - j,
        {
            if hash_eq(&subs[i].hash, &topics[j]) {
                assert(topics_view(subs@)[i as int] == hashes_view(topics@)[j as int]);
                return true;
            }
            j += 1;
        }
        i += 1;
    }
    false
}

/// A newly connected peer is bootstrapped with exactly one Subscribe
/// announcement per locally subscribed topic, in subscription order.
pub proof fn lemma_bootstrap_shape(id: Seq<u8>, subs: Seq<Seq<u8>>)
    ensures
        bootstrap(id, subs).len() == subs.len(),
        forall|i: int|
            0 <= i < subs.len() ==> bootstrap(id, subs)[i] == (ActionView::SendEnvelope {
                peer_id: id,
                envelope: announcement_env(#[trigger] subs[i], SubscriptionAction::Subscribe),
            }),
{
}

} // verus!
