use vstd::prelude::*;
use std::collections::VecDeque;
use crate::types::{
    Action, ActionView, Envelope, Message, MessageView, PeerEntry, PeerEntryView, PeerId,
    SubscriptionAction, SubscriptionChange, Topic, TopicHash, hash_eq, hashes_view, msg_id,
    msgs_view, peer_eq, topics_view,
};
use crate::dedup::DedupFilter;
use crate::routing::{
    announcements, bootstrap, peer_ids_of, publish_fanout, seqs_intersect,
};

verus! {

/// Flooding publish/subscribe behaviour: the reactive core that tracks local
/// and per-peer subscriptions, suppresses duplicate messages, and queues the
/// outbound envelopes the embedding engine must send.
pub struct FloodsubBehaviour {
    /// Pending actions, drained in order by `poll`.
    pub events: VecDeque<Action>,
    /// Identifier of the local node; the source of locally published messages.
    pub local_peer_id: PeerId,
    /// The connected peers and the topics each is believed subscribed to.
    pub connected_peers: Vec<PeerEntry>,
    /// The topics this node is subscribed to.
    pub subscribed_topics: Vec<Topic>,
    /// Counter minting the sequence numbers of locally published messages.
    pub seq_no: u64,
    /// Approximate record of the message identities already observed.
    pub received: DedupFilter,
}

impl FloodsubBehaviour {
    /// The hashes of the locally subscribed topics, in subscription order.
    pub open spec fn subs(self) -> Seq<Seq<u8>> {
        topics_view(self.subscribed_topics@)
    }

    /// The registered peers, in registry order.
    pub open spec fn peers(self) -> Seq<PeerEntryView> {
        self.connected_peers@.map(|i: int, p: PeerEntry| p@)
    }

    /// The identifiers of the registered peers, in registry order.
    pub open spec fn peer_ids(self) -> Seq<Seq<u8>> {
        peer_ids_of(self.peers())
    }

    /// The pending actions, oldest first.
    pub open spec fn events_view(self) -> Seq<ActionView> {
        self.events@.map(|i: int, a: Action| a@)
    }

    /// Well-formedness: subscribed topics are pairwise distinct by hash, peer
    /// entries are pairwise distinct by identifier, and the deduplication
    /// filter is well-formed.
    pub open spec fn wf(self) -> bool {
        &&& forall|a: int, b: int|
            0 <= a < b < self.subs().len() ==> self.subs()[a] != self.subs()[b]
        &&& forall|a: int, b: int|
            0 <= a < b < self.peers().len() ==> self.peers()[a].id != self.peers()[b].id
        &&& self.received.wf()
    }

    /// Creates a behaviour with no peers, no subscriptions and an empty outbox.
    pub fn new(local_peer_id: PeerId) -> (r: Self)
        ensures
            r.wf(),
            r.local_peer_id == local_peer_id,
            r.events_view() == Seq::<ActionView>::empty(),
            r.subs() == Seq::<Seq<u8>>::empty(),
            r.peers() == Seq::<PeerEntryView>::empty(),
            r.seq_no == 0,
            r.received.seen@ == Set::<(Seq<u8>, Seq<u8>)>::empty(),
            r.received.exact@,
            forall|s: Seq<u8>, q: Seq<u8>| !crate::dedup::filter_contains(r.received.inner, s, q),
    {
        let r = FloodsubBehaviour {
            events: VecDeque::new(),
            local_peer_id,
            connected_peers: Vec::new(),
            subscribed_topics: Vec::new(),
            seq_no: 0,
            received: DedupFilter::new(),
        };
        proof {
            assert(r.events_view() =~= Seq::<ActionView>::empty());
            assert(r.subs() =~= Seq::<Seq<u8>>::empty());
            assert(r.peers() =~= Seq::<PeerEntryView>::empty());
        }
        r
    }

    /// Removes and returns the oldest pending action, or None when nothing is
    /// pending. Performs no I/O itself; the embedding engine owns the wire.
    pub fn poll(&mut self) -> (r: Option<Action>)
        ensures
            final(self).local_peer_id == old(self).local_peer_id,
            final(self).connected_peers == old(self).connected_peers,
            final(self).subscribed_topics == old(self).subscribed_topics,
            final(self).seq_no == old(self).seq_no,
            final(self).received == old(self).received,
            old(self).events@.len() == 0 ==> (r is None) && final(self).events@ == old(
                self,
            ).events@,
            old(self).events@.len() > 0 ==> r == Some(old(self).events@[0]) && final(self).events@
                == old(self).events@.drop_first(),
    {
        self.events.pop_front()
    }

    /// Subscribes to a topic. Returns true and announces the subscription to
    /// every connected peer if the topic was not yet subscribed; returns
    /// false with no effect otherwise.
    pub fn subscribe(&mut self, topic: Topic) -> (r: bool)
        requires
            old(self).wf(),
        ensures
            final(self).wf(),
            r == !old(self).subs().contains(topic@),
            !r ==> *final(self) == *old(self),
            r ==> final(self).subs() == old(self).subs().push(topic@),
            r ==> final(self).events_view() == old(self).events_view() + announcements(
                old(self).peer_ids(),
                topic@,
                SubscriptionAction::Subscribe,
            ),
            final(self).connected_peers == old(self).connected_peers,
            final(self).local_peer_id == old(self).local_peer_id,
            final(self).seq_no == old(self).seq_no,
            final(self).received == old(self).received,
    {
        let mut i: usize = 0;
        while i < self.subscribed_topics.len()
            invariant
                old(self).wf(),
                i <= self.subscribed_topics.len(),
                *self == *old(self),
                forall|j: int| 0 <= j < i ==> self.subs()[j] != topic@,
            decreases self.subscribed_topics.len() - i,
        {
            if hash_eq(&self.subscribed_topics[i].hash, &topic.hash) {
                assert(old(self).subs()[i as int] == topic@);
                return false;
            }
            i += 1;
        }
        assert(!old(self).subs().contains(topic@));

        let ghost anns = announcements(
            old(self).peer_ids(),
            topic@,
            SubscriptionAction::Subscribe,
        );
        let mut k: usize = 0;
        while k < self.connected_peers.len()
            invariant
                k <= self.connected_peers.len(),
                self.connected_peers == old(self).connected_peers,
                self.subscribed_topics == old(self).subscribed_topics,
                self.local_peer_id == old(self).local_peer_id,
                self.seq_no == old(self).seq_no,
                self.received == old(self).received,
                anns == announcements(old(self).peer_ids(), topic@, SubscriptionAction::Subscribe),
                self.events_view() == old(self).events_view() + anns.subrange(0, k as int),
                forall|j: int| 0 <= j < old(self).subs().len() ==> old(self).subs()[j] != topic@,
            decreases self.connected_peers.len() - k,
        {
            let ghost pre_events = self.events_view();
            let pid = self.connected_peers[k].id.clone();
            let mut changes: Vec<SubscriptionChange> = Vec::new();
            changes.push(
                SubscriptionChange { topic: topic.hash.clone(), action: SubscriptionAction::Subscribe },
            );
            let env = Envelope { subscriptions: changes, messages: Vec::new() };
            let act = Action::SendEnvelope { peer_id: pid, envelope: env };
            proof {
                assert(env@.subscriptions =~= crate::routing::announcement_env(
                    topic@,
                    SubscriptionAction::Subscribe,
                ).subscriptions);
                assert(env@.messages =~= Seq::<crate::types::MessageView>::empty());
                assert(old(self).peer_ids()[k as int] == old(self).peers()[k as int].id);
                assert(act@ == anns[k as int]);
            }
            self.events.push_back(act);
            proof {
                assert(self.events_view() =~= pre_events.push(act@));
                assert(anns.subrange(0, k as int).push(anns[k as int]) =~= anns.subrange(
                    0,
                    k + 1 as int,
                ));
                assert(self.events_view() =~= old(self).events_view() + anns.subrange(
                    0,
                    k + 1 as int,
                ));
            }
            k += 1;
        }
        proof {
            assert(anns.subrange(0, old(self).peer_ids().len() as int) =~= anns);
        }
        self.subscribed_topics.push(topic);
        proof {
            assert(self.subs() =~= old(self).subs().push(topic@));
            assert forall|a: int, b: int|
                0 <= a < b < self.subs().len() implies self.subs()[a] != self.subs()[b] by {
                if b == self.subs().len() - 1 {
                    assert(self.subs()[a] == old(self).subs()[a]);
                } else {
                    assert(self.subs()[a] == old(self).subs()[a]);
                    assert(self.subs()[b] == old(self).subs()[b]);
                }
            }
        }
        true
    }

    /// Unsubscribes from a topic, given its hash. Returns true and announces
    /// the change to every connected peer if the topic was subscribed;
    /// returns false with no effect otherwise.
    pub fn unsubscribe(&mut self, topic: &TopicHash) -> (r: bool)
        requires
            old(self).wf(),
        ensures
            final(self).wf(),
            r == old(self).subs().contains(topic@),
            !r ==> *final(self) == *old(self),
            r ==> (exists|pos: int|
                0 <= pos < old(self).subs().len() && old(self).subs()[pos] == topic@
                    && final(self).subs() == old(self).subs().remove(pos)),
            r ==> final(self).events_view() == old(self).events_view() + announcements(
                old(self).peer_ids(),
                topic@,
                SubscriptionAction::Unsubscribe,
            ),
            final(self).connected_peers == old(self).connected_peers,
            final(self).local_peer_id == old(self).local_peer_id,
            final(self).seq_no == old(self).seq_no,
            final(self).received == old(self).received,
    {
        let mut i: usize = 0;
        let mut pos: usize = 0;
        let mut found = false;
        while i < self.subscribed_topics.len()
            invariant
                old(self).wf(),
                i <= self.subscribed_topics.len(),
                *self == *old(self),
                !found ==> forall|j: int| 0 <= j < i ==> self.subs()[j] != topic@,
                found ==> pos < i && self.subs()[pos as int] == topic@,
            decreases self.subscribed_topics.len() - i,
        {
            if !found {
                if hash_eq(&self.subscribed_topics[i].hash, &topic) {
                    found = true;
                    pos = i;
                }
            }
            i += 1;
        }
        if !found {
            assert(!old(self).subs().contains(topic@));
            return false;
        }
        assert(old(self).subs().contains(topic@));
        let ghost oldsubs = old(self).subs();
        self.subscribed_topics.remove(pos);
        proof {
            assert(self.subs() =~= oldsubs.remove(pos as int));
            oldsubs.remove_ensures(pos as int);
            assert forall|a: int, b: int|
                0 <= a < b < self.subs().len() implies self.subs()[a] != self.subs()[b] by {
                let a2: int = if a < pos as int { a } else { a + 1 };
                let b2: int = if b < pos as int { b } else { b + 1 };
                assert(self.subs()[a] == oldsubs[a2]);
                assert(self.subs()[b] == oldsubs[b2]);
            }
        }
        let ghost mid = *self;
        let ghost anns = announcements(
            old(self).peer_ids(),
            topic@,
            SubscriptionAction::Unsubscribe,
        );
        let mut k: usize = 0;
        while k < self.connected_peers.len()
            invariant
                k <= self.connected_peers.len(),
                self.connected_peers == old(self).connected_peers,
                self.subscribed_topics == mid.subscribed_topics,
                self.local_peer_id == old(self).local_peer_id,
                self.seq_no == old(self).seq_no,
                self.received == old(self).received,
                anns == announcements(
                    old(self).peer_ids(),
                    topic@,
                    SubscriptionAction::Unsubscribe,
                ),
                self.events_view() == old(self).events_view() + anns.subrange(0, k as int),
            decreases self.connected_peers.len() - k,
        {
            let ghost pre_events = self.events_view();
            let pid = self.connected_peers[k].id.clone();
            let mut changes: Vec<SubscriptionChange> = Vec::new();
            changes.push(
                SubscriptionChange { topic: topic.clone(), action: SubscriptionAction::Unsubscribe },
            );
            let env = Envelope { subscriptions: changes, messages: Vec::new() };
            let act = Action::SendEnvelope { peer_id: pid, envelope: env };
            proof {
                assert(env@.subscriptions =~= crate::routing::announcement_env(
                    topic@,
                    SubscriptionAction::Unsubscribe,
                ).subscriptions);
                assert(env@.messages =~= Seq::<crate::types::MessageView>::empty());
                assert(old(self).peer_ids()[k as int] == old(self).peers()[k as int].id);
                assert(act@ == anns[k as int]);
            }
            self.events.push_back(act);
            proof {
                assert(self.events_view() =~= pre_events.push(act@));
                assert(anns.subrange(0, k as int).push(anns[k as int]) =~= anns.subrange(
                    0,
                    k + 1 as int,
                ));
                assert(self.events_view() =~= old(self).events_view() + anns.subrange(
                    0,
                    k + 1 as int,
                ));
            }
            k += 1;
        }
        proof {
            assert(anns.subrange(0, old(self).peer_ids().len() as int) =~= anns);
        }
        true
    }

    /// Registers a newly connected peer with an empty topic set and enqueues,
    /// addressed to it, one Subscribe announcement per locally subscribed
    /// topic, bootstrapping it with this node's full subscription state.
    pub fn inject_connected(&mut self, id: PeerId)
        requires
            old(self).wf(),
            !old(self).peer_ids().contains(id@),
        ensures
            final(self).wf(),
            final(self).peers() == old(self).peers().push(
                PeerEntryView { id: id@, topics: Seq::empty() },
            ),
            final(self).events_view() == old(self).events_view() + bootstrap(
                id@,
                old(self).subs(),
            ),
            final(self).subscribed_topics == old(self).subscribed_topics,
            final(self).local_peer_id == old(self).local_peer_id,
            final(self).seq_no == old(self).seq_no,
            final(self).received == old(self).received,
    {
        let ghost boot = bootstrap(id@, old(self).subs());
        let mut k: usize = 0;
        while k < self.subscribed_topics.len()
            invariant
                k <= self.subscribed_topics.len(),
                self.connected_peers == old(self).connected_peers,
                self.subscribed_topics == old(self).subscribed_topics,
                self.local_peer_id == old(self).local_peer_id,
                self.seq_no == old(self).seq_no,
                self.received == old(self).received,
                boot == bootstrap(id@, old(self).subs()),
                self.events_view() == old(self).events_view() + boot.subrange(0, k as int),
            decreases self.subscribed_topics.len() - k,
        {
            let ghost pre_events = self.events_view();
            let pid = id.clone();
            let mut changes: Vec<SubscriptionChange> = Vec::new();
            changes.push(
                SubscriptionChange {
                    topic: self.subscribed_topics[k].hash.clone(),
                    action: SubscriptionAction::Subscribe,
                },
            );
            let env = Envelope { subscriptions: changes, messages: Vec::new() };
            let act = Action::SendEnvelope { peer_id: pid, envelope: env };
            proof {
                assert(env@.subscriptions =~= crate::routing::announcement_env(
                    old(self).subs()[k as int],
                    SubscriptionAction::Subscribe,
                ).subscriptions);
                assert(env@.messages =~= Seq::<crate::types::MessageView>::empty());
                assert(act@ == boot[k as int]);
            }
            self.events.push_back(act);
            proof {
                assert(self.events_view() =~= pre_events.push(act@));
                assert(boot.subrange(0, k as int).push(boot[k as int]) =~= boot.subrange(
                    0,
                    k + 1 as int,
                ));
                assert(self.events_view() =~= old(self).events_view() + boot.subrange(
                    0,
                    k + 1 as int,
                ));
            }
            k += 1;
        }
        proof {
            assert(boot.subrange(0, old(self).subs().len() as int) =~= boot);
        }
        let ghost idv = id@;
        self.connected_peers.push(PeerEntry { id, topics: Vec::new() });
        proof {
            let last = self.peers().len() - 1;
            assert(self.peers()[last].topics =~= Seq::<Seq<u8>>::empty());
            assert(self.peers()[last] == (PeerEntryView { id: idv, topics: Seq::empty() }));
            assert(self.peers() =~= old(self).peers().push(
                PeerEntryView { id: idv, topics: Seq::empty() },
            ));
            assert forall|a: int, b: int|
                0 <= a < b < self.peers().len() implies self.peers()[a].id != self.peers()[b].id by {
                assert(self.peers()[a] == old(self).peers()[a]);
                if b == self.peers().len() - 1 {
                    assert(old(self).peer_ids()[a] == old(self).peers()[a].id);
                } else {
                    assert(self.peers()[b] == old(self).peers()[b]);
                }
            }
        }
    }

    /// Removes a disconnected peer's registry entry. Must be called exactly
    /// once per prior connect; afterwards no registry entry carries this
    /// peer's identifier.
    pub fn inject_disconnected(&mut self, id: &PeerId)
        requires
            old(self).wf(),
            old(self).peer_ids().contains(id@),
        ensures
            final(self).wf(),
            (exists|pos: int|
                0 <= pos < old(self).peers().len() && old(self).peers()[pos].id == id@
                    && final(self).peers() == old(self).peers().remove(pos)),
            !final(self).peer_ids().contains(id@),
            final(self).events@ == old(self).events@,
            final(self).subscribed_topics == old(self).subscribed_topics,
            final(self).local_peer_id == old(self).local_peer_id,
            final(self).seq_no == old(self).seq_no,
            final(self).received == old(self).received,
    {
        let mut i: usize = 0;
        while i < self.connected_peers.len()
            invariant
                old(self).wf(),
                old(self).peer_ids().contains(id@),
                i <= self.connected_peers.len(),
                *self == *old(self),
                forall|j: int| 0 <= j < i ==> self.peers()[j].id != id@,
            decreases self.connected_peers.len() - i,
        {
            if peer_eq(&self.connected_peers[i].id, id) {
                let ghost oldpeers = old(self).peers();
                let ghost pos = i as int;
                proof {
                    assert(oldpeers[pos].id == id@);
                }
                self.connected_peers.remove(i);
                proof {
                    assert(self.peers() =~= oldpeers.remove(pos));
                    oldpeers.remove_ensures(pos);
                    assert forall|a: int, b: int|
                        0 <= a < b < self.peers().len() implies self.peers()[a].id != self.peers()[b].id by {
                        let a2: int = if a < pos { a } else { a + 1 };
                        let b2: int = if b < pos { b } else { b + 1 };
                        assert(self.peers()[a] == oldpeers[a2]);
                        assert(self.peers()[b] == oldpeers[b2]);
                    }
                    assert forall|j: int|
                        0 <= j < self.peers().len() implies self.peers()[j].id != id@ by {
                        let j2: int = if j < pos { j } else { j + 1 };
                        assert(self.peers()[j] == oldpeers[j2]);
                        if j2 > pos {
                            assert(oldpeers[pos].id != oldpeers[j2].id);
                        }
                    }
                    assert forall|j: int|
                        0 <= j < self.peer_ids().len() implies self.peer_ids()[j] != id@ by {
                        assert(self.peer_ids()[j] == self.peers()[j].id);
                    }
                    assert(self.subscribed_topics == old(self).subscribed_topics);
                    assert forall|a: int, b: int|
                        0 <= a < b < self.subs().len() implies self.subs()[a] != self.subs()[b] by {
                        assert(self.subs() == old(self).subs());
                        assert(old(self).subs()[a] != old(self).subs()[b]);
                    }
                    assert(self.received == old(self).received);
                    assert(self.received.wf());
                }
                return;
            }
            i += 1;
        }
        proof {
            let j = choose|j: int|
                0 <= j < old(self).peer_ids().len() && old(self).peer_ids()[j] == id@;
            assert(old(self).peers()[j].id == id@);
            assert(false);
        }
    }

    /// Well-formedness carries over to a state with the same subscriptions
    /// and peers and a well-formed filter.
    proof fn lemma_wf_parts(pre: FloodsubBehaviour, post: FloodsubBehaviour)
        requires
            pre.wf(),
            post.subs() == pre.subs(),
            post.peers() == pre.peers(),
            post.received.wf(),
        ensures
            post.wf(),
    {
        assert forall|a: int, b: int|
            0 <= a < b < post.subs().len() implies post.subs()[a] != post.subs()[b] by {
            assert(pre.subs()[a] != pre.subs()[b]);
        }
        assert forall|a: int, b: int|
            0 <= a < b < post.peers().len() implies post.peers()[a].id != post.peers()[b].id by {
            assert(pre.peers()[a].id != pre.peers()[b].id);
        }
    }

    /// The message a publish call builds from the current state: sourced at
    /// the local node, carrying the next sequence number and the given topics.
    pub open spec fn built_message(self, topics: Seq<Seq<u8>>, data: Seq<u8>) -> MessageView {
        MessageView {
            source: self.local_peer_id@,
            data: data,
            sequence_number: dec_bytes(self.seq_no as nat),
            topics: topics,
        }
    }

    /// Mints the next sequence number as the decimal text of the counter and
    /// advances the counter.
    fn next_sequence_number(&mut self) -> (r: Vec<u8>)
        requires
            old(self).seq_no < u64::MAX,
        ensures
            r@ == dec_bytes(old(self).seq_no as nat),
            final(self).seq_no == old(self).seq_no + 1,
            final(self).events == old(self).events,
            final(self).local_peer_id == old(self).local_peer_id,
            final(self).connected_peers == old(self).connected_peers,
            final(self).subscribed_topics == old(self).subscribed_topics,
            final(self).received == old(self).received,
    {
        let ghost orig = self.seq_no as nat;
        let mut out: Vec<u8> = Vec::new();
        let mut n: u64 = self.seq_no;
        if n == 0 {
            out.push(48);
            proof {
                assert(out@ =~= dec_bytes(orig));
            }
        } else {
            while n > 0
                invariant
                    *self == *old(self),
                    orig == old(self).seq_no as nat,
                    n > 0 ==> dec_bytes(orig) == dec_bytes(n as nat) + out@,
                    n == 0 ==> dec_bytes(orig) == out@,
                decreases n,
            {
                let ghost n0 = n as nat;
                let ghost out0 = out@;
                let d: u8 = (n % 10) as u8 + 48;
                out.insert(0, d);
                proof {
                    assert(out@ =~= seq![d] + out0);
                    assert(d == (48 + n0 % 10) as u8);
                    if n0 < 10 {
                        assert(dec_bytes(n0) =~= seq![d]);
                        assert(dec_bytes(orig) =~= out@);
                    } else {
                        assert(dec_bytes(n0) == dec_bytes(n0 / 10).push(d));
                        assert(dec_bytes(n0) + out0 =~= dec_bytes(n0 / 10) + (seq![d] + out0));
                    }
                }
                n = n / 10;
            }
        }
        self.seq_no = self.seq_no + 1;
        out
    }

    /// Publishes a message with several topics. The sequence counter always
    /// advances; when none of the topics is locally subscribed the message is
    /// discarded with no further effect, otherwise its identity is marked
    /// seen and one envelope is enqueued per peer whose topics intersect.
    pub fn publish_many(&mut self, topics: Vec<TopicHash>, data: Vec<u8>)
        requires
            old(self).wf(),
            old(self).seq_no < u64::MAX,
        ensures
            final(self).wf(),
            final(self).seq_no == old(self).seq_no + 1,
            final(self).subscribed_topics == old(self).subscribed_topics,
            final(self).connected_peers == old(self).connected_peers,
            final(self).local_peer_id == old(self).local_peer_id,
            !seqs_intersect(old(self).subs(), hashes_view(topics@)) ==> final(self).events == old(
                self,
            ).events && final(self).received == old(self).received,
            seqs_intersect(old(self).subs(), hashes_view(topics@)) ==> final(self).received.seen@
                == old(self).received.seen@.insert(
                msg_id(old(self).built_message(hashes_view(topics@), data@)),
            ),
            seqs_intersect(old(self).subs(), hashes_view(topics@))
                ==> (final(self).received.exact@ ==> old(self).received.exact@),
            seqs_intersect(old(self).subs(), hashes_view(topics@)) ==> final(self).events_view()
                == old(self).events_view() + publish_fanout(
                old(self).peers(),
                old(self).built_message(hashes_view(topics@), data@),
            ),
    {
        let ghost m = old(self).built_message(hashes_view(topics@), data@);
        let sequence_number = self.next_sequence_number();
        let message = Message {
            source: self.local_peer_id.clone(),
            data: data,
            sequence_number: sequence_number,
            topics: topics,
        };
        proof {
            assert(message@ == m);
        }

        if !crate::routing::subs_intersect(&self.subscribed_topics, &message.topics) {
            proof {
                assert(self.received.wf());
                Self::lemma_wf_parts(*old(self), *self);
            }
            return;
        }

        self.received.mark_seen(&message.source.bytes, &message.sequence_number);
        proof {
            assert((message.source.bytes@, message.sequence_number@) == msg_id(m));
        }

        let ghost fan = publish_fanout(old(self).peers(), m);
        let ghost mid = *self;
        let mut k: usize = 0;
        while k < self.connected_peers.len()
            invariant
                k <= self.connected_peers.len(),
                message@ == m,
                fan == publish_fanout(old(self).peers(), m),
                self.connected_peers == old(self).connected_peers,
                self.subscribed_topics == old(self).subscribed_topics,
                self.local_peer_id == old(self).local_peer_id,
                self.seq_no == mid.seq_no,
                self.received == mid.received,
                self.received.wf(),
                self.events_view() == old(self).events_view() + crate::routing::fanout_upto(
                    old(self).peers(),
                    m,
                    k as int,
                ),
            decreases self.connected_peers.len() - k,
        {
            let ghost pre_events = self.events_view();
            let qualifies = crate::routing::topics_intersect(
                &self.connected_peers[k].topics,
                &message.topics,
            );
            proof {
                assert(old(self).peers()[k as int].topics == hashes_view(
                    self.connected_peers@[k as int].topics@,
                ));
                assert(qualifies == seqs_intersect(old(self).peers()[k as int].topics, m.topics));
            }
            if qualifies {
                let pid = self.connected_peers[k].id.clone();
                let mut one: Vec<Message> = Vec::new();
                one.push(message.clone());
                let env = Envelope { subscriptions: Vec::new(), messages: one };
                let act = Action::SendEnvelope { peer_id: pid, envelope: env };
                proof {
                    assert(env@.messages =~= seq![m]);
                    assert(env@.subscriptions =~= Seq::<crate::types::SubscriptionChangeView>::empty());
                    assert(env@ == crate::routing::message_env(seq![m]));
                    assert(act@ == (ActionView::SendEnvelope {
                        peer_id: old(self).peers()[k as int].id,
                        envelope: crate::routing::message_env(seq![m]),
                    }));
                }
                self.events.push_back(act);
                proof {
                    assert(self.events_view() =~= pre_events.push(act@));
                    assert(crate::routing::fanout_upto(old(self).peers(), m, k + 1 as int)
                        =~= crate::routing::fanout_upto(old(self).peers(), m, k as int).push(act@));
                    assert(self.events_view() =~= old(self).events_view()
                        + crate::routing::fanout_upto(old(self).peers(), m, k + 1 as int));
                }
            } else {
                proof {
                    assert(crate::routing::fanout_upto(old(self).peers(), m, k + 1 as int)
                        == crate::routing::fanout_upto(old(self).peers(), m, k as int));
                }
            }
            k += 1;
        }
        proof {
            assert(self.events_view() == old(self).events_view() + fan);
            Self::lemma_wf_parts(*old(self), *self);
        }
    }

    /// Publishes a message with a single topic.
    pub fn publish(&mut self, topic: TopicHash, data: Vec<u8>)
        requires
            old(self).wf(),
            old(self).seq_no < u64::MAX,
        ensures
            final(self).wf(),
            final(self).seq_no == old(self).seq_no + 1,
            final(self).subscribed_topics == old(self).subscribed_topics,
            final(self).connected_peers == old(self).connected_peers,
            final(self).local_peer_id == old(self).local_peer_id,
            !seqs_intersect(old(self).subs(), seq![topic@]) ==> final(self).events == old(
                self,
            ).events && final(self).received == old(self).received,
            seqs_intersect(old(self).subs(), seq![topic@]) ==> final(self).received.seen@ == old(
                self,
            ).received.seen@.insert(msg_id(old(self).built_message(seq![topic@], data@))),
            seqs_intersect(old(self).subs(), seq![topic@]) ==> (final(self).received.exact@ ==> old(
                self,
            ).received.exact@),
            seqs_intersect(old(self).subs(), seq![topic@]) ==> final(self).events_view() == old(
                self,
            ).events_view() + publish_fanout(
                old(self).peers(),
                old(self).built_message(seq![topic@], data@),
            ),
    {
        let ghost th = topic@;
        let mut topics: Vec<TopicHash> = Vec::new();
        topics.push(topic);
        proof {
            assert(hashes_view(topics@) =~= seq![th]);
        }
        self.publish_many(topics, data);
    }
}

/// The views of the relay accumulation entries.
pub open spec fn rpcs_view(s: Seq<(PeerId, Vec<Message>)>) -> Seq<(Seq<u8>, Seq<MessageView>)> {
    s.map(|i: int, e: (PeerId, Vec<Message>)| (e.0@, msgs_view(e.1@)))
}

/// Finds the index of the relay entry addressed to `pid`, scanning in order.
fn find_rpc_pos(rpcs: &Vec<(PeerId, Vec<Message>)>, pid: &PeerId) -> (r: Option<usize>)
    ensures
        crate::routing::rpc_find(rpcs_view(rpcs@), pid@) < 0 ==> (r is None),
        crate::routing::rpc_find(rpcs_view(rpcs@), pid@) >= 0 ==> r == Some(
            crate::routing::rpc_find(rpcs_view(rpcs@), pid@) as usize,
        ),
{
    let ghost rv = rpcs_view(rpcs@);
    let mut pos: usize = 0;
    while pos < rpcs.len()
        invariant
            pos <= rpcs.len(),
            rv == rpcs_view(rpcs@),
            forall|t: int| 0 <= t < pos ==> rv[t].0 != pid@,
        decreases rpcs.len() - pos,
    {
        if peer_eq(&rpcs[pos].0, pid) {
            proof {
                crate::routing::lemma_rpc_find(rv, pid@);
                assert(rv[pos as int].0 == pid@);
                let f = crate::routing::rpc_find(rv, pid@);
                assert(f >= 0);
                if f < pos as int {
                    assert(rv[f].0 != pid@);
                }
                if f > pos as int {
                    assert(rv[pos as int].0 != pid@);
                }
                assert(f == pos as int);
            }
            return Some(pos);
        }
        pos += 1;
    }
    proof {
        crate::routing::lemma_rpc_find(rv, pid@);
        let f = crate::routing::rpc_find(rv, pid@);
        if f >= 0 {
            assert(rv[f].0 != pid@);
        }
    }
    None
}

impl FloodsubBehaviour {
    /// Routes an inbound batch whose messages have already been tested
    /// against the deduplication filter: enqueues one delivery per fresh
    /// message of local interest, then one coalesced relay envelope per
    /// qualifying destination peer, never addressing the batch's source.
    /// This is the whole routing logic, verified for every value of `fresh`.
    pub fn route_inbound(
        &mut self,
        propagation_source: &PeerId,
        messages: &Vec<Message>,
        fresh: &Vec<bool>,
    )
        requires
            old(self).wf(),
            fresh@.len() == messages@.len(),
        ensures
            final(self).wf(),
            final(self).subscribed_topics == old(self).subscribed_topics,
            final(self).connected_peers == old(self).connected_peers,
            final(self).local_peer_id == old(self).local_peer_id,
            final(self).seq_no == old(self).seq_no,
            final(self).received == old(self).received,
            final(self).events_view() == old(self).events_view() + crate::routing::route_batch(
                old(self).peers(),
                old(self).subs(),
                propagation_source@,
                msgs_view(messages@),
                fresh@,
            ),
    {
        let ghost peers0 = old(self).peers();
        let ghost subs0 = old(self).subs();
        let ghost src = propagation_source@;
        let ghost msgsv = msgs_view(messages@);
        let ghost freshv = fresh@;

        let mut rpcs: Vec<(PeerId, Vec<Message>)> = Vec::new();
        proof {
            assert(rpcs_view(rpcs@) =~= crate::routing::rpcs_upto(peers0, src, msgsv, freshv, 0));
        }
        let mut i: usize = 0;
        while i < messages.len()
            invariant
                i <= messages.len(),
                fresh@.len() == messages@.len(),
                peers0 == old(self).peers(),
                subs0 == old(self).subs(),
                src == propagation_source@,
                msgsv == msgs_view(messages@),
                freshv == fresh@,
                self.connected_peers == old(self).connected_peers,
                self.subscribed_topics == old(self).subscribed_topics,
                self.local_peer_id == old(self).local_peer_id,
                self.seq_no == old(self).seq_no,
                self.received == old(self).received,
                self.events_view() == old(self).events_view() + crate::routing::deliveries_upto(
                    subs0,
                    msgsv,
                    freshv,
                    i as int,
                ),
                rpcs_view(rpcs@) == crate::routing::rpcs_upto(peers0, src, msgsv, freshv, i as int),
            decreases messages.len() - i,
        {
            if fresh[i] {
                if crate::routing::subs_intersect(&self.subscribed_topics, &messages[i].topics) {
                    let ghost pre_events = self.events_view();
                    let act = Action::Deliver { message: messages[i].clone() };
                    proof {
                        assert(act@ == (ActionView::Deliver { message: msgsv[i as int] }));
                    }
                    self.events.push_back(act);
                    proof {
                        assert(self.events_view() =~= pre_events.push(act@));
                        assert(crate::routing::deliveries_upto(subs0, msgsv, freshv, i + 1 as int)
                            =~= crate::routing::deliveries_upto(subs0, msgsv, freshv, i as int).push(
                            act@,
                        ));
                    }
                } else {
                    proof {
                        assert(crate::routing::deliveries_upto(subs0, msgsv, freshv, i + 1 as int)
                            == crate::routing::deliveries_upto(subs0, msgsv, freshv, i as int));
                    }
                }

                let ghost rpcs_entry = rpcs_view(rpcs@);
                let ghost ev_now = self.events_view();
                let mut k: usize = 0;
                while k < self.connected_peers.len()
                    invariant
                        k <= self.connected_peers.len(),
                        i < messages.len(),
                        fresh@.len() == messages@.len(),
                        peers0 == old(self).peers(),
                        src == propagation_source@,
                        msgsv == msgs_view(messages@),
                        freshv == fresh@,
                        self.connected_peers == old(self).connected_peers,
                        self.subscribed_topics == old(self).subscribed_topics,
                        self.local_peer_id == old(self).local_peer_id,
                        self.seq_no == old(self).seq_no,
                        self.received == old(self).received,
                        self.events_view() == ev_now,
                        rpcs_view(rpcs@) == crate::routing::accum_peers_upto(
                            peers0,
                            src,
                            rpcs_entry,
                            msgsv[i as int],
                            k as int,
                        ),
                    decreases self.connected_peers.len() - k,
                {
                    let ghost accum_prev = rpcs_view(rpcs@);
                    let not_src = !peer_eq(&self.connected_peers[k].id, propagation_source);
                    let qualifies = not_src && crate::routing::topics_intersect(
                        &self.connected_peers[k].topics,
                        &messages[i].topics,
                    );
                    proof {
                        assert(peers0[k as int].id == self.connected_peers@[k as int].id@);
                        assert(peers0[k as int].topics == hashes_view(
                            self.connected_peers@[k as int].topics@,
                        ));
                        assert(qualifies == (peers0[k as int].id != src
                            && crate::routing::seqs_intersect(
                            peers0[k as int].topics,
                            msgsv[i as int].topics,
                        )));
                    }
                    if qualifies {
                        let found = find_rpc_pos(&rpcs, &self.connected_peers[k].id);
                        proof {
                            crate::routing::lemma_rpc_find(accum_prev, peers0[k as int].id);
                        }
                        match found {
                            Some(pos) => {
                                let ghost f = crate::routing::rpc_find(
                                    accum_prev,
                                    peers0[k as int].id,
                                );
                                proof {
                                    assert(found == Some(pos));
                                    assert(self.connected_peers@[k as int].id@ == peers0[
                                        k as int
                                    ].id);
                                    assert(f >= 0);
                                    assert(f < accum_prev.len());
                                    assert(pos == f as usize);
                                }
                                let ghost pre_rpcs = rpcs@;
                                let mut entry = rpcs.remove(pos);
                                proof {
                                    assert(entry == pre_rpcs[pos as int]);
                                    assert(pos as int == f);
                                    assert(accum_prev == rpcs_view(pre_rpcs));
                                    assert(accum_prev[f] == (
                                        pre_rpcs[f].0@,
                                        msgs_view(pre_rpcs[f].1@),
                                    ));
                                }
                                let ghost entry0 = entry;
                                entry.1.push(messages[i].clone());
                                let ghost mid_rpcs = rpcs@;
                                rpcs.insert(pos, entry);
                                proof {
                                    let target = crate::routing::insert_rpc(
                                        accum_prev,
                                        peers0[k as int].id,
                                        msgsv[i as int],
                                    );
                                    assert(target == accum_prev.update(
                                        f,
                                        (peers0[k as int].id, accum_prev[f].1.push(msgsv[i as int])),
                                    ));
                                    mid_rpcs.insert_ensures(pos as int, entry);
                                    assert(msgs_view(entry0.1@) == accum_prev[f].1);
                                    assert(msgs_view(entry.1@) =~= accum_prev[f].1.push(
                                        msgsv[i as int],
                                    ));
                                    assert forall|j: int|
                                        0 <= j < rpcs_view(rpcs@).len() implies rpcs_view(rpcs@)[j]
                                        == target[j] by {
                                        if j < pos as int {
                                            assert(rpcs@[j] == mid_rpcs[j]);
                                        } else if j == pos as int {
                                            assert(rpcs@[j] == entry);
                                        } else {
                                            assert(rpcs@[j] == mid_rpcs[j - 1]);
                                        }
                                    }
                                    assert(rpcs_view(rpcs@) =~= target);
                                }
                            },
                            None => {
                                let pid = self.connected_peers[k].id.clone();
                                let mut one: Vec<Message> = Vec::new();
                                one.push(messages[i].clone());
                                rpcs.push((pid, one));
                                proof {
                                    let target = crate::routing::insert_rpc(
                                        accum_prev,
                                        peers0[k as int].id,
                                        msgsv[i as int],
                                    );
                                    assert(target == accum_prev.push(
                                        (peers0[k as int].id, seq![msgsv[i as int]]),
                                    ));
                                    assert(msgs_view(one@) =~= seq![msgsv[i as int]]);
                                    assert(rpcs_view(rpcs@) =~= target);
                                }
                            },
                        }
                        proof {
                            assert(rpcs_view(rpcs@) == crate::routing::accum_peers_upto(
                                peers0,
                                src,
                                rpcs_entry,
                                msgsv[i as int],
                                k + 1 as int,
                            ));
                        }
                    } else {
                        proof {
                            assert(crate::routing::accum_peers_upto(
                                peers0,
                                src,
                                rpcs_entry,
                                msgsv[i as int],
                                k + 1 as int,
                            ) == crate::routing::accum_peers_upto(
                                peers0,
                                src,
                                rpcs_entry,
                                msgsv[i as int],
                                k as int,
                            ));
                        }
                    }
                    k += 1;
                }
                proof {
                    assert(rpcs_view(rpcs@) == crate::routing::accum_msg(
                        peers0,
                        src,
                        crate::routing::rpcs_upto(peers0, src, msgsv, freshv, i as int),
                        msgsv[i as int],
                    ));
                    assert(rpcs_view(rpcs@) == crate::routing::rpcs_upto(
                        peers0,
                        src,
                        msgsv,
                        freshv,
                        i + 1 as int,
                    ));
                }
            } else {
                proof {
                    assert(crate::routing::deliveries_upto(subs0, msgsv, freshv, i + 1 as int)
                        == crate::routing::deliveries_upto(subs0, msgsv, freshv, i as int));
                    assert(crate::routing::rpcs_upto(peers0, src, msgsv, freshv, i + 1 as int)
                        == crate::routing::rpcs_upto(peers0, src, msgsv, freshv, i as int));
                }
            }
            i += 1;
        }

        let ghost dels = crate::routing::deliveries_upto(
            subs0,
            msgsv,
            freshv,
            msgsv.len() as int,
        );
        let ghost full = rpcs_view(rpcs@);
        let ghost sends = crate::routing::rpc_sends(full);
        let ghost base = self.events_view();
        let ghost n_rpcs = full.len() as int;
        while rpcs.len() > 0
            invariant
                peers0 == old(self).peers(),
                subs0 == old(self).subs(),
                self.connected_peers == old(self).connected_peers,
                self.subscribed_topics == old(self).subscribed_topics,
                self.local_peer_id == old(self).local_peer_id,
                self.seq_no == old(self).seq_no,
                self.received == old(self).received,
                n_rpcs == full.len(),
                sends == crate::routing::rpc_sends(full),
                rpcs@.len() <= n_rpcs,
                rpcs_view(rpcs@) == full.subrange(n_rpcs - rpcs@.len(), n_rpcs),
                self.events_view() == base + sends.subrange(0, n_rpcs - rpcs@.len()),
            decreases rpcs.len(),
        {
            let ghost done = n_rpcs - rpcs@.len();
            let ghost pre_seq = rpcs@;
            let ghost pre_view = rpcs_view(rpcs@);
            let ghost pre_events = self.events_view();
            let entry = rpcs.remove(0);
            proof {
                assert(pre_view[0] == full[done]);
                assert(entry == pre_seq[0]);
                assert((entry.0@, msgs_view(entry.1@)) == full[done]);
                pre_seq.remove_ensures(0);
                assert forall|j: int|
                    0 <= j < rpcs_view(rpcs@).len() implies rpcs_view(rpcs@)[j] == full.subrange(
                    done + 1,
                    n_rpcs,
                )[j] by {
                    assert(rpcs@[j] == pre_seq[j + 1]);
                    assert(pre_view[j + 1] == full[done + 1 + j]);
                }
                assert(rpcs_view(rpcs@) =~= full.subrange(done + 1, n_rpcs));
            }
            let env = Envelope { subscriptions: Vec::new(), messages: entry.1 };
            let act = Action::SendEnvelope { peer_id: entry.0, envelope: env };
            proof {
                assert(env@.subscriptions =~= Seq::<crate::types::SubscriptionChangeView>::empty());
                assert(env@ == crate::routing::message_env(full[done].1));
                assert(act@ == sends[done]);
            }
            self.events.push_back(act);
            proof {
                assert(self.events_view() =~= pre_events.push(act@));
                assert(sends.subrange(0, done).push(sends[done]) =~= sends.subrange(0, done + 1));
            }
        }
        proof {
            assert(sends.subrange(0, n_rpcs) =~= sends);
            assert(full == crate::routing::rpcs_upto(peers0, src, msgsv, freshv, msgsv.len() as int));
            assert(base == old(self).events_view() + dels);
            assert(self.events_view() =~= old(self).events_view() + (dels + sends));
            assert(dels + sends == crate::routing::route_batch(peers0, subs0, src, msgsv, freshv));
            assert(self.received.wf());
            Self::lemma_wf_parts(*old(self), *self);
        }
    }

    /// What holds of an inbound batch's outcome, for one marking `fresh` of
    /// its messages: the marking covers the batch; it never treats an
    /// identity as fresh that was seen before the batch or earlier within it,
    /// as long as the filter has dropped no entry; and the enqueued actions
    /// are exactly those `route_batch` describes for that marking.
    pub open spec fn inbound_outcome(
        pre: FloodsubBehaviour,
        post: FloodsubBehaviour,
        src: Seq<u8>,
        msgs: Seq<MessageView>,
        fresh: Seq<bool>,
    ) -> bool {
        &&& fresh.len() == msgs.len()
        &&& (post.received.exact@ ==> crate::routing::marks_respect_seen(
            pre.received.seen@,
            msgs,
            fresh,
        ))
        &&& post.events_view() == pre.events_view() + crate::routing::route_batch(
            pre.peers(),
            pre.subs(),
            src,
            msgs,
            fresh,
        )
    }

    /// The chain of deduplication-filter states an inbound batch runs
    /// through: one state per message boundary, starting at the state before
    /// the batch and ending at the state after it, each step performed as
    /// `test_and_mark` performs it. It pins the first mark to what the real
    /// filter reported before the batch, and every later mark to the filter
    /// state its message was tested against.
    pub open spec fn dedup_chain(
        first: DedupFilter,
        last: DedupFilter,
        msgs: Seq<MessageView>,
        fresh: Seq<bool>,
        states: Seq<DedupFilter>,
    ) -> bool {
        &&& states.len() == msgs.len() + 1
        &&& states[0] == first
        &&& states[msgs.len() as int] == last
        &&& forall|i: int|
            0 <= i < msgs.len() ==> crate::dedup::dedup_step(
                states[i],
                states[i + 1],
                (#[trigger] msgs[i]).source,
                msgs[i].sequence_number,
                fresh[i],
            )
    }

    /// The full postcondition witness of an inbound batch: the marking
    /// produced the routed actions, and it arose from the filter-state chain.
    pub open spec fn inbound_witness(
        pre: FloodsubBehaviour,
        post: FloodsubBehaviour,
        src: Seq<u8>,
        msgs: Seq<MessageView>,
        fresh: Seq<bool>,
        states: Seq<DedupFilter>,
    ) -> bool {
        &&& Self::inbound_outcome(pre, post, src, msgs, fresh)
        &&& Self::dedup_chain(pre.received, post.received, msgs, fresh, states)
    }

    /// Processes an inbound envelope from a peer: each message is tested
    /// against the deduplication filter in arrival order, and the fresh ones
    /// are delivered and relayed as `route_inbound` describes. The marking is
    /// pinned, message by message, to what the filter reported in the state
    /// it was tested against (the state chain of `inbound_witness`, starting
    /// at the filter's real prior state), and it never treats an already-seen
    /// identity as fresh while the filter has dropped nothing.
    pub fn inject_node_event(&mut self, propagation_source: PeerId, event: Envelope)
        requires
            old(self).wf(),
        ensures
            final(self).wf(),
            final(self).subscribed_topics == old(self).subscribed_topics,
            final(self).connected_peers == old(self).connected_peers,
            final(self).local_peer_id == old(self).local_peer_id,
            final(self).seq_no == old(self).seq_no,
            final(self).received.seen@ == crate::routing::seen_after(
                old(self).received.seen@,
                event@.messages,
                event@.messages.len() as int,
            ),
            final(self).received.exact@ ==> old(self).received.exact@,
            (exists|fresh: Seq<bool>, states: Seq<DedupFilter>|
                Self::inbound_witness(
                    *old(self),
                    *final(self),
                    propagation_source@,
                    event@.messages,
                    fresh,
                    states,
                )),
    {
        let ghost seen0 = old(self).received.seen@;
        let ghost msgsv = msgs_view(event.messages@);
        proof {
            assert(msgsv == event@.messages);
        }
        let messages = event.messages;
        let mut fresh: Vec<bool> = Vec::new();
        let ghost mut states: Seq<DedupFilter> = seq![old(self).received];
        let mut i: usize = 0;
        while i < messages.len()
            invariant
                i <= messages.len(),
                fresh@.len() == i,
                msgsv == msgs_view(messages@),
                seen0 == old(self).received.seen@,
                states.len() == i + 1,
                states[0] == old(self).received,
                states[i as int] == self.received,
                forall|j: int|
                    0 <= j < i ==> crate::dedup::dedup_step(
                        states[j],
                        states[j + 1],
                        (#[trigger] msgsv[j]).source,
                        msgsv[j].sequence_number,
                        fresh@[j],
                    ),
                self.received.wf(),
                self.received.seen@ == crate::routing::seen_after(seen0, msgsv, i as int),
                self.received.exact@ ==> old(self).received.exact@,
                self.received.exact@ ==> forall|j: int|
                    0 <= j < i ==> #[trigger] crate::routing::mark_ok(seen0, msgsv, fresh@, j),
                self.events == old(self).events,
                self.connected_peers == old(self).connected_peers,
                self.subscribed_topics == old(self).subscribed_topics,
                self.local_peer_id == old(self).local_peer_id,
                self.seq_no == old(self).seq_no,
            decreases messages.len() - i,
        {
            let ghost pre = self.received;
            let ghost pre_fresh = fresh@;
            let m = &messages[i];
            let is_fresh = self.received.test_and_mark(&m.source.bytes, &m.sequence_number);
            fresh.push(is_fresh);
            proof {
                assert((m.source.bytes@, m.sequence_number@) == msg_id(msgsv[i as int]));
                let pre_states = states;
                states = states.push(self.received);
                assert(crate::dedup::dedup_step(
                    pre,
                    self.received,
                    msgsv[i as int].source,
                    msgsv[i as int].sequence_number,
                    is_fresh,
                ));
                assert forall|j: int|
                    0 <= j < i + 1 implies crate::dedup::dedup_step(
                    states[j],
                    states[j + 1],
                    (#[trigger] msgsv[j]).source,
                    msgsv[j].sequence_number,
                    fresh@[j],
                ) by {
                    if j < i as int {
                        assert(states[j] == pre_states[j]);
                        assert(states[j + 1] == pre_states[j + 1]);
                        assert(fresh@[j] == pre_fresh[j]);
                    } else {
                        assert(states[j] == pre);
                        assert(states[j + 1] == self.received);
                        assert(fresh@[j] == is_fresh);
                    }
                }
                assert(self.received.seen@ == crate::routing::seen_after(
                    seen0,
                    msgsv,
                    i + 1 as int,
                ));
                crate::routing::lemma_seen_after_contains(seen0, msgsv, i as int);
                if self.received.exact@ {
                    assert(pre.exact@);
                    assert forall|j: int|
                        0 <= j < i + 1 implies #[trigger] crate::routing::mark_ok(
                        seen0,
                        msgsv,
                        fresh@,
                        j,
                    ) by {
                        if j < i as int {
                            assert(crate::routing::mark_ok(seen0, msgsv, pre_fresh, j));
                            assert(fresh@[j] == pre_fresh[j]);
                        } else {
                            let id = msg_id(msgsv[j]);
                            if seen0.contains(id) || (exists|t: int|
                                0 <= t < j && msg_id(msgsv[t]) == id) {
                                assert(crate::routing::seen_after(seen0, msgsv, i as int).contains(
                                    id,
                                ));
                                assert(pre.seen@.contains(id));
                                assert(!is_fresh);
                            }
                        }
                    }
                }
            }
            i += 1;
        }
        proof {
            assert(self.subs() == old(self).subs());
            assert(self.peers() == old(self).peers());
            Self::lemma_wf_parts(*old(self), *self);
            assert(Self::dedup_chain(old(self).received, self.received, msgsv, fresh@, states));
        }
        self.route_inbound(&propagation_source, &messages, &fresh);
        proof {
            let freshv = fresh@;
            assert(freshv.len() == event@.messages.len());
            if self.received.exact@ {
                assert(crate::routing::marks_respect_seen(seen0, msgsv, freshv));
            }
            assert(self.events_view() == old(self).events_view() + crate::routing::route_batch(
                old(self).peers(),
                old(self).subs(),
                propagation_source@,
                event@.messages,
                freshv,
            ));
            assert(Self::inbound_outcome(
                *old(self),
                *self,
                propagation_source@,
                event@.messages,
                freshv,
            ));
            assert(Self::dedup_chain(
                old(self).received,
                self.received,
                event@.messages,
                freshv,
                states,
            ));
            assert(Self::inbound_witness(
                *old(self),
                *self,
                propagation_source@,
                event@.messages,
                freshv,
                states,
            ));
        }
    }
}

/// On an instance whose filter contains nothing — as a newly created one
/// does — the first message of an inbound batch is necessarily marked fresh:
/// together with `inbound_witness`, its delivery and relay are then forced
/// exactly as `route_batch` describes wherever its topics qualify. (For
/// later messages, or a filter with history, a false positive may honestly
/// suppress a new message, so no stronger claim holds.)
pub proof fn lemma_first_mark_forced(
    first: DedupFilter,
    last: DedupFilter,
    msgs: Seq<MessageView>,
    fresh: Seq<bool>,
    states: Seq<DedupFilter>,
)
    requires
        FloodsubBehaviour::dedup_chain(first, last, msgs, fresh, states),
        msgs.len() > 0,
        forall|s: Seq<u8>, q: Seq<u8>| !crate::dedup::filter_contains(first.inner, s, q),
    ensures
        fresh[0],
{
    assert(crate::dedup::dedup_step(
        states[0],
        states[1],
        (msgs[0]).source,
        msgs[0].sequence_number,
        fresh[0],
    ));
    assert(!crate::dedup::filter_contains(first.inner, msgs[0].source, msgs[0].sequence_number));
}

/// The decimal text of a counter value, as ASCII bytes, most significant
/// digit first: what the counter's value prints as.
pub open spec fn dec_bytes(n: nat) -> Seq<u8>
    decreases n,
{
    if n < 10 {
        seq![(48 + n) as u8]
    } else {
        dec_bytes(n / 10).push((48 + n % 10) as u8)
    }
}

pub proof fn lemma_dec_bytes_len(n: nat)
    ensures
        dec_bytes(n).len() >= 1,
    decreases n,
{
    if n >= 10 {
        lemma_dec_bytes_len(n / 10);
    }
}

/// Sequence-number minting is injective: distinct counter values yield
/// distinct decimal byte strings, so consecutive local publishes produce
/// messages with pairwise distinct identities.
pub proof fn lemma_sequence_number_injective(a: nat, b: nat)
    requires
        a != b,
    ensures
        dec_bytes(a) != dec_bytes(b),
    decreases a + b,
{
    if dec_bytes(a) == dec_bytes(b) {
        if a < 10 && b < 10 {
            assert(dec_bytes(a)[0] == (48 + a) as u8);
            assert(dec_bytes(b)[0] == (48 + b) as u8);
            assert((48 + a) as u8 == 48 + a);
            assert((48 + b) as u8 == 48 + b);
        } else if a < 10 {
            lemma_dec_bytes_len(b / 10);
            assert(dec_bytes(a).len() == 1);
            assert(dec_bytes(b).len() >= 2);
        } else if b < 10 {
            lemma_dec_bytes_len(a / 10);
            assert(dec_bytes(b).len() == 1);
            assert(dec_bytes(a).len() >= 2);
        } else {
            let pa = dec_bytes(a / 10);
            let pb = dec_bytes(b / 10);
            assert(dec_bytes(a) == pa.push((48 + a % 10) as u8));
            assert(dec_bytes(b) == pb.push((48 + b % 10) as u8));
            assert(pa.len() == pb.len());
            assert forall|i: int| 0 <= i < pa.len() implies pa[i] == pb[i] by {
                assert(dec_bytes(a)[i] == pa[i]);
                assert(dec_bytes(b)[i] == pb[i]);
            }
            assert(pa =~= pb);
            assert(dec_bytes(a)[pa.len() as int] == (48 + a % 10) as u8);
            assert(dec_bytes(b)[pb.len() as int] == (48 + b % 10) as u8);
            assert((48 + a % 10) as u8 == 48 + a % 10);
            assert((48 + b % 10) as u8 == 48 + b % 10);
            assert(a % 10 == b % 10);
            if a / 10 == b / 10 {
                assert(a == (a / 10) * 10 + a % 10) by (nonlinear_arith);
                assert(b == (b / 10) * 10 + b % 10) by (nonlinear_arith);
            } else {
                lemma_sequence_number_injective(a / 10, b / 10);
            }
        }
    }
}

} // verus!
