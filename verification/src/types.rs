use vstd::prelude::*;

verus! {

/// Opaque identifier of a network participant; compared by its bytes.
pub struct PeerId {
    pub bytes: Vec<u8>,
}

impl View for PeerId {
    type V = Seq<u8>;

    open spec fn view(&self) -> Seq<u8> {
        self.bytes@
    }
}

/// Content-derived identifier of a topic; two topics denote the same
/// subscription target exactly when their hashes are equal.
pub struct TopicHash {
    pub bytes: Vec<u8>,
}

impl View for TopicHash {
    type V = Seq<u8>;

    open spec fn view(&self) -> Seq<u8> {
        self.bytes@
    }
}

/// A subscribable channel, identified by its hash.
pub struct Topic {
    pub hash: TopicHash,
}

impl View for Topic {
    type V = Seq<u8>;

    open spec fn view(&self) -> Seq<u8> {
        self.hash@
    }
}

/// Whether a subscription announcement declares joining or leaving a topic.
#[derive(Clone, Copy, PartialEq, Eq, Structural)]
pub enum SubscriptionAction {
    Subscribe,
    Unsubscribe,
}

/// A declarative announcement of a subscription change for one topic.
pub struct SubscriptionChange {
    pub topic: TopicHash,
    pub action: SubscriptionAction,
}

pub struct SubscriptionChangeView {
    pub topic: Seq<u8>,
    pub action: SubscriptionAction,
}

impl View for SubscriptionChange {
    type V = SubscriptionChangeView;

    open spec fn view(&self) -> SubscriptionChangeView {
        SubscriptionChangeView { topic: self.topic@, action: self.action }
    }
}

/// A wire-level message: its identity for deduplication is the pair of
/// `source` and `sequence_number`.
pub struct Message {
    pub source: PeerId,
    pub data: Vec<u8>,
    pub sequence_number: Vec<u8>,
    pub topics: Vec<TopicHash>,
}

pub struct MessageView {
    pub source: Seq<u8>,
    pub data: Seq<u8>,
    pub sequence_number: Seq<u8>,
    pub topics: Seq<Seq<u8>>,
}

impl View for Message {
    type V = MessageView;

    open spec fn view(&self) -> MessageView {
        MessageView {
            source: self.source@,
            data: self.data@,
            sequence_number: self.sequence_number@,
            topics: self.topics@.map(|i: int, t: TopicHash| t@),
        }
    }
}

/// The deduplication identity of a message: source bytes and sequence bytes.
pub open spec fn msg_id(m: MessageView) -> (Seq<u8>, Seq<u8>) {
    (m.source, m.sequence_number)
}

/// The unit exchanged with a peer: subscription announcements and messages;
/// either part may be empty.
pub struct Envelope {
    pub subscriptions: Vec<SubscriptionChange>,
    pub messages: Vec<Message>,
}

pub struct EnvelopeView {
    pub subscriptions: Seq<SubscriptionChangeView>,
    pub messages: Seq<MessageView>,
}

impl View for Envelope {
    type V = EnvelopeView;

    open spec fn view(&self) -> EnvelopeView {
        EnvelopeView {
            subscriptions: self.subscriptions@.map(|i: int, s: SubscriptionChange| s@),
            messages: self.messages@.map(|i: int, m: Message| m@),
        }
    }
}

/// A pending outbound action, consumed by the embedding engine's poll loop.
pub enum Action {
    /// The embedding engine must transmit the envelope to the peer.
    SendEnvelope { peer_id: PeerId, envelope: Envelope },
    /// The message is surfaced to the local application.
    Deliver { message: Message },
}

pub enum ActionView {
    SendEnvelope { peer_id: Seq<u8>, envelope: EnvelopeView },
    Deliver { message: MessageView },
}

impl View for Action {
    type V = ActionView;

    open spec fn view(&self) -> ActionView {
        match self {
            Action::SendEnvelope { peer_id, envelope } => ActionView::SendEnvelope {
                peer_id: peer_id@,
                envelope: envelope@,
            },
            Action::Deliver { message } => ActionView::Deliver { message: message@ },
        }
    }
}

/// One entry of the peer registry: a connected peer and the topics it is
/// currently believed to be subscribed to.
pub struct PeerEntry {
    pub id: PeerId,
    pub topics: Vec<TopicHash>,
}

pub struct PeerEntryView {
    pub id: Seq<u8>,
    pub topics: Seq<Seq<u8>>,
}

impl View for PeerEntry {
    type V = PeerEntryView;

    open spec fn view(&self) -> PeerEntryView {
        PeerEntryView {
            id: self.id@,
            topics: self.topics@.map(|i: int, t: TopicHash| t@),
        }
    }
}

/// The hash bytes of a sequence of topic hashes.
pub open spec fn hashes_view(s: Seq<TopicHash>) -> Seq<Seq<u8>> {
    s.map(|i: int, t: TopicHash| t@)
}

/// The hash bytes of a sequence of topics.
pub open spec fn topics_view(s: Seq<Topic>) -> Seq<Seq<u8>> {
    s.map(|i: int, t: Topic| t@)
}

/// The views of a sequence of messages.
pub open spec fn msgs_view(s: Seq<Message>) -> Seq<MessageView> {
    s.map(|i: int, m: Message| m@)
}

/// Compares two byte vectors for equality of contents.
pub fn bytes_eq(a: &Vec<u8>, b: &Vec<u8>) -> (r: bool)
    ensures
        r == (a@ == b@),
{
    if a.len() != b.len() {
        return false;
    }
    let mut i: usize = 0;
    while i < a.len()
        invariant
            i <= a.len(),
            a.len() == b.len(),
            forall|j: int| 0 <= j < i ==> a@[j] == b@[j],
        decreases a.len() - i,
    {
        if a[i] != b[i] {
            return false;
        }
        i += 1;
    }
    assert(a@ =~= b@);
    true
}

/// Copies a byte vector.
pub fn copy_bytes(v: &Vec<u8>) -> (r: Vec<u8>)
    ensures
        r@ == v@,
{
    let mut r: Vec<u8> = Vec::new();
    let mut i: usize = 0;
    while i < v.len()
        invariant
            i <= v.len(),
            r@ == v@.subrange(0, i as int),
        decreases v.len() - i,
    {
        r.push(v[i]);
        assert(r@ =~= v@.subrange(0, i + 1 as int));
        i += 1;
    }
    assert(v@.subrange(0, v@.len() as int) =~= v@);
    r
}

impl Clone for PeerId {
    fn clone(&self) -> (r: Self)
        ensures
            r@ == self@,
    {
        PeerId { bytes: copy_bytes(&self.bytes) }
    }
}

impl Clone for TopicHash {
    fn clone(&self) -> (r: Self)
        ensures
            r@ == self@,
    {
        TopicHash { bytes: copy_bytes(&self.bytes) }
    }
}

impl Clone for Topic {
    fn clone(&self) -> (r: Self)
        ensures
            r@ == self@,
    {
        Topic { hash: self.hash.clone() }
    }
}

/// Copies a vector of topic hashes.
pub fn copy_hashes(v: &Vec<TopicHash>) -> (r: Vec<TopicHash>)
    ensures
        r@.map(|i: int, t: TopicHash| t@) == v@.map(|i: int, t: TopicHash| t@),
{
    let mut r: Vec<TopicHash> = Vec::new();
    let mut i: usize = 0;
    while i < v.len()
        invariant
            i <= v.len(),
            r@.len() == i,
            forall|j: int| 0 <= j < i ==> r@[j]@ == v@[j]@,
        decreases v.len() - i,
    {
        r.push(v[i].clone());
        i += 1;
    }
    assert(r@.map(|i: int, t: TopicHash| t@) =~= v@.map(|i: int, t: TopicHash| t@));
    r
}

impl Clone for Message {
    fn clone(&self) -> (r: Self)
        ensures
            r@ == self@,
    {
        Message {
            source: self.source.clone(),
            data: copy_bytes(&self.data),
            sequence_number: copy_bytes(&self.sequence_number),
            topics: copy_hashes(&self.topics),
        }
    }
}

/// Compares two peer identifiers.
pub fn peer_eq(a: &PeerId, b: &PeerId) -> (r: bool)
    ensures
        r == (a@ == b@),
{
    bytes_eq(&a.bytes, &b.bytes)
}

/// Compares two topic hashes.
pub fn hash_eq(a: &TopicHash, b: &TopicHash) -> (r: bool)
    ensures
        r == (a@ == b@),
{
    bytes_eq(&a.bytes, &b.bytes)
}

} // verus!
