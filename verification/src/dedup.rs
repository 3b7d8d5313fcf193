use vstd::prelude::*;

verus! {

/// Declares cuckoofilter::CuckooFilter, the outside crate's approximate
/// membership structure, so that values of it can be held and passed through;
/// nothing of its inside is visible here.
#[verifier::external_type_specification]
#[verifier::external_body]
#[verifier::reject_recursive_types(H)]
pub struct ExCuckooFilter<H>(cuckoofilter::CuckooFilter<H>);

/// Whether the cuckoo filter, in its current state, reports the identity
/// `(source, seqno)` as present. `CuckooFilter::contains` is a pure function
/// of the filter's buckets and of the key (it hashes with
/// `DefaultHasher::default()`, which std documents to be the same hasher on
/// every call), so its result is a function of the two arguments alone.
/// The filter is approximate: nothing here connects this relation to the set
/// of identities that were actually inserted.
pub uninterp spec fn filter_contains(
    f: cuckoofilter::CuckooFilter<std::collections::hash_map::DefaultHasher>,
    source: Seq<u8>,
    seqno: Seq<u8>,
) -> bool;

/// Relies on cuckoofilter::CuckooFilter::new: constructs an empty filter
/// with the default capacity. Every bucket starts as the empty-fingerprint
/// pattern, which no key's fingerprint can equal (Fingerprint::from_data
/// refuses that pattern), so a fresh filter contains nothing.
#[verifier::external_body]
fn filter_new() -> (f: cuckoofilter::CuckooFilter<std::collections::hash_map::DefaultHasher>)
    ensures
        forall|s: Seq<u8>, q: Seq<u8>| !filter_contains(f, s, q),
{
    cuckoofilter::CuckooFilter::new()
}

/// Relies on cuckoofilter::CuckooFilter::add. On `Ok` the key's fingerprint
/// sits in one of its two buckets (a displaced fingerprint only ever moves to
/// the alternate bucket of the same fingerprint, so every stored entry stays
/// findable); on `Err(NotEnoughSpace)` one displaced entry is dropped, so
/// nothing is claimed of that outcome.
#[verifier::external_body]
fn filter_add(
    f: &mut cuckoofilter::CuckooFilter<std::collections::hash_map::DefaultHasher>,
    source: &Vec<u8>,
    seqno: &Vec<u8>,
) -> (clean: bool)
    ensures
        clean ==> filter_contains(*final(f), source@, seqno@),
        clean ==> forall|s2: Seq<u8>, q2: Seq<u8>|
            filter_contains(*old(f), s2, q2) ==> filter_contains(*final(f), s2, q2),
{
    f.add(&(source, seqno)).is_ok()
}

/// Relies on cuckoofilter::CuckooFilter::test_and_add: returns `Ok(false)`
/// without mutating when `contains` holds, and otherwise behaves as `add`
/// and reports `Ok(true)` or `Err(NotEnoughSpace)`. The first component is
/// whether the key was fresh, the second whether no entry was dropped.
#[verifier::external_body]
fn filter_test_and_add(
    f: &mut cuckoofilter::CuckooFilter<std::collections::hash_map::DefaultHasher>,
    source: &Vec<u8>,
    seqno: &Vec<u8>,
) -> (r: (bool, bool))
    ensures
        r.0 == !filter_contains(*old(f), source@, seqno@),
        !r.0 ==> r.1 && *final(f) == *old(f),
        r.1 ==> filter_contains(*final(f), source@, seqno@),
        r.1 ==> forall|s2: Seq<u8>, q2: Seq<u8>|
            filter_contains(*old(f), s2, q2) ==> filter_contains(*final(f), s2, q2),
{
    match f.test_and_add(&(source, seqno)) {
        Ok(fresh) => (fresh, true),
        Err(_) => (true, false),
    }
}

/// Bounded-memory approximate record of the message identities this instance
/// has observed. `seen` is the exact set of identities ever inserted; `exact`
/// records that no insertion has yet dropped an entry, in which case every
/// seen identity is still reported as present (no false negatives). False
/// positives are possible at any time.
pub struct DedupFilter {
    pub inner: cuckoofilter::CuckooFilter<std::collections::hash_map::DefaultHasher>,
    pub seen: Ghost<Set<(Seq<u8>, Seq<u8>)>>,
    pub exact: Ghost<bool>,
}

impl DedupFilter {
    pub open spec fn wf(self) -> bool {
        self.exact@ ==> forall|id: (Seq<u8>, Seq<u8>)|
            self.seen@.contains(id) ==> filter_contains(self.inner, id.0, id.1)
    }

    pub fn new() -> (f: Self)
        ensures
            f.wf(),
            f.seen@ == Set::<(Seq<u8>, Seq<u8>)>::empty(),
            f.exact@,
            forall|s: Seq<u8>, q: Seq<u8>| !filter_contains(f.inner, s, q),
    {
        DedupFilter { inner: filter_new(), seen: Ghost(Set::empty()), exact: Ghost(true) }
    }

    /// Unconditionally records the identity as observed; used when this node
    /// itself originates a message.
    pub fn mark_seen(&mut self, source: &Vec<u8>, seqno: &Vec<u8>)
        requires
            old(self).wf(),
        ensures
            final(self).wf(),
            final(self).seen@ == old(self).seen@.insert((source@, seqno@)),
            final(self).exact@ ==> old(self).exact@,
            final(self).exact@ ==> filter_contains(final(self).inner, source@, seqno@),
            final(self).exact@ ==> forall|s2: Seq<u8>, q2: Seq<u8>|
                filter_contains(old(self).inner, s2, q2) ==> filter_contains(
                    final(self).inner,
                    s2,
                    q2,
                ),
    {
        let clean = filter_add(&mut self.inner, source, seqno);
        proof {
            self.seen@ = self.seen@.insert((source@, seqno@));
            self.exact@ = self.exact@ && clean;
        }
    }

    /// Atomically tests and records the identity. Returns true when the
    /// filter had not observed it before (the caller treats the message as
    /// new), false when it was already believed present.
    pub fn test_and_mark(&mut self, source: &Vec<u8>, seqno: &Vec<u8>) -> (r: bool)
        requires
            old(self).wf(),
        ensures
            final(self).wf(),
            r == !filter_contains(old(self).inner, source@, seqno@),
            final(self).seen@ == old(self).seen@.insert((source@, seqno@)),
            final(self).exact@ ==> old(self).exact@,
            old(self).exact@ && old(self).seen@.contains((source@, seqno@)) ==> !r,
            final(self).exact@ ==> filter_contains(final(self).inner, source@, seqno@),
            final(self).exact@ ==> forall|s2: Seq<u8>, q2: Seq<u8>|
                filter_contains(old(self).inner, s2, q2) ==> filter_contains(
                    final(self).inner,
                    s2,
                    q2,
                ),
    {
        let (fresh, clean) = filter_test_and_add(&mut self.inner, source, seqno);
        proof {
            self.seen@ = self.seen@.insert((source@, seqno@));
            self.exact@ = self.exact@ && clean;
        }
        fresh
    }
}

/// One deduplication step, as `test_and_mark` performs it: the mark is the
/// complement of what the filter reported in the state before; the identity
/// joins the seen set; and as long as no entry has been dropped, the
/// identity is contained afterwards and prior positives persist.
pub open spec fn dedup_step(
    pre: DedupFilter,
    post: DedupFilter,
    source: Seq<u8>,
    seqno: Seq<u8>,
    fresh: bool,
) -> bool {
    &&& fresh == !filter_contains(pre.inner, source, seqno)
    &&& post.seen@ == pre.seen@.insert((source, seqno))
    &&& (post.exact@ ==> pre.exact@)
    &&& (post.exact@ ==> filter_contains(post.inner, source, seqno))
    &&& (post.exact@ ==> forall|s2: Seq<u8>, q2: Seq<u8>|
        filter_contains(pre.inner, s2, q2) ==> filter_contains(post.inner, s2, q2))
}

} // verus!
