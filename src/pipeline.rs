use vstd::multiset::Multiset;
use vstd::prelude::*;

use crate::duplication::{
    all_resolved, bucket_view, buckets_wf, clusters_of, lemma_resolved_nothing_aside,
    resolved_part, unresolved_part, DuplicationMap, DuplicationMapIterator,
};
use crate::entry::{Entry, EntryView};
use crate::properties::{
    digests_from, identities_of, identity, lemma_clusters_complete,
    lemma_push_adds_identity, lemma_push_adds_one_record, lemma_push_keeps_digests_from,
    lemma_push_keeps_resolved, records_of, total_len,
};
use crate::utils::{Digester, IoError};

verus! {

/// The number of paths in each worker's chunk but the last, which also takes the remainder.
pub open spec fn chunk_size(total: nat, workers: nat) -> nat {
    total / workers
}

/// Where chunk `i` of `workers` chunks over `total` paths starts.
pub open spec fn chunk_start(total: nat, workers: nat, i: int) -> int {
    i * chunk_size(total, workers)
}

/// Where chunk `i` of `workers` chunks over `total` paths ends.
pub open spec fn chunk_end(total: nat, workers: nat, i: int) -> int {
    if i == workers - 1 {
        total as int
    } else {
        (i + 1) * chunk_size(total, workers)
    }
}

proof fn lemma_chunk_bounds(total: nat, workers: nat, i: int)
    requires
        workers > 0,
        0 <= i < workers,
    ensures
        0 <= chunk_start(total, workers, i) <= chunk_end(total, workers, i) <= total,
        i + 1 < workers ==> chunk_end(total, workers, i) == chunk_start(total, workers, i + 1),
        i + 1 < workers ==>
            chunk_end(total, workers, i) == chunk_start(total, workers, i) + chunk_size(total, workers),
{
    let s = chunk_size(total, workers);
    assert(s * workers <= total) by (nonlinear_arith)
        requires s == total / workers, workers > 0;
    assert(0 <= i * s <= (i + 1) * s) by (nonlinear_arith)
        requires 0 <= i, s >= 0;
    assert((i + 1) * s <= workers * s) by (nonlinear_arith)
        requires i + 1 <= workers, s >= 0;
    assert((i + 1) * s == i * s + s) by (nonlinear_arith);
    assert(workers * s == s * workers) by (nonlinear_arith);
}

/// Splits `paths` into `workers` contiguous chunks, in order: each of `paths.len() / workers`
/// paths, but the last, which also takes the remainder. With more workers than paths, all
/// chunks but the last are empty.
pub fn partition_paths(paths: &Vec<String>, workers: usize) -> (r: Vec<Vec<String>>)
    requires
        workers > 0,
    ensures
        r@.len() == workers,
        forall|i: int| 0 <= i < workers ==> (#[trigger] r@[i])@ == paths@.subrange(
            chunk_start(paths@.len(), workers as nat, i),
            chunk_end(paths@.len(), workers as nat, i),
        ),
{
    let n = paths.len();
    let size = n / workers;
    let ghost total = paths@.len();
    let mut chunks: Vec<Vec<String>> = Vec::new();
    let mut w: usize = 0;
    let mut start: usize = 0;
    while w < workers
        invariant
            w <= workers,
            size == chunk_size(total, workers as nat),
            total == paths@.len(),
            n == total,
            chunks@.len() == w,
            w < workers ==> start == chunk_start(total, workers as nat, w as int),
            forall|i: int| 0 <= i < w ==> (#[trigger] chunks@[i])@ == paths@.subrange(
                chunk_start(total, workers as nat, i),
                chunk_end(total, workers as nat, i),
            ),
        decreases workers - w,
    {
        proof {
            lemma_chunk_bounds(total, workers as nat, w as int);
        }
        let end: usize = if w == workers - 1 {
            n
        } else {
            assert(start + size == chunk_end(total, workers as nat, w as int));
            start + size
        };
        assert(end == chunk_end(total, workers as nat, w as int));
        let mut chunk: Vec<String> = Vec::new();
        let mut j: usize = start;
        while j < end
            invariant
                start <= j <= end <= paths@.len(),
                chunk@ == paths@.subrange(start as int, j as int),
            decreases end - j,
        {
            chunk.push(paths[j].clone());
            proof {
                assert(chunk@ =~= paths@.subrange(start as int, j + 1));
            }
            j += 1;
        }
        let ghost before = chunks@;
        chunks.push(chunk);
        proof {
            assert forall|i: int| 0 <= i < w + 1
                implies (#[trigger] chunks@[i])@ == paths@.subrange(
                chunk_start(total, workers as nat, i),
                chunk_end(total, workers as nat, i),
            ) by {
                if i < w {
                    assert(chunks@[i] == before[i]);
                }
            }
        }
        start = end;
        w += 1;
    }
    chunks
}

/// What the consumer learns from the channel: an item, or that every sender is gone.
pub enum ConsumerEvent {
    Received(Result<Entry, IoError>),
    Disconnected,
}

/// What the consumer does next.
#[derive(Clone, Copy, Debug, PartialEq, Eq)]
pub enum ConsumerAction {
    /// Wait for the next item.
    Wait,
    /// Stop receiving: every dispatched path is accounted for, or no item can come.
    Finish,
}

/// Gathers the records produced for a known number of dispatched paths.
pub struct EntryConsumer {
    expected: usize,
    entries: Vec<Entry>,
    failures: Vec<IoError>,
}

impl EntryConsumer {
    /// The number of dispatched paths.
    pub closed spec fn expected(&self) -> nat {
        self.expected as nat
    }

    /// The records received so far, in arrival order.
    pub closed spec fn entries(&self) -> Seq<Entry> {
        self.entries@
    }

    /// The errors received so far, in arrival order.
    pub closed spec fn failures(&self) -> Seq<IoError> {
        self.failures@
    }

    /// Every dispatched path is accounted for, as a record or as an error.
    pub open spec fn complete(&self) -> bool {
        self.entries().len() + self.failures().len() >= self.expected()
    }

    /// A consumer waiting for the items of `expected` paths.
    pub fn new(expected: usize) -> (r: EntryConsumer)
        ensures
            r.expected() == expected,
            r.entries() == Seq::<Entry>::empty(),
            r.failures() == Seq::<IoError>::empty(),
    {
        EntryConsumer { expected, entries: Vec::new(), failures: Vec::new() }
    }

    /// Whether every dispatched path is accounted for.
    pub fn is_complete(&self) -> (r: bool)
        ensures
            r == self.complete(),
    {
        self.entries.len() >= self.expected || self.failures.len() >= self.expected - self.entries.len()
    }

    /// Takes in what the channel gave: a record joins the records, an error the errors. The
    /// consumer finishes once the records and errors together account for every dispatched
    /// path, or when no sender is left.
    pub fn step(&mut self, event: ConsumerEvent) -> (r: ConsumerAction)
        ensures
            final(self).expected() == old(self).expected(),
            match event {
                ConsumerEvent::Received(Ok(e)) => final(self).entries() == old(self).entries().push(e)
                    && final(self).failures() == old(self).failures(),
                ConsumerEvent::Received(Err(x)) => final(self).failures() == old(self).failures().push(x)
                    && final(self).entries() == old(self).entries(),
                ConsumerEvent::Disconnected => final(self).entries() == old(self).entries()
                    && final(self).failures() == old(self).failures(),
            },
            r == (if event is Disconnected || final(self).complete() {
                ConsumerAction::Finish
            } else {
                ConsumerAction::Wait
            }),
    {
        match event {
            ConsumerEvent::Received(Ok(e)) => self.entries.push(e),
            ConsumerEvent::Received(Err(x)) => self.failures.push(x),
            ConsumerEvent::Disconnected => return ConsumerAction::Finish,
        }
        if self.is_complete() {
            ConsumerAction::Finish
        } else {
            ConsumerAction::Wait
        }
    }

    /// The records and the errors received, each in arrival order.
    pub fn into_parts(self) -> (r: (Vec<Entry>, Vec<IoError>))
        ensures
            r.0@ == self.entries(),
            r.1@ == self.failures(),
    {
        (self.entries, self.failures)
    }
}

/// The paths and primary digests of records, in order.
pub open spec fn entry_identities(records: Seq<Entry>) -> Seq<(Seq<char>, Seq<char>)> {
    records.map_values(|e: Entry| identity(e@))
}

/// The models of records, in order.
pub open spec fn entry_views(records: Seq<Entry>) -> Seq<EntryView> {
    records.map_values(|e: Entry| e@)
}

/// Pushes every record into a new `DuplicationMap`, in order, computing secondary digests with
/// `secondary_digester`, and returns its clusters, the errors of the pushes that failed, in
/// order, and the records that cannot be clustered because a failed push left them without a
/// secondary digest in a bucket of two or more.
///
/// Every record held carries the path and primary digest of an input record, each input
/// record once; every secondary digest held came with its record or is the digester's answer
/// for that record's path. The clusters hold exactly the records that can be clustered, each
/// once. When no push failed, nothing is set aside.
pub fn group<D: Digester>(records: Vec<Entry>, secondary_digester: &mut D) -> (r: (
    DuplicationMapIterator,
    Vec<IoError>,
    Vec<Entry>,
))
    ensures
        r.0.wf(),
        exists|m: Seq<Seq<EntryView>>|
            {
                &&& buckets_wf(m)
                &&& #[trigger] clusters_of(resolved_part(m)) == r.0@
                &&& bucket_view(r.2@) == unresolved_part(m)
                &&& total_len(m) == records@.len()
                &&& identities_of(m) == entry_identities(records@).to_multiset()
                &&& records_of(clusters_of(resolved_part(m))) == records_of(resolved_part(m))
                &&& r.1@.len() == 0 ==> all_resolved(m) && r.2@.len() == 0
                &&& digests_from(
                    m,
                    entry_views(records@),
                    final(secondary_digester).requests().skip(
                        old(secondary_digester).requests().len() as int,
                    ),
                )
            },
        final(secondary_digester).requests().len() >= old(secondary_digester).requests().len(),
        final(secondary_digester).requests().take(old(secondary_digester).requests().len() as int)
            == old(secondary_digester).requests(),
{
    let ghost q0 = secondary_digester.requests();
    let mut map = DuplicationMap::new();
    let mut failures: Vec<IoError> = Vec::new();
    proof {
        broadcast use vstd::seq_lib::group_to_multiset_ensures;
        broadcast use vstd::multiset::group_multiset_properties;
        let none = entry_identities(records@.take(0));
        assert(none.len() == 0);
        assert(none.to_multiset().len() == 0);
        assert(none.to_multiset() =~= Multiset::empty());
        assert(identities_of(map@) == Multiset::<(Seq<char>, Seq<char>)>::empty());
    }
    for entry in it: records.into_iter()
        invariant
            it.seq() == records@,
            map.wf(),
            total_len(map@) == it.index(),
            identities_of(map@) == entry_identities(records@.take(it.index() as int)).to_multiset(),
            failures@.len() == 0 ==> all_resolved(map@),
            q0 == old(secondary_digester).requests(),
            secondary_digester.requests().len() >= q0.len(),
            secondary_digester.requests().take(q0.len() as int) == q0,
            digests_from(
                map@,
                entry_views(records@.take(it.index() as int)),
                secondary_digester.requests().skip(q0.len() as int),
            ),
    {
        let ghost q1 = secondary_digester.requests();
        let ghost m0 = map@;
        let ghost e = entry@;
        let result = map.push(secondary_digester, entry);
        proof {
            broadcast use vstd::seq_lib::group_to_multiset_ensures;
            let k = it.index() as int;
            assert(entry_identities(records@.take(k + 1)) =~= entry_identities(records@.take(k)).push(
                identity(e),
            ));
            lemma_push_adds_identity(m0, e, result is Ok, map@);
            let c = secondary_digester.requests().skip(q1.len() as int);
            lemma_push_keeps_digests_from(
                m0,
                entry_views(records@.take(k)),
                q1.skip(q0.len() as int),
                e,
                result is Ok,
                c,
                result,
                map@,
            );
            assert(entry_views(records@.take(k + 1)) =~= entry_views(records@.take(k)).push(e));
            assert(q1.skip(q0.len() as int) + c =~= secondary_digester.requests().skip(q0.len() as int));
            assert(secondary_digester.requests().take(q0.len() as int) =~= q1.take(q0.len() as int));
            lemma_push_adds_one_record(m0, e, result is Ok, map@);
            if result is Ok && failures@.len() == 0 {
                lemma_push_keeps_resolved(m0, e, map@);
            }
        }
        match result {
            Ok(()) => {},
            Err(x) => failures.push(x),
        }
    }
    let ghost m = map@;
    let (resolved, aside) = map.into_resolved();
    let clusters = resolved.into_iter();
    proof {
        assert(records@.take(records@.len() as int) =~= records@);
        assert(entry_views(records@.take(records@.len() as int)) == entry_views(records@));
        lemma_clusters_complete(resolved_part(m));
        if failures@.len() == 0 {
            lemma_resolved_nothing_aside(m);
        }
    }
    assert(clusters_of(resolved_part(m)) == clusters@);
    (clusters, failures, aside)
}

} // verus!
