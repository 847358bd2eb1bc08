use vstd::prelude::*;

use std::collections::HashMap;

use crate::entry::{Entry, EntryView};
use crate::utils::{answer_view, Digester, IoError};

verus! {

/// The records of a bucket, in the order in which they were pushed.
pub open spec fn bucket_view(b: Seq<Entry>) -> Seq<EntryView> {
    b.map_values(|e: Entry| e@)
}

/// The model of a sequence of buckets.
pub open spec fn buckets_view(bs: Seq<Vec<Entry>>) -> Seq<Seq<EntryView>> {
    bs.map_values(|b: Vec<Entry>| bucket_view(b@))
}

/// Every bucket is non-empty, its records share one primary digest, and no two buckets
/// share a primary digest.
pub open spec fn buckets_wf(m: Seq<Seq<EntryView>>) -> bool {
    &&& forall|i: int| 0 <= i < m.len() ==> #[trigger] m[i].len() > 0
    &&& forall|i: int, j: int|
        0 <= i < m.len() && 0 <= j < m[i].len() ==> #[trigger] m[i][j].primary_hash
            == m[i][0].primary_hash
    &&& forall|i: int, k: int|
        0 <= i < m.len() && 0 <= k < m.len() && i != k ==> #[trigger] m[i][0].primary_hash
            != #[trigger] m[k][0].primary_hash
}

/// The bucket at index `i` of `m` holds the records with primary digest `h`.
pub open spec fn bucket_at(m: Seq<Seq<EntryView>>, h: Seq<char>, i: int) -> bool {
    0 <= i < m.len() && m[i][0].primary_hash == h
}

/// `after` is the record `before`, at most with a secondary digest added where it had none.
pub open spec fn keeps_record(before: EntryView, after: EntryView) -> bool {
    &&& after.path == before.path
    &&& after.primary_hash == before.primary_hash
    &&& before.secondary_hash is Some ==> after.secondary_hash == before.secondary_hash
}

/// The records of `b` all carry the primary digest `h`.
pub open spec fn all_primary(b: Seq<EntryView>, h: Seq<char>) -> bool {
    forall|j: int| 0 <= j < b.len() ==> (#[trigger] b[j]).primary_hash == h
}

proof fn lemma_wf_push(m: Seq<Seq<EntryView>>, b: Seq<EntryView>)
    requires
        buckets_wf(m),
        b.len() > 0,
        all_primary(b, b[0].primary_hash),
        forall|i: int| !bucket_at(m, b[0].primary_hash, i),
    ensures
        buckets_wf(m.push(b)),
{
    let m1 = m.push(b);
    assert forall|i: int| 0 <= i < m1.len() implies #[trigger] m1[i].len() > 0 by {
        if i < m.len() {
            assert(m1[i] == m[i]);
        }
    }
    assert forall|i: int, j: int| 0 <= i < m1.len() && 0 <= j < m1[i].len()
        implies #[trigger] m1[i][j].primary_hash
        == m1[i][0].primary_hash by {
        if i < m.len() {
            assert(m1[i] == m[i]);
        }
    }
    assert forall|i: int, k: int| 0 <= i < m1.len() && 0 <= k < m1.len() && i != k
        implies #[trigger] m1[i][0].primary_hash
        != #[trigger] m1[k][0].primary_hash by {
        if i < m.len() && k < m.len() {
            assert(m1[i] == m[i]);
            assert(m1[k] == m[k]);
        } else if i < m.len() {
            assert(m1[i] == m[i]);
            assert(!bucket_at(m, b[0].primary_hash, i));
        } else {
            assert(m1[k] == m[k]);
            assert(!bucket_at(m, b[0].primary_hash, k));
        }
    }
}

proof fn lemma_wf_update(m: Seq<Seq<EntryView>>, i: int, b: Seq<EntryView>)
    requires
        buckets_wf(m),
        0 <= i < m.len(),
        b.len() > 0,
        all_primary(b, m[i][0].primary_hash),
    ensures
        buckets_wf(m.update(i, b)),
{
    let m1 = m.update(i, b);
    assert forall|x: int| 0 <= x < m1.len() implies #[trigger] m1[x].len() > 0 by {
        if x != i {
            assert(m1[x] == m[x]);
        }
    }
    assert forall|x: int, j: int| 0 <= x < m1.len() && 0 <= j < m1[x].len()
        implies #[trigger] m1[x][j].primary_hash
        == m1[x][0].primary_hash by {
        if x != i {
            assert(m1[x] == m[x]);
        }
    }
    assert forall|x: int, k: int| 0 <= x < m1.len() && 0 <= k < m1.len() && x != k
        implies #[trigger] m1[x][0].primary_hash
        != #[trigger] m1[k][0].primary_hash by {
        assert(m1[x][0].primary_hash == m[x][0].primary_hash);
        assert(m1[k][0].primary_hash == m[k][0].primary_hash);
    }
}

/// `groups[i]` is the group of the records with secondary digest `h`.
pub open spec fn has_group(groups: Seq<Seq<EntryView>>, h: Seq<char>, i: int) -> bool {
    0 <= i < groups.len() && groups[i].len() > 0 && groups[i][0].secondary_hash == Some(h)
}

/// `groups` with the record `e` added: to the group of its secondary digest where there is
/// one, else as a group of its own. A record without a secondary digest is never grouped with
/// another.
pub open spec fn add_to_groups(groups: Seq<Seq<EntryView>>, e: EntryView) -> Seq<Seq<EntryView>> {
    match e.secondary_hash {
        Some(h) => if exists|i: int| has_group(groups, h, i) {
            let i = choose|i: int| has_group(groups, h, i);
            groups.update(i, groups[i].push(e))
        } else {
            groups.push(seq![e])
        },
        None => groups.push(seq![e]),
    }
}

/// The records of `b` split by secondary digest: groups in the order of their first record,
/// records in each group in the order of `b`.
pub open spec fn split_by_secondary(b: Seq<EntryView>) -> Seq<Seq<EntryView>>
    decreases b.len(),
{
    if b.len() == 0 {
        Seq::empty()
    } else {
        add_to_groups(split_by_secondary(b.drop_last()), b.last())
    }
}

/// The clusters of one bucket: a lone record is a cluster by itself; the records of a larger
/// bucket are split by secondary digest.
pub open spec fn bucket_clusters(b: Seq<EntryView>) -> Seq<Seq<EntryView>> {
    if b.len() <= 1 {
        seq![b]
    } else {
        split_by_secondary(b)
    }
}

/// The clusters of all buckets, bucket after bucket.
pub open spec fn clusters_of(m: Seq<Seq<EntryView>>) -> Seq<Seq<EntryView>>
    decreases m.len(),
{
    if m.len() == 0 {
        Seq::empty()
    } else {
        bucket_clusters(m[0]) + clusters_of(m.drop_first())
    }
}

/// Groups under construction: non-empty, one secondary digest per group, a record without
/// one alone in its group, and no two groups with the same secondary digest.
pub open spec fn groups_wf(g: Seq<Seq<EntryView>>) -> bool {
    &&& forall|i: int| 0 <= i < g.len() ==> #[trigger] g[i].len() > 0
    &&& forall|i: int, j: int|
        0 <= i < g.len() && 0 <= j < g[i].len() ==> #[trigger] g[i][j].secondary_hash
            == g[i][0].secondary_hash
    &&& forall|i: int| 0 <= i < g.len() && (#[trigger] g[i])[0].secondary_hash is None ==>
        g[i].len() == 1
    &&& forall|i: int, k: int|
        0 <= i < g.len() && 0 <= k < g.len() && i != k && g[i][0].secondary_hash is Some
            ==> #[trigger] g[i][0].secondary_hash != #[trigger] g[k][0].secondary_hash
}

proof fn lemma_add_to_groups_new(g: Seq<Seq<EntryView>>, e: EntryView)
    requires
        groups_wf(g),
        e.secondary_hash matches Some(h) ==> forall|i: int| !has_group(g, h, i),
    ensures
        add_to_groups(g, e) == g.push(seq![e]),
        groups_wf(g.push(seq![e])),
{
    let g1 = g.push(seq![e]);
    assert forall|i: int| 0 <= i < g1.len() implies #[trigger] g1[i].len() > 0 by {
        if i < g.len() { assert(g1[i] == g[i]); }
    }
    assert forall|i: int, j: int| 0 <= i < g1.len() && 0 <= j < g1[i].len()
        implies #[trigger] g1[i][j].secondary_hash
        == g1[i][0].secondary_hash by {
        if i < g.len() { assert(g1[i] == g[i]); }
    }
    assert forall|i: int| 0 <= i < g1.len() && (#[trigger] g1[i])[0].secondary_hash is None
        implies g1[i].len() == 1 by {
        if i < g.len() { assert(g1[i] == g[i]); }
    }
    assert forall|i: int, k: int|
        0 <= i < g1.len() && 0 <= k < g1.len() && i != k && g1[i][0].secondary_hash is Some
        implies #[trigger] g1[i][0].secondary_hash != #[trigger] g1[k][0].secondary_hash by {
        if i < g.len() { assert(g1[i] == g[i]); }
        if k < g.len() { assert(g1[k] == g[k]); }
        if i == g.len() {
            let h = e.secondary_hash->Some_0;
            assert(!has_group(g, h, k));
        }
        if k == g.len() {
            if let Some(h) = e.secondary_hash {
                assert(!has_group(g, h, i));
            }
        }
    }
}

proof fn lemma_add_to_groups_join(g: Seq<Seq<EntryView>>, e: EntryView, i: int)
    requires
        groups_wf(g),
        e.secondary_hash matches Some(h) && has_group(g, h, i),
    ensures
        add_to_groups(g, e) == g.update(i, g[i].push(e)),
        groups_wf(g.update(i, g[i].push(e))),
{
    let h = e.secondary_hash->Some_0;
    let c = choose|x: int| has_group(g, h, x);
    assert(has_group(g, h, c));
    assert(c == i);
    let g1 = g.update(i, g[i].push(e));
    assert forall|x: int| 0 <= x < g1.len() implies #[trigger] g1[x].len() > 0 by {
        if x != i { assert(g1[x] == g[x]); }
    }
    assert forall|x: int, j: int| 0 <= x < g1.len() && 0 <= j < g1[x].len()
        implies #[trigger] g1[x][j].secondary_hash
        == g1[x][0].secondary_hash by {
        if x != i { assert(g1[x] == g[x]); }
        else if j < g[i].len() { assert(g1[x][j] == g[i][j]); }
    }
    assert forall|x: int| 0 <= x < g1.len() && (#[trigger] g1[x])[0].secondary_hash is None
        implies g1[x].len() == 1 by {
        if x != i { assert(g1[x] == g[x]); }
    }
    assert forall|x: int, k: int|
        0 <= x < g1.len() && 0 <= k < g1.len() && x != k && g1[x][0].secondary_hash is Some
        implies #[trigger] g1[x][0].secondary_hash != #[trigger] g1[k][0].secondary_hash by {
        assert(g1[x][0] == g[x][0]);
        assert(g1[k][0] == g[k][0]);
    }
}

proof fn lemma_split_nonempty(b: Seq<EntryView>)
    requires
        b.len() > 0,
    ensures
        split_by_secondary(b).len() > 0,
{
    let g = split_by_secondary(b.drop_last());
    if let Some(h) = b.last().secondary_hash {
        if exists|i: int| has_group(g, h, i) {
            let i = choose|i: int| has_group(g, h, i);
            assert(g.len() > 0);
        }
    }
}

/// Index of the group whose secondary digest is `h`, if there is one.
fn find_group(groups: &Vec<Vec<Entry>>, h: &String) -> (r: Option<usize>)
    requires
        groups_wf(buckets_view(groups@)),
    ensures
        r matches Some(i) ==> has_group(buckets_view(groups@), h@, i as int),
        r is None ==> forall|i: int| !has_group(buckets_view(groups@), h@, i),
{
    let ghost g = buckets_view(groups@);
    let mut i: usize = 0;
    while i < groups.len()
        invariant
            g == buckets_view(groups@),
            groups_wf(g),
            i <= groups.len(),
            forall|k: int| 0 <= k < i ==> !has_group(g, h@, k),
        decreases groups.len() - i,
    {
        assert(g[i as int].len() > 0);
        assert(g[i as int][0] == groups@[i as int]@[0]@);
        match &groups[i][0].secondary_hash {
            Some(s) => {
                if *s == *h {
                    return Some(i);
                }
            },
            None => {},
        }
        i += 1;
    }
    None
}

/// Splits the records of `bucket` by secondary digest.
fn split_bucket(bucket: Vec<Entry>) -> (r: Vec<Vec<Entry>>)
    ensures
        buckets_view(r@) == split_by_secondary(bucket_view(bucket@)),
{
    let ghost b = bucket_view(bucket@);
    let mut groups: Vec<Vec<Entry>> = Vec::new();
    for entry in it: bucket.into_iter()
        invariant
            b == bucket_view(it.seq()),
            groups_wf(buckets_view(groups@)),
            buckets_view(groups@) == split_by_secondary(b.take(it.index() as int)),
    {
        let ghost g0 = buckets_view(groups@);
        let ghost k = it.index() as int;
        assert(b.take(k + 1).drop_last() =~= b.take(k));
        assert(entry@ == b[k]);
        let found = match &entry.secondary_hash {
            Some(h) => find_group(&groups, h),
            None => None,
        };
        match found {
            Some(i) => {
                proof { lemma_add_to_groups_join(g0, entry@, i as int); }
                let mut group: Vec<Entry> = Vec::new();
                std::mem::swap(&mut groups[i], &mut group);
                let ghost mid = groups@;
                group.push(entry);
                let ghost filled = group;
                std::mem::swap(&mut groups[i], &mut group);
                proof {
                    assert(groups@ =~= mid.update(i as int, filled));
                    assert(bucket_view(filled@) =~= g0[i as int].push(b[k]));
                    assert(buckets_view(groups@) =~= g0.update(i as int, g0[i as int].push(b[k])));
                }
            },
            None => {
                proof { lemma_add_to_groups_new(g0, entry@); }
                let mut group: Vec<Entry> = Vec::new();
                group.push(entry);
                groups.push(group);
                proof {
                    assert(bucket_view(group@) =~= seq![b[k]]);
                    assert(buckets_view(groups@) =~= g0.push(seq![b[k]]));
                }
            },
        }
    }
    proof { assert(b.take(b.len() as int) =~= b); }
    groups
}

/// What a push of the record `e` does to the buckets `m`, giving `m1`, where `ok` tells
/// whether it succeeded. A record with a new primary digest gets a bucket of its own, as it
/// is. A record with a known one is appended to its bucket; the other buckets stay as they
/// are, and in that bucket every record keeps its path, its primary digest and any secondary
/// digest it had. After a successful push every record of that bucket has a secondary digest.
pub open spec fn pushed(
    m: Seq<Seq<EntryView>>,
    e: EntryView,
    ok: bool,
    m1: Seq<Seq<EntryView>>,
) -> bool {
    &&& buckets_wf(m1)
    &&& (forall|i: int| !bucket_at(m, e.primary_hash, i)) ==> {
        &&& ok
        &&& m1 == m.push(seq![e])
    }
    &&& forall|i: int|
        bucket_at(m, e.primary_hash, i) ==> {
            let grown = m[i].push(e);
            &&& m1.len() == m.len()
            &&& forall|k: int| 0 <= k < m.len() && k != i ==> m1[k] == m[k]
            &&& m1[i].len() == grown.len()
            &&& forall|j: int| 0 <= j < grown.len() ==> keeps_record(grown[j], m1[i][j])
            &&& ok ==> forall|j: int| 0 <= j < grown.len() ==>
                (#[trigger] m1[i][j]).secondary_hash is Some
        }
}

/// How many records of `g` before position `j` have no secondary digest.
pub open spec fn lacking_before(g: Seq<EntryView>, j: int) -> nat
    decreases j,
{
    if j <= 0 {
        0
    } else {
        lacking_before(g, j - 1) + if g[j - 1].secondary_hash is None {
            1nat
        } else {
            0nat
        }
    }
}

proof fn lemma_lacking_mono(g: Seq<EntryView>, a: int, b: int)
    requires
        0 <= a <= b,
    ensures
        lacking_before(g, a) <= lacking_before(g, b),
    decreases b - a,
{
    if a < b {
        lemma_lacking_mono(g, a, b - 1);
    }
}

/// The record at position `j` of `g` once the secondary digester has given the answers `c`,
/// one per record without a secondary digest, in order: it holds the digest it was given, or
/// stays as it was where it had one already, was not reached, or got an error.
pub open spec fn answered(
    g: Seq<EntryView>,
    j: int,
    c: Seq<(Seq<char>, Result<Seq<char>, IoError>)>,
) -> EntryView {
    let t = lacking_before(g, j) as int;
    if g[j].secondary_hash is None && t < c.len() && c[t].1 is Ok {
        EntryView { secondary_hash: Some(c[t].1->Ok_0), ..g[j] }
    } else {
        g[j]
    }
}

/// The requests `c` that a push of `e` into `m`, giving `m1` and `r`, makes of the secondary
/// digester. None for a new primary digest. Otherwise one for each record of the grown bucket
/// that has no secondary digest, in bucket order, for that record's path, up to the first that
/// fails; each record asked holds the digest it was given; the push fails with that first
/// error, and succeeds when every record was asked and no request failed.
pub open spec fn secondary_requests(
    m: Seq<Seq<EntryView>>,
    e: EntryView,
    c: Seq<(Seq<char>, Result<Seq<char>, IoError>)>,
    r: Result<(), IoError>,
    m1: Seq<Seq<EntryView>>,
) -> bool {
    &&& (forall|i: int| !bucket_at(m, e.primary_hash, i)) ==> c.len() == 0
    &&& forall|i: int|
        bucket_at(m, e.primary_hash, i) ==> {
            let g = m[i].push(e);
            &&& c.len() <= lacking_before(g, g.len() as int)
            &&& forall|j: int|
                0 <= j < g.len() && g[j].secondary_hash is None && lacking_before(g, j) < c.len()
                    ==> c[lacking_before(g, j) as int].0 == g[j].path
            &&& forall|t: int| 0 <= t < c.len() - 1 ==> (#[trigger] c[t]).1 is Ok
            &&& forall|j: int| 0 <= j < g.len() ==> m1[i][j] == answered(g, j, c)
            &&& match r {
                Ok(()) => c.len() == lacking_before(g, g.len() as int) && (c.len() > 0
                    ==> c.last().1 is Ok),
                Err(x) => c.len() > 0 && c.last().1 == Err::<Seq<char>, IoError>(x),
            }
        }
}

/// Every record of every bucket of two or more records has a secondary digest.
pub open spec fn all_resolved(m: Seq<Seq<EntryView>>) -> bool {
    forall|i: int, j: int|
        0 <= i < m.len() && m[i].len() > 1 && 0 <= j < m[i].len() ==> (#[trigger] m[i][j]).secondary_hash is Some
}

/// The records of bucket `b` that can be clustered: a lone record, or the records of a larger
/// bucket that have a secondary digest.
pub open spec fn kept(b: Seq<EntryView>) -> Seq<EntryView> {
    if b.len() <= 1 {
        b
    } else {
        b.filter(|x: EntryView| x.secondary_hash is Some)
    }
}

/// The records of bucket `b` that cannot be clustered: those of a larger bucket that have no
/// secondary digest.
pub open spec fn set_aside(b: Seq<EntryView>) -> Seq<EntryView> {
    if b.len() <= 1 {
        Seq::empty()
    } else {
        b.filter(|x: EntryView| x.secondary_hash is None)
    }
}

/// The buckets of `m` with only the records that can be clustered, empty buckets dropped.
pub open spec fn resolved_part(m: Seq<Seq<EntryView>>) -> Seq<Seq<EntryView>>
    decreases m.len(),
{
    if m.len() == 0 {
        Seq::empty()
    } else if kept(m.last()).len() > 0 {
        resolved_part(m.drop_last()).push(kept(m.last()))
    } else {
        resolved_part(m.drop_last())
    }
}

/// The records of `m` that cannot be clustered, bucket after bucket.
pub open spec fn unresolved_part(m: Seq<Seq<EntryView>>) -> Seq<EntryView>
    decreases m.len(),
{
    if m.len() == 0 {
        Seq::empty()
    } else {
        unresolved_part(m.drop_last()) + set_aside(m.last())
    }
}

proof fn lemma_resolved_primaries(m: Seq<Seq<EntryView>>)
    requires
        buckets_wf(m),
    ensures
        forall|x: int|
            0 <= x < resolved_part(m).len() ==> exists|y: int|
                0 <= y < m.len() && (#[trigger] resolved_part(m)[x])[0].primary_hash
                    == m[y][0].primary_hash,
        forall|x: int| 0 <= x < resolved_part(m).len() ==> (#[trigger] resolved_part(m)[x]).len() > 0,
    decreases m.len(),
{
    if m.len() > 0 {
        let d = m.drop_last();
        assert(buckets_wf(d)) by {
            assert forall|i: int| 0 <= i < d.len() implies d[i] == m[i] by {}
        }
        lemma_resolved_primaries(d);
        let r = resolved_part(m);
        let rd = resolved_part(d);
        assert forall|x: int| 0 <= x < r.len() implies exists|y: int|
            0 <= y < m.len() && (#[trigger] r[x])[0].primary_hash == m[y][0].primary_hash by {
            if x < rd.len() {
                assert(r[x] == rd[x]);
                let y = choose|y: int| 0 <= y < d.len() && rd[x][0].primary_hash == d[y][0].primary_hash;
                assert(d[y] == m[y]);
            } else {
                let l = m[m.len() - 1];
                assert(m.last() == l);
                assert(all_primary(l, l[0].primary_hash));
                lemma_kept_primary(l, l[0].primary_hash);
            }
        }
        assert forall|x: int| 0 <= x < r.len() implies (#[trigger] r[x]).len() > 0 by {
            if x < rd.len() {
                assert(r[x] == rd[x]);
            }
        }
    }
}

proof fn lemma_filter_primary(b: Seq<EntryView>, h: Seq<char>, pred: spec_fn(EntryView) -> bool)
    requires
        all_primary(b, h),
    ensures
        all_primary(b.filter(pred), h),
    decreases b.len(),
{
    reveal(Seq::filter);
    if b.len() > 0 {
        let d = b.drop_last();
        assert(all_primary(d, h)) by {
            assert forall|j: int| 0 <= j < d.len() implies (#[trigger] d[j]).primary_hash == h by {
                assert(d[j] == b[j]);
            }
        }
        lemma_filter_primary(d, h, pred);
        assert(b.last() == b[b.len() - 1]);
    }
}

proof fn lemma_kept_primary(b: Seq<EntryView>, h: Seq<char>)
    requires
        all_primary(b, h),
    ensures
        all_primary(kept(b), h),
        all_primary(set_aside(b), h),
{
    if b.len() > 1 {
        lemma_filter_primary(b, h, |x: EntryView| x.secondary_hash is Some);
        lemma_filter_primary(b, h, |x: EntryView| x.secondary_hash is None);
    }
}

proof fn lemma_filter_none(b: Seq<EntryView>, pred: spec_fn(EntryView) -> bool)
    requires
        forall|j: int| 0 <= j < b.len() ==> !pred(#[trigger] b[j]),
    ensures
        b.filter(pred).len() == 0,
    decreases b.len(),
{
    reveal(Seq::filter);
    if b.len() > 0 {
        let d = b.drop_last();
        assert forall|j: int| 0 <= j < d.len() implies !pred(#[trigger] d[j]) by {
            assert(d[j] == b[j]);
        }
        lemma_filter_none(d, pred);
        assert(!pred(b[b.len() - 1]));
    }
}

/// Where every bucket of two or more records is resolved, nothing is set aside.
pub proof fn lemma_resolved_nothing_aside(m: Seq<Seq<EntryView>>)
    requires
        all_resolved(m),
    ensures
        unresolved_part(m).len() == 0,
    decreases m.len(),
{
    if m.len() > 0 {
        let d = m.drop_last();
        assert(all_resolved(d)) by {
            assert forall|i: int, j: int| 0 <= i < d.len() && d[i].len() > 1 && 0 <= j < d[i].len()
                implies (#[trigger] d[i][j]).secondary_hash is Some by {
                assert(d[i] == m[i]);
            }
        }
        lemma_resolved_nothing_aside(d);
        let l = m[m.len() - 1];
        assert(m.last() == l);
        if l.len() > 1 {
            assert forall|j: int| 0 <= j < l.len() implies !(|x: EntryView| x.secondary_hash is None)(
                #[trigger] l[j],
            ) by {
                assert(m[m.len() - 1][j].secondary_hash is Some);
            }
            lemma_filter_none(l, |x: EntryView| x.secondary_hash is None);
        }
    }
}

/// A 64-bit key of a digest text, by which its bucket is looked up.
pub open spec fn text_key(s: Seq<char>) -> u64
    decreases s.len(),
{
    if s.len() == 0 {
        0
    } else {
        ((text_key(s.drop_last()) as int * 31 + s.last() as u32 as int) % 0x1_0000_0000_0000_0000) as u64
    }
}

/// Computes `text_key` of `s`.
fn key_of(s: &String) -> (r: u64)
    ensures
        r == text_key(s@),
{
    let n = s.as_str().unicode_len();
    let mut h: u64 = 0;
    let mut i: usize = 0;
    while i < n
        invariant
            n == s@.len(),
            i <= n,
            h == text_key(s@.take(i as int)),
        decreases n - i,
    {
        let c = s.as_str().get_char(i);
        proof {
            assert(s@.take(i + 1).drop_last() =~= s@.take(i as int));
        }
        h = ((h as u128 * 31 + c as u32 as u128) % 0x1_0000_0000_0000_0000u128) as u64;
        i += 1;
    }
    proof {
        assert(s@.take(n as int) =~= s@);
    }
    h
}

/// The index lists under each key exactly positions of buckets whose primary digest has that
/// key, and lists every bucket under the key of its primary digest.
spec fn index_covers(index: Map<u64, Vec<usize>>, m: Seq<Seq<EntryView>>) -> bool {
    &&& forall|k: u64, j: int|
        index.contains_key(k) && 0 <= j < index[k]@.len() ==> {
            let i = #[trigger] index[k]@[j] as int;
            0 <= i < m.len() && text_key(m[i][0].primary_hash) == k
        }
    &&& forall|i: int|
        0 <= i < m.len() ==> {
            let k = text_key(#[trigger] m[i][0].primary_hash);
            index.contains_key(k) && index[k]@.contains(i as usize)
        }
}

proof fn lemma_index_same_keys(
    index: Map<u64, Vec<usize>>,
    m: Seq<Seq<EntryView>>,
    m1: Seq<Seq<EntryView>>,
)
    requires
        index_covers(index, m),
        m1.len() == m.len(),
        forall|i: int| 0 <= i < m.len() ==> m1[i][0].primary_hash == m[i][0].primary_hash,
    ensures
        index_covers(index, m1),
{
    assert forall|k: u64, j: int| index.contains_key(k) && 0 <= j < index[k]@.len() implies {
        let i = #[trigger] index[k]@[j] as int;
        0 <= i < m1.len() && text_key(m1[i][0].primary_hash) == k
    } by {
        let i = index[k]@[j] as int;
        assert(m1[i][0].primary_hash == m[i][0].primary_hash);
    }
    assert forall|i: int| 0 <= i < m1.len() implies {
        let k = text_key(#[trigger] m1[i][0].primary_hash);
        index.contains_key(k) && index[k]@.contains(i as usize)
    } by {
        assert(m1[i][0].primary_hash == m[i][0].primary_hash);
        let k = text_key(m[i][0].primary_hash);
        assert(index.contains_key(k) && index[k]@.contains(i as usize));
    }
}

proof fn lemma_index_new_bucket(
    index: Map<u64, Vec<usize>>,
    m: Seq<Seq<EntryView>>,
    b: Seq<EntryView>,
    positions: Vec<usize>,
)
    requires
        index_covers(index, m),
        b.len() > 0,
        positions@ == (if index.contains_key(text_key(b[0].primary_hash)) {
            index[text_key(b[0].primary_hash)]@
        } else {
            Seq::empty()
        }).push(m.len() as usize),
        m.len() < usize::MAX,
    ensures
        index_covers(index.insert(text_key(b[0].primary_hash), positions), m.push(b)),
{
    let k0 = text_key(b[0].primary_hash);
    let index1 = index.insert(k0, positions);
    let m1 = m.push(b);
    assert forall|k: u64, j: int| index1.contains_key(k) && 0 <= j < index1[k]@.len() implies {
        let i = #[trigger] index1[k]@[j] as int;
        0 <= i < m1.len() && text_key(m1[i][0].primary_hash) == k
    } by {
        if k == k0 {
            if j < positions@.len() - 1 {
                assert(index.contains_key(k0));
                assert(index1[k]@[j] == index[k0]@[j]);
                let i = index[k0]@[j] as int;
                assert(m1[i] == m[i]);
            } else {
                assert(index1[k]@[j] == m.len());
                assert(m1[m.len() as int] == b);
            }
        } else {
            assert(index1[k] == index[k]);
            let i = index[k]@[j] as int;
            assert(m1[i] == m[i]);
        }
    }
    assert forall|i: int| 0 <= i < m1.len() implies {
        let k = text_key(#[trigger] m1[i][0].primary_hash);
        index1.contains_key(k) && index1[k]@.contains(i as usize)
    } by {
        if i < m.len() {
            assert(m1[i] == m[i]);
            let k = text_key(m[i][0].primary_hash);
            assert(index.contains_key(k) && index[k]@.contains(i as usize));
            if k == k0 {
                let p = choose|p: int| 0 <= p < index[k]@.len() && index[k]@[p] == i as usize;
                assert(positions@[p] == i as usize);
            }
        } else {
            assert(m1[i] == b);
            assert(positions@[positions@.len() - 1] == i as usize);
        }
    }
}

/// Splits a bucket into the records that can be clustered and those that cannot.
fn partition_bucket(bucket: Vec<Entry>) -> (r: (Vec<Entry>, Vec<Entry>))
    ensures
        bucket_view(r.0@) == kept(bucket_view(bucket@)),
        bucket_view(r.1@) == set_aside(bucket_view(bucket@)),
{
    let ghost b = bucket_view(bucket@);
    if bucket.len() <= 1 {
        let none: Vec<Entry> = Vec::new();
        assert(bucket_view(none@) =~= Seq::<EntryView>::empty());
        return (bucket, none);
    }
    let ghost resolved = |x: EntryView| x.secondary_hash is Some;
    let ghost unresolved = |x: EntryView| x.secondary_hash is None;
    let mut keep: Vec<Entry> = Vec::new();
    let mut aside: Vec<Entry> = Vec::new();
    for e in it: bucket.into_iter()
        invariant
            b == bucket_view(it.seq()),
            b.len() > 1,
            resolved == (|x: EntryView| x.secondary_hash is Some),
            unresolved == (|x: EntryView| x.secondary_hash is None),
            bucket_view(keep@) == b.take(it.index() as int).filter(resolved),
            bucket_view(aside@) == b.take(it.index() as int).filter(unresolved),
    {
        let ghost k = it.index() as int;
        let ghost keep0 = bucket_view(keep@);
        let ghost aside0 = bucket_view(aside@);
        proof {
            reveal(Seq::filter);
            assert(b.take(k + 1).drop_last() =~= b.take(k));
            assert(b.take(k + 1).last() == e@);
        }
        if e.secondary_hash.is_some() {
            keep.push(e);
            assert(bucket_view(keep@) =~= keep0.push(b[k]));
        } else {
            aside.push(e);
            assert(bucket_view(aside@) =~= aside0.push(b[k]));
        }
    }
    proof {
        assert(b.take(b.len() as int) =~= b);
    }
    (keep, aside)
}

/// Records grouped by primary digest.
pub struct DuplicationMap {
    buckets: Vec<Vec<Entry>>,
    index: HashMap<u64, Vec<usize>>,
}

impl View for DuplicationMap {
    type V = Seq<Seq<EntryView>>;

    closed spec fn view(&self) -> Seq<Seq<EntryView>> {
        buckets_view(self.buckets@)
    }
}

/// Gives the record at index `j` the secondary digest `hash`.
fn set_secondary(bucket: &mut Vec<Entry>, j: usize, hash: String)
    requires
        j < old(bucket).len(),
    ensures
        final(bucket)@.len() == old(bucket)@.len(),
        forall|k: int| 0 <= k < old(bucket)@.len() && k != j ==>
            final(bucket)@[k] == old(bucket)@[k],
        final(bucket)@[j as int]@ == (EntryView {
            secondary_hash: Some(hash@),
            ..old(bucket)@[j as int]@
        }),
{
    bucket[j].secondary_hash = Some(hash);
}

impl DuplicationMap {
    /// The map holds only well-formed buckets, and its index finds each of them.
    pub open spec fn wf(&self) -> bool {
        buckets_wf(self@) && self.index_ok()
    }

    /// The index lists each bucket under the key of its primary digest.
    pub closed spec fn index_ok(&self) -> bool {
        index_covers(self.index@, self@)
    }

    /// Position of the bucket whose primary digest is `key`, if there is one.
    fn find_bucket(&self, key: &String) -> (r: Option<usize>)
        requires
            self.wf(),
        ensures
            r matches Some(i) ==> bucket_at(self@, key@, i as int),
            r is None ==> forall|i: int| !bucket_at(self@, key@, i),
    {
        broadcast use vstd::std_specs::hash::group_hash_axioms;
        let ghost m = self@;
        let nb = self.buckets.len();
        assert(m.len() == nb);
        let k = key_of(key);
        let candidates = match self.index.get(&k) {
            Some(c) => c,
            None => {
                proof {
                    assert forall|i: int| !bucket_at(m, key@, i) by {
                        if bucket_at(m, key@, i) {
                            assert(text_key(m[i][0].primary_hash) == k);
                        }
                    }
                }
                return None;
            },
        };
        let mut j: usize = 0;
        while j < candidates.len()
            invariant
                self.wf(),
                m == self@,
                self.index@.contains_key(k),
                candidates@ == self.index@[k]@,
                j <= candidates@.len(),
                forall|p: int| 0 <= p < j ==> !bucket_at(m, key@, #[trigger] candidates@[p] as int),
            decreases candidates.len() - j,
        {
            let c = candidates[j];
            assert(0 <= c < m.len());
            assert(m[c as int].len() > 0);
            assert(m[c as int][0] == self.buckets@[c as int]@[0]@);
            if self.buckets[c][0].primary_hash == *key {
                return Some(c);
            }
            j += 1;
        }
        proof {
            assert forall|i: int| !bucket_at(m, key@, i) by {
                if bucket_at(m, key@, i) {
                    assert(i < nb);
                    assert(text_key(m[i][0].primary_hash) == k);
                    assert(self.index@[k]@.contains(i as usize));
                    let p = choose|p: int| 0 <= p < candidates@.len() && candidates@[p] == i as usize;
                    assert(candidates@[p] as int == i);
                    assert(!bucket_at(m, key@, candidates@[p] as int));
                }
            }
        }
        None
    }

    /// Creates an empty map.
    pub fn new() -> (r: DuplicationMap)
        ensures
            r.wf(),
            r@ == Seq::<Seq<EntryView>>::empty(),
    {
        let r = DuplicationMap { buckets: Vec::new(), index: HashMap::new() };
        proof {
            broadcast use vstd::std_specs::hash::group_hash_axioms;
            assert(r@ =~= Seq::<Seq<EntryView>>::empty());
        }
        r
    }

    /// Appends `bucket` as the bucket of its primary digest, which no bucket has yet.
    fn append_bucket(&mut self, bucket: Vec<Entry>)
        requires
            old(self).wf(),
            bucket@.len() > 0,
            all_primary(bucket_view(bucket@), bucket_view(bucket@)[0].primary_hash),
            forall|i: int| !bucket_at(old(self)@, bucket_view(bucket@)[0].primary_hash, i),
        ensures
            final(self).wf(),
            final(self)@ == old(self)@.push(bucket_view(bucket@)),
    {
        broadcast use vstd::std_specs::hash::group_hash_axioms;
        let ghost m0 = self@;
        let ghost b = bucket_view(bucket@);
        assert(b[0] == bucket@[0]@);
        let k = key_of(&bucket[0].primary_hash);
        self.buckets.push(bucket);
        let position = self.buckets.len() - 1;
        let ghost index0 = self.index@;
        let mut positions = match self.index.remove(&k) {
            Some(v) => v,
            None => Vec::new(),
        };
        positions.push(position);
        self.index.insert(k, positions);
        proof {
            assert(self@ =~= m0.push(b));
            lemma_index_new_bucket(index0, m0, b, positions);
            lemma_wf_push(m0, b);
        }
    }

    /// Takes out the records that cannot be clustered: those without a secondary digest in a
    /// bucket of two or more, which only a push that returned the digester's error leaves. The
    /// map left holds the other records, every bucket of two or more resolved; the records
    /// taken out come in bucket order.
    pub fn into_resolved(self) -> (r: (DuplicationMap, Vec<Entry>))
        requires
            self.wf(),
        ensures
            r.0.wf(),
            all_resolved(r.0@),
            r.0@ == resolved_part(self@),
            bucket_view(r.1@) == unresolved_part(self@),
    {
        let ghost m = self@;
        let mut old_buckets = self.buckets;
        let mut out = DuplicationMap::new();
        let mut aside: Vec<Entry> = Vec::new();
        let n = old_buckets.len();
        let mut i: usize = 0;
        while i < n
            invariant
                n == old_buckets@.len(),
                m.len() == n,
                buckets_wf(m),
                i <= n,
                forall|j: int| i <= j < n ==> bucket_view(#[trigger] old_buckets@[j]@) == m[j],
                out.wf(),
                all_resolved(out@),
                out@ == resolved_part(m.take(i as int)),
                bucket_view(aside@) == unresolved_part(m.take(i as int)),
            decreases n - i,
        {
            let mut bucket: Vec<Entry> = Vec::new();
            std::mem::swap(&mut old_buckets[i], &mut bucket);
            let ghost b = bucket_view(bucket@);
            assert(b == m[i as int]);
            let (keep, mut set) = partition_bucket(bucket);
            let ghost kv = bucket_view(keep@);
            let ghost aside0 = bucket_view(aside@);
            let ghost out0 = out@;
            proof {
                assert(m.take(i + 1).drop_last() =~= m.take(i as int));
                assert(m.take(i + 1).last() == m[i as int]);
                assert(all_primary(b, b[0].primary_hash));
                lemma_kept_primary(b, b[0].primary_hash);
            }
            if keep.len() > 0 {
                proof {
                    lemma_resolved_primaries(m.take(i as int));
                    assert forall|x: int| !bucket_at(out0, kv[0].primary_hash, x) by {
                        if bucket_at(out0, kv[0].primary_hash, x) {
                            let y = choose|y: int|
                                0 <= y < m.take(i as int).len() && (#[trigger] out0[x])[0].primary_hash
                                    == m.take(i as int)[y][0].primary_hash;
                            assert(m.take(i as int)[y] == m[y]);
                            assert(m[y][0].primary_hash == m[i as int][0].primary_hash);
                        }
                    }
                }
                let ghost keep_view = kv;
                out.append_bucket(keep);
                proof {
                    if b.len() > 1 {
                        b.filter_lemma(|x: EntryView| x.secondary_hash is Some);
                    }
                    assert forall|x: int, j: int|
                        0 <= x < out@.len() && out@[x].len() > 1 && 0 <= j < out@[x].len()
                        implies (#[trigger] out@[x][j]).secondary_hash is Some by {
                        if x < out0.len() {
                            assert(out@[x] == out0[x]);
                        } else {
                            assert(out@[x] == keep_view);
                        }
                    }
                }
            }
            aside.append(&mut set);
            proof {
                assert(bucket_view(aside@) =~= aside0 + set_aside(b));
            }
            i += 1;
        }
        proof {
            assert(m.take(n as int) =~= m);
        }
        (out, aside)
    }

    /// Adds `entry` to the bucket of its primary digest.
    ///
    /// A record whose primary digest is new gets a bucket of its own, and no secondary digest
    /// is computed for it. A record joining a bucket is appended to it, and then every member
    /// of that bucket that has no secondary digest yet gets one from `secondary_digester`;
    /// members that already have one are left alone. On the first failure the error is
    /// returned: the record stays in the bucket, and members still without a secondary digest
    /// get one at the next push into the same bucket.
    pub fn push<D: Digester>(&mut self, secondary_digester: &mut D, entry: Entry) -> (r: Result<
        (),
        IoError,
    >)
        requires
            old(self).wf(),
        ensures
            final(self).wf(),
            pushed(old(self)@, entry@, r is Ok, final(self)@),
            final(secondary_digester).requests().len() >= old(secondary_digester).requests().len(),
            final(secondary_digester).requests().take(old(secondary_digester).requests().len() as int)
                == old(secondary_digester).requests(),
            secondary_requests(
                old(self)@,
                entry@,
                final(secondary_digester).requests().skip(old(secondary_digester).requests().len() as int),
                r,
                final(self)@,
            ),
    {
        let ghost m0 = self@;
        let ghost r0 = secondary_digester.requests();
        match self.find_bucket(&entry.primary_hash) {
            None => {
                broadcast use vstd::std_specs::hash::group_hash_axioms;
                let k = key_of(&entry.primary_hash);
                let mut bucket: Vec<Entry> = Vec::new();
                bucket.push(entry);
                self.buckets.push(bucket);
                let position = self.buckets.len() - 1;
                let ghost index0 = self.index@;
                let mut positions = match self.index.remove(&k) {
                    Some(v) => v,
                    None => Vec::new(),
                };
                positions.push(position);
                self.index.insert(k, positions);
                proof {
                    lemma_index_new_bucket(index0, m0, seq![entry@], positions);
                }
                proof {
                    assert(bucket_view(bucket@) =~= seq![entry@]);
                    assert(self@ =~= m0.push(seq![entry@]));
                    lemma_wf_push(m0, seq![entry@]);
                }
                Ok(())
            },
            Some(i) => {
                let mut bucket: Vec<Entry> = Vec::new();
                std::mem::swap(&mut self.buckets[i], &mut bucket);
                let ghost before = self.buckets@;
                bucket.push(entry);
                let ghost grown = m0[i as int].push(entry@);
                assert(bucket_view(bucket@) =~= grown);
                let mut j: usize = 0;
                let mut result: Result<(), IoError> = Ok(());
                let ghost mut c: Seq<(Seq<char>, Result<Seq<char>, IoError>)> = Seq::empty();
                while j < bucket.len()
                    invariant_except_break
                        result is Ok,
                        c.len() == lacking_before(grown, j as int),
                        forall|t: int| 0 <= t < c.len() ==> (#[trigger] c[t]).1 is Ok,
                    invariant
                        0 <= j <= bucket.len(),
                        bucket@.len() == grown.len(),
                        secondary_digester.requests() == r0 + c,
                        forall|k: int| 0 <= k < j ==> #[trigger] bucket@[k]@ == answered(grown, k, c),
                        forall|k: int| j <= k < grown.len() ==> #[trigger] bucket@[k]@ == grown[k],
                        forall|k: int|
                            0 <= k < j && grown[k].secondary_hash is None ==> lacking_before(grown, k)
                                < c.len() && c[lacking_before(grown, k) as int].0 == grown[k].path,
                    ensures
                        bucket@.len() == grown.len(),
                        secondary_digester.requests() == r0 + c,
                        forall|k: int| 0 <= k < grown.len() ==> #[trigger] bucket@[k]@ == answered(grown, k, c),
                        c.len() <= lacking_before(grown, grown.len() as int),
                        forall|k: int|
                            0 <= k < grown.len() && grown[k].secondary_hash is None && lacking_before(grown, k)
                                < c.len() ==> c[lacking_before(grown, k) as int].0 == grown[k].path,
                        forall|t: int| 0 <= t < c.len() - 1 ==> (#[trigger] c[t]).1 is Ok,
                        match result {
                            Ok(()) => c.len() == lacking_before(grown, grown.len() as int) && (c.len() > 0
                                ==> c.last().1 is Ok),
                            Err(x) => c.len() > 0 && c.last().1 == Err::<Seq<char>, IoError>(x),
                        },
                    decreases bucket.len() - j,
                {
                    proof {
                        lemma_lacking_mono(grown, j + 1, grown.len() as int);
                    }
                    if bucket[j].secondary_hash.is_none() {
                        let answer = secondary_digester.get_digest(bucket[j].path.as_str());
                        let ghost c0 = c;
                        proof {
                            c = c.push((grown[j as int].path, answer_view(answer)));
                            assert forall|k: int| 0 <= k < j implies answered(grown, k, c) == answered(grown, k, c0) by {
                                if grown[k].secondary_hash is None {
                                    lemma_lacking_mono(grown, k + 1, j as int);
                                }
                            }
                            assert forall|k: int| j < k < grown.len() implies answered(grown, k, c) == grown[k] by {
                                lemma_lacking_mono(grown, j + 1, k);
                            }
                        }
                        match answer {
                            Ok(hash) => {
                                set_secondary(&mut bucket, j, hash);
                            },
                            Err(e) => {
                                result = Err(e);
                                proof {
                                    assert(bucket@[j as int]@ == answered(grown, j as int, c));
                                    assert forall|k: int| 0 <= k < grown.len() && grown[k].secondary_hash is None
                                        && lacking_before(grown, k) < c.len() implies c[lacking_before(grown, k) as int].0
                                        == grown[k].path by {
                                        if k > j {
                                            lemma_lacking_mono(grown, j + 1, k);
                                        }
                                    }
                                }
                                break;
                            },
                        }
                    }
                    j += 1;
                }
                proof {
                    assert forall|k: int| 0 <= k < grown.len() implies keeps_record(grown[k], #[trigger] bucket@[k]@) by {
                        assert(bucket@[k]@ == answered(grown, k, c));
                    }
                    if result is Ok {
                        assert forall|k: int| 0 <= k < grown.len() implies (#[trigger] bucket@[k]@).secondary_hash is Some by {
                            assert(bucket@[k]@ == answered(grown, k, c));
                            if grown[k].secondary_hash is None {
                                lemma_lacking_mono(grown, k + 1, grown.len() as int);
                            }
                        }
                    }
                }
                let ghost filled = bucket;
                std::mem::swap(&mut self.buckets[i], &mut bucket);
                proof {
                    assert(self.buckets@ =~= before.update(i as int, filled));
                    assert(bucket_view(filled@) =~= self@[i as int]);
                    assert forall|k: int| 0 <= k < m0.len() && k != i implies self@[k] == m0[k] by {
                        assert(self.buckets@[k] == before[k]);
                    }
                    assert(bucket_at(m0, entry@.primary_hash, i as int));
                    let m1 = self@;
                    assert forall|j: int| 0 <= j < m1[i as int].len()
                        implies #[trigger] m1[i as int][j].primary_hash == m0[i as int][0].primary_hash by {
                        assert(keeps_record(grown[j], m1[i as int][j]));
                        if j < m0[i as int].len() {
                            assert(grown[j] == m0[i as int][j]);
                        }
                    }
                    assert(m1 == m0.update(i as int, m1[i as int]));
                    lemma_wf_update(m0, i as int, m1[i as int]);
                    assert forall|x: int| 0 <= x < m0.len()
                        implies m1[x][0].primary_hash == m0[x][0].primary_hash by {
                        if x != i {
                            assert(m1[x] == m0[x]);
                        }
                    }
                    lemma_index_same_keys(self.index@, m0, m1);
                }
                result
            },
        }
    }
}

impl DuplicationMap {
    /// Consumes the map into the sequence of its duplicate clusters: bucket by bucket, a lone
    /// record alone, the records of a larger bucket split by secondary digest. Every bucket of
    /// two or more records must be resolved: a record without a secondary digest there would
    /// be a record that was never compared, and `into_resolved` takes such records out first.
    pub fn into_iter(self) -> (r: DuplicationMapIterator)
        requires
            self.wf(),
            all_resolved(self@),
        ensures
            r.wf(),
            r@ == clusters_of(self@),
    {
        let r = DuplicationMapIterator {
            buckets: self.buckets,
            next_bucket: 0,
            duplicates: Vec::new(),
            next_duplicate: 0,
        };
        proof {
            let m = self@;
            assert forall|i: int| 0 <= i < r.buckets@.len()
                implies (#[trigger] r.buckets@[i])@.len() > 0 by {
                assert(m[i].len() > 0);
            }
            assert(buckets_view(r.buckets@).subrange(0, r.buckets@.len() as int) =~= m);
            assert(buckets_view(r.duplicates@).subrange(0, 0) =~= Seq::<Seq<EntryView>>::empty());
            assert(r@ =~= clusters_of(m));
        }
        r
    }
}

/// Hands out the clusters of a `DuplicationMap`, one bucket at a time.
pub struct DuplicationMapIterator {
    buckets: Vec<Vec<Entry>>,
    next_bucket: usize,
    duplicates: Vec<Vec<Entry>>,
    next_duplicate: usize,
}

impl View for DuplicationMapIterator {
    type V = Seq<Seq<EntryView>>;

    /// The clusters still to come, in the order in which they will come.
    closed spec fn view(&self) -> Seq<Seq<EntryView>> {
        self.pending() + clusters_of(self.unsplit())
    }
}

impl DuplicationMapIterator {
    /// The clusters of the current bucket not handed out yet.
    closed spec fn pending(&self) -> Seq<Seq<EntryView>> {
        buckets_view(self.duplicates@).subrange(self.next_duplicate as int, self.duplicates@.len() as int)
    }

    /// The buckets not split yet.
    closed spec fn unsplit(&self) -> Seq<Seq<EntryView>> {
        buckets_view(self.buckets@).subrange(self.next_bucket as int, self.buckets@.len() as int)
    }

    /// The buckets still to split are non-empty.
    pub closed spec fn wf(&self) -> bool {
        &&& self.next_bucket <= self.buckets@.len()
        &&& self.next_duplicate <= self.duplicates@.len()
        &&& forall|i: int| self.next_bucket <= i < self.buckets@.len() ==>
            (#[trigger] self.buckets@[i])@.len() > 0
    }

    /// Returns the next cluster, or `None` once all have been handed out.
    pub fn next(&mut self) -> (r: Option<Vec<Entry>>)
        requires
            old(self).wf(),
        ensures
            final(self).wf(),
            old(self)@.len() == 0 ==> r is None && final(self)@ == old(self)@,
            old(self)@.len() > 0 ==> (r matches Some(c) && bucket_view(c@) == old(self)@[0]
                && final(self)@ == old(self)@.drop_first()),
    {
        let ghost v0 = self@;
        let ghost rest = self.unsplit();
        if self.next_duplicate < self.duplicates.len() {
            let ghost d0 = self.duplicates@;
            let mut taken: Vec<Entry> = Vec::new();
            std::mem::swap(&mut self.duplicates[self.next_duplicate], &mut taken);
            self.next_duplicate = self.next_duplicate + 1;
            proof {
                let dv = self.pending();
                let dv0 = buckets_view(d0).subrange(self.next_duplicate - 1, d0.len() as int);
                assert(dv =~= dv0.drop_first());
                assert(v0[0] == dv0[0]);
                assert(self@ =~= v0.drop_first());
            }
            return Some(taken);
        }
        if self.next_bucket >= self.buckets.len() {
            proof {
                assert(self.pending() =~= Seq::<Seq<EntryView>>::empty());
                assert(rest =~= Seq::<Seq<EntryView>>::empty());
                assert(v0 =~= Seq::<Seq<EntryView>>::empty());
            }
            return None;
        }
        let mut bucket: Vec<Entry> = Vec::new();
        std::mem::swap(&mut self.buckets[self.next_bucket], &mut bucket);
        self.next_bucket = self.next_bucket + 1;
        proof {
            assert(self.unsplit() =~= rest.drop_first());
            assert(rest[0] == bucket_view(bucket@));
            assert(self.pending() =~= Seq::<Seq<EntryView>>::empty());
            assert(v0 =~= bucket_clusters(rest[0]) + clusters_of(rest.drop_first()));
        }
        if bucket.len() == 1 {
            proof {
                assert(bucket_clusters(rest[0]) =~= seq![rest[0]]);
                assert(self@ =~= v0.drop_first());
            }
            return Some(bucket);
        }
        let ghost b = bucket_view(bucket@);
        let groups = split_bucket(bucket);
        proof {
            lemma_split_nonempty(b);
        }
        self.duplicates = groups;
        let mut taken: Vec<Entry> = Vec::new();
        std::mem::swap(&mut self.duplicates[0], &mut taken);
        self.next_duplicate = 1;
        proof {
            let g = buckets_view(groups@);
            assert(g == bucket_clusters(rest[0]));
            assert(buckets_view(self.duplicates@).subrange(1, self.duplicates@.len() as int) =~= g.drop_first());
            assert(self@ =~= v0.drop_first());
        }
        Some(taken)
    }
}

} // verus!
