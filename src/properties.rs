//! What the grouping engine guarantees across pushes and clustering.

use vstd::multiset::Multiset;
use vstd::prelude::*;

use crate::duplication::{
    add_to_groups, all_resolved, answered, bucket_at, bucket_clusters, buckets_wf, clusters_of, has_group,
    keeps_record, lacking_before, pushed, secondary_requests, split_by_secondary,
};
use crate::utils::IoError;
use crate::entry::EntryView;

verus! {

/// All the records of a sequence of buckets or clusters, counted with multiplicity.
pub open spec fn records_of(m: Seq<Seq<EntryView>>) -> Multiset<EntryView>
    decreases m.len(),
{
    if m.len() == 0 {
        Multiset::empty()
    } else {
        records_of(m.drop_last()).add(m.last().to_multiset())
    }
}

/// The number of records in a sequence of buckets or clusters.
pub open spec fn total_len(m: Seq<Seq<EntryView>>) -> nat
    decreases m.len(),
{
    if m.len() == 0 {
        0
    } else {
        total_len(m.drop_last()) + m.last().len()
    }
}

proof fn lemma_empty_to_multiset(s: Seq<EntryView>)
    requires
        s.len() == 0,
    ensures
        s.to_multiset() =~= Multiset::empty(),
{
    broadcast use vstd::seq_lib::group_to_multiset_ensures;
    broadcast use vstd::multiset::group_multiset_properties;
    assert(s.to_multiset().len() == 0);
}

proof fn lemma_records_concat(a: Seq<Seq<EntryView>>, b: Seq<Seq<EntryView>>)
    ensures
        records_of(a + b) =~= records_of(a).add(records_of(b)),
    decreases b.len(),
{
    if b.len() == 0 {
        assert(a + b =~= a);
    } else {
        assert((a + b).drop_last() =~= a + b.drop_last());
        assert((a + b).last() == b.last());
        lemma_records_concat(a, b.drop_last());
    }
}

proof fn lemma_records_push_into(g: Seq<Seq<EntryView>>, i: int, e: EntryView)
    requires
        0 <= i < g.len(),
    ensures
        records_of(g.update(i, g[i].push(e))) =~= records_of(g).insert(e),
    decreases g.len(),
{
    broadcast use vstd::seq_lib::group_to_multiset_ensures;
    let g1 = g.update(i, g[i].push(e));
    if i == g.len() - 1 {
        assert(g1.drop_last() =~= g.drop_last());
        assert(g1.last() == g[i].push(e));
    } else {
        assert(g1.drop_last() =~= g.drop_last().update(i, g.drop_last()[i].push(e)));
        assert(g1.last() == g.last());
        lemma_records_push_into(g.drop_last(), i, e);
    }
}

proof fn lemma_split_records(b: Seq<EntryView>)
    ensures
        records_of(split_by_secondary(b)) =~= b.to_multiset(),
    decreases b.len(),
{
    broadcast use vstd::seq_lib::group_to_multiset_ensures;
    if b.len() == 0 {
        lemma_empty_to_multiset(b);
    } else {
        let d = b.drop_last();
        let e = b.last();
        let g = split_by_secondary(d);
        lemma_split_records(d);
        assert(b =~= d.push(e));
        let single: Seq<EntryView> = seq![e];
        assert(single =~= Seq::<EntryView>::empty().push(e));
        lemma_empty_to_multiset(Seq::<EntryView>::empty());
        assert(g.push(single).drop_last() =~= g);
        match e.secondary_hash {
            Some(h) => {
                if exists|i: int| has_group(g, h, i) {
                    let i = choose|i: int| has_group(g, h, i);
                    lemma_records_push_into(g, i, e);
                }
            },
            None => {},
        }
    }
}

proof fn lemma_records_single(b: Seq<EntryView>)
    ensures
        records_of(seq![b]) =~= b.to_multiset(),
{
    broadcast use vstd::multiset::group_multiset_axioms;
    let one = seq![b];
    assert(one.drop_last() =~= Seq::<Seq<EntryView>>::empty());
    assert(records_of(one.drop_last()) == Multiset::<EntryView>::empty());
    assert(one.last() == b);
}

proof fn lemma_bucket_clusters_records(b: Seq<EntryView>)
    ensures
        records_of(bucket_clusters(b)) =~= b.to_multiset(),
{
    broadcast use vstd::multiset::group_multiset_axioms;
    if b.len() <= 1 {
        lemma_records_single(b);
    } else {
        lemma_split_records(b);
    }
}

/// Clustering neither loses nor invents a record: every record of the buckets is in exactly
/// one cluster, and the clusters hold nothing else.
pub proof fn lemma_clusters_complete(m: Seq<Seq<EntryView>>)
    ensures
        records_of(clusters_of(m)) =~= records_of(m),
        total_len(clusters_of(m)) == total_len(m),
    decreases m.len(),
{
    broadcast use vstd::multiset::group_multiset_axioms;
    if m.len() > 0 {
        let rest = m.drop_first();
        lemma_clusters_complete(rest);
        lemma_bucket_clusters_records(m[0]);
        lemma_records_concat(bucket_clusters(m[0]), clusters_of(rest));
        assert(m =~= seq![m[0]] + rest);
        lemma_records_concat(seq![m[0]], rest);
        lemma_records_single(m[0]);
        assert(clusters_of(m) == bucket_clusters(m[0]) + clusters_of(rest));
    }
    lemma_records_len(clusters_of(m));
    lemma_records_len(m);
}

proof fn lemma_records_len(m: Seq<Seq<EntryView>>)
    ensures
        records_of(m).len() == total_len(m),
    decreases m.len(),
{
    broadcast use vstd::seq_lib::group_to_multiset_ensures;
    broadcast use vstd::multiset::group_multiset_axioms;
    if m.len() == 0 {
        broadcast use vstd::multiset::group_multiset_properties;
    } else {
        lemma_records_len(m.drop_last());
    }
}

proof fn lemma_total_len_update(m: Seq<Seq<EntryView>>, i: int, b: Seq<EntryView>)
    requires
        0 <= i < m.len(),
    ensures
        total_len(m.update(i, b)) + m[i].len() == total_len(m) + b.len(),
    decreases m.len(),
{
    let m1 = m.update(i, b);
    if i == m.len() - 1 {
        assert(m1.drop_last() =~= m.drop_last());
    } else {
        assert(m1.drop_last() =~= m.drop_last().update(i, b));
        lemma_total_len_update(m.drop_last(), i, b);
    }
}

/// Each push adds exactly one record to the map, whether or not it succeeds: the number of
/// records held, and so the sum of the cluster sizes, is the number of pushes.
pub proof fn lemma_push_adds_one_record(
    m: Seq<Seq<EntryView>>,
    e: EntryView,
    ok: bool,
    m1: Seq<Seq<EntryView>>,
)
    requires
        buckets_wf(m),
        pushed(m, e, ok, m1),
    ensures
        total_len(m1) == total_len(m) + 1,
        total_len(clusters_of(m1)) == total_len(m) + 1,
{
    lemma_clusters_complete(m1);
    if exists|i: int| bucket_at(m, e.primary_hash, i) {
        let i = choose|i: int| bucket_at(m, e.primary_hash, i);
        assert(m1 =~= m.update(i, m1[i]));
        lemma_total_len_update(m, i, m1[i]);
    } else {
        assert(m1 == m.push(seq![e]));
        assert(m1.drop_last() =~= m);
    }
}

proof fn lemma_clusters_push(m: Seq<Seq<EntryView>>, b: Seq<EntryView>)
    ensures
        clusters_of(m.push(b)) =~= clusters_of(m) + bucket_clusters(b),
    decreases m.len(),
{
    let mb = m.push(b);
    if m.len() == 0 {
        assert(mb.drop_first() =~= Seq::<Seq<EntryView>>::empty());
        assert(clusters_of(mb.drop_first()) == Seq::<Seq<EntryView>>::empty());
        assert(mb[0] == b);
        assert(clusters_of(m) == Seq::<Seq<EntryView>>::empty());
    } else {
        assert(mb.drop_first() =~= m.drop_first().push(b));
        assert(mb[0] == m[0]);
        lemma_clusters_push(m.drop_first(), b);
        assert(clusters_of(mb) == bucket_clusters(m[0]) + clusters_of(mb.drop_first()));
        assert(clusters_of(m) == bucket_clusters(m[0]) + clusters_of(m.drop_first()));
    }
}

/// A record whose primary digest no earlier record has is stored as it was given, with no
/// secondary digest computed, and comes out as a cluster of its own.
pub proof fn lemma_unique_record_alone(
    m: Seq<Seq<EntryView>>,
    e: EntryView,
    ok: bool,
    m1: Seq<Seq<EntryView>>,
)
    requires
        buckets_wf(m),
        pushed(m, e, ok, m1),
        forall|i: int| !bucket_at(m, e.primary_hash, i),
    ensures
        ok,
        m1 == m.push(seq![e]),
        clusters_of(m1) == clusters_of(m) + seq![seq![e]],
{
    lemma_clusters_push(m, seq![e]);
}

/// A push touches no bucket but that of the record's primary digest: a record that never
/// shares its primary digest with a later one keeps its bucket, and its cluster, unchanged.
pub proof fn lemma_other_buckets_untouched(
    m: Seq<Seq<EntryView>>,
    e: EntryView,
    ok: bool,
    m1: Seq<Seq<EntryView>>,
    i: int,
)
    requires
        buckets_wf(m),
        pushed(m, e, ok, m1),
        0 <= i < m.len(),
        m[i][0].primary_hash != e.primary_hash,
    ensures
        m1[i] == m[i],
{
    if exists|k: int| bucket_at(m, e.primary_hash, k) {
        let k = choose|k: int| bucket_at(m, e.primary_hash, k);
        assert(k != i);
    } else {
        assert(m1[i] == m.push(seq![e])[i]);
    }
}

/// A secondary digest is computed at most once per record: a record that has one keeps it,
/// unchanged, through every later push.
pub proof fn lemma_secondary_kept(
    m: Seq<Seq<EntryView>>,
    e: EntryView,
    ok: bool,
    m1: Seq<Seq<EntryView>>,
    i: int,
    j: int,
)
    requires
        buckets_wf(m),
        pushed(m, e, ok, m1),
        0 <= i < m.len(),
        0 <= j < m[i].len(),
        m[i][j].secondary_hash is Some,
    ensures
        m1[i][j] == m[i][j],
{
    if m[i][0].primary_hash == e.primary_hash {
        assert(bucket_at(m, e.primary_hash, i));
        assert(m[i].push(e)[j] == m[i][j]);
        assert(keeps_record(m[i][j], m1[i][j]));
    } else {
        lemma_other_buckets_untouched(m, e, ok, m1, i);
    }
}

/// A successful push keeps every bucket of two or more records resolved.
pub proof fn lemma_push_keeps_resolved(
    m: Seq<Seq<EntryView>>,
    e: EntryView,
    m1: Seq<Seq<EntryView>>,
)
    requires
        buckets_wf(m),
        all_resolved(m),
        pushed(m, e, true, m1),
    ensures
        all_resolved(m1),
{
    if exists|k: int| bucket_at(m, e.primary_hash, k) {
        let k = choose|k: int| bucket_at(m, e.primary_hash, k);
        assert forall|i: int, j: int| 0 <= i < m1.len() && m1[i].len() > 1 && 0 <= j < m1[i].len()
            implies (#[trigger] m1[i][j]).secondary_hash is Some by {
            if i != k {
                assert(m1[i] == m[i]);
            }
        }
    } else {
        assert forall|i: int, j: int| 0 <= i < m1.len() && m1[i].len() > 1 && 0 <= j < m1[i].len()
            implies (#[trigger] m1[i][j]).secondary_hash is Some by {
            assert(m1 == m.push(seq![e]));
            if i < m.len() {
                assert(m1[i] == m[i]);
            }
        }
    }
}

/// Three records of one bucket, two with one secondary digest and the third with another,
/// make exactly two clusters: the two, in the order they were pushed, and the third alone,
/// the cluster of the first record coming first.
pub proof fn lemma_three_records_split(x: EntryView, y: EntryView, z: EntryView)
    requires
        x.primary_hash == y.primary_hash && y.primary_hash == z.primary_hash,
        x.secondary_hash is Some && y.secondary_hash is Some && z.secondary_hash is Some,
        x.secondary_hash == z.secondary_hash || x.secondary_hash == y.secondary_hash
            || y.secondary_hash == z.secondary_hash,
        !(x.secondary_hash == y.secondary_hash && y.secondary_hash == z.secondary_hash),
    ensures
        x.secondary_hash == z.secondary_hash ==>
            bucket_clusters(seq![x, y, z]) == seq![seq![x, z], seq![y]],
        x.secondary_hash == y.secondary_hash ==>
            bucket_clusters(seq![x, y, z]) == seq![seq![x, y], seq![z]],
        y.secondary_hash == z.secondary_hash ==>
            bucket_clusters(seq![x, y, z]) == seq![seq![x], seq![y, z]],
{
    let b = seq![x, y, z];
    let e: Seq<Seq<EntryView>> = Seq::empty();
    assert(b.drop_last() =~= seq![x, y]);
    assert(seq![x, y].drop_last() =~= seq![x]);
    assert(seq![x].drop_last() =~= Seq::<EntryView>::empty());
    assert(split_by_secondary(seq![x].drop_last()) == e);
    assert(seq![x].last() == x);
    let g1 = split_by_secondary(seq![x]);
    assert(g1 == add_to_groups(e, x));
    assert(!has_group(e, x.secondary_hash->Some_0, 0));
    assert(g1 == seq![seq![x]]);
    assert(seq![x, y].last() == y);
    assert(b.last() == z);
    let g2 = split_by_secondary(seq![x, y]);
    assert(g2 == add_to_groups(g1, y));
    if x.secondary_hash == y.secondary_hash {
        assert(has_group(g1, y.secondary_hash->Some_0, 0));
        let c = choose|i: int| has_group(g1, y.secondary_hash->Some_0, i);
        assert(c == 0);
        assert(g1[0].push(y) =~= seq![x, y]);
        assert(g2 =~= seq![seq![x, y]]);
        let g3 = add_to_groups(g2, z);
        assert(!has_group(g2, z.secondary_hash->Some_0, 0));
        assert(g3 =~= seq![seq![x, y], seq![z]]);
    } else {
        assert(!has_group(g1, y.secondary_hash->Some_0, 0));
        assert(g2 =~= seq![seq![x], seq![y]]);
        let g3 = add_to_groups(g2, z);
        if x.secondary_hash == z.secondary_hash {
            assert(has_group(g2, z.secondary_hash->Some_0, 0));
            let c = choose|i: int| has_group(g2, z.secondary_hash->Some_0, i);
            assert(c == 0);
            assert(g2[0].push(z) =~= seq![x, z]);
            assert(g3 =~= seq![seq![x, z], seq![y]]);
        } else {
            assert(has_group(g2, z.secondary_hash->Some_0, 1));
            let c = choose|i: int| has_group(g2, z.secondary_hash->Some_0, i);
            assert(c == 1);
            assert(g2[1].push(z) =~= seq![y, z]);
            assert(g3 =~= seq![seq![x], seq![y, z]]);
        }
    }
}

/// A record's path and primary digest: what a push never changes.
pub open spec fn identity(e: EntryView) -> (Seq<char>, Seq<char>) {
    (e.path, e.primary_hash)
}

/// The identities of a sequence of records, in order.
pub open spec fn identities(b: Seq<EntryView>) -> Seq<(Seq<char>, Seq<char>)> {
    b.map_values(|e: EntryView| identity(e))
}

/// The identities of all records of a sequence of buckets or clusters, counted with
/// multiplicity.
pub open spec fn identities_of(m: Seq<Seq<EntryView>>) -> Multiset<(Seq<char>, Seq<char>)>
    decreases m.len(),
{
    if m.len() == 0 {
        Multiset::empty()
    } else {
        identities_of(m.drop_last()).add(identities(m.last()).to_multiset())
    }
}

proof fn lemma_identities_update(
    m: Seq<Seq<EntryView>>,
    i: int,
    b: Seq<EntryView>,
    v: (Seq<char>, Seq<char>),
)
    requires
        0 <= i < m.len(),
        identities(b) == identities(m[i]).push(v),
    ensures
        identities_of(m.update(i, b)) =~= identities_of(m).insert(v),
    decreases m.len(),
{
    broadcast use vstd::seq_lib::group_to_multiset_ensures;
    let m1 = m.update(i, b);
    if i == m.len() - 1 {
        assert(m1.drop_last() =~= m.drop_last());
        assert(m1.last() == b);
    } else {
        assert(m1.drop_last() =~= m.drop_last().update(i, b));
        assert(m1.last() == m.last());
        lemma_identities_update(m.drop_last(), i, b, v);
    }
}

/// A push, whether or not it succeeds, adds the path and primary digest of its record to those
/// held, and changes no other.
pub proof fn lemma_push_adds_identity(
    m: Seq<Seq<EntryView>>,
    e: EntryView,
    ok: bool,
    m1: Seq<Seq<EntryView>>,
)
    requires
        buckets_wf(m),
        pushed(m, e, ok, m1),
    ensures
        identities_of(m1) =~= identities_of(m).insert(identity(e)),
{
    broadcast use vstd::seq_lib::group_to_multiset_ensures;
    if exists|i: int| bucket_at(m, e.primary_hash, i) {
        let i = choose|i: int| bucket_at(m, e.primary_hash, i);
        let grown = m[i].push(e);
        assert(identities(m1[i]) =~= identities(m[i]).push(identity(e))) by {
            assert forall|j: int| 0 <= j < grown.len()
                implies identity(#[trigger] m1[i][j]) == identity(grown[j]) by {
                assert(keeps_record(grown[j], m1[i][j]));
            }
            assert(identities(grown) =~= identities(m[i]).push(identity(e)));
        }
        assert(m1 =~= m.update(i, m1[i]));
        lemma_identities_update(m, i, m1[i], identity(e));
    } else {
        assert(m1 == m.push(seq![e]));
        assert(m1.drop_last() =~= m);
        assert(identities(seq![e]) =~= Seq::<(Seq<char>, Seq<char>)>::empty().push(identity(e)));
        assert(Seq::<(Seq<char>, Seq<char>)>::empty().to_multiset() =~= Multiset::empty()) by {
            broadcast use vstd::multiset::group_multiset_properties;
            assert(Seq::<(Seq<char>, Seq<char>)>::empty().to_multiset().len() == 0);
        }
    }
}

proof fn lemma_none_lacking(g: Seq<EntryView>, j: int)
    requires
        0 <= j <= g.len(),
        forall|k: int| 0 <= k < j ==> (#[trigger] g[k]).secondary_hash is Some,
    ensures
        lacking_before(g, j) == 0,
    decreases j,
{
    if j > 0 {
        lemma_none_lacking(g, j - 1);
    }
}

/// Secondary digests are computed once: when every record of a bucket has its secondary
/// digest, a push into that bucket asks the digester about the new record alone, and only if
/// it has none, and stores the digest given for it.
pub proof fn lemma_only_new_record_asked(
    m: Seq<Seq<EntryView>>,
    e: EntryView,
    c: Seq<(Seq<char>, Result<Seq<char>, IoError>)>,
    r: Result<(), IoError>,
    m1: Seq<Seq<EntryView>>,
    i: int,
)
    requires
        bucket_at(m, e.primary_hash, i),
        forall|j: int| 0 <= j < m[i].len() ==> (#[trigger] m[i][j]).secondary_hash is Some,
        secondary_requests(m, e, c, r, m1),
    ensures
        e.secondary_hash is Some ==> c.len() == 0 && r is Ok,
        e.secondary_hash is None ==> c.len() <= 1 && (c.len() == 1 ==> c[0].0 == e.path),
        e.secondary_hash is None && r is Ok ==> c.len() == 1 && c[0].1 is Ok && m1[i][m[i].len()
            as int].secondary_hash == Some(c[0].1->Ok_0),
{
    let g = m[i].push(e);
    let n = m[i].len() as int;
    assert forall|k: int| 0 <= k < n implies (#[trigger] g[k]).secondary_hash is Some by {
        assert(g[k] == m[i][k]);
    }
    lemma_none_lacking(g, n);
    assert(g[n] == e);
    assert(lacking_before(g, n + 1) == lacking_before(g, n) + if e.secondary_hash is None {
        1nat
    } else {
        0nat
    });
    assert(m1[i][n] == answered(g, n, c));
}

/// Every secondary digest held in `m` either came with a record of `inputs` of the same path,
/// or was given by the digester for that path, as `answers` records.
pub open spec fn digests_from(
    m: Seq<Seq<EntryView>>,
    inputs: Seq<EntryView>,
    answers: Seq<(Seq<char>, Result<Seq<char>, IoError>)>,
) -> bool {
    forall|i: int, j: int|
        0 <= i < m.len() && 0 <= j < m[i].len() && (#[trigger] m[i][j]).secondary_hash is Some ==> (
        exists|k: int|
            0 <= k < inputs.len() && inputs[k].path == m[i][j].path && #[trigger] inputs[k].secondary_hash
                == m[i][j].secondary_hash) || (exists|t: int|
            0 <= t < answers.len() && #[trigger] answers[t] == (
                m[i][j].path,
                Ok::<Seq<char>, IoError>(m[i][j].secondary_hash->Some_0),
            ))
}

/// A push keeps every held secondary digest traceable: to a record pushed, or to an answer of
/// the digester for that record's path.
pub proof fn lemma_push_keeps_digests_from(
    m: Seq<Seq<EntryView>>,
    inputs: Seq<EntryView>,
    answers: Seq<(Seq<char>, Result<Seq<char>, IoError>)>,
    e: EntryView,
    ok: bool,
    c: Seq<(Seq<char>, Result<Seq<char>, IoError>)>,
    r: Result<(), IoError>,
    m1: Seq<Seq<EntryView>>,
)
    requires
        buckets_wf(m),
        digests_from(m, inputs, answers),
        pushed(m, e, ok, m1),
        secondary_requests(m, e, c, r, m1),
    ensures
        digests_from(m1, inputs.push(e), answers + c),
{
    let inputs1 = inputs.push(e);
    let answers1 = answers + c;
    assert forall|i: int, j: int|
        0 <= i < m1.len() && 0 <= j < m1[i].len() && (#[trigger] m1[i][j]).secondary_hash is Some
        implies (exists|k: int|
        0 <= k < inputs1.len() && inputs1[k].path == m1[i][j].path && #[trigger] inputs1[k].secondary_hash
            == m1[i][j].secondary_hash) || (exists|t: int|
        0 <= t < answers1.len() && #[trigger] answers1[t] == (
            m1[i][j].path,
            Ok::<Seq<char>, IoError>(m1[i][j].secondary_hash->Some_0),
        )) by {
        let x = m1[i][j];
        let last = inputs.len() as int;
        assert(inputs1[last] == e);
        if exists|b: int| bucket_at(m, e.primary_hash, b) {
            let b = choose|b: int| bucket_at(m, e.primary_hash, b);
            let g = m[b].push(e);
            if i != b {
                assert(m1[i] == m[i]);
                if exists|k: int|
                    0 <= k < inputs.len() && inputs[k].path == m[i][j].path && #[trigger] inputs[k].secondary_hash
                        == m[i][j].secondary_hash {
                    let k = choose|k: int|
                        0 <= k < inputs.len() && inputs[k].path == m[i][j].path && #[trigger] inputs[k].secondary_hash
                            == m[i][j].secondary_hash;
                    assert(inputs1[k] == inputs[k]);
                } else {
                    let t = choose|t: int|
                        0 <= t < answers.len() && #[trigger] answers[t] == (
                            m[i][j].path,
                            Ok::<Seq<char>, IoError>(m[i][j].secondary_hash->Some_0),
                        );
                    assert(answers1[t] == answers[t]);
                }
            } else {
                assert(x == answered(g, j, c));
                let lb = lacking_before(g, j) as int;
                if g[j].secondary_hash is None {
                    assert(lb < c.len() && c[lb].1 is Ok);
                    assert(c[lb].0 == g[j].path);
                    assert(answers1[answers.len() + lb] == c[lb]);
                } else if j == m[b].len() {
                    assert(g[j] == e);
                } else {
                    assert(g[j] == m[b][j]);
                    if exists|k: int|
                        0 <= k < inputs.len() && inputs[k].path == m[b][j].path && #[trigger] inputs[k].secondary_hash
                            == m[b][j].secondary_hash {
                        let k = choose|k: int|
                            0 <= k < inputs.len() && inputs[k].path == m[b][j].path && #[trigger] inputs[k].secondary_hash
                                == m[b][j].secondary_hash;
                        assert(inputs1[k] == inputs[k]);
                    } else {
                        let t = choose|t: int|
                            0 <= t < answers.len() && #[trigger] answers[t] == (
                                m[b][j].path,
                                Ok::<Seq<char>, IoError>(m[b][j].secondary_hash->Some_0),
                            );
                        assert(answers1[t] == answers[t]);
                    }
                }
            }
        } else {
            assert(m1 == m.push(seq![e]));
            if i == m.len() {
                assert(x == e);
            } else {
                assert(m1[i] == m[i]);
                if exists|k: int|
                    0 <= k < inputs.len() && inputs[k].path == m[i][j].path && #[trigger] inputs[k].secondary_hash
                        == m[i][j].secondary_hash {
                    let k = choose|k: int|
                        0 <= k < inputs.len() && inputs[k].path == m[i][j].path && #[trigger] inputs[k].secondary_hash
                            == m[i][j].secondary_hash;
                    assert(inputs1[k] == inputs[k]);
                } else {
                    let t = choose|t: int|
                        0 <= t < answers.len() && #[trigger] answers[t] == (
                            m[i][j].path,
                            Ok::<Seq<char>, IoError>(m[i][j].secondary_hash->Some_0),
                        );
                    assert(answers1[t] == answers[t]);
                }
            }
        }
    }
}

} // verus!
