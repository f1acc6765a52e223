use vstd::prelude::*;

use crate::hierarchy::union_find::merged_reps;

verus! {

/// Every record is its own representative.
pub open spec fn identity(n: nat) -> Seq<int> {
    Seq::new(n, |i: int| i)
}

/// `a` and `b` put the same pairs of records together.
pub open spec fn same_partition(a: Seq<int>, b: Seq<int>) -> bool {
    &&& a.len() == b.len()
    &&& forall|i: int, j: int|
        #![trigger a[i], a[j]]
        #![trigger b[i], b[j]]
        0 <= i < a.len() && 0 <= j < a.len() ==> ((a[i] == a[j]) == (b[i] == b[j]))
}

/// The classes of `x` and `y` merged, under the representative of `x`.
pub open spec fn join(reps: Seq<int>, x: int, y: int) -> Seq<int> {
    merged_reps(reps, reps[x], reps[y], reps[x])
}

/// Whether `v` falls in the class of `p` or of some member of `s`.
pub open spec fn absorbed(reps: Seq<int>, p: int, s: Set<u32>, v: int) -> bool {
    reps[v] == reps[p] || exists|c: u32| #[trigger] s.contains(c) && reps[v] == reps[c as int]
}

/// The class of `p` and the classes of all members of `s` merged under the
/// representative of `p`: what a merge event does.
pub open spec fn absorb(reps: Seq<int>, p: int, s: Set<u32>) -> Seq<int> {
    Seq::new(reps.len(), |v: int| if absorbed(reps, p, s, v) { reps[p] } else { reps[v] })
}

/// Merge events applied in order, each absorbing its records into its parent.
pub open spec fn replay(reps: Seq<int>, events: Seq<(i64, u32, Set<u32>)>) -> Seq<int>
    decreases events.len(),
{
    if events.len() == 0 {
        reps
    } else {
        absorb(replay(reps, events.drop_last()), events.last().1 as int, events.last().2)
    }
}

/// Edges applied in order, each joining its two endpoints.
pub open spec fn join_all(reps: Seq<int>, edges: Seq<(u32, u32)>) -> Seq<int>
    decreases edges.len(),
{
    if edges.len() == 0 {
        reps
    } else {
        join(join_all(reps, edges.drop_last()), edges.last().0 as int, edges.last().1 as int)
    }
}

/// Number of leading events whose threshold is at least `t`.
pub open spec fn cut(events: Seq<(i64, u32, Set<u32>)>, t: i64) -> nat
    decreases events.len(),
{
    if events.len() == 0 || events[0].0 < t {
        0
    } else {
        1 + cut(events.drop_first(), t)
    }
}

/// The partition rebuilt from the events at or above `t`.
pub open spec fn partition_at(events: Seq<(i64, u32, Set<u32>)>, n: nat, t: i64) -> Seq<int> {
    replay(identity(n), events.take(cut(events, t) as int))
}

/// `sets` are exactly the classes of `reps`: non-empty, each within one
/// class, no class split over two sets, and every record below `reps.len()`
/// in some set.
pub open spec fn sets_are_classes(sets: Seq<Set<u32>>, reps: Seq<int>) -> bool {
    &&& forall|k: int| 0 <= k < sets.len() ==> #[trigger] sets[k] != Set::<u32>::empty()
    &&& forall|k: int, v: u32, w: u32|
        0 <= k < sets.len() && #[trigger] sets[k].contains(v) && #[trigger] sets[k].contains(w) ==> (v as int)
            < reps.len() && (w as int) < reps.len() && reps[v as int] == reps[w as int]
    &&& forall|k1: int, k2: int, v: u32, w: u32|
        0 <= k1 < sets.len() && 0 <= k2 < sets.len() && k1 != k2 && #[trigger] sets[k1].contains(v)
            && #[trigger] sets[k2].contains(w) ==> reps[v as int] != reps[w as int]
    &&& forall|x: int| 0 <= x < reps.len() ==> #[trigger] held(sets, x)
}

/// Some set holds `x`.
pub open spec fn held(sets: Seq<Set<u32>>, x: int) -> bool {
    exists|k: int| 0 <= k < sets.len() && #[trigger] sets[k].contains(x as u32)
}

/// Uniting two classes of a forest, whatever root wins, puts together the
/// same pairs as joining them in any partition that agrees with the forest.
pub proof fn lemma_union_step(u: Seq<int>, r: Seq<int>, a: int, b: int, w: int)
    requires
        same_partition(u, r),
        0 <= a < u.len(),
        0 <= b < u.len(),
        w == u[a] || w == u[b],
    ensures
        same_partition(merged_reps(u, u[a], u[b], w), join(r, a, b)),
{
    let u2 = merged_reps(u, u[a], u[b], w);
    let r2 = join(r, a, b);
    assert forall|i: int, j: int| 0 <= i < u.len() && 0 <= j < u.len() implies ((u2[i] == u2[j])
        == (r2[i] == r2[j])) by {
        assert((u[i] == u[a]) == (r[i] == r[a]));
        assert((u[i] == u[b]) == (r[i] == r[b]));
        assert((u[j] == u[a]) == (r[j] == r[a]));
        assert((u[j] == u[b]) == (r[j] == r[b]));
        assert((u[i] == u[j]) == (r[i] == r[j]));
        assert((u[a] == u[b]) == (r[a] == r[b]));
    }
}

/// Absorbing nothing changes nothing.
pub proof fn lemma_absorb_empty(reps: Seq<int>, p: int)
    requires
        0 <= p < reps.len(),
    ensures
        absorb(reps, p, Set::<u32>::empty()) == reps,
{
    assert(absorb(reps, p, Set::<u32>::empty()) =~= reps);
}

/// Joining the parent with one more record extends what is absorbed by it.
pub proof fn lemma_absorb_insert(reps: Seq<int>, p: int, s: Set<u32>, c: u32)
    requires
        0 <= p < reps.len(),
        (c as int) < reps.len(),
        forall|x: u32| #[trigger] s.contains(x) ==> (x as int) < reps.len(),
    ensures
        join(absorb(reps, p, s), p, c as int) == absorb(reps, p, s.insert(c)),
{
    let a = absorb(reps, p, s);
    let s2 = s.insert(c);
    assert(absorbed(reps, p, s, p));
    assert forall|v: int| 0 <= v < reps.len() implies #[trigger] join(a, p, c as int)[v] == absorb(
        reps,
        p,
        s2,
    )[v] by {
        assert(s2.contains(c));
        if absorbed(reps, p, s, v) {
            if reps[v] != reps[p] {
                let w = choose|w: u32| #[trigger] s.contains(w) && reps[v] == reps[w as int];
                assert(s2.contains(w));
            }
            assert(absorbed(reps, p, s2, v));
        } else {
            if absorbed(reps, p, s, c as int) {
                if reps[v] == reps[c as int] {
                    if reps[c as int] != reps[p] {
                        let w = choose|w: u32| #[trigger] s.contains(w) && reps[c as int] == reps[w as int];
                        assert(s.contains(w) && reps[v] == reps[w as int]);
                    }
                    assert(false);
                }
                assert forall|w: u32| #[trigger] s2.contains(w) implies reps[v] != reps[w as int] by {
                    if w != c {
                        assert(s.contains(w));
                    }
                }
                assert(!absorbed(reps, p, s2, v));
            } else {
                if reps[v] == reps[c as int] {
                    assert(absorbed(reps, p, s2, v));
                } else {
                    assert forall|w: u32| #[trigger] s2.contains(w) implies reps[v] != reps[w as int] by {
                        if w != c {
                            assert(s.contains(w));
                        }
                    }
                    assert(!absorbed(reps, p, s2, v));
                }
            }
        }
    }
    assert(join(a, p, c as int) =~= absorb(reps, p, s2));
}

/// `same_partition` is an equivalence.
pub proof fn lemma_same_partition_trans(a: Seq<int>, b: Seq<int>, c: Seq<int>)
    requires
        same_partition(a, b),
        same_partition(b, c),
    ensures
        same_partition(a, c),
{
    assert forall|i: int, j: int| 0 <= i < a.len() && 0 <= j < a.len() implies ((a[i] == a[j]) == (
    c[i] == c[j])) by {
        assert((a[i] == a[j]) == (b[i] == b[j]));
        assert((b[i] == b[j]) == (c[i] == c[j]));
    }
}

pub proof fn lemma_same_partition_sym(a: Seq<int>, b: Seq<int>)
    requires
        same_partition(a, b),
    ensures
        same_partition(b, a),
{
    assert forall|i: int, j: int| 0 <= i < b.len() && 0 <= j < b.len() implies ((b[i] == b[j]) == (
    a[i] == a[j])) by {
        assert((a[i] == a[j]) == (b[i] == b[j]));
    }
}

pub proof fn lemma_same_partition_refl(a: Seq<int>)
    ensures
        same_partition(a, a),
{
}

/// Sets that are the classes of one partition are the classes of any
/// partition that puts the same pairs together.
pub proof fn lemma_classes_transfer(sets: Seq<Set<u32>>, a: Seq<int>, b: Seq<int>)
    requires
        sets_are_classes(sets, a),
        same_partition(a, b),
    ensures
        sets_are_classes(sets, b),
{
    assert forall|k: int, v: u32, w: u32|
        0 <= k < sets.len() && #[trigger] sets[k].contains(v) && #[trigger] sets[k].contains(w) implies (
    v as int) < b.len() && (w as int) < b.len() && b[v as int] == b[w as int] by {
        assert(a[v as int] == a[w as int]);
    }
    assert forall|k1: int, k2: int, v: u32, w: u32|
        0 <= k1 < sets.len() && 0 <= k2 < sets.len() && k1 != k2 && #[trigger] sets[k1].contains(v)
            && #[trigger] sets[k2].contains(w) implies b[v as int] != b[w as int] by {
        assert(sets[k1].contains(v) && sets[k1].contains(v));
        assert(sets[k2].contains(w) && sets[k2].contains(w));
        assert(a[v as int] != a[w as int]);
    }
}

/// The endpoints of every edge fall below `n`.
pub open spec fn edges_within(edges: Seq<(u32, u32)>, n: int) -> bool {
    forall|k: int| 0 <= k < edges.len() ==> (#[trigger] edges[k]).0 < n && edges[k].1 < n
}

/// The pairs of the edges whose threshold is at least `t`, in input order.
pub open spec fn pairs_at_or_above(edges: Seq<(u32, u32, i64)>, t: i64) -> Seq<(u32, u32)> {
    edges.filter(|e: (u32, u32, i64)| e.2 >= t).map_values(|e: (u32, u32, i64)| (e.0, e.1))
}

/// The connected components of the graph over `n` records whose edges are
/// those with threshold at least `t`, as a representative per record.
pub open spec fn components_at(edges: Seq<(u32, u32, i64)>, n: nat, t: i64) -> Seq<int> {
    join_all(identity(n), pairs_at_or_above(edges, t))
}

/// Every edge has its two endpoints in one class of `p`.
pub open spec fn covers(p: Seq<int>, edges: Seq<(u32, u32)>) -> bool {
    forall|k: int| 0 <= k < edges.len() ==> p[(#[trigger] edges[k]).0 as int] == p[edges[k].1 as int]
}

/// Records together in `a` are together in `b`.
pub open spec fn refines(a: Seq<int>, b: Seq<int>) -> bool {
    forall|i: int, j: int|
        #![trigger a[i], a[j]]
        0 <= i < a.len() && 0 <= j < a.len() && a[i] == a[j] ==> b[i] == b[j]
}

/// Joining keeps the number of records.
pub proof fn lemma_join_all_len(reps: Seq<int>, edges: Seq<(u32, u32)>)
    ensures
        join_all(reps, edges).len() == reps.len(),
    decreases edges.len(),
{
    if edges.len() > 0 {
        lemma_join_all_len(reps, edges.drop_last());
    }
}

/// Joining the same classes of two partitions that put the same pairs
/// together gives partitions that put the same pairs together.
pub proof fn lemma_join_congruent(a: Seq<int>, b: Seq<int>, x: int, y: int, x2: int, y2: int)
    requires
        same_partition(a, b),
        0 <= x < a.len(),
        0 <= y < a.len(),
        0 <= x2 < a.len(),
        0 <= y2 < a.len(),
        (a[x] == a[x2] && a[y] == a[y2]) || (a[x] == a[y2] && a[y] == a[x2]),
    ensures
        same_partition(join(a, x, y), join(b, x2, y2)),
{
    let ja = join(a, x, y);
    let jb = join(b, x2, y2);
    assert((a[x] == a[x2]) == (b[x] == b[x2]));
    assert((a[y] == a[y2]) == (b[y] == b[y2]));
    assert((a[x] == a[y2]) == (b[x] == b[y2]));
    assert((a[y] == a[x2]) == (b[y] == b[x2]));
    assert((a[x] == a[y]) == (b[x] == b[y]));
    assert((a[x2] == a[y2]) == (b[x2] == b[y2]));
    assert forall|i: int, j: int| 0 <= i < a.len() && 0 <= j < a.len() implies ((ja[i] == ja[j]) == (
    jb[i] == jb[j])) by {
        assert((a[i] == a[j]) == (b[i] == b[j]));
        assert((a[i] == a[x]) == (b[i] == b[x]));
        assert((a[i] == a[y]) == (b[i] == b[y]));
        assert((a[j] == a[x]) == (b[j] == b[x]));
        assert((a[j] == a[y]) == (b[j] == b[y]));
        assert((a[i] == a[x2]) == (b[i] == b[x2]));
        assert((a[i] == a[y2]) == (b[i] == b[y2]));
        assert((a[j] == a[x2]) == (b[j] == b[x2]));
        assert((a[j] == a[y2]) == (b[j] == b[y2]));
    }
}

/// Joining the same edges into partitions that put the same pairs
/// together keeps them so.
pub proof fn lemma_join_all_congruent(a: Seq<int>, b: Seq<int>, edges: Seq<(u32, u32)>)
    requires
        same_partition(a, b),
        edges_within(edges, a.len() as int),
    ensures
        same_partition(join_all(a, edges), join_all(b, edges)),
    decreases edges.len(),
{
    if edges.len() > 0 {
        let rest = edges.drop_last();
        let e = edges.last();
        lemma_join_all_congruent(a, b, rest);
        lemma_join_all_len(a, rest);
        lemma_join_all_len(b, rest);
        lemma_join_congruent(join_all(a, rest), join_all(b, rest), e.0 as int, e.1 as int, e.0 as int, e.1 as int);
    }
}

/// Joining two lists of edges one after the other is joining their
/// concatenation.
pub proof fn lemma_join_all_append(reps: Seq<int>, first: Seq<(u32, u32)>, second: Seq<(u32, u32)>)
    ensures
        join_all(reps, first + second) == join_all(join_all(reps, first), second),
    decreases second.len(),
{
    if second.len() == 0 {
        assert(first + second =~= first);
    } else {
        assert((first + second).drop_last() =~= first + second.drop_last());
        assert((first + second).last() == second.last());
        lemma_join_all_append(reps, first, second.drop_last());
    }
}

/// Joining never separates records that were together.
pub proof fn lemma_join_all_keeps(reps: Seq<int>, edges: Seq<(u32, u32)>, i: int, j: int)
    requires
        0 <= i < reps.len(),
        0 <= j < reps.len(),
        reps[i] == reps[j],
        edges_within(edges, reps.len() as int),
    ensures
        join_all(reps, edges)[i] == join_all(reps, edges)[j],
    decreases edges.len(),
{
    if edges.len() > 0 {
        lemma_join_all_keeps(reps, edges.drop_last(), i, j);
        lemma_join_all_len(reps, edges.drop_last());
    }
}

/// After joining, the endpoints of every edge are together.
pub proof fn lemma_join_all_covers(reps: Seq<int>, edges: Seq<(u32, u32)>)
    requires
        edges_within(edges, reps.len() as int),
    ensures
        covers(join_all(reps, edges), edges),
    decreases edges.len(),
{
    if edges.len() > 0 {
        let rest = edges.drop_last();
        let e = edges.last();
        let before = join_all(reps, rest);
        lemma_join_all_covers(reps, rest);
        lemma_join_all_len(reps, rest);
        let after = join_all(reps, edges);
        assert forall|k: int| 0 <= k < edges.len() implies after[(#[trigger] edges[k]).0 as int]
            == after[edges[k].1 as int] by {
            if k < rest.len() {
                assert(rest[k] == edges[k]);
                assert(before[rest[k].0 as int] == before[rest[k].1 as int]);
            }
        }
    }
}

/// Joining from `reps` never puts together records that every partition
/// refined by `reps` and covering the edges keeps apart.
pub proof fn lemma_join_all_finest(reps: Seq<int>, edges: Seq<(u32, u32)>, p: Seq<int>)
    requires
        reps.len() == p.len(),
        refines(reps, p),
        covers(p, edges),
        edges_within(edges, reps.len() as int),
    ensures
        refines(join_all(reps, edges), p),
    decreases edges.len(),
{
    if edges.len() > 0 {
        let rest = edges.drop_last();
        let e = edges.last();
        assert(covers(p, rest)) by {
            assert forall|k: int| 0 <= k < rest.len() implies p[(#[trigger] rest[k]).0 as int] == p[rest[k].1 as int] by {
                assert(rest[k] == edges[k]);
            }
        }
        lemma_join_all_finest(reps, rest, p);
        lemma_join_all_len(reps, rest);
        let before = join_all(reps, rest);
        let after = join_all(reps, edges);
        assert(p[e.0 as int] == p[e.1 as int]) by {
            assert(edges[edges.len() - 1] == e);
        }
        assert forall|i: int, j: int| 0 <= i < after.len() && 0 <= j < after.len() && after[i] == after[j] implies p[i]
            == p[j] by {
            assert(before[e.0 as int] == before[e.0 as int]);
            assert(before[e.1 as int] == before[e.1 as int]);
            if before[i] == before[e.0 as int] || before[i] == before[e.1 as int] {
                assert(before[i] == before[e.0 as int] ==> p[i] == p[e.0 as int]);
                assert(before[i] == before[e.1 as int] ==> p[i] == p[e.1 as int]);
                assert(before[j] == before[e.0 as int] ==> p[j] == p[e.0 as int]);
                assert(before[j] == before[e.1 as int] ==> p[j] == p[e.1 as int]);
                assert(before[j] == before[i] ==> p[j] == p[i]);
            } else {
                assert(before[j] == before[i] ==> p[j] == p[i]);
            }
        }
    }
}

/// The components of a list of edges depend only on which edges it holds,
/// not on their order or repetition.
pub proof fn lemma_components_order_free(n: nat, a: Seq<(u32, u32)>, b: Seq<(u32, u32)>)
    requires
        edges_within(a, n as int),
        edges_within(b, n as int),
        forall|e: (u32, u32)| a.contains(e) <==> b.contains(e),
    ensures
        same_partition(join_all(identity(n), a), join_all(identity(n), b)),
{
    let ja = join_all(identity(n), a);
    let jb = join_all(identity(n), b);
    lemma_join_all_len(identity(n), a);
    lemma_join_all_len(identity(n), b);
    lemma_join_all_covers(identity(n), a);
    lemma_join_all_covers(identity(n), b);
    assert(covers(ja, b)) by {
        assert forall|k: int| 0 <= k < b.len() implies ja[(#[trigger] b[k]).0 as int] == ja[b[k].1 as int] by {
            assert(b.contains(b[k]));
            let m = choose|m: int| 0 <= m < a.len() && a[m] == b[k];
            assert(ja[a[m].0 as int] == ja[a[m].1 as int]);
        }
    }
    assert(covers(jb, a)) by {
        assert forall|k: int| 0 <= k < a.len() implies jb[(#[trigger] a[k]).0 as int] == jb[a[k].1 as int] by {
            assert(a.contains(a[k]));
            let m = choose|m: int| 0 <= m < b.len() && b[m] == a[k];
            assert(jb[b[m].0 as int] == jb[b[m].1 as int]);
        }
    }
    assert(refines(identity(n), ja));
    assert(refines(identity(n), jb));
    lemma_join_all_finest(identity(n), a, jb);
    lemma_join_all_finest(identity(n), b, ja);
    assert forall|i: int, j: int| 0 <= i < ja.len() && 0 <= j < ja.len() implies ((ja[i] == ja[j]) == (jb[i]
        == jb[j])) by {
        if ja[i] == ja[j] {
            assert(jb[i] == jb[j]);
        }
        if jb[i] == jb[j] {
            assert(ja[i] == ja[j]);
        }
    }
}

/// The components at a threshold are the finest partition in which the
/// endpoints of every edge at or above it are together: they cover those
/// edges, and any partition covering them puts together all records that
/// they put together.
pub proof fn lemma_components_finest(edges: Seq<(u32, u32, i64)>, n: nat, t: i64, p: Seq<int>)
    requires
        forall|k: int| 0 <= k < edges.len() ==> (#[trigger] edges[k]).0 < n && edges[k].1 < n,
        p.len() == n,
        covers(p, pairs_at_or_above(edges, t)),
    ensures
        components_at(edges, n, t).len() == n,
        covers(components_at(edges, n, t), pairs_at_or_above(edges, t)),
        refines(components_at(edges, n, t), p),
{
    let pairs = pairs_at_or_above(edges, t);
    lemma_pairs_at_or_above_within(edges, n as int, t);
    lemma_join_all_len(identity(n), pairs);
    lemma_join_all_covers(identity(n), pairs);
    lemma_join_all_finest(identity(n), pairs, p);
}

/// The pairs kept at a threshold are pairs of the edge list, with their
/// endpoints.
pub proof fn lemma_pairs_at_or_above_within(edges: Seq<(u32, u32, i64)>, n: int, t: i64)
    requires
        forall|k: int| 0 <= k < edges.len() ==> (#[trigger] edges[k]).0 < n && edges[k].1 < n,
    ensures
        edges_within(pairs_at_or_above(edges, t), n),
        forall|e: (u32, u32)| pairs_at_or_above(edges, t).contains(e) <==> exists|k: int|
            0 <= k < edges.len() && (#[trigger] edges[k]).2 >= t && edges[k].0 == e.0 && edges[k].1 == e.1,
{
    let pred = |e: (u32, u32, i64)| e.2 >= t;
    let f = edges.filter(pred);
    let pairs = pairs_at_or_above(edges, t);
    assert forall|m: int| 0 <= m < f.len() implies exists|k: int|
        0 <= k < edges.len() && edges[k] == #[trigger] f[m] && f[m].2 >= t by {
        edges.lemma_filter_pred(pred, m);
        assert(f.contains(f[m]));
        edges.lemma_filter_contains_rev(pred, f[m]);
    }
    assert forall|e: (u32, u32)| pairs.contains(e) implies exists|k: int|
        0 <= k < edges.len() && (#[trigger] edges[k]).2 >= t && edges[k].0 == e.0 && edges[k].1 == e.1 by {
        let m = choose|m: int| 0 <= m < pairs.len() && pairs[m] == e;
        assert(f[m].2 >= t);
    }
    assert forall|e: (u32, u32)| (exists|k: int|
        0 <= k < edges.len() && (#[trigger] edges[k]).2 >= t && edges[k].0 == e.0 && edges[k].1 == e.1) implies pairs.contains(e) by {
        let k = choose|k: int| 0 <= k < edges.len() && (#[trigger] edges[k]).2 >= t && edges[k].0 == e.0 && edges[k].1 == e.1;
        edges.lemma_filter_contains(pred, k);
        let m = choose|m: int| 0 <= m < f.len() && f[m] == edges[k];
        assert(pairs[m] == e);
    }
    assert forall|k: int| 0 <= k < pairs.len() implies (#[trigger] pairs[k]).0 < n && pairs[k].1 < n by {
        assert(f[k].2 >= t);
    }
}

/// Absorbing never separates records that were together.
pub proof fn lemma_absorb_keeps(reps: Seq<int>, p: int, s: Set<u32>, i: int, j: int)
    requires
        0 <= i < reps.len(),
        0 <= j < reps.len(),
        reps[i] == reps[j],
    ensures
        absorb(reps, p, s)[i] == absorb(reps, p, s)[j],
{
    assert(absorbed(reps, p, s, i) == absorbed(reps, p, s, j));
}

/// Replaying never separates records that were together.
pub proof fn lemma_replay_keeps(reps: Seq<int>, events: Seq<(i64, u32, Set<u32>)>, i: int, j: int)
    requires
        0 <= i < reps.len(),
        0 <= j < reps.len(),
        reps[i] == reps[j],
    ensures
        replay(reps, events).len() == reps.len(),
        replay(reps, events)[i] == replay(reps, events)[j],
    decreases events.len(),
{
    if events.len() > 0 {
        lemma_replay_keeps(reps, events.drop_last(), i, j);
        let e = events.last();
        lemma_absorb_keeps(replay(reps, events.drop_last()), e.1 as int, e.2, i, j);
    }
}

/// Replaying two lists one after the other is replaying their concatenation.
pub proof fn lemma_replay_append(reps: Seq<int>, first: Seq<(i64, u32, Set<u32>)>, second: Seq<(i64, u32, Set<u32>)>)
    ensures
        replay(reps, first + second) == replay(replay(reps, first), second),
    decreases second.len(),
{
    if second.len() == 0 {
        assert(first + second =~= first);
    } else {
        assert((first + second).drop_last() =~= first + second.drop_last());
        assert((first + second).last() == second.last());
        lemma_replay_append(reps, first, second.drop_last());
    }
}

/// A lower threshold cuts at least as many leading events.
pub proof fn lemma_cut_monotone(events: Seq<(i64, u32, Set<u32>)>, low: i64, high: i64)
    requires
        low <= high,
    ensures
        cut(events, high) <= cut(events, low),
    decreases events.len(),
{
    if events.len() > 0 && events[0].0 >= high {
        lemma_cut_monotone(events.drop_first(), low, high);
    }
}

/// The cut never passes the end of the list.
pub proof fn lemma_cut_le_len(events: Seq<(i64, u32, Set<u32>)>, t: i64)
    ensures
        cut(events, t) <= events.len(),
    decreases events.len(),
{
    if events.len() > 0 && events[0].0 >= t {
        lemma_cut_le_len(events.drop_first(), t);
    }
}

/// Lowering the threshold only merges entities: records together at `high`
/// are together at every `low` below it.
pub proof fn lemma_partition_monotone(events: Seq<(i64, u32, Set<u32>)>, n: nat, low: i64, high: i64)
    requires
        low <= high,
    ensures
        partition_at(events, n, high).len() == n,
        partition_at(events, n, low).len() == n,
        refines(partition_at(events, n, high), partition_at(events, n, low)),
{
    let ch = cut(events, high) as int;
    let cl = cut(events, low) as int;
    lemma_cut_monotone(events, low, high);
    lemma_cut_le_len(events, low);
    let first = events.take(ch);
    let second = events.subrange(ch, cl);
    assert(events.take(cl) =~= first + second);
    lemma_replay_append(identity(n), first, second);
    let at_high = replay(identity(n), first);
    lemma_replay_length(identity(n), first);
    lemma_replay_length(identity(n), events.take(cl));
    assert forall|i: int, j: int|
        0 <= i < at_high.len() && 0 <= j < at_high.len() && at_high[i] == at_high[j] implies partition_at(events, n, low)[i]
        == partition_at(events, n, low)[j] by {
        lemma_replay_keeps(at_high, second, i, j);
    }
}

/// Replaying keeps the number of records.
pub proof fn lemma_replay_length(reps: Seq<int>, events: Seq<(i64, u32, Set<u32>)>)
    ensures
        replay(reps, events).len() == reps.len(),
    decreases events.len(),
{
    if events.len() > 0 {
        lemma_replay_length(reps, events.drop_last());
    }
}

/// The entities that a partition level holds, when they are the classes of
/// the partition at a threshold and that partition groups records as the
/// components of the edges at or above it, are those components.
pub proof fn lemma_entities_are_components(
    sets: Seq<Set<u32>>,
    events: Seq<(i64, u32, Set<u32>)>,
    edges: Seq<(u32, u32, i64)>,
    n: nat,
    t: i64,
)
    requires
        sets_are_classes(sets, partition_at(events, n, t)),
        same_partition(partition_at(events, n, t), components_at(edges, n, t)),
    ensures
        sets_are_classes(sets, components_at(edges, n, t)),
{
    lemma_classes_transfer(sets, partition_at(events, n, t), components_at(edges, n, t));
}

} // verus!
