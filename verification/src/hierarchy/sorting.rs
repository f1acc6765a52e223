use vstd::prelude::*;

verus! {

/// Order of edge positions for processing: higher weight first, and among
/// equal weights the earlier position first.
pub open spec fn before(w: Seq<i64>, i: usize, j: usize) -> bool {
    w[i as int] > w[j as int] || (w[i as int] == w[j as int] && i < j)
}

/// Positions listed in strictly increasing `before` order.
pub open spec fn sorted_positions(w: Seq<i64>, s: Seq<usize>) -> bool {
    forall|a: int, b: int| 0 <= a < b < s.len() ==> before(w, #[trigger] s[a], #[trigger] s[b])
}

/// `s` holds exactly the positions `lo..hi`.
pub open spec fn holds_range(s: Seq<usize>, lo: int, hi: int) -> bool {
    &&& s.len() == hi - lo
    &&& forall|x: usize| #[trigger] s.contains(x) <==> lo <= x < hi
}

proof fn lemma_push_contains<T>(s: Seq<T>, x: T, y: T)
    ensures
        s.push(x).contains(y) <==> s.contains(y) || y == x,
{
    if s.contains(y) {
        let k = choose|k: int| 0 <= k < s.len() && s[k] == y;
        assert(s.push(x)[k] == y);
    }
    if y == x {
        assert(s.push(x)[s.len() as int] == y);
    }
    if s.push(x).contains(y) {
        let k = choose|k: int| 0 <= k < s.push(x).len() && s.push(x)[k] == y;
        if k < s.len() {
            assert(s[k] == y);
        }
    }
}

proof fn lemma_before_transitive(w: Seq<i64>, a: usize, b: usize, c: usize)
    requires
        before(w, a, b),
        before(w, b, c),
    ensures
        before(w, a, c),
{
}

fn merge(w: &Vec<i64>, a: Vec<usize>, b: Vec<usize>) -> (r: Vec<usize>)
    requires
        sorted_positions(w@, a@),
        sorted_positions(w@, b@),
        forall|i: int| 0 <= i < a@.len() ==> (#[trigger] a@[i] as int) < w@.len(),
        forall|i: int| 0 <= i < b@.len() ==> (#[trigger] b@[i] as int) < w@.len(),
        forall|x: usize| a@.contains(x) ==> !b@.contains(x),
    ensures
        sorted_positions(w@, r@),
        r@.len() == a@.len() + b@.len(),
        forall|x: usize| #[trigger] r@.contains(x) <==> a@.contains(x) || b@.contains(x),
{
    let mut r: Vec<usize> = Vec::new();
    let mut i: usize = 0;
    let mut j: usize = 0;
    while i < a.len() || j < b.len()
        invariant
            i <= a@.len(),
            j <= b@.len(),
            sorted_positions(w@, a@),
            sorted_positions(w@, b@),
            forall|k: int| 0 <= k < a@.len() ==> (#[trigger] a@[k] as int) < w@.len(),
            forall|k: int| 0 <= k < b@.len() ==> (#[trigger] b@[k] as int) < w@.len(),
            forall|x: usize| a@.contains(x) ==> !b@.contains(x),
            sorted_positions(w@, r@),
            r@.len() == i + j,
            forall|x: usize|
                #[trigger] r@.contains(x) <==> a@.subrange(0, i as int).contains(x) || b@.subrange(
                    0,
                    j as int,
                ).contains(x),
            forall|k: int| 0 <= k < r@.len() ==> i < a@.len() ==> before(w@, #[trigger] r@[k], a@[i as int]),
            forall|k: int| 0 <= k < r@.len() ==> j < b@.len() ==> before(w@, #[trigger] r@[k], b@[j as int]),
        decreases a@.len() + b@.len() - i - j,
    {
        let take_a = if i < a.len() && j < b.len() {
            let ai = a[i];
            let bj = b[j];
            w[ai] > w[bj] || (w[ai] == w[bj] && ai < bj)
        } else {
            i < a.len()
        };
        let ghost old_r = r@;
        if take_a {
            let x = a[i];
            r.push(x);
            proof {
                assert(a@.subrange(0, i + 1) =~= a@.subrange(0, i as int).push(x));
                assert(r@ == old_r.push(x));
                assert forall|y: usize| #[trigger] r@.contains(y) <==> a@.subrange(0, i + 1).contains(y)
                    || b@.subrange(0, j as int).contains(y) by {
                    lemma_push_contains(old_r, x, y);
                    lemma_push_contains(a@.subrange(0, i as int), x, y);
                }
                if j < b@.len() && i < a@.len() {
                    let bj = b@[j as int];
                    if !before(w@, x, bj) {
                        assert(a@.contains(x));
                        assert(b@.contains(bj));
                    }
                }
                assert forall|k: int| 0 <= k < r@.len() && i + 1 < a@.len() implies before(
                    w@,
                    #[trigger] r@[k],
                    a@[i + 1],
                ) by {
                    assert(before(w@, a@[i as int], a@[i + 1]));
                    if k < old_r.len() {
                        lemma_before_transitive(w@, r@[k], a@[i as int], a@[i + 1]);
                    }
                }
            }
            i = i + 1;
        } else {
            let x = b[j];
            r.push(x);
            proof {
                assert(b@.subrange(0, j + 1) =~= b@.subrange(0, j as int).push(x));
                assert(r@ == old_r.push(x));
                assert forall|y: usize| #[trigger] r@.contains(y) <==> a@.subrange(0, i as int).contains(y)
                    || b@.subrange(0, j + 1).contains(y) by {
                    lemma_push_contains(old_r, x, y);
                    lemma_push_contains(b@.subrange(0, j as int), x, y);
                }
                if i < a@.len() {
                    let ai = a@[i as int];
                    assert(before(w@, x, ai)) by {
                        if ai == x {
                            assert(a@.contains(x));
                            assert(b@.contains(x));
                        }
                    }
                }
                assert forall|k: int| 0 <= k < r@.len() && j + 1 < b@.len() implies before(
                    w@,
                    #[trigger] r@[k],
                    b@[j + 1],
                ) by {
                    assert(before(w@, b@[j as int], b@[j + 1]));
                    if k < old_r.len() {
                        lemma_before_transitive(w@, r@[k], b@[j as int], b@[j + 1]);
                    }
                }
            }
            j = j + 1;
        }
    }
    proof {
        assert(a@.subrange(0, a@.len() as int) =~= a@);
        assert(b@.subrange(0, b@.len() as int) =~= b@);
    }
    r
}

/// The positions `lo..hi` in `before` order.
fn sort_range(w: &Vec<i64>, lo: usize, hi: usize) -> (r: Vec<usize>)
    requires
        lo <= hi <= w@.len(),
    ensures
        sorted_positions(w@, r@),
        holds_range(r@, lo as int, hi as int),
    decreases hi - lo,
{
    if hi - lo == 0 {
        let r: Vec<usize> = Vec::new();
        assert forall|x: usize| #[trigger] r@.contains(x) <==> lo <= x < hi by {}
        r
    } else if hi - lo == 1 {
        let mut r: Vec<usize> = Vec::new();
        r.push(lo);
        assert forall|x: usize| #[trigger] r@.contains(x) <==> lo <= x < hi by {
            if x == lo {
                assert(r@[0] == lo);
            }
        }
        r
    } else {
        let mid = lo + (hi - lo) / 2;
        let a = sort_range(w, lo, mid);
        let b = sort_range(w, mid, hi);
        proof {
            assert forall|k: int| 0 <= k < a@.len() implies (#[trigger] a@[k] as int) < w@.len() by {
                assert(a@.contains(a@[k]));
            }
            assert forall|k: int| 0 <= k < b@.len() implies (#[trigger] b@[k] as int) < w@.len() by {
                assert(b@.contains(b@[k]));
            }
        }
        merge(w, a, b)
    }
}

/// Positions of `keys` ordered by key, highest first, ties in position order.
pub fn sort_positions_descending(keys: &Vec<i64>) -> (order: Vec<usize>)
    ensures
        order@.len() == keys@.len(),
        forall|x: usize| #[trigger] order@.contains(x) <==> x < keys@.len(),
        sorted_positions(keys@, order@),
{
    sort_range(keys, 0, keys.len())
}

/// Stable sort of weighted edges by weight, highest first.
pub fn sort_edges_descending(edges: &Vec<(u32, u32, i64)>) -> (r: Vec<(u32, u32, i64)>)
    ensures
        r@.len() == edges@.len(),
        weights_descending(r@),
        exists|order: Seq<usize>|
            {
                &&& holds_range(order, 0, edges@.len() as int)
                &&& sorted_positions(edges@.map_values(|e: (u32, u32, i64)| e.2), order)
                &&& forall|k: int| 0 <= k < r@.len() ==> #[trigger] r@[k] == edges@[order[k] as int]
            },
{
    let n = edges.len();
    let mut w: Vec<i64> = Vec::with_capacity(n);
    let mut i: usize = 0;
    while i < n
        invariant
            i <= n,
            n == edges@.len(),
            w@ == edges@.subrange(0, i as int).map_values(|e: (u32, u32, i64)| e.2),
        decreases n - i,
    {
        w.push(edges[i].2);
        i = i + 1;
        proof {
            assert(w@ =~= edges@.subrange(0, i as int).map_values(|e: (u32, u32, i64)| e.2));
        }
    }
    proof {
        assert(edges@.subrange(0, n as int) =~= edges@);
    }
    let order = sort_range(&w, 0, n);
    let mut r: Vec<(u32, u32, i64)> = Vec::with_capacity(n);
    let mut k: usize = 0;
    while k < n
        invariant
            k <= n,
            n == edges@.len(),
            holds_range(order@, 0, n as int),
            r@.len() == k,
            forall|m: int| 0 <= m < k ==> #[trigger] r@[m] == edges@[order@[m] as int],
        decreases n - k,
    {
        assert(order@.contains(order@[k as int]));
        let p = order[k];
        r.push(edges[p]);
        k = k + 1;
    }
    proof {
        let ws = edges@.map_values(|e: (u32, u32, i64)| e.2);
        assert(w@ == ws);
        assert forall|a: int, b: int| 0 <= a < b < r@.len() implies (#[trigger] r@[a]).2 >= (#[trigger] r@[b]).2 by {
            assert(before(w@, order@[a], order@[b]));
            assert(order@.contains(order@[a]));
            assert(order@.contains(order@[b]));
        }
    }
    r
}

/// Weights never rise along the list.
pub open spec fn weights_descending(edges: Seq<(u32, u32, i64)>) -> bool {
    forall|a: int, b: int| 0 <= a < b < edges.len() ==> (#[trigger] edges[a]).2 >= (#[trigger] edges[b]).2
}

/// Sorted edges split into runs of equal weight: `(weight, pairs)` in the
/// order the runs occur.
pub fn group_edges_by_threshold(sorted_edges: &Vec<(u32, u32, i64)>) -> (groups: Vec<(i64, Vec<(u32, u32)>)>)
    requires
        weights_descending(sorted_edges@),
    ensures
        forall|g: int, h: int| 0 <= g < h < groups@.len() ==> (#[trigger] groups@[g]).0 > (#[trigger] groups@[h]).0,
        flatten_groups(groups@) == sorted_edges@,
        forall|g: int| 0 <= g < groups@.len() ==> (#[trigger] groups@[g]).1@.len() > 0,
        forall|g: int| 0 <= g && g + 1 < groups@.len() ==> (#[trigger] groups@[g]).0 != groups@[g + 1].0,
{
    let mut groups: Vec<(i64, Vec<(u32, u32)>)> = Vec::new();
    let n = sorted_edges.len();
    if n == 0 {
        proof {
            assert(flatten_groups(groups@) =~= sorted_edges@);
        }
        return groups;
    }
    let mut current_threshold = sorted_edges[0].2;
    let mut current_group: Vec<(u32, u32)> = Vec::new();
    let mut i: usize = 0;
    while i < n
        invariant
            0 < n == sorted_edges@.len(),
            i <= n,
            i == 0 ==> current_group@.len() == 0 && current_threshold == sorted_edges@[0].2,
            i > 0 ==> current_group@.len() > 0,
            flatten_groups(groups@) + group_edges(current_threshold, current_group@) == sorted_edges@.subrange(0, i as int),
            forall|g: int| 0 <= g < groups@.len() ==> (#[trigger] groups@[g]).1@.len() > 0,
            forall|g: int| 0 <= g && g + 1 < groups@.len() ==> (#[trigger] groups@[g]).0 != groups@[g + 1].0,
            groups@.len() > 0 ==> groups@.last().0 != current_threshold,
            weights_descending(sorted_edges@),
            i > 0 ==> current_threshold == sorted_edges@[i - 1].2,
            forall|g: int| 0 <= g < groups@.len() ==> (#[trigger] groups@[g]).0 > current_threshold,
            forall|g: int, h: int| 0 <= g < h < groups@.len() ==> (#[trigger] groups@[g]).0 > (#[trigger] groups@[h]).0,
        decreases n - i,
    {
        let (src, dst, weight) = sorted_edges[i];
        let ghost old_groups = groups@;
        let ghost old_current = current_group@;
        if weight == current_threshold {
            current_group.push((src, dst));
            proof {
                assert(group_edges(current_threshold, current_group@) =~= group_edges(
                    current_threshold,
                    old_current,
                ).push((src, dst, weight)));
                assert(sorted_edges@.subrange(0, i + 1) =~= sorted_edges@.subrange(0, i as int).push(
                    sorted_edges@[i as int],
                ));
                assert((flatten_groups(groups@) + group_edges(current_threshold, old_current)).push(
                    (src, dst, weight),
                ) =~= flatten_groups(groups@) + group_edges(current_threshold, current_group@));
            }
        } else {
            let mut finished: Vec<(u32, u32)> = Vec::new();
            std::mem::swap(&mut finished, &mut current_group);
            groups.push((current_threshold, finished));
            let ghost prev_threshold = current_threshold;
            current_threshold = weight;
            current_group.push((src, dst));
            proof {
                lemma_flatten_push(old_groups, (prev_threshold, finished));
                assert(groups@ == old_groups.push((prev_threshold, finished)));
                if i > 0 {
                    assert(sorted_edges@[i - 1].2 >= sorted_edges@[i as int].2);
                }
                assert(weight < prev_threshold);
                assert forall|g: int| 0 <= g < groups@.len() implies (#[trigger] groups@[g]).0 > weight by {
                    if g < old_groups.len() {
                        assert(old_groups[g].0 > prev_threshold);
                    }
                }
                assert forall|g: int, h: int| 0 <= g < h < groups@.len() implies (#[trigger] groups@[g]).0
                    > (#[trigger] groups@[h]).0 by {
                    if h < old_groups.len() {
                        assert(old_groups[g].0 > old_groups[h].0);
                    } else {
                        assert(old_groups[g].0 > prev_threshold);
                    }
                }
                assert forall|g: int| 0 <= g && g + 1 < groups@.len() implies (#[trigger] groups@[g]).0
                    != groups@[g + 1].0 by {
                    if g + 1 < old_groups.len() {
                        assert(old_groups[g].0 != old_groups[g + 1].0);
                    } else {
                        assert(groups@[g] == old_groups.last());
                        assert(groups@[g + 1].0 == prev_threshold);
                    }
                }
                assert forall|g: int| 0 <= g < groups@.len() implies (#[trigger] groups@[g]).1@.len() > 0 by {
                    if g < old_groups.len() {
                        assert(old_groups[g].1@.len() > 0);
                    }
                }
                assert(group_edges(current_threshold, current_group@) =~= seq![(src, dst, weight)]);
                assert(sorted_edges@.subrange(0, i + 1) =~= sorted_edges@.subrange(0, i as int).push(
                    sorted_edges@[i as int],
                ));
                assert(flatten_groups(groups@) + group_edges(current_threshold, current_group@)
                    =~= (flatten_groups(old_groups) + group_edges(prev_threshold, old_current)).push(
                    (src, dst, weight),
                ));
            }
        }
        i = i + 1;
    }
    let ghost old_groups = groups@;
    let ghost last_threshold = current_threshold;
    let finished = current_group;
    groups.push((current_threshold, finished));
    proof {
        lemma_flatten_push(old_groups, (last_threshold, finished));
        assert(sorted_edges@.subrange(0, n as int) =~= sorted_edges@);
        assert forall|g: int, h: int| 0 <= g < h < groups@.len() implies (#[trigger] groups@[g]).0
            > (#[trigger] groups@[h]).0 by {
            if h < old_groups.len() {
                assert(old_groups[g].0 > old_groups[h].0);
            } else {
                assert(old_groups[g].0 > last_threshold);
            }
        }
        assert forall|g: int| 0 <= g && g + 1 < groups@.len() implies (#[trigger] groups@[g]).0
            != groups@[g + 1].0 by {
            if g + 1 < old_groups.len() {
                assert(old_groups[g].0 != old_groups[g + 1].0);
            } else {
                assert(groups@[g] == old_groups.last());
                assert(groups@[g + 1].0 == last_threshold);
            }
        }
        assert forall|g: int| 0 <= g < groups@.len() implies (#[trigger] groups@[g]).1@.len() > 0 by {
            if g < old_groups.len() {
                assert(old_groups[g].1@.len() > 0);
            }
        }
    }
    groups
}

/// The edges of one group, weighted again.
pub open spec fn group_edges(t: i64, pairs: Seq<(u32, u32)>) -> Seq<(u32, u32, i64)> {
    pairs.map_values(|p: (u32, u32)| (p.0, p.1, t))
}

/// All groups' edges, in order.
pub open spec fn flatten_groups(groups: Seq<(i64, Vec<(u32, u32)>)>) -> Seq<(u32, u32, i64)>
    decreases groups.len(),
{
    if groups.len() == 0 {
        Seq::empty()
    } else {
        flatten_groups(groups.drop_last()) + group_edges(groups.last().0, groups.last().1@)
    }
}

proof fn lemma_flatten_push(groups: Seq<(i64, Vec<(u32, u32)>)>, g: (i64, Vec<(u32, u32)>))
    ensures
        flatten_groups(groups.push(g)) == flatten_groups(groups) + group_edges(g.0, g.1@),
{
    assert(groups.push(g).drop_last() =~= groups);
}

} // verus!
