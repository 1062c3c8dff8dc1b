use vstd::prelude::*;
use crate::union_find::merged;

verus! {

/// Edge `e` joins `a` and `b`, in either direction.
pub open spec fn joins(e: (int, int), a: int, b: int) -> bool {
    (e.0 == a && e.1 == b) || (e.0 == b && e.1 == a)
}

/// Some edge of `edges` joins `a` and `b`.
pub open spec fn step(edges: Seq<(int, int)>, a: int, b: int) -> bool {
    exists|k: int| 0 <= k < edges.len() && #[trigger] joins(edges[k], a, b)
}

/// `p` walks from `a` to `b` along `edges`.
pub open spec fn is_path(edges: Seq<(int, int)>, p: Seq<int>, a: int, b: int) -> bool {
    &&& p.len() >= 1
    &&& p[0] == a
    &&& p.last() == b
    &&& forall|k: int| 0 <= k < p.len() - 1 ==> #[trigger] step(edges, p[k], p[k + 1])
}

/// A walk along `edges` leads from `a` to `b`.
pub open spec fn linked(edges: Seq<(int, int)>, a: int, b: int) -> bool {
    exists|p: Seq<int>| #[trigger] is_path(edges, p, a, b)
}

/// Every edge has both ends in `0..n`.
pub open spec fn edges_within(edges: Seq<(int, int)>, n: int) -> bool {
    forall|k: int|
        0 <= k < edges.len() ==> 0 <= (#[trigger] edges[k]).0 < n && 0 <= edges[k].1 < n
}

/// Two elements share a representative in `reps` exactly when `edges` links them.
pub open spec fn tracks(reps: Seq<int>, edges: Seq<(int, int)>) -> bool {
    forall|i: int, j: int|
        0 <= i < reps.len() && 0 <= j < reps.len() ==> (reps[i] == reps[j] <==> #[trigger] linked(
            edges,
            i,
            j,
        ))
}

pub proof fn lemma_linked_refl(edges: Seq<(int, int)>, a: int)
    ensures
        linked(edges, a, a),
{
    assert(is_path(edges, seq![a], a, a));
}

pub proof fn lemma_step_linked(edges: Seq<(int, int)>, a: int, b: int)
    requires
        step(edges, a, b),
    ensures
        linked(edges, a, b),
{
    let p = seq![a, b];
    assert forall|k: int| 0 <= k < p.len() - 1 implies #[trigger] step(edges, p[k], p[k + 1]) by {}
    assert(is_path(edges, p, a, b));
}

/// A walk stays a walk when an edge is added.
pub proof fn lemma_linked_extend(edges: Seq<(int, int)>, e: (int, int), a: int, b: int)
    requires
        linked(edges, a, b),
    ensures
        linked(edges.push(e), a, b),
{
    let p = choose|p: Seq<int>| is_path(edges, p, a, b);
    let ext = edges.push(e);
    assert forall|k: int| 0 <= k < p.len() - 1 implies #[trigger] step(ext, p[k], p[k + 1]) by {
        assert(step(edges, p[k], p[k + 1]));
        let j = choose|j: int| 0 <= j < edges.len() && #[trigger] joins(edges[j], p[k], p[k + 1]);
        assert(ext[j] == edges[j]);
    }
    assert(is_path(ext, p, a, b));
}

/// A walk to `u`, an edge from `u` to `v` and a walk from `v` make a walk.
pub proof fn lemma_linked_join(edges: Seq<(int, int)>, a: int, u: int, v: int, b: int)
    requires
        linked(edges, a, u),
        step(edges, u, v),
        linked(edges, v, b),
    ensures
        linked(edges, a, b),
{
    let p = choose|p: Seq<int>| is_path(edges, p, a, u);
    let q = choose|q: Seq<int>| is_path(edges, q, v, b);
    let r = p + q;
    assert forall|k: int| 0 <= k < r.len() - 1 implies #[trigger] step(edges, r[k], r[k + 1]) by {
        if k < p.len() - 1 {
            assert(r[k] == p[k] && r[k + 1] == p[k + 1]);
            assert(step(edges, p[k], p[k + 1]));
        } else if k == p.len() - 1 {
            assert(r[k] == u && r[k + 1] == v);
        } else {
            let m = k - p.len();
            assert(r[k] == q[m] && r[k + 1] == q[m + 1]);
            assert(step(edges, q[m], q[m + 1]));
        }
    }
    assert(is_path(edges, r, a, b));
}

/// Where every edge joins elements with one representative, so does every walk.
pub proof fn lemma_path_keeps_rep(edges: Seq<(int, int)>, reps: Seq<int>, p: Seq<int>, a: int, b: int)
    requires
        is_path(edges, p, a, b),
        0 <= a < reps.len(),
        edges_within(edges, reps.len() as int),
        forall|k: int| 0 <= k < edges.len() ==> reps[(#[trigger] edges[k]).0] == reps[edges[k].1],
    ensures
        0 <= b < reps.len(),
        reps[a] == reps[b],
    decreases p.len(),
{
    if p.len() > 1 {
        let q = p.drop_last();
        let c = q.last();
        assert forall|k: int| 0 <= k < q.len() - 1 implies #[trigger] step(edges, q[k], q[k + 1]) by {
            assert(step(edges, p[k], p[k + 1]));
        }
        assert(is_path(edges, q, a, c));
        lemma_path_keeps_rep(edges, reps, q, a, c);
        let k = p.len() - 2;
        assert(step(edges, p[k], p[k + 1]));
        let j = choose|j: int| 0 <= j < edges.len() && #[trigger] joins(edges[j], c, b);
        assert(reps[edges[j].0] == reps[edges[j].1]);
    }
}

/// With no edges, an element links only to itself.
pub proof fn lemma_no_edges_no_links(a: int, b: int)
    requires
        linked(Seq::<(int, int)>::empty(), a, b),
    ensures
        a == b,
{
    let p = choose|p: Seq<int>| is_path(Seq::<(int, int)>::empty(), p, a, b);
    assert(is_path(Seq::<(int, int)>::empty(), p, a, b));
    if p.len() > 1 {
        let k: int = 0;
        assert(step(Seq::<(int, int)>::empty(), p[k], p[k + 1]));
    }
}

/// Singleton sets: each element is linked by no merge to any other.
pub proof fn lemma_singletons_track(reps: Seq<int>)
    requires
        forall|i: int| 0 <= i < reps.len() ==> #[trigger] reps[i] == i,
    ensures
        tracks(reps, Seq::empty()),
{
    assert forall|i: int, j: int| 0 <= i < reps.len() && 0 <= j < reps.len() implies (reps[i]
        == reps[j] <==> #[trigger] linked(Seq::<(int, int)>::empty(), i, j)) by {
        if linked(Seq::<(int, int)>::empty(), i, j) {
            lemma_no_edges_no_links(i, j);
        }
        if i == j {
            lemma_linked_refl(Seq::<(int, int)>::empty(), i);
        }
    }
}

/// Merging the sets of `a` and `b` keeps the sets equal to what the merged
/// pairs link: two elements share a set after the merge exactly when the
/// earlier pairs and `(a, b)` link them.
pub proof fn lemma_union_tracks_links(
    before: Seq<int>,
    pairs: Seq<(int, int)>,
    a: int,
    b: int,
    w: int,
)
    requires
        0 <= a < before.len(),
        0 <= b < before.len(),
        w == before[a] || w == before[b],
        edges_within(pairs, before.len() as int),
        tracks(before, pairs),
    ensures
        tracks(merged(before, before[a], before[b], w), pairs.push((a, b))),
{
    let after = merged(before, before[a], before[b], w);
    let ext = pairs.push((a, b));
    let n = before.len() as int;
    assert(step(ext, a, b)) by {
        assert(joins(ext[pairs.len() as int], a, b));
    }
    assert(step(ext, b, a)) by {
        assert(joins(ext[pairs.len() as int], b, a));
    }
    assert forall|i: int, j: int| 0 <= i < n && 0 <= j < n implies (after[i] == after[j]
        <==> #[trigger] linked(ext, i, j)) by {
        if after[i] == after[j] {
            if before[i] == before[j] {
                assert(linked(pairs, i, j));
                lemma_linked_extend(pairs, (a, b), i, j);
            } else {
                let (u, v) = if before[i] == before[a] { (a, b) } else { (b, a) };
                assert(linked(pairs, i, u));
                assert(linked(pairs, v, j));
                lemma_linked_extend(pairs, (a, b), i, u);
                lemma_linked_extend(pairs, (a, b), v, j);
                lemma_linked_join(ext, i, u, v, j);
            }
        }
        if linked(ext, i, j) {
            let p = choose|p: Seq<int>| is_path(ext, p, i, j);
            assert forall|k: int| 0 <= k < ext.len() implies after[(#[trigger] ext[k]).0]
                == after[ext[k].1] by {
                if k < pairs.len() {
                    let e = pairs[k];
                    assert(ext[k] == e);
                    assert(step(pairs, e.0, e.1)) by {
                        assert(joins(pairs[k], e.0, e.1));
                    }
                    lemma_step_linked(pairs, e.0, e.1);
                    assert(before[e.0] == before[e.1]);
                }
            }
            lemma_path_keeps_rep(ext, after, p, i, j);
        }
    }
}

} // verus!
