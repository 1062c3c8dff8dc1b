use vstd::prelude::*;
use rand::seq::SliceRandom;
use crate::graph::{edges_within, lemma_singletons_track, lemma_union_tracks_links, linked, tracks};
use crate::grid::{
    border_count, cell_index, enumerate_borders, in_grid, is_grid_border, Border, MazeCell,
};
use crate::union_find::UnionFind;

verus! {

/// The pair of cell positions that a border joins.
pub open spec fn border_edge(w: int, b: Border) -> (int, int) {
    (cell_index(w, b.from), cell_index(w, b.to))
}

/// The passages as edges between cell positions.
pub open spec fn edge_pairs(w: int, s: Seq<Border>) -> Seq<(int, int)> {
    s.map_values(|b: Border| border_edge(w, b))
}

/// The passages that edge contraction keeps from `order`: each border in
/// turn, kept when the passages kept before it do not already link its
/// two cells.
pub open spec fn chosen(w: int, order: Seq<Border>) -> Seq<Border>
    decreases order.len(),
{
    if order.len() == 0 {
        seq![]
    } else {
        let p = chosen(w, order.drop_last());
        let b = order.last();
        if linked(edge_pairs(w, p), cell_index(w, b.from), cell_index(w, b.to)) {
            p
        } else {
            p.push(b)
        }
    }
}

/// Every two cells of the grid are linked by the passages.
pub open spec fn spans(w: int, h: int, passages: Seq<Border>) -> bool {
    forall|a: MazeCell, b: MazeCell|
        in_grid(w, h, a) && in_grid(w, h, b) ==> #[trigger] linked(
            edge_pairs(w, passages),
            cell_index(w, a),
            #[trigger] cell_index(w, b),
        )
}

proof fn lemma_index_in_range(w: int, h: int, c: MazeCell)
    requires
        in_grid(w, h, c),
    ensures
        0 <= cell_index(w, c) < w * h,
{
    assert(0 <= c.x + w * c.y < w * h) by (nonlinear_arith)
        requires
            0 <= c.x < w,
            0 <= c.y < h,
    ;
}

/// Each position below `w * h` is the position of a cell of the grid.
proof fn lemma_cell_at(w: int, h: int, i: int) -> (c: MazeCell)
    requires
        w >= 1,
        0 <= i < w * h,
        w * h <= usize::MAX,
    ensures
        in_grid(w, h, c),
        cell_index(w, c) == i,
{
    let q = i / w;
    let r = i % w;
    vstd::arithmetic::div_mod::lemma_fundamental_div_mod(i, w);
    assert(0 <= r < w);
    assert(0 <= q < h) by (nonlinear_arith)
        requires
            i == w * q + r,
            0 <= r < w,
            0 <= i < w * h,
            w >= 1,
    ;
    MazeCell { x: r as usize, y: q as usize }
}

/// Where every grid border joins cells of one set, all cells share one set.
proof fn lemma_cell_rep(w: int, h: int, reps: Seq<int>, c: MazeCell)
    requires
        w >= 1,
        h >= 1,
        w * h <= usize::MAX,
        reps.len() == w * h,
        in_grid(w, h, c),
        forall|b: Border|
            is_grid_border(w, h, b) ==> reps[cell_index(w, b.from)] == #[trigger] reps[cell_index(
                w,
                b.to,
            )],
    ensures
        reps[cell_index(w, c)] == reps[0],
    decreases c.x + c.y,
{
    if c.x > 0 {
        let l = MazeCell { x: (c.x - 1) as usize, y: c.y };
        assert(is_grid_border(w, h, Border { from: l, to: c }));
        lemma_cell_rep(w, h, reps, l);
    } else if c.y > 0 {
        let u = MazeCell { x: c.x, y: (c.y - 1) as usize };
        assert(is_grid_border(w, h, Border { from: u, to: c }));
        lemma_cell_rep(w, h, reps, u);
    } else {
        assert(w * c.y == 0) by (nonlinear_arith)
            requires
                c.y == 0,
        ;
    }
}

/// Carves the maze of a `width` by `height` grid by taking the borders in
/// the given `order`: a border becomes a passage when its two cells are not
/// yet joined. The passages form a spanning tree of the grid.
pub fn carve(width: usize, height: usize, order: &Vec<Border>) -> (passages: Vec<Border>)
    requires
        width >= 1,
        height >= 1,
        width * height <= usize::MAX,
        forall|k: int|
            0 <= k < order@.len() ==> is_grid_border(
                width as int,
                height as int,
                #[trigger] order@[k],
            ),
        forall|b: Border|
            is_grid_border(width as int, height as int, b) ==> #[trigger] order@.contains(b),
    ensures
        passages@ == chosen(width as int, order@),
        passages@.len() == width * height - 1,
        spans(width as int, height as int, passages@),
        order@.len() == width * height - 1 ==> passages@ == order@,
{
    let ghost w = width as int;
    let ghost h = height as int;
    let n = width * height;
    let mut union_find = UnionFind::new(n);
    let mut passages: Vec<Border> = Vec::new();
    proof {
        lemma_singletons_track(union_find@);
        assert(edge_pairs(w, passages@) =~= Seq::<(int, int)>::empty());
    }
    let mut i: usize = 0;
    while i < order.len()
        invariant
            w == width,
            h == height,
            w >= 1,
            h >= 1,
            n == w * h,
            n <= usize::MAX,
            i <= order@.len(),
            forall|k: int| 0 <= k < order@.len() ==> is_grid_border(w, h, #[trigger] order@[k]),
            union_find.wf(),
            union_find@.len() == n,
            passages@ == chosen(w, order@.take(i as int)),
            tracks(union_find@, edge_pairs(w, passages@)),
            edges_within(edge_pairs(w, passages@), n as int),
            forall|j: int|
                0 <= j < i ==> union_find@[cell_index(w, (#[trigger] order@[j]).from)]
                    == union_find@[cell_index(w, order@[j].to)],
            union_find.num_classes() + passages@.len() == n,
        decreases order@.len() - i,
    {
        let b = order[i];
        proof {
            lemma_index_in_range(w, h, b.from);
            lemma_index_in_range(w, h, b.to);
        }
        let from = b.from.index(width);
        let to = b.to.index(width);
        let ghost before = union_find@;
        let ghost start = union_find;
        let ghost edges = edge_pairs(w, passages@);
        let from_root = union_find.find(from);
        let to_root = union_find.find(to);
        proof {
            assert(order@.take(i + 1).drop_last() =~= order@.take(i as int));
            assert(order@.take(i + 1).last() == b);
            assert(linked(edges, from as int, to as int) <==> from_root == to_root);
            assert(union_find.roots() =~= start.roots());
        }
        if from_root != to_root {
            union_find.union(from, to);
            passages.push(b);
            proof {
                lemma_union_tracks_links(before, edges, from as int, to as int, union_find@[from as int]);
                assert(edge_pairs(w, passages@) =~= edges.push((from as int, to as int)));
            }
        }
        proof {
            let now = union_find@;
            assert forall|j: int| 0 <= j < i + 1 implies now[cell_index(w, (#[trigger] order@[j]).from)]
                == now[cell_index(w, order@[j].to)] by {
                lemma_index_in_range(w, h, order@[j].from);
                lemma_index_in_range(w, h, order@[j].to);
            }
        }
        i += 1;
    }
    proof {
        let reps = union_find@;
        assert(order@.take(order@.len() as int) =~= order@);
        assert forall|b: Border| is_grid_border(w, h, b) implies reps[cell_index(w, b.from)]
            == #[trigger] reps[cell_index(w, b.to)] by {
            assert(order@.contains(b));
            let j = choose|j: int| 0 <= j < order@.len() && order@[j] == b;
        }
        assert forall|a: MazeCell, c: MazeCell| in_grid(w, h, a) && in_grid(w, h, c) implies #[trigger] linked(
            edge_pairs(w, passages@),
            cell_index(w, a),
            #[trigger] cell_index(w, c),
        ) by {
            lemma_cell_rep(w, h, reps, a);
            lemma_cell_rep(w, h, reps, c);
            lemma_index_in_range(w, h, a);
            lemma_index_in_range(w, h, c);
        }
        assert(w * h >= 1) by (nonlinear_arith)
            requires
                w >= 1,
                h >= 1,
        ;
        let r0 = reps[0];
        union_find.lemma_rep_is_root(0);
        assert forall|k: int| #[trigger] union_find.roots().contains(k) implies k == r0 by {
            let c = lemma_cell_at(w, h, k);
            lemma_cell_rep(w, h, reps, c);
        }
        assert(union_find.roots() =~= set![r0]);
        lemma_chosen_within(w, order@);
    }
    passages
}

/// Relies on rand's `SliceRandom::shuffle`, driven by the thread-local
/// generator: it only swaps elements, so the borders come back in some
/// order with none added or lost.
#[verifier::external_body]
fn shuffle_borders(borders: &mut Vec<Border>)
    ensures
        final(borders)@.to_multiset() == old(borders)@.to_multiset(),
{
    borders.shuffle(&mut rand::thread_rng());
}

/// A random perfect maze on a `width` by `height` grid: every border in a
/// random order, then carved.
pub fn generate(width: usize, height: usize) -> (passages: Vec<Border>)
    requires
        width >= 1,
        height >= 1,
        width * height <= usize::MAX,
    ensures
        passages@.len() == width * height - 1,
        spans(width as int, height as int, passages@),
        forall|k: int|
            0 <= k < passages@.len() ==> is_grid_border(
                width as int,
                height as int,
                #[trigger] passages@[k],
            ),
        width == 1 || height == 1 ==> forall|b: Border|
            is_grid_border(width as int, height as int, b) ==> #[trigger] passages@.contains(b),
{
    let ghost w = width as int;
    let ghost h = height as int;
    let mut order = enumerate_borders(width, height);
    let ghost all = order@;
    shuffle_borders(&mut order);
    proof {
        all.to_multiset_ensures();
        order@.to_multiset_ensures();
        assert forall|k: int| 0 <= k < order@.len() implies is_grid_border(w, h, #[trigger] order@[k]) by {
            assert(order@.to_multiset().count(order@[k]) > 0);
            assert(all.to_multiset().count(order@[k]) > 0);
            let j = choose|j: int| 0 <= j < all.len() && all[j] == order@[k];
            assert(is_grid_border(w, h, all[j]));
        }
        assert forall|b: Border| is_grid_border(w, h, b) implies #[trigger] order@.contains(b) by {
            assert(all.contains(b));
            assert(all.to_multiset().count(b) > 0);
            assert(order@.to_multiset().count(b) > 0);
        }
    }
    let passages = carve(width, height, &order);
    proof {
        lemma_chosen_within(w, order@);
        assert forall|k: int| 0 <= k < passages@.len() implies is_grid_border(w, h, #[trigger] passages@[k]) by {
            assert(order@.contains(passages@[k]));
        }
        if w == 1 || h == 1 {
            lemma_corridor_count(w, h);
        }
    }
    passages
}

/// Why a pair of dimensions cannot be carved.
#[derive(Clone, Copy, Debug, PartialEq, Eq, Structural)]
pub enum DimensionError {
    /// A side of zero cells.
    Empty,
    /// The grid, or its drawing, has more cells than a `usize` can count.
    TooLarge,
}

/// The dimensions for which a maze can be carved and drawn.
pub open spec fn dimensions_ok(w: int, h: int) -> bool {
    &&& w >= 1
    &&& h >= 1
    &&& w * h <= usize::MAX
    &&& 2 * w <= usize::MAX
    &&& 2 * h + 1 <= usize::MAX
}

/// Checks the dimensions before any work is done.
pub fn check_dimensions(width: usize, height: usize) -> (r: Result<(), DimensionError>)
    ensures
        r is Ok <==> dimensions_ok(width as int, height as int),
        r == Err::<(), DimensionError>(DimensionError::Empty) <==> (width == 0 || height == 0),
        r == Err::<(), DimensionError>(DimensionError::TooLarge) <==> (width >= 1 && height >= 1
            && !dimensions_ok(width as int, height as int)),
{
    if width == 0 || height == 0 {
        return Err(DimensionError::Empty);
    }
    let cells = width.checked_mul(height);
    let doubled = width.checked_mul(2);
    let rows = match height.checked_mul(2) {
        Some(d) => d.checked_add(1),
        None => None,
    };
    if cells.is_none() || doubled.is_none() || rows.is_none() {
        return Err(DimensionError::TooLarge);
    }
    Ok(())
}

/// What edge contraction keeps is taken from `order`, and is `order` itself
/// when it keeps as many.
pub proof fn lemma_chosen_within(w: int, order: Seq<Border>)
    ensures
        chosen(w, order).len() <= order.len(),
        forall|k: int|
            0 <= k < chosen(w, order).len() ==> order.contains(#[trigger] chosen(w, order)[k]),
        chosen(w, order).len() == order.len() ==> chosen(w, order) == order,
    decreases order.len(),
{
    if order.len() > 0 {
        let rest = order.drop_last();
        lemma_chosen_within(w, rest);
        let p = chosen(w, rest);
        assert forall|k: int| 0 <= k < chosen(w, order).len() implies order.contains(
            #[trigger] chosen(w, order)[k],
        ) by {
            if k < p.len() {
                assert(chosen(w, order)[k] == p[k]);
                let j = choose|j: int| 0 <= j < rest.len() && rest[j] == p[k];
                assert(order[j] == rest[j]);
            } else {
                assert(order[order.len() - 1] == order.last());
            }
        }
        if chosen(w, order).len() == order.len() {
            assert(p.len() == rest.len());
            assert(order =~= rest.push(order.last()));
        }
    }
}

/// No passage closes a loop: each one kept joins two cells that the
/// passages kept before it do not link.
pub proof fn lemma_chosen_acyclic(w: int, order: Seq<Border>)
    ensures
        forall|k: int|
            0 <= k < chosen(w, order).len() ==> !linked(
                edge_pairs(w, chosen(w, order).take(k)),
                cell_index(w, (#[trigger] chosen(w, order)[k]).from),
                cell_index(w, chosen(w, order)[k].to),
            ),
    decreases order.len(),
{
    if order.len() > 0 {
        let rest = order.drop_last();
        lemma_chosen_acyclic(w, rest);
        let p = chosen(w, rest);
        let c = chosen(w, order);
        assert forall|k: int| 0 <= k < c.len() implies !linked(
            edge_pairs(w, c.take(k)),
            cell_index(w, (#[trigger] c[k]).from),
            cell_index(w, c[k].to),
        ) by {
            if k < p.len() {
                assert(c[k] == p[k]);
                assert(c.take(k) =~= p.take(k));
            } else {
                assert(c.take(k) =~= p);
            }
        }
    }
}

/// A grid one cell wide or one cell high has one wall fewer than cells.
pub proof fn lemma_corridor_count(w: int, h: int)
    requires
        w >= 1,
        h >= 1,
        w == 1 || h == 1,
    ensures
        border_count(w, h) == w * h - 1,
        w * h - 1 == (if w > h { w } else { h }) - 1,
{
    if w == 1 {
        assert(border_count(w, h) == 0 * h + 1 * (h - 1));
    } else {
        assert(border_count(w, h) == (w - 1) * 1 + w * 0);
    }
}

} // verus!
