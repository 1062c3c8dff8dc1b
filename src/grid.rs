use vstd::prelude::*;

verus! {

/// A cell of the grid, at column `x` and row `y`.
#[derive(Clone, Copy, Debug, PartialEq, Eq, Structural, PartialOrd, Ord)]
pub struct MazeCell {
    pub x: usize,
    pub y: usize,
}

/// A wall between two neighbouring cells: `from` lies just left of or just
/// above `to`.
#[derive(Clone, Copy, Debug, PartialEq, Eq, Structural, PartialOrd, Ord)]
pub struct Border {
    pub from: MazeCell,
    pub to: MazeCell,
}

pub open spec fn in_grid(w: int, h: int, c: MazeCell) -> bool {
    c.x < w && c.y < h
}

/// The linear position of a cell in a grid `w` cells wide.
pub open spec fn cell_index(w: int, c: MazeCell) -> int {
    c.x + w * c.y
}

/// `b` is one of the inner walls of a `w` by `h` grid, in its canonical
/// direction.
pub open spec fn is_grid_border(w: int, h: int, b: Border) -> bool {
    &&& in_grid(w, h, b.to)
    &&& ((b.from.x + 1 == b.to.x && b.from.y == b.to.y) || (b.from.x == b.to.x && b.from.y + 1
        == b.to.y))
}

/// The number of inner walls of a `w` by `h` grid.
pub open spec fn border_count(w: int, h: int) -> int {
    (w - 1) * h + w * (h - 1)
}

/// The left neighbour, if any, then the upper one, if any.
pub open spec fn canonical_neighbours(c: MazeCell) -> Seq<MazeCell> {
    let left = MazeCell { x: (c.x - 1) as usize, y: c.y };
    let up = MazeCell { x: c.x, y: (c.y - 1) as usize };
    if c.x > 0 && c.y > 0 {
        seq![left, up]
    } else if c.x > 0 {
        seq![left]
    } else if c.y > 0 {
        seq![up]
    } else {
        seq![]
    }
}

/// The walls whose `to` cell comes before column `x`, row `y` in
/// column-major order.
spec fn count_before(h: int, x: int, y: int) -> int {
    (if x == 0 {
        0
    } else {
        (x - 1) * h + x * (h - 1)
    }) + (if x > 0 {
        y
    } else {
        0
    }) + (if y > 0 {
        y - 1
    } else {
        0
    })
}

spec fn comes_before(c: MazeCell, x: int, y: int) -> bool {
    c.x < x || (c.x == x && c.y < y)
}

impl MazeCell {
    /// The neighbours that a wall to this cell comes from.
    pub fn adjacent(&self) -> (border: Vec<MazeCell>)
        ensures
            border@ == canonical_neighbours(*self),
    {
        let mut border: Vec<MazeCell> = Vec::new();
        if self.x != 0 {
            border.push(MazeCell { x: self.x - 1, y: self.y });
        }
        if self.y != 0 {
            border.push(MazeCell { x: self.x, y: self.y - 1 });
        }
        proof {
            assert(border@ =~= canonical_neighbours(*self));
        }
        border
    }

    /// Every cell of a `width` by `height` grid once, column by column.
    pub fn all(width: usize, height: usize) -> (cells: Vec<MazeCell>)
        requires
            width * height <= usize::MAX,
        ensures
            cells@.len() == width * height,
            forall|k: int|
                0 <= k < cells@.len() ==> #[trigger] cells@[k].x < width && cells@[k].y < height
                    && cells@[k].x * height + cells@[k].y == k,
    {
        let mut cells: Vec<MazeCell> = Vec::new();
        let mut x: usize = 0;
        while x < width
            invariant
                x <= width,
                cells@.len() == x * height,
                forall|k: int|
                    0 <= k < cells@.len() ==> #[trigger] cells@[k].x < width && cells@[k].y
                        < height && cells@[k].x * height + cells@[k].y == k,
            decreases width - x,
        {
            let mut y: usize = 0;
            while y < height
                invariant
                    x < width,
                    y <= height,
                    cells@.len() == x * height + y,
                    forall|k: int|
                        0 <= k < cells@.len() ==> #[trigger] cells@[k].x < width && cells@[k].y
                            < height && cells@[k].x * height + cells@[k].y == k,
                decreases height - y,
            {
                cells.push(MazeCell { x, y });
                y += 1;
            }
            proof {
                assert(x * height + height == (x + 1) * height) by (nonlinear_arith);
            }
            x += 1;
        }
        cells
    }

    /// The linear position of the cell in a grid `width` cells wide.
    pub fn index(&self, width: usize) -> (r: usize)
        requires
            self.x + width * self.y <= usize::MAX,
        ensures
            r == cell_index(width as int, *self),
    {
        proof {
            assert(0 <= width * self.y) by (nonlinear_arith);
        }
        self.x + width * self.y
    }
}

proof fn lemma_push_keeps(s: Seq<Border>, e: Border, b: Border)
    requires
        s.contains(b),
    ensures
        s.push(e).contains(b),
{
    let i = choose|i: int| 0 <= i < s.len() && s[i] == b;
    assert(s.push(e)[i] == b);
}

proof fn lemma_column_done(h: int, x: int)
    requires
        h >= 1,
        x >= 0,
    ensures
        count_before(h, x + 1, 0) == count_before(h, x, h),
{
    if x == 0 {
        assert(count_before(h, 1, 0) == 0 * h + 1 * (h - 1));
    } else {
        assert(x * h + (x + 1) * (h - 1) == (x - 1) * h + x * (h - 1) + h + (h - 1))
            by (nonlinear_arith);
    }
}

/// Every inner wall of a `width` by `height` grid once, each in its
/// canonical direction.
pub fn enumerate_borders(width: usize, height: usize) -> (borders: Vec<Border>)
    requires
        width >= 1,
        height >= 1,
    ensures
        borders@.len() == border_count(width as int, height as int),
        borders@.no_duplicates(),
        forall|k: int|
            0 <= k < borders@.len() ==> is_grid_border(
                width as int,
                height as int,
                #[trigger] borders@[k],
            ),
        forall|b: Border|
            is_grid_border(width as int, height as int, b) ==> #[trigger] borders@.contains(b),
{
    let ghost w = width as int;
    let ghost h = height as int;
    let mut borders: Vec<Border> = Vec::new();
    let mut x: usize = 0;
    while x < width
        invariant
            x <= width,
            h >= 1,
            w == width,
            h == height,
            borders@.len() == count_before(h, x as int, 0),
            borders@.no_duplicates(),
            forall|k: int|
                0 <= k < borders@.len() ==> is_grid_border(w, h, #[trigger] borders@[k])
                    && comes_before(borders@[k].to, x as int, 0),
            forall|b: Border|
                is_grid_border(w, h, b) && comes_before(b.to, x as int, 0)
                    ==> #[trigger] borders@.contains(b),
        decreases width - x,
    {
        let mut y: usize = 0;
        while y < height
            invariant
                x < width,
                y <= height,
                w == width,
                h == height,
                borders@.len() == count_before(h, x as int, y as int),
                borders@.no_duplicates(),
                forall|k: int|
                    0 <= k < borders@.len() ==> is_grid_border(w, h, #[trigger] borders@[k])
                        && comes_before(borders@[k].to, x as int, y as int),
                forall|b: Border|
                    is_grid_border(w, h, b) && comes_before(b.to, x as int, y as int)
                        ==> #[trigger] borders@.contains(b),
            decreases height - y,
        {
            let cell = MazeCell { x, y };
            let adj = cell.adjacent();
            let ghost n0 = borders@.len() as int;
            let mut j: usize = 0;
            while j < adj.len()
                invariant
                    x < width,
                    y < height,
                    w == width,
                    h == height,
                    adj@ == canonical_neighbours(cell),
                    cell == (MazeCell { x, y }),
                    j <= adj@.len(),
                    borders@.len() == n0 + j,
                    borders@.no_duplicates(),
                    forall|k: int|
                        0 <= k < borders@.len() ==> is_grid_border(w, h, #[trigger] borders@[k])
                            && comes_before(borders@[k].to, x as int, y + 1)
                            && (borders@[k].to == cell ==> k >= n0 && borders@[k].from == adj@[k
                            - n0]),
                    forall|b: Border|
                        is_grid_border(w, h, b) && comes_before(b.to, x as int, y as int)
                            ==> #[trigger] borders@.contains(b),
                    forall|i: int|
                        0 <= i < j ==> #[trigger] borders@.contains(
                            Border { from: adj@[i], to: cell },
                        ),
                decreases adj@.len() - j,
            {
                let nb = Border { from: adj[j], to: cell };
                let ghost old_b = borders@;
                proof {
                    assert forall|k: int| 0 <= k < old_b.len() implies old_b[k] != nb by {
                        if old_b[k].to == cell {
                            assert(adj@[k - n0] != adj@[j as int]);
                        }
                    }
                }
                borders.push(nb);
                proof {
                    let s = borders@;
                    assert(s[old_b.len() as int] == nb);
                    assert forall|a: int, b: int|
                        0 <= a < s.len() && 0 <= b < s.len() && a != b implies s[a] != s[b] by {
                        if a < old_b.len() && b < old_b.len() {
                            assert(old_b[a] != old_b[b]);
                        }
                    }
                    assert forall|b: Border|
                        is_grid_border(w, h, b) && comes_before(b.to, x as int, y as int)
                            implies #[trigger] s.contains(b) by {
                        lemma_push_keeps(old_b, nb, b);
                    }
                    assert forall|i: int| 0 <= i < j + 1 implies #[trigger] s.contains(
                        Border { from: adj@[i], to: cell },
                    ) by {
                        if i < j {
                            lemma_push_keeps(old_b, nb, Border { from: adj@[i], to: cell });
                        } else {
                            assert(s[old_b.len() as int] == nb);
                        }
                    }
                }
                j += 1;
            }
            proof {
                let s = borders@;
                assert forall|b: Border|
                    is_grid_border(w, h, b) && comes_before(b.to, x as int, y + 1)
                        implies #[trigger] s.contains(b) by {
                    if !comes_before(b.to, x as int, y as int) {
                        if b.from.x + 1 == b.to.x {
                            assert(s.contains(Border { from: adj@[0], to: cell }));
                        } else if x > 0 {
                            assert(s.contains(Border { from: adj@[1], to: cell }));
                        } else {
                            assert(s.contains(Border { from: adj@[0], to: cell }));
                        }
                    }
                }
            }
            y += 1;
        }
        proof {
            lemma_column_done(h, x as int);
            assert forall|b: Border|
                is_grid_border(w, h, b) && comes_before(b.to, x + 1, 0)
                    implies #[trigger] borders@.contains(b) by {
                assert(comes_before(b.to, x as int, h));
            }
        }
        x += 1;
    }
    proof {
        assert(count_before(h, w, 0) == border_count(w, h));
    }
    borders
}

} // verus!
