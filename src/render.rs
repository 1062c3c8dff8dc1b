use vstd::prelude::*;
use crate::grid::{Border, MazeCell, cell_index};

verus! {

/// A wall is drawn as `#`, an opening as a blank.
pub open spec fn wall_char(open: bool) -> char {
    if open {
        ' '
    } else {
        '#'
    }
}

/// The border between cell `(x, y)` and its right neighbour.
pub open spec fn right_border(x: int, y: int) -> Border {
    Border { from: MazeCell { x: x as usize, y: y as usize }, to: MazeCell { x: (x + 1) as usize, y: y as usize } }
}

/// The border between cell `(x, y)` and the cell below it.
pub open spec fn down_border(x: int, y: int) -> Border {
    Border { from: MazeCell { x: x as usize, y: y as usize }, to: MazeCell { x: x as usize, y: (y + 1) as usize } }
}

/// The line that draws row `y`: a `#` for each cell, and between two
/// neighbours a `#` when their wall stands, a blank when it is open.
pub open spec fn cell_line(w: int, y: int, passages: Seq<Border>) -> Seq<char> {
    Seq::new(
        (2 * w - 1) as nat,
        |k: int|
            if k % 2 == 0 {
                '#'
            } else {
                wall_char(passages.contains(right_border(k / 2, y)))
            },
    )
}

/// The line under row `y`: for each cell, `# ` when the wall below it stands
/// (always so on the last row), two blanks when it is open.
pub open spec fn wall_line(w: int, h: int, y: int, passages: Seq<Border>) -> Seq<char> {
    Seq::new(
        (2 * w) as nat,
        |k: int|
            if k % 2 == 1 {
                ' '
            } else {
                wall_char(y + 1 < h && passages.contains(down_border(k / 2, y)))
            },
    )
}

/// The solid line that closes the drawing.
pub open spec fn bottom_line(w: int) -> Seq<char> {
    Seq::new((2 * w - 1) as nat, |k: int| '#')
}

/// Border `b` stands among the first `j` passages.
spec fn seen(passages: Seq<Border>, j: int, b: Border) -> bool {
    exists|k: int| 0 <= k < j && passages[k] == b
}

proof fn lemma_index_injective(w: int, h: int, a: MazeCell, b: MazeCell)
    requires
        a.x < w,
        b.x < w,
        a.y < h,
        b.y < h,
        cell_index(w, a) == cell_index(w, b),
    ensures
        a == b,
{
    assert(a.y == b.y) by (nonlinear_arith)
        requires
            0 <= a.x < w,
            0 <= b.x < w,
            0 <= a.y,
            0 <= b.y,
            a.x + w * a.y == b.x + w * b.y,
    ;
}

proof fn lemma_index_bound(w: int, h: int, x: int, y: int)
    requires
        0 <= x < w,
        0 <= y < h,
    ensures
        0 <= x + w * y < w * h,
{
    assert(0 <= x + w * y < w * h) by (nonlinear_arith)
        requires
            0 <= x < w,
            0 <= y < h,
    ;
}

/// For each cell, whether the wall to its right is open and whether the
/// wall below it is open, found in one pass over the passages.
pub fn open_walls(width: usize, height: usize, passages: &Vec<Border>) -> (r: (Vec<bool>, Vec<bool>))
    requires
        width >= 1,
        height >= 1,
        width * height <= usize::MAX,
    ensures
        r.0@.len() == width * height,
        r.1@.len() == width * height,
        forall|x: int, y: int|
            0 <= x && x + 1 < width && 0 <= y < height ==> r.0@[x + width * y]
                == #[trigger] passages@.contains(right_border(x, y)),
        forall|x: int, y: int|
            0 <= x < width && 0 <= y && y + 1 < height ==> r.1@[x + width * y]
                == #[trigger] passages@.contains(down_border(x, y)),
{
    let ghost w = width as int;
    let ghost h = height as int;
    let n = width * height;
    let mut right: Vec<bool> = Vec::new();
    let mut down: Vec<bool> = Vec::new();
    let mut i: usize = 0;
    while i < n
        invariant
            i <= n,
            right@.len() == i,
            down@.len() == i,
            forall|k: int| 0 <= k < i ==> !#[trigger] right@[k],
            forall|k: int| 0 <= k < i ==> !#[trigger] down@[k],
        decreases n - i,
    {
        right.push(false);
        down.push(false);
        i += 1;
    }
    proof {
        assert forall|x: int, y: int| 0 <= x && x + 1 < w && 0 <= y < h implies right@[x + w * y]
            == #[trigger] seen(passages@, 0, right_border(x, y)) by {
            lemma_index_bound(w, h, x, y);
        }
        assert forall|x: int, y: int| 0 <= x < w && 0 <= y && y + 1 < h implies down@[x + w * y]
            == #[trigger] seen(passages@, 0, down_border(x, y)) by {
            lemma_index_bound(w, h, x, y);
        }
    }
    let mut j: usize = 0;
    while j < passages.len()
        invariant
            w == width,
            h == height,
            n == w * h,
            j <= passages@.len(),
            right@.len() == n,
            down@.len() == n,
            forall|x: int, y: int|
                0 <= x && x + 1 < w && 0 <= y < h ==> right@[x + w * y] == #[trigger] seen(
                    passages@,
                    j as int,
                    right_border(x, y),
                ),
            forall|x: int, y: int|
                0 <= x < w && 0 <= y && y + 1 < h ==> down@[x + w * y] == #[trigger] seen(
                    passages@,
                    j as int,
                    down_border(x, y),
                ),
        decreases passages@.len() - j,
    {
        let b = passages[j];
        let f = b.from;
        let ghost before_right = right@;
        let ghost before_down = down@;
        if f.x < width && f.y < height && b.to.y == f.y && f.x + 1 < width && b.to.x == f.x + 1 {
            proof {
                lemma_index_bound(w, h, f.x as int, f.y as int);
            }
            right.set(f.x + width * f.y, true);
        } else if f.x < width && f.y < height && b.to.x == f.x && f.y + 1 < height && b.to.y == f.y + 1 {
            proof {
                lemma_index_bound(w, h, f.x as int, f.y as int);
            }
            down.set(f.x + width * f.y, true);
        }
        proof {
            let s = passages@;
            assert forall|x: int, y: int| 0 <= x && x + 1 < w && 0 <= y < h implies right@[x + w * y]
                == #[trigger] seen(s, j + 1, right_border(x, y)) by {
                let rb = right_border(x, y);
                lemma_index_bound(w, h, x, y);
                if seen(s, j as int, rb) {
                    let k = choose|k: int| 0 <= k < j && s[k] == rb;
                    assert(seen(s, j + 1, rb));
                }
                if b == rb {
                    assert(s[j as int] == rb);
                    assert(seen(s, j + 1, rb));
                }
                if seen(s, j + 1, rb) && !seen(s, j as int, rb) {
                    let k = choose|k: int| 0 <= k < j + 1 && s[k] == rb;
                    assert(k == j);
                }
                if right@[x + w * y] != before_right[x + w * y] {
                    lemma_index_injective(w, h, f, MazeCell { x: x as usize, y: y as usize });
                }
            }
            assert forall|x: int, y: int| 0 <= x < w && 0 <= y && y + 1 < h implies down@[x + w * y]
                == #[trigger] seen(s, j + 1, down_border(x, y)) by {
                let db = down_border(x, y);
                lemma_index_bound(w, h, x, y);
                if seen(s, j as int, db) {
                    let k = choose|k: int| 0 <= k < j && s[k] == db;
                    assert(seen(s, j + 1, db));
                }
                if b == db {
                    assert(s[j as int] == db);
                    assert(seen(s, j + 1, db));
                }
                if seen(s, j + 1, db) && !seen(s, j as int, db) {
                    let k = choose|k: int| 0 <= k < j + 1 && s[k] == db;
                    assert(k == j);
                }
                if down@[x + w * y] != before_down[x + w * y] {
                    lemma_index_injective(w, h, f, MazeCell { x: x as usize, y: y as usize });
                }
            }
        }
        j += 1;
    }
    proof {
        assert forall|x: int, y: int| 0 <= x && x + 1 < w && 0 <= y < h implies right@[x + w * y]
            == #[trigger] passages@.contains(right_border(x, y)) by {
            let e = right_border(x, y);
            if passages@.contains(e) {
                let k = choose|k: int| 0 <= k < passages@.len() && passages@[k] == e;
                assert(seen(passages@, j as int, e));
            }
            if seen(passages@, j as int, e) {
                let k = choose|k: int| 0 <= k < j && passages@[k] == e;
                assert(passages@.contains(e));
            }
        }
        assert forall|x: int, y: int| 0 <= x < w && 0 <= y && y + 1 < h implies down@[x + w * y]
            == #[trigger] passages@.contains(down_border(x, y)) by {
            let e = down_border(x, y);
            if passages@.contains(e) {
                let k = choose|k: int| 0 <= k < passages@.len() && passages@[k] == e;
                assert(seen(passages@, j as int, e));
            }
            if seen(passages@, j as int, e) {
                let k = choose|k: int| 0 <= k < j && passages@[k] == e;
                assert(passages@.contains(e));
            }
        }
    }
    (right, down)
}

/// Draws the maze of a `width` by `height` grid with the given passages:
/// two lines per row of cells, then a solid bottom line.
pub fn render(width: usize, height: usize, passages: &Vec<Border>) -> (rows: Vec<Vec<char>>)
    requires
        width >= 1,
        height >= 1,
        width * height <= usize::MAX,
        2 * width <= usize::MAX,
        2 * height + 1 <= usize::MAX,
    ensures
        rows@.len() == 2 * height + 1,
        forall|y: int|
            0 <= y < height ==> (#[trigger] rows@[2 * y])@ == cell_line(width as int, y, passages@),
        forall|y: int|
            0 <= y < height ==> (#[trigger] rows@[2 * y + 1])@ == wall_line(
                width as int,
                height as int,
                y,
                passages@,
            ),
        rows@[2 * height as int]@ == bottom_line(width as int),
{
    let ghost w = width as int;
    let ghost h = height as int;
    let (right, down) = open_walls(width, height, passages);
    let mut rows: Vec<Vec<char>> = Vec::new();
    let mut y: usize = 0;
    while y < height
        invariant
            w == width,
            h == height,
            w >= 1,
            h >= 1,
            w * h <= usize::MAX,
            2 * w <= usize::MAX,
            y <= height,
            right@.len() == w * h,
            down@.len() == w * h,
            forall|x: int, y: int|
                0 <= x && x + 1 < w && 0 <= y < h ==> right@[x + w * y]
                    == #[trigger] passages@.contains(right_border(x, y)),
            forall|x: int, y: int|
                0 <= x < w && 0 <= y && y + 1 < h ==> down@[x + w * y]
                    == #[trigger] passages@.contains(down_border(x, y)),
            rows@.len() == 2 * y,
            forall|r: int| 0 <= r < y ==> (#[trigger] rows@[2 * r])@ == cell_line(w, r, passages@),
            forall|r: int|
                0 <= r < y ==> (#[trigger] rows@[2 * r + 1])@ == wall_line(w, h, r, passages@),
        decreases height - y,
    {
        let mut line: Vec<char> = Vec::new();
        let mut x: usize = 0;
        while x + 1 < width
            invariant
                w == width,
                h == height,
                w >= 1,
                y < height,
                w * h <= usize::MAX,
                2 * w <= usize::MAX,
                x + 1 <= width,
                right@.len() == w * h,
                forall|x: int, y: int|
                    0 <= x && x + 1 < w && 0 <= y < h ==> right@[x + w * y]
                        == #[trigger] passages@.contains(right_border(x, y)),
                line@.len() == 2 * x,
                forall|k: int| 0 <= k < 2 * x ==> #[trigger] line@[k] == cell_line(w, y as int, passages@)[k],
            decreases width - x,
        {
            line.push('#');
            proof {
                lemma_index_bound(w, h, x as int, y as int);
                assert(passages@.contains(right_border(x as int, y as int)) == right@[x + w * y]);
                assert((2 * x + 1) / 2 == x);
            }
            let open = right[x + width * y];
            line.push(if open { ' ' } else { '#' });
            x += 1;
        }
        line.push('#');
        proof {
            assert(line@ =~= cell_line(w, y as int, passages@));
        }
        let mut below: Vec<char> = Vec::new();
        let mut x: usize = 0;
        while x < width
            invariant
                w == width,
                h == height,
                y < height,
                w * h <= usize::MAX,
                2 * w <= usize::MAX,
                x <= width,
                down@.len() == w * h,
                forall|x: int, y: int|
                    0 <= x < w && 0 <= y && y + 1 < h ==> down@[x + w * y]
                        == #[trigger] passages@.contains(down_border(x, y)),
                below@.len() == 2 * x,
                forall|k: int| 0 <= k < 2 * x ==> #[trigger] below@[k] == wall_line(w, h, y as int, passages@)[k],
            decreases width - x,
        {
            proof {
                lemma_index_bound(w, h, x as int, y as int);
                if y + 1 < height {
                    assert(passages@.contains(down_border(x as int, y as int)) == down@[x + w * y]);
                }
                assert((2 * x) / 2 == x);
            }
            let open = y + 1 < height && down[x + width * y];
            below.push(if open { ' ' } else { '#' });
            below.push(' ');
            x += 1;
        }
        proof {
            assert(below@ =~= wall_line(w, h, y as int, passages@));
        }
        let ghost done = rows@;
        rows.push(line);
        rows.push(below);
        proof {
            assert forall|r: int|
                0 <= r < y + 1 implies (#[trigger] rows@[2 * r])@ == cell_line(w, r, passages@) by {
                if r < y {
                    assert(rows@[2 * r] == done[2 * r]);
                }
            }
            assert forall|r: int|
                0 <= r < y + 1 implies (#[trigger] rows@[2 * r + 1])@ == wall_line(w, h, r, passages@) by {
                if r < y {
                    assert(rows@[2 * r + 1] == done[2 * r + 1]);
                }
            }
        }
        y += 1;
    }
    let mut bottom: Vec<char> = Vec::new();
    let mut x: usize = 0;
    while x + 1 < 2 * width
        invariant
            w == width,
            2 * w <= usize::MAX,
            x + 1 <= 2 * width,
            bottom@.len() == x,
            forall|k: int| 0 <= k < x ==> #[trigger] bottom@[k] == '#',
        decreases 2 * width - x,
    {
        bottom.push('#');
        x += 1;
    }
    proof {
        assert(bottom@ =~= bottom_line(w));
    }
    let ghost done = rows@;
    rows.push(bottom);
    proof {
        assert forall|r: int|
            0 <= r < height implies (#[trigger] rows@[2 * r])@ == cell_line(w, r, passages@) by {
            assert(rows@[2 * r] == done[2 * r]);
        }
        assert forall|r: int|
            0 <= r < height implies (#[trigger] rows@[2 * r + 1])@ == wall_line(w, h, r, passages@) by {
            assert(rows@[2 * r + 1] == done[2 * r + 1]);
        }
    }
    rows
}

} // verus!
