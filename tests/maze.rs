use maze_gen::grid::{enumerate_borders, Border, MazeCell};
use maze_gen::maze::{carve, check_dimensions, generate, DimensionError};
use maze_gen::render::{open_walls, render};
use maze_gen::union_find::UnionFind;

fn cell(x: usize, y: usize) -> MazeCell {
    MazeCell { x, y }
}

fn border(fx: usize, fy: usize, tx: usize, ty: usize) -> Border {
    Border { from: cell(fx, fy), to: cell(tx, ty) }
}

fn lines(rows: &[Vec<char>]) -> Vec<String> {
    rows.iter().map(|r| r.iter().collect()).collect()
}

fn all_linked(width: usize, height: usize, passages: &[Border]) -> bool {
    let mut uf = UnionFind::new(width * height);
    for b in passages {
        uf.union(b.from.index(width), b.to.index(width));
    }
    let root = uf.find(0);
    (0..width * height).all(|i| uf.find(i) == root)
}

fn is_acyclic(width: usize, height: usize, passages: &[Border]) -> bool {
    let mut uf = UnionFind::new(width * height);
    for b in passages {
        let (a, c) = (b.from.index(width), b.to.index(width));
        if uf.find(a) == uf.find(c) {
            return false;
        }
        uf.union(a, c);
    }
    true
}

#[test]
fn union_find_starts_as_singletons() {
    let mut uf = UnionFind::new(5);
    for i in 0..5 {
        assert_eq!(uf.find(i), i);
    }
}

#[test]
fn union_find_merges_transitively() {
    let mut uf = UnionFind::new(6);
    uf.union(0, 1);
    uf.union(2, 3);
    assert_eq!(uf.find(0), uf.find(1));
    assert_ne!(uf.find(1), uf.find(2));
    uf.union(1, 3);
    assert_eq!(uf.find(0), uf.find(2));
    assert_eq!(uf.find(0), uf.find(3));
    assert_ne!(uf.find(0), uf.find(4));
    assert_ne!(uf.find(4), uf.find(5));
    uf.union(0, 2);
    assert_eq!(uf.find(3), uf.find(1));
}

#[test]
fn union_find_tie_keeps_first_root() {
    let mut uf = UnionFind::new(3);
    uf.union(0, 1);
    assert_eq!(uf.find(1), 0);
    uf.union(2, 1);
    assert_eq!(uf.find(2), 0);
}

#[test]
fn adjacent_gives_left_then_up() {
    assert_eq!(cell(0, 0).adjacent(), vec![]);
    assert_eq!(cell(2, 0).adjacent(), vec![cell(1, 0)]);
    assert_eq!(cell(0, 3).adjacent(), vec![cell(0, 2)]);
    assert_eq!(cell(2, 3).adjacent(), vec![cell(1, 3), cell(2, 2)]);
}

#[test]
fn all_lists_each_cell_column_by_column() {
    let cells = MazeCell::all(2, 3);
    assert_eq!(cells, vec![cell(0, 0), cell(0, 1), cell(0, 2), cell(1, 0), cell(1, 1), cell(1, 2)]);
    assert_eq!(MazeCell::all(1, 1), vec![cell(0, 0)]);
}

#[test]
fn index_is_column_plus_width_times_row() {
    assert_eq!(cell(0, 0).index(39), 0);
    assert_eq!(cell(3, 2).index(39), 81);
    assert_eq!(cell(38, 61).index(39), 39 * 62 - 1);
}

#[test]
fn border_counts_match_the_formula() {
    for (w, h) in [(1, 1), (2, 1), (1, 5), (3, 2), (4, 4), (39, 62)] {
        let borders = enumerate_borders(w, h);
        assert_eq!(borders.len(), (w - 1) * h + w * (h - 1));
        let mut sorted = borders.clone();
        sorted.sort();
        sorted.dedup();
        assert_eq!(sorted.len(), borders.len());
        for b in &borders {
            assert!(b.to.x < w && b.to.y < h);
            let left = b.from.x + 1 == b.to.x && b.from.y == b.to.y;
            let up = b.from.x == b.to.x && b.from.y + 1 == b.to.y;
            assert!(left || up);
        }
    }
}

#[test]
fn borders_of_small_grid() {
    assert_eq!(
        enumerate_borders(2, 2),
        vec![border(0, 0, 0, 1), border(0, 0, 1, 0), border(0, 1, 1, 1), border(1, 0, 1, 1)]
    );
}

#[test]
fn carve_keeps_a_spanning_tree() {
    for (w, h) in [(1, 1), (2, 2), (3, 2), (5, 4), (39, 62)] {
        let mut order = enumerate_borders(w, h);
        order.reverse();
        let passages = carve(w, h, &order);
        assert_eq!(passages.len(), w * h - 1);
        assert!(all_linked(w, h, &passages));
        assert!(is_acyclic(w, h, &passages));
    }
}

#[test]
fn carve_skips_borders_that_close_a_loop() {
    let order = vec![
        border(0, 0, 1, 0),
        border(1, 0, 1, 1),
        border(0, 1, 1, 1),
        border(0, 0, 0, 1),
    ];
    let passages = carve(2, 2, &order);
    assert_eq!(passages, vec![border(0, 0, 1, 0), border(1, 0, 1, 1), border(0, 1, 1, 1)]);
}

#[test]
fn carve_is_deterministic_for_one_order() {
    let mut order = enumerate_borders(6, 5);
    order.rotate_left(7);
    let first = carve(6, 5, &order);
    let second = carve(6, 5, &order);
    assert_eq!(first, second);
}

#[test]
fn corridors_keep_every_border() {
    for (w, h) in [(1, 1), (1, 6), (7, 1)] {
        let mut order = enumerate_borders(w, h);
        order.reverse();
        let passages = carve(w, h, &order);
        assert_eq!(passages.len(), w.max(h) - 1);
        assert_eq!(passages, order);
    }
    let passages = generate(1, 9);
    assert_eq!(passages.len(), 8);
    let passages = generate(9, 1);
    assert_eq!(passages.len(), 8);
}

#[test]
fn generate_builds_a_perfect_maze() {
    for (w, h) in [(1, 1), (2, 1), (4, 3), (39, 62)] {
        let passages = generate(w, h);
        assert_eq!(passages.len(), w * h - 1);
        assert!(all_linked(w, h, &passages));
        assert!(is_acyclic(w, h, &passages));
        let all = enumerate_borders(w, h);
        for b in &passages {
            assert!(all.contains(b));
        }
    }
}

#[test]
fn open_walls_marks_right_and_down() {
    let passages = vec![border(0, 0, 1, 0), border(1, 0, 1, 1)];
    let (right, down) = open_walls(2, 2, &passages);
    assert_eq!(right, vec![true, false, false, false]);
    assert_eq!(down, vec![false, true, false, false]);
}

#[test]
fn dimension_checks() {
    assert_eq!(check_dimensions(39, 62), Ok(()));
    assert_eq!(check_dimensions(1, 1), Ok(()));
    assert_eq!(check_dimensions(0, 4), Err(DimensionError::Empty));
    assert_eq!(check_dimensions(4, 0), Err(DimensionError::Empty));
    assert_eq!(check_dimensions(usize::MAX, 2), Err(DimensionError::TooLarge));
    assert_eq!(check_dimensions(usize::MAX / 2 + 1, 1), Err(DimensionError::TooLarge));
}

#[test]
fn render_two_by_one() {
    let passages = generate(2, 1);
    assert_eq!(passages, vec![border(0, 0, 1, 0)]);
    let rows = render(2, 1, &passages);
    assert_eq!(lines(&rows), vec!["# #", "# # ", "###"]);
}

#[test]
fn render_two_by_two() {
    let passages = vec![border(0, 0, 1, 0), border(1, 0, 1, 1), border(0, 1, 1, 1)];
    let rows = render(2, 2, &passages);
    assert_eq!(lines(&rows), vec!["# #", "#   ", "# #", "# # ", "###"]);
}
