use hypercube::layout::{layout_fits, Layout};
use hypercube::puzzle::Puzzle;

#[test]
fn fits_accepts_small_and_rejects_huge() {
    assert!(layout_fits(2, 3, false));
    assert!(layout_fits(3, 3, true));
    assert!(layout_fits(1, 0, false));
    assert!(!layout_fits(0, 3, false));
    assert!(!layout_fits(3, 9, false));
    assert!(!layout_fits(19, 8, false));
}

#[test]
fn base_layout_is_one_point() {
    let l = Layout::make_layout(3, 0, false);
    assert_eq!(l.width, 1);
    assert_eq!(l.height, 1);
    assert_eq!(l.points.get(0, 0).map(|v| v.clone()), Some(vec![]));
    // a puzzle with room gets a center hint
    assert_eq!(l.keybind_hints.get(0, 0), Some(None));
    let small = Layout::make_layout(2, 0, false);
    assert_eq!(small.keybind_hints.get(0, 0), None);
}

#[test]
fn one_dimensional_layout_is_a_row() {
    let l = Layout::make_layout(2, 1, false);
    // four slices of one point each, with a gap of one between them
    assert_eq!(l.height, 1);
    assert_eq!(l.width, 7);
    assert_eq!(l.points.get(0, 0).map(|v| v.clone()), Some(vec![-2]));
    assert_eq!(l.points.get(2, 0).map(|v| v.clone()), Some(vec![-1]));
    assert_eq!(l.points.get(4, 0).map(|v| v.clone()), Some(vec![1]));
    assert_eq!(l.points.get(6, 0).map(|v| v.clone()), Some(vec![2]));
    assert_eq!(l.points.get(1, 0).map(|v| v.clone()), None);
}

#[test]
fn layout_is_deterministic() {
    let a = Layout::make_layout(2, 3, false);
    let b = Layout::make_layout(2, 3, false);
    assert_eq!(a.width, b.width);
    assert_eq!(a.height, b.height);
    let pa = a.points.pairs();
    let pb = b.points.pairs();
    assert_eq!(pa.len(), pb.len());
    for ((k, v), (k2, v2)) in pa.iter().zip(pb.iter()) {
        assert_eq!(k, k2);
        assert_eq!(v, v2);
    }
    let ha = a.keybind_hints.pairs();
    let hb = b.keybind_hints.pairs();
    assert_eq!(ha, hb);
}

#[test]
fn layout_points_with_a_boundary_are_the_sticker_keys() {
    for (n, d) in [(1i16, 1u16), (2, 2), (3, 3), (2, 3)] {
        let l = Layout::make_layout(n, d, false);
        let p = Puzzle::make_solved(n, d);
        let mut boundary_points = 0usize;
        for (_k, pos) in l.points.pairs() {
            if pos.iter().any(|x| *x == n || *x == -n) {
                boundary_points += 1;
                assert!(p.stickers.get(&pos).is_some());
            }
        }
        assert_eq!(boundary_points, p.stickers.num_entries());
    }
}

#[test]
fn layout_point_positions_are_distinct() {
    let l = Layout::make_layout(2, 2, false);
    let pairs = l.points.pairs();
    for i in 0..pairs.len() {
        for j in 0..i {
            assert_ne!(pairs[i].1, pairs[j].1);
        }
    }
}

#[test]
fn compact_gaps_are_narrower() {
    let wide = Layout::make_layout(2, 3, false);
    let tight = Layout::make_layout(2, 3, true);
    assert!(tight.width <= wide.width);
    assert_eq!(tight.points.pairs().len(), wide.points.pairs().len());
}

#[test]
fn move_right_shifts_all_points() {
    let l = Layout::make_layout(2, 2, false);
    let before = l.points.pairs();
    let w = l.width;
    let moved = l.move_right(1);
    assert_eq!(moved.width, w + 1);
    for ((x, y), v) in &before {
        assert_eq!(moved.points.get(x + 1, *y).map(|p| p.clone()), Some(v.clone()));
    }
    assert_eq!(moved.points.get(0, 0), None);
}

#[test]
fn hints_sit_on_interior_points() {
    let l = Layout::make_layout(3, 2, false);
    for ((x, y), _side) in l.keybind_hints.pairs() {
        let pos = l.points.get(x, y).expect("hint on a drawn point").clone();
        assert!(pos.iter().all(|c| c.abs() < 3));
    }
}

#[test]
fn grid_concat_aligns_columns() {
    let a = Layout::make_layout(1, 0, false);
    let b = Layout::make_layout(2, 1, false);
    let a2 = Layout::make_layout(1, 0, false);
    let b2 = Layout::make_layout(2, 1, false);
    let g = Layout::concat_grid(vec![vec![a, b], vec![b2, a2]], 0, 0);
    // both columns are widened to the one-dimensional row's width
    assert_eq!(g.width, 14);
    assert_eq!(g.height, 2);
    assert_eq!(g.points.get(0, 0).map(|v| v.clone()), Some(vec![]));
    assert_eq!(g.points.get(7, 0).map(|v| v.clone()), Some(vec![-2]));
    assert_eq!(g.points.get(0, 1).map(|v| v.clone()), Some(vec![-2]));
    assert_eq!(g.points.get(7, 1).map(|v| v.clone()), Some(vec![]));
}
