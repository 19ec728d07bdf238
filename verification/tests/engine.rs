use hypercube::axis::{ax, compl};
use hypercube::puzzle::{Puzzle, SideTurn, PuzzleTurn, Turn};

fn solved(n: i16, d: u16) -> Puzzle {
    Puzzle::make_solved(n, d)
}

#[test]
fn axis_codes_are_self_inverse() {
    for s in [-5i16, -1, 0, 1, 7, 32767, -32768] {
        assert_eq!(compl(compl(s)), s);
    }
    assert_eq!(ax(0), 0);
    assert_eq!(ax(compl(0)), 0);
    assert_eq!(ax(3), 3);
    assert_eq!(ax(-4), 3);
    assert_eq!(compl(0), -1);
    assert_eq!(compl(2), -3);
}

#[test]
fn inverses_swap_the_plane() {
    let t = SideTurn { side: 0, layer_min: 1, layer_max: 1, from: 1, to: 2 };
    let ti = t.inverse();
    assert_eq!(ti.from, 2);
    assert_eq!(ti.to, 1);
    assert_eq!(ti.side, 0);
    assert_eq!(ti.layer_min, 1);
    assert_eq!(ti.layer_max, 1);
    let p = PuzzleTurn { from: 0, to: 1 };
    let pi = p.inverse();
    assert_eq!(pi.from, 1);
    assert_eq!(pi.to, 0);
    let tt = Turn::Side(t).inverse();
    match tt {
        Turn::Side(s) => assert_eq!(s.from, 2),
        _ => panic!("wrong variant"),
    }
}

#[test]
fn solved_two_by_two_table() {
    // d = 2, n = 2: exactly 8 stickers with known colors.
    let p = solved(2, 2);
    assert_eq!(p.stickers.num_entries(), 8);
    let expect: Vec<(Vec<i16>, i16)> = vec![
        (vec![2, -1], 0),
        (vec![2, 1], 0),
        (vec![-2, -1], -1),
        (vec![-2, 1], -1),
        (vec![-1, 2], 1),
        (vec![1, 2], 1),
        (vec![-1, -2], -2),
        (vec![1, -2], -2),
    ];
    for (pos, color) in expect {
        assert_eq!(p.stickers.get(&pos), Some(color));
    }
}

#[test]
fn solved_is_solved_across_sizes() {
    for (n, d) in [(1i16, 1u16), (1, 3), (2, 2), (3, 3), (2, 4)] {
        assert!(solved(n, d).is_solved());
    }
}

#[test]
fn single_layer_cube_turn_table() {
    // d = 3, n = 1: rotate the whole puzzle's only layer through axes 1 -> 2.
    let mut p = solved(1, 3);
    let pre: Vec<(Vec<i16>, i16)> = vec![
        (vec![1, 0, 0], 0),
        (vec![-1, 0, 0], -1),
        (vec![0, 1, 0], 1),
        (vec![0, -1, 0], -2),
        (vec![0, 0, 1], 2),
        (vec![0, 0, -1], -3),
    ];
    for (pos, color) in &pre {
        assert_eq!(p.stickers.get(pos), Some(*color));
    }
    let t = SideTurn { side: 0, layer_min: 0, layer_max: 0, from: 1, to: 2 };
    assert_eq!(p.turn(Turn::Side(t)), Some(()));
    let post: Vec<(Vec<i16>, i16)> = vec![
        (vec![1, 0, 0], 0),
        (vec![-1, 0, 0], -1),
        (vec![0, 1, 0], -3),
        (vec![0, -1, 0], 2),
        (vec![0, 0, 1], 1),
        (vec![0, 0, -1], -2),
    ];
    for (pos, color) in &post {
        assert_eq!(p.stickers.get(pos), Some(*color));
    }
}

#[test]
fn invalid_turns_are_rejected_without_mutation() {
    let mut p = solved(3, 3);
    let before = p.stickers.pairs();
    // side axis coincides with `from`
    assert_eq!(
        p.turn(Turn::Side(SideTurn { side: 0, layer_min: 2, layer_max: 2, from: 0, to: 1 })),
        None
    );
    // side axis coincides with `to`, in the opposite direction
    assert_eq!(
        p.turn(Turn::Side(SideTurn { side: -1, layer_min: 2, layer_max: 2, from: 1, to: 0 })),
        None
    );
    // degenerate plane
    assert_eq!(
        p.turn(Turn::Side(SideTurn { side: 0, layer_min: 2, layer_max: 2, from: 1, to: -2 })),
        None
    );
    assert_eq!(p.turn(Turn::Puzzle(PuzzleTurn { from: 2, to: -3 })), None);
    for (pos, color) in &before {
        assert_eq!(p.stickers.get(pos), Some(*color));
    }
}

#[test]
fn turn_then_inverse_restores_the_mapping() {
    let mut p = solved(3, 3);
    let before = p.stickers.pairs();
    let t = Turn::Side(SideTurn { side: 0, layer_min: 2, layer_max: 2, from: 1, to: 2 });
    assert_eq!(p.turn(t.clone()), Some(()));
    assert_eq!(p.turn(t.inverse()), Some(()));
    for (pos, color) in &before {
        assert_eq!(p.stickers.get(pos), Some(*color));
    }
    let r = Turn::Puzzle(PuzzleTurn { from: -1, to: 2 });
    assert_eq!(p.turn(r.clone()), Some(()));
    assert_eq!(p.turn(r.inverse()), Some(()));
    for (pos, color) in &before {
        assert_eq!(p.stickers.get(pos), Some(*color));
    }
}

#[test]
fn four_quarter_turns_restore_the_mapping() {
    let mut p = solved(2, 3);
    let before = p.stickers.pairs();
    let t = SideTurn { side: 2, layer_min: 1, layer_max: 1, from: 0, to: 1 };
    for _ in 0..4 {
        assert_eq!(p.turn(Turn::Side(t.clone())), Some(()));
    }
    for (pos, color) in &before {
        assert_eq!(p.stickers.get(pos), Some(*color));
    }
}

#[test]
fn one_turn_unsolves_a_cube() {
    let mut p = solved(3, 3);
    let t = SideTurn { side: 0, layer_min: 2, layer_max: 2, from: 1, to: 2 };
    assert_eq!(p.turn(Turn::Side(t)), Some(()));
    assert!(!p.is_solved());
}

#[test]
fn reorientation_keeps_the_state_solved() {
    let mut p = solved(3, 3);
    assert_eq!(p.turn(Turn::Puzzle(PuzzleTurn { from: 0, to: 2 })), Some(()));
    assert!(p.is_solved());
    assert_eq!(p.turn(Turn::Puzzle(PuzzleTurn { from: -1, to: 2 })), Some(()));
    assert!(p.is_solved());
}

#[test]
fn corner_body_carries_both_boundary_colors() {
    let p = solved(3, 3);
    // the body next to the boundaries of axes 0 and 1
    let colors = p.stickers(&[2, 2, 0]);
    assert_eq!(colors.len(), 2);
    assert!(colors.contains(&0));
    assert!(colors.contains(&1));
    // the same stickers through a boundary cell of that piece
    let via_sticker = p.stickers(&[3, 2, 0]);
    assert_eq!(via_sticker, colors);
}

#[test]
fn single_layer_bodies_carry_complementary_pairs() {
    let p = solved(1, 2);
    let colors = p.stickers(&[0, 0]);
    assert_eq!(colors, vec![0, -1, 1, -2]);
}

#[test]
fn center_body_of_odd_cube_has_no_stickers() {
    let p = solved(3, 3);
    let colors = p.stickers(&[0, 0, 0]);
    assert!(colors.is_empty());
}

#[test]
fn scramble_keeps_the_key_set() {
    let mut p = solved(3, 3);
    let before = p.stickers.pairs();
    assert_eq!(before.len(), 54);
    let mut rng = rand::rng();
    p.scramble(&mut rng);
    assert_eq!(p.stickers.num_entries(), 54);
    for (pos, _color) in &before {
        assert!(p.stickers.get(pos).is_some());
    }
}
