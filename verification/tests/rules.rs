use hypercube::filters::{Filter, FilterSelector, FilterSelectorBool};
use hypercube::prefs::{hex, Axis, GlobalColors, GlobalKeys, Keys, Prefs, Side};

fn side(have: bool, color: i16) -> FilterSelectorBool {
    FilterSelectorBool { have, selector: FilterSelector::Side(color) }
}

fn kind(have: bool, count: usize) -> FilterSelectorBool {
    FilterSelectorBool { have, selector: FilterSelector::Type(count) }
}

#[test]
fn default_filter_matches_everything() {
    let f = Filter::default();
    assert!(f.matches_stickers(&[]));
    assert!(f.matches_stickers(&[0, 1, 2]));
}

#[test]
fn empty_filter_matches_nothing() {
    let f = Filter(vec![]);
    assert!(!f.matches_stickers(&[]));
    assert!(!f.matches_stickers(&[0]));
}

#[test]
fn selectors_and_polarity() {
    // must have color 0, must not have color 1
    let f = Filter(vec![vec![side(true, 0), side(false, 1)]]);
    assert!(f.matches_stickers(&[0, 2]));
    assert!(!f.matches_stickers(&[0, 1]));
    assert!(!f.matches_stickers(&[2]));
    // exactly two stickers
    let g = Filter(vec![vec![kind(true, 2)]]);
    assert!(g.matches_stickers(&[4, 5]));
    assert!(!g.matches_stickers(&[4]));
    // anything but three stickers
    let h = Filter(vec![vec![kind(false, 3)]]);
    assert!(h.matches_stickers(&[]));
    assert!(!h.matches_stickers(&[1, 2, 3]));
}

#[test]
fn clauses_are_a_disjunction() {
    let f = Filter(vec![vec![side(true, 0)], vec![side(true, 1)]]);
    assert!(f.matches_stickers(&[0]));
    assert!(f.matches_stickers(&[1]));
    assert!(!f.matches_stickers(&[2]));
}

fn sample_prefs() -> Prefs {
    let keys = |a: char, b: char| Keys { select: a, side: b };
    let s = |name: char, color: u8, k: Keys| Side { name, color, keys: k };
    Prefs {
        axes: vec![
            Axis { pos: s('R', 1, keys('d', 'D')), neg: s('L', 2, keys('e', 'E')), axis_key: 'x' },
            Axis { pos: s('U', 3, keys('f', 'F')), neg: s('D', 4, keys('g', 'G')), axis_key: 'y' },
        ],
        global_keys: GlobalKeys {
            layers: vec!['1', '2'],
            rotate: 'r',
            scramble: 's',
            reset: 'z',
            keybind_mode: 'k',
            axis_mode: 'a',
            undo: 'u',
            redo: 'o',
            next_filter: 'n',
            prev_filter: 'p',
            live_filter_mode: 'l',
            reset_mode: 'q',
            save: 'w',
        },
        global_colors: GlobalColors { piece: 7, filtered: 8, alert: 9, clicked: 10 },
        damage_repeat: 3,
        alert_frames: 4,
    }
}

#[test]
fn preference_lookups() {
    let p = sample_prefs();
    assert_eq!(p.pos_keys(), vec!['d', 'f']);
    assert_eq!(p.max_dim(), 2);
    assert_eq!(p.max_layers(), 5);
}

#[test]
fn hex_colors_match_the_conversion_crate() {
    assert_eq!(hex("ff0000"), Ok(rgb2ansi256::rgb_to_ansi256(255, 0, 0)));
    assert_eq!(hex("00ff7f"), Ok(rgb2ansi256::rgb_to_ansi256(0, 255, 127)));
    assert_eq!(hex("fff"), Ok(rgb2ansi256::rgb_to_ansi256(0, 15, 255)));
    assert_eq!(hex("0"), Ok(rgb2ansi256::rgb_to_ansi256(0, 0, 0)));
    // the low 24 bits are the channels
    assert_eq!(hex("ff000000"), Ok(rgb2ansi256::rgb_to_ansi256(0, 0, 0)));
}

#[test]
fn hex_rejects_what_is_not_a_color() {
    assert_eq!(hex(""), Err(()));
    assert_eq!(hex("zz"), Err(()));
    assert_eq!(hex("12g4"), Err(()));
    assert_eq!(hex("100000000"), Err(()));
    assert_eq!(hex("ffffffff"), Ok(rgb2ansi256::rgb_to_ansi256(255, 255, 255)));
}
