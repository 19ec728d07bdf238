//! User preferences: the axis names, keys and colors the interface works
//! with. Colors are held as xterm-256 palette indices, plain values that the
//! rest of the library can reason about; reading a preferences file and
//! mapping to the terminal's own color type stay with the caller.

use vstd::prelude::*;

verus! {

/// The keys attached to one side of an axis.
#[derive(Clone, Copy, Debug, PartialEq, Eq, Structural)]
pub struct Keys {
    pub select: char,
    pub side: char,
}

/// One side (direction) of an axis: its display name, its color as an
/// xterm-256 palette index, and its keys.
#[derive(Clone, Copy, Debug, PartialEq, Eq, Structural)]
pub struct Side {
    pub name: char,
    pub color: u8,
    pub keys: Keys,
}

/// One axis: its two sides and the key that selects the axis itself.
#[derive(Clone, Copy, Debug, PartialEq, Eq, Structural)]
pub struct Axis {
    pub pos: Side,
    pub neg: Side,
    pub axis_key: char,
}

/// The global colors, as xterm-256 palette indices.
#[derive(Clone, Copy, Debug, PartialEq, Eq, Structural)]
pub struct GlobalColors {
    pub piece: u8,
    pub filtered: u8,
    pub alert: u8,
    pub clicked: u8,
}

/// The global key bindings.
#[derive(Clone, Debug)]
pub struct GlobalKeys {
    pub layers: Vec<char>,
    pub rotate: char,
    pub scramble: char,
    pub reset: char,
    pub keybind_mode: char,
    pub axis_mode: char,
    pub undo: char,
    pub redo: char,
    pub next_filter: char,
    pub prev_filter: char,
    pub live_filter_mode: char,
    pub reset_mode: char,
    pub save: char,
}

/// The whole preference set.
#[derive(Clone, Debug)]
pub struct Prefs {
    pub axes: Vec<Axis>,
    pub global_keys: GlobalKeys,
    pub global_colors: GlobalColors,
    pub damage_repeat: u8,
    pub alert_frames: u8,
}

impl Prefs {
    /// The positive selection key of every axis, in axis order.
    pub fn pos_keys(&self) -> (r: Vec<char>)
        ensures
            r@.len() == self.axes@.len(),
            forall|i: int| 0 <= i < r@.len() ==> r@[i] == (#[trigger] self.axes@[i]).pos.keys.select,
    {
        let mut r: Vec<char> = Vec::new();
        let mut i: usize = 0;
        while i < self.axes.len()
            invariant
                0 <= i <= self.axes@.len(),
                r@.len() == i,
                forall|j: int|
                    0 <= j < i ==> r@[j] == (#[trigger] self.axes@[j]).pos.keys.select,
            decreases self.axes@.len() - i,
        {
            r.push(self.axes[i].pos.keys.select);
            i += 1;
        }
        r
    }

    /// The largest puzzle dimension the preferences can drive: one axis per
    /// configured axis entry.
    pub fn max_dim(&self) -> (r: u16)
        requires
            self.axes@.len() <= 65535,
        ensures
            r as int == self.axes@.len(),
    {
        self.axes.len() as u16
    }

    /// The largest layer count the preferences can drive: each layer key
    /// addresses a layer from either end, plus the middle layer.
    pub fn max_layers(&self) -> (r: i16)
        requires
            self.global_keys.layers@.len() <= 16383,
        ensures
            r as int == self.global_keys.layers@.len() * 2 + 1,
    {
        (self.global_keys.layers.len() * 2 + 1) as i16
    }
}

/// The value of a hexadecimal digit, or 16 for any other character.
pub open spec fn hex_digit_val(c: char) -> int {
    if '0' <= c && c <= '9' {
        c as int - '0' as int
    } else if 'a' <= c && c <= 'f' {
        c as int - 'a' as int + 10
    } else if 'A' <= c && c <= 'F' {
        c as int - 'A' as int + 10
    } else {
        16
    }
}

pub open spec fn is_hex_digit(c: char) -> bool {
    hex_digit_val(c) < 16
}

/// The number a sequence of hexadecimal digits denotes.
pub open spec fn hex_val(s: Seq<char>) -> int
    decreases s.len(),
{
    if s.len() == 0 {
        0
    } else {
        hex_val(s.drop_last()) * 16 + hex_digit_val(s.last())
    }
}

/// A parsable color string: at least one character, all hexadecimal digits,
/// denoting a number that fits 32 bits.
pub open spec fn valid_hex(s: Seq<char>) -> bool {
    s.len() >= 1 && (forall|i: int| 0 <= i < s.len() ==> is_hex_digit(#[trigger] s[i])) && hex_val(
        s,
    ) <= 0xffff_ffff
}

/// The xterm-256 palette index that the conversion crate assigns to an RGB
/// triple.
pub uninterp spec fn ansi256_of(r: u8, g: u8, b: u8) -> u8;

/// Relies on rgb2ansi256::rgb_to_ansi256: the palette index it returns
/// depends on the three channel values alone.
#[verifier::external_body]
fn rgb_to_ansi(r: u8, g: u8, b: u8) -> (c: u8)
    ensures
        c == ansi256_of(r, g, b),
{
    rgb2ansi256::rgb_to_ansi256(r, g, b)
}

/// Relies on str::chars: it yields exactly the characters of the string.
#[verifier::external_body]
fn str_chars(s: &str) -> (r: Vec<char>)
    ensures
        r@ == s@,
{
    s.chars().collect()
}

/// The three color channels packed in the low 24 bits of a number.
pub open spec fn chan_r(v: int) -> u8 {
    ((v / 0x10000) % 256) as u8
}

pub open spec fn chan_g(v: int) -> u8 {
    ((v / 0x100) % 256) as u8
}

pub open spec fn chan_b(v: int) -> u8 {
    (v % 256) as u8
}

/// Parses a hexadecimal RGB color string to its xterm-256 palette index.
/// Succeeds exactly on strings of hexadecimal digits whose value fits 32
/// bits; the low 24 bits are read as the three channels.
pub fn hex(st: &str) -> (r: Result<u8, ()>)
    ensures
        (match r {
            Ok(c) => valid_hex(st@) && c == ansi256_of(
                chan_r(hex_val(st@)),
                chan_g(hex_val(st@)),
                chan_b(hex_val(st@)),
            ),
            Err(()) => !valid_hex(st@),
        }),
{
    let cs = str_chars(st);
    if cs.len() == 0 {
        return Err(());
    }
    let mut v: u64 = 0;
    let mut i: usize = 0;
    while i < cs.len()
        invariant
            cs@ == st@,
            0 <= i <= cs@.len(),
            forall|j: int| 0 <= j < i ==> is_hex_digit(#[trigger] cs@[j]),
            v as int == hex_val(cs@.take(i as int)),
            v <= 0xffff_ffff,
        decreases cs@.len() - i,
    {
        let c = cs[i];
        let dv: u64 = if c >= '0' && c <= '9' {
            (c as u64) - ('0' as u64)
        } else if c >= 'a' && c <= 'f' {
            (c as u64) - ('a' as u64) + 10
        } else if c >= 'A' && c <= 'F' {
            (c as u64) - ('A' as u64) + 10
        } else {
            proof {
                assert(!is_hex_digit(cs@[i as int]));
                assert(!valid_hex(st@));
            }
            return Err(());
        };
        proof {
            assert(dv as int == hex_digit_val(cs@[i as int]));
            assert(cs@.take(i as int + 1).drop_last() =~= cs@.take(i as int));
            assert(cs@.take(i as int + 1).last() == cs@[i as int]);
        }
        let nv = v * 16 + dv;
        if nv > 0xffff_ffff {
            proof {
                assert(hex_val(cs@.take(i as int + 1)) > 0xffff_ffff);
                lemma_hex_val_grows(cs@, i as int + 1);
                assert(!valid_hex(st@));
            }
            return Err(());
        }
        v = nv;
        i += 1;
    }
    proof {
        assert(cs@.take(cs@.len() as int) =~= cs@);
    }
    let rb: u8 = ((v >> 16) & 0xff) as u8;
    let gb: u8 = ((v >> 8) & 0xff) as u8;
    let bb: u8 = (v & 0xff) as u8;
    proof {
        assert(rb == chan_r(v as int) && gb == chan_g(v as int) && bb == chan_b(v as int))
            by (bit_vector)
            requires
                v <= 0xffff_ffff,
                rb == ((v >> 16) & 0xff) as u8,
                gb == ((v >> 8) & 0xff) as u8,
                bb == (v & 0xff) as u8,
        ;
    }
    Ok(rgb_to_ansi(rb, gb, bb))
}

/// A digit's value is never negative.
proof fn lemma_hex_digit_nonneg(c: char)
    ensures
        0 <= hex_digit_val(c) <= 16,
{
}

/// A digit string denotes a non-negative number.
proof fn lemma_hex_val_nonneg(s: Seq<char>)
    ensures
        hex_val(s) >= 0,
    decreases s.len(),
{
    if s.len() > 0 {
        lemma_hex_val_nonneg(s.drop_last());
        lemma_hex_digit_nonneg(s.last());
        assert(hex_val(s.drop_last()) * 16 >= 0) by (nonlinear_arith)
            requires
                hex_val(s.drop_last()) >= 0,
        ;
    }
}

/// A longer digit string never denotes a smaller number.
proof fn lemma_hex_val_grows(s: Seq<char>, i: int)
    requires
        0 <= i <= s.len(),
    ensures
        hex_val(s.take(i)) <= hex_val(s),
    decreases s.len() - i,
{
    if i == s.len() {
        assert(s.take(i) =~= s);
    }
    if i < s.len() {
        lemma_hex_val_grows(s, i + 1);
        assert(s.take(i + 1).drop_last() =~= s.take(i));
        assert(s.take(i + 1).last() == s[i]);
        let pre = hex_val(s.take(i));
        lemma_hex_digit_nonneg(s[i]);
        assert(hex_val(s.take(i + 1)) == pre * 16 + hex_digit_val(s[i]));
        assert(pre >= 0) by {
            lemma_hex_val_nonneg(s.take(i));
        }
        assert(pre * 16 >= pre) by (nonlinear_arith)
            requires
                pre >= 0,
        ;
    }
}

} // verus!
