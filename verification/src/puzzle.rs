//! The puzzle state engine: an exact permutation-group model over an
//! arbitrary-dimension coordinate space.
//!
//! A sticker is addressed by a position vector of `d` signed coordinates of
//! which exactly one is a boundary value (`n` or `-n`); the remaining
//! coordinates are interior values (`-n+1, -n+3, ..., n-1`). The state maps
//! every such position to a color, which is an axis code (see [`crate::axis`]).

use vstd::prelude::*;

use crate::axis::ax;
use crate::axis::compl;
use crate::axis::spec_ax;
use crate::axis::spec_compl;

verus! {

// ------------------------------------------------------------------
// Turn descriptions
// ------------------------------------------------------------------

/// A layered rotation: the plane spanned by `from`/`to` is rotated, but only
/// for positions whose coordinate along `side`'s axis falls in the window
/// derived from `[layer_min, layer_max]`.
#[derive(Clone, Debug, PartialEq, Eq, Structural)]
pub struct SideTurn {
    pub side: i16,
    pub layer_min: i16,
    pub layer_max: i16,
    pub from: i16,
    pub to: i16,
}

/// A whole-puzzle reorientation: the rotation is applied to every position.
#[derive(Clone, Debug, PartialEq, Eq, Structural)]
pub struct PuzzleTurn {
    pub from: i16,
    pub to: i16,
}

/// One requested move.
#[derive(Clone, Debug, PartialEq, Eq, Structural)]
pub enum Turn {
    Side(SideTurn),
    Puzzle(PuzzleTurn),
}

impl SideTurn {
    /// The inverse move: the same window, with the rotation plane reversed.
    pub open spec fn spec_inverse(self) -> SideTurn {
        SideTurn { from: self.to, to: self.from, ..self }
    }

    pub fn inverse(&self) -> (r: Self)
        ensures
            r == self.spec_inverse(),
    {
        SideTurn {
            from: self.to,
            to: self.from,
            side: self.side,
            layer_min: self.layer_min,
            layer_max: self.layer_max,
        }
    }
}

impl PuzzleTurn {
    pub open spec fn spec_inverse(self) -> PuzzleTurn {
        PuzzleTurn { from: self.to, to: self.from }
    }

    pub fn inverse(&self) -> (r: Self)
        ensures
            r == self.spec_inverse(),
    {
        PuzzleTurn { from: self.to, to: self.from }
    }
}

impl Turn {
    pub open spec fn spec_inverse(self) -> Turn {
        match self {
            Turn::Side(t) => Turn::Side(t.spec_inverse()),
            Turn::Puzzle(t) => Turn::Puzzle(t.spec_inverse()),
        }
    }

    pub fn inverse(&self) -> (r: Self)
        ensures
            r == self.spec_inverse(),
    {
        match self {
            Self::Side(t) => Self::Side(t.inverse()),
            Self::Puzzle(t) => Self::Puzzle(t.inverse()),
        }
    }
}

// ------------------------------------------------------------------
// Position vocabulary
// ------------------------------------------------------------------

/// A boundary coordinate sits on one of the two faces of its axis.
pub open spec fn is_boundary(n: int, x: int) -> bool {
    x == n || x == -n
}

/// An interior coordinate: strictly between the boundaries, on the grid
/// `-n+1, -n+3, ..., n-1` (every other value).
pub open spec fn is_interior(n: int, x: int) -> bool {
    -n < x < n && (x - n) % 2 == 1
}

/// `p` is a sticker position whose boundary coordinate sits at index `b`.
pub open spec fn sticker_at(n: int, d: int, p: Seq<i16>, b: int) -> bool {
    &&& p.len() == d
    &&& 0 <= b < d
    &&& is_boundary(n, p[b] as int)
    &&& forall|i: int| 0 <= i < d && i != b ==> is_interior(n, #[trigger] p[i] as int)
}

/// `p` is a sticker position: exactly one boundary coordinate, the rest
/// interior.
pub open spec fn is_sticker(n: int, d: int, p: Seq<i16>) -> bool {
    exists|b: int| sticker_at(n, d, p, b)
}

/// The full key set of a puzzle's sticker mapping.
pub open spec fn sticker_dom(n: int, d: int) -> Set<Seq<i16>> {
    Set::new(|p: Seq<i16>| is_sticker(n, d, p))
}

/// For `n >= 1` a coordinate cannot be boundary and interior at once, so the
/// boundary index of a sticker position is unique.
pub proof fn lemma_sticker_index_unique(n: int, d: int, p: Seq<i16>, b1: int, b2: int)
    requires
        n >= 1,
        sticker_at(n, d, p, b1),
        sticker_at(n, d, p, b2),
    ensures
        b1 == b2,
{
    if b1 != b2 {
        assert(is_interior(n, p[b1] as int));
        assert(is_boundary(n, p[b1] as int));
    }
}

/// The boundary index of a sticker position.
pub open spec fn bidx(n: int, d: int, p: Seq<i16>) -> int {
    choose|b: int| sticker_at(n, d, p, b)
}

/// The face a sticker position belongs to: the axis code implied by its sole
/// boundary coordinate.
pub open spec fn face_of(n: int, d: int, p: Seq<i16>) -> int {
    if p[bidx(n, d, p)] >= 0 {
        bidx(n, d, p)
    } else {
        spec_compl(bidx(n, d, p))
    }
}

/// The color a sticker carries in the canonical solved state: exactly its own
/// face.
pub open spec fn solved_color(n: int, d: int, p: Seq<i16>) -> i16 {
    face_of(n, d, p) as i16
}

/// The canonical solved mapping for `(n, d)`.
pub open spec fn solved_map(n: int, d: int) -> Map<Seq<i16>, i16> {
    Map::new(|p: Seq<i16>| is_sticker(n, d, p), |p: Seq<i16>| solved_color(n, d, p))
}

// ------------------------------------------------------------------
// Sticker storage: an association list with unique keys
// ------------------------------------------------------------------

/// The mapping that a list of `(position, color)` entries denotes; a later
/// entry overrides an earlier one with the same key.
pub open spec fn assoc_map(s: Seq<(Vec<i16>, i16)>) -> Map<Seq<i16>, i16>
    decreases s.len(),
{
    if s.len() == 0 {
        Map::empty()
    } else {
        assoc_map(s.drop_last()).insert(s.last().0@, s.last().1)
    }
}

/// No key occurs twice in the entry list.
pub open spec fn unique_keys(s: Seq<(Vec<i16>, i16)>) -> bool {
    forall|i: int, j: int|
        0 <= i < j < s.len() ==> (#[trigger] s[i]).0@ != (#[trigger] s[j]).0@
}

/// On a unique-key entry list, the denoted map is exactly the entries: every
/// entry is in the map with its own value, and every key of the map comes from
/// an entry.
pub proof fn lemma_assoc_map(s: Seq<(Vec<i16>, i16)>)
    requires
        unique_keys(s),
    ensures
        forall|i: int|
            0 <= i < s.len() ==> assoc_map(s).dom().contains((#[trigger] s[i]).0@)
                && assoc_map(s)[s[i].0@] == s[i].1,
        forall|k: Seq<i16>|
            #[trigger] assoc_map(s).dom().contains(k) ==> exists|i: int|
                0 <= i < s.len() && (#[trigger] s[i]).0@ == k,
    decreases s.len(),
{
    if s.len() > 0 {
        assert(unique_keys(s.drop_last())) by {
            assert forall|i: int, j: int| 0 <= i < j < s.drop_last().len() implies
                (#[trigger] s.drop_last()[i]).0@ != (#[trigger] s.drop_last()[j]).0@ by {
                assert(s.drop_last()[i] == s[i]);
                assert(s.drop_last()[j] == s[j]);
            }
        }
        lemma_assoc_map(s.drop_last());
        assert forall|i: int| 0 <= i < s.len() implies
            assoc_map(s).dom().contains((#[trigger] s[i]).0@) && assoc_map(s)[s[i].0@] == s[i].1 by {
            if i < s.len() - 1 {
                assert(s.drop_last()[i] == s[i]);
                assert(s[i].0@ != s[s.len() - 1].0@);
            } else {
                assert(s[i] == s.last());
            }
        }
        assert forall|k: Seq<i16>| #[trigger] assoc_map(s).dom().contains(k) implies
            exists|i: int| 0 <= i < s.len() && (#[trigger] s[i]).0@ == k by {
            if k == s.last().0@ {
                assert(s[s.len() - 1].0@ == k);
            } else {
                assert(assoc_map(s.drop_last()).dom().contains(k));
                let i = choose|i: int| 0 <= i < s.drop_last().len() && (#[trigger] s.drop_last()[i]).0@ == k;
                assert(s[i].0@ == k);
            }
        }
    }
}

/// Sticker storage: a position-to-color mapping held as a list of entries
/// with pairwise distinct keys.
#[derive(Clone, Debug)]
pub struct StickerMap {
    entries: Vec<(Vec<i16>, i16)>,
}

impl View for StickerMap {
    type V = Map<Seq<i16>, i16>;

    closed spec fn view(&self) -> Map<Seq<i16>, i16> {
        assoc_map(self.entries@)
    }
}

/// Element-wise equality of two coordinate vectors.
fn key_eq(a: &Vec<i16>, b: &Vec<i16>) -> (r: bool)
    ensures
        r == (a@ == b@),
{
    if a.len() != b.len() {
        return false;
    }
    let mut i: usize = 0;
    while i < a.len()
        invariant
            a@.len() == b@.len(),
            0 <= i <= a@.len(),
            forall|j: int| 0 <= j < i ==> a@[j] == b@[j],
        decreases a@.len() - i,
    {
        if a[i] != b[i] {
            return false;
        }
        i += 1;
    }
    proof {
        assert(a@ =~= b@);
    }
    true
}

impl StickerMap {
    /// The keys are pairwise distinct.
    pub closed spec fn wf(self) -> bool {
        unique_keys(self.entries@)
    }

    pub fn new() -> (r: StickerMap)
        ensures
            r.wf(),
            r@ == Map::<Seq<i16>, i16>::empty(),
    {
        StickerMap { entries: Vec::new() }
    }

    /// The number of stickers held.
    pub fn num_entries(&self) -> (r: usize)
        requires
            self.wf(),
        ensures
            r == self@.dom().len(),
    {
        proof {
            lemma_assoc_entries_len(self.entries@);
        }
        self.entries.len()
    }

    /// Looks a position up.
    pub fn get(&self, key: &Vec<i16>) -> (r: Option<i16>)
        requires
            self.wf(),
        ensures
            (match r {
                Some(c) => self@.dom().contains(key@) && self@[key@] == c,
                None => !self@.dom().contains(key@),
            }),
    {
        proof {
            lemma_assoc_map(self.entries@);
        }
        let mut i: usize = 0;
        while i < self.entries.len()
            invariant
                self.wf(),
                0 <= i <= self.entries@.len(),
                forall|j: int| 0 <= j < i ==> (#[trigger] self.entries@[j]).0@ != key@,
            decreases self.entries@.len() - i,
        {
            if key_eq(&self.entries[i].0, key) {
                proof {
                    lemma_assoc_map(self.entries@);
                }
                return Some(self.entries[i].1);
            }
            i += 1;
        }
        proof {
            lemma_assoc_map(self.entries@);
            if self@.dom().contains(key@) {
                let j = choose|j: int|
                    0 <= j < self.entries@.len() && (#[trigger] self.entries@[j]).0@ == key@;
            }
        }
        None
    }

    /// Records a position's color if the position is not yet present; an
    /// already-present position is left as it is.
    pub fn insert_if_absent(&mut self, key: Vec<i16>, val: i16)
        requires
            old(self).wf(),
        ensures
            final(self).wf(),
            final(self)@ == (if old(self)@.dom().contains(key@) {
                old(self)@
            } else {
                old(self)@.insert(key@, val)
            }),
    {
        let present = match self.get(&key) {
            Some(_) => true,
            None => false,
        };
        if !present {
            proof {
                lemma_assoc_map(self.entries@);
            }
            let ghost s0 = self.entries@;
            self.entries.push((key, val));
            proof {
                assert(self.entries@.drop_last() =~= s0);
                assert forall|i: int, j: int| 0 <= i < j < self.entries@.len() implies
                    (#[trigger] self.entries@[i]).0@ != (#[trigger] self.entries@[j]).0@ by {
                    if j < self.entries@.len() - 1 {
                        assert(self.entries@[i] == s0[i]);
                        assert(self.entries@[j] == s0[j]);
                    } else {
                        assert(self.entries@[i] == s0[i]);
                        lemma_assoc_map(s0);
                    }
                }
            }
        }
    }
}

/// On a unique-key entry list the map has as many keys as there are entries.
pub proof fn lemma_assoc_entries_len(s: Seq<(Vec<i16>, i16)>)
    requires
        unique_keys(s),
    ensures
        assoc_map(s).dom().finite(),
        assoc_map(s).dom().len() == s.len(),
    decreases s.len(),
{
    if s.len() > 0 {
        assert(unique_keys(s.drop_last())) by {
            assert forall|i: int, j: int| 0 <= i < j < s.drop_last().len() implies
                (#[trigger] s.drop_last()[i]).0@ != (#[trigger] s.drop_last()[j]).0@ by {
                assert(s.drop_last()[i] == s[i]);
                assert(s.drop_last()[j] == s[j]);
            }
        }
        lemma_assoc_entries_len(s.drop_last());
        lemma_assoc_map(s.drop_last());
        if assoc_map(s.drop_last()).dom().contains(s.last().0@) {
            let i = choose|i: int|
                0 <= i < s.drop_last().len() && (#[trigger] s.drop_last()[i]).0@ == s.last().0@;
            assert(s[i].0@ == s[s.len() - 1].0@);
            assert(false);
        }
    }
}

} // verus!

// ------------------------------------------------------------------
// The puzzle state
// ------------------------------------------------------------------

verus! {

/// Every coordinate of a sticker position is bounded by the boundary value.
pub proof fn lemma_sticker_coords_bounded(n: int, d: int, p: Seq<i16>, i: int)
    requires
        n >= 1,
        is_sticker(n, d, p),
        0 <= i < d,
    ensures
        -n <= p[i] as int <= n,
{
    let b = choose|b: int| sticker_at(n, d, p, b);
    if i != b {
        assert(is_interior(n, p[i] as int));
    }
}

/// An exact combinatorial state of the puzzle for a given `(n, d)`.
#[derive(Clone, Debug)]
pub struct Puzzle {
    pub n: i16,
    pub d: u16,
    pub stickers: StickerMap,
}

impl View for Puzzle {
    type V = Map<Seq<i16>, i16>;

    open spec fn view(&self) -> Map<Seq<i16>, i16> {
        self.stickers@
    }
}

impl Puzzle {
    /// Well-formedness: the sticker mapping is keyed by exactly the valid
    /// sticker positions of `(n, d)`, and mutation never changes that key set.
    pub open spec fn wf(self) -> bool {
        &&& 1 <= self.n
        &&& 1 <= self.d <= 32767
        &&& self.stickers.wf()
        &&& self.stickers@.dom() == sticker_dom(self.n as int, self.d as int)
    }
}

// ------------------------------------------------------------------
// Construction of the solved state
// ------------------------------------------------------------------

/// The ordered list of interior coordinate values for a given `n`.
fn interior_vals(n: i16) -> (r: Vec<i16>)
    requires
        1 <= n,
    ensures
        r@.len() == n,
        forall|i: int| 0 <= i < n ==> (#[trigger] r@[i]) as int == -(n as int) + 1 + 2 * i,
{
    let mut r: Vec<i16> = Vec::new();
    let mut i: usize = 0;
    while i < n as usize
        invariant
            1 <= n,
            0 <= i <= n,
            r@.len() == i,
            forall|j: int| 0 <= j < i ==> (#[trigger] r@[j]) as int == -(n as int) + 1 + 2 * j,
        decreases n as int - i,
    {
        let v: i16 = ((-(n as i32)) + 1 + 2 * (i as i32)) as i16;
        r.push(v);
        i += 1;
    }
    r
}

/// Every interior coordinate occurs in the list built by `interior_vals`.
proof fn lemma_interior_has_index(n: int, x: int, vals: Seq<i16>)
    requires
        n >= 1,
        is_interior(n, x),
        vals.len() == n,
        forall|i: int| 0 <= i < n ==> (#[trigger] vals[i]) as int == -n + 1 + 2 * i,
    ensures
        exists|i: int| 0 <= i < vals.len() && (#[trigger] vals[i]) as int == x,
{
    let q = (x - n) / 2;
    vstd::arithmetic::div_mod::lemma_fundamental_div_mod(x - n, 2);
    let i = q + n;
    assert(x == -n + 1 + 2 * i);
    assert(vals[i] as int == x);
}

/// `s` is a choice of `k` interior coordinates.
pub open spec fn is_combo(n: int, k: int, s: Seq<i16>) -> bool {
    s.len() == k && forall|i: int| 0 <= i < k ==> is_interior(n, (#[trigger] s[i]) as int)
}

/// `vs` holds a vector whose view is `s`.
pub open spec fn contains_vec(vs: Seq<Vec<i16>>, s: Seq<i16>) -> bool {
    exists|i: int| 0 <= i < vs.len() && (#[trigger] vs[i])@ == s
}

/// Enumerates every choice of `k` interior coordinates (possibly with
/// repetitions in the list; the list covers all of them).
fn combos(n: i16, k: u16) -> (r: Vec<Vec<i16>>)
    requires
        1 <= n,
    ensures
        forall|i: int| 0 <= i < r@.len() ==> is_combo(n as int, k as int, (#[trigger] r@[i])@),
        forall|s: Seq<i16>| is_combo(n as int, k as int, s) ==> contains_vec(r@, s),
    decreases k,
{
    if k == 0 {
        let mut r: Vec<Vec<i16>> = Vec::new();
        r.push(Vec::new());
        proof {
            assert forall|s: Seq<i16>| is_combo(n as int, 0, s) implies contains_vec(r@, s) by {
                assert(s =~= r@[0]@);
            }
        }
        r
    } else {
        let prev = combos(n, k - 1);
        let vals = interior_vals(n);
        let mut r: Vec<Vec<i16>> = Vec::new();
        let mut pi: usize = 0;
        while pi < prev.len()
            invariant
                1 <= n,
                0 <= pi <= prev@.len(),
                vals@.len() == n,
                forall|i: int| 0 <= i < n ==> (#[trigger] vals@[i]) as int == -(n as int) + 1 + 2 * i,
                forall|i: int|
                    0 <= i < prev@.len() ==> is_combo(n as int, k as int - 1, (#[trigger] prev@[i])@),
                forall|i: int| 0 <= i < r@.len() ==> is_combo(n as int, k as int, (#[trigger] r@[i])@),
                forall|pj: int, vj: int|
                    0 <= pj < pi && 0 <= vj < vals@.len() ==> contains_vec(
                        r@,
                        (#[trigger] prev@[pj])@.push(#[trigger] vals@[vj]),
                    ),
            decreases prev@.len() - pi,
        {
            let mut vi: usize = 0;
            while vi < vals.len()
                invariant
                    1 <= n,
                    0 <= pi < prev@.len(),
                    0 <= vi <= vals@.len(),
                    vals@.len() == n,
                    forall|i: int|
                        0 <= i < n ==> (#[trigger] vals@[i]) as int == -(n as int) + 1 + 2 * i,
                    forall|i: int|
                        0 <= i < prev@.len() ==> is_combo(
                            n as int,
                            k as int - 1,
                            (#[trigger] prev@[i])@,
                        ),
                    forall|i: int|
                        0 <= i < r@.len() ==> is_combo(n as int, k as int, (#[trigger] r@[i])@),
                    forall|pj: int, vj: int|
                        0 <= pj < pi && 0 <= vj < vals@.len() ==> contains_vec(
                            r@,
                            (#[trigger] prev@[pj])@.push(#[trigger] vals@[vj]),
                        ),
                    forall|vj: int|
                        0 <= vj < vi ==> contains_vec(
                            r@,
                            prev@[pi as int]@.push(#[trigger] vals@[vj]),
                        ),
                decreases vals@.len() - vi,
            {
                let ghost r0 = r@;
                let mut c = prev[pi].clone();
                c.push(vals[vi]);
                proof {
                    assert(c@ =~= prev@[pi as int]@.push(vals@[vi as int]));
                }
                r.push(c);
                proof {
                    assert(r@[r@.len() - 1]@ == prev@[pi as int]@.push(vals@[vi as int]));
                    assert(is_combo(n as int, k as int, c@)) by {
                        assert(forall|i: int|
                            0 <= i < k - 1 ==> is_interior(
                                n as int,
                                (#[trigger] prev@[pi as int]@[i]) as int,
                            ));
                        assert(c@[k - 1] == vals@[vi as int]);
                    }
                    assert forall|i: int| 0 <= i < r0.len() implies r@[i] == r0[i] by {}
                }
                vi += 1;
            }
            pi += 1;
        }
        proof {
            assert forall|s: Seq<i16>| is_combo(n as int, k as int, s) implies contains_vec(r@, s) by {
                let head = s.drop_last();
                assert(is_combo(n as int, k as int - 1, head)) by {
                    assert(forall|i: int|
                        0 <= i < k - 1 ==> #[trigger] head[i] == s[i] && is_interior(
                            n as int,
                            s[i] as int,
                        ));
                }
                assert(contains_vec(prev@, head));
                let pj = choose|pj: int| 0 <= pj < prev@.len() && (#[trigger] prev@[pj])@ == head;
                assert(is_interior(n as int, s[k - 1] as int));
                lemma_interior_has_index(n as int, s[k - 1] as int, vals@);
                let vj = choose|vj: int|
                    0 <= vj < vals@.len() && (#[trigger] vals@[vj]) as int == s[k - 1] as int;
                assert(prev@[pj]@.push(vals@[vj]) =~= s);
            }
        }
        r
    }
}

} // verus!

verus! {

/// Dropping index `b` from a position.
pub open spec fn seq_remove(p: Seq<i16>, b: int) -> Seq<i16> {
    p.remove(b)
}

/// Removing the inserted element gives the original back.
proof fn lemma_remove_insert(c: Seq<i16>, b: int, v: i16)
    requires
        0 <= b <= c.len(),
    ensures
        c.insert(b, v).remove(b) =~= c,
        c.insert(b, v).len() == c.len() + 1,
        c.insert(b, v)[b] == v,
        forall|i: int| 0 <= i < b ==> c.insert(b, v)[i] == c[i],
        forall|i: int| b < i < c.len() + 1 ==> c.insert(b, v)[i] == c[i - 1],
{
}

/// Re-inserting the removed element gives the position back.
proof fn lemma_insert_remove(p: Seq<i16>, b: int)
    requires
        0 <= b < p.len(),
    ensures
        p.remove(b).insert(b, p[b]) =~= p,
{
}

/// Inserting a boundary value into a combination yields a sticker position
/// whose face is the axis of the insertion point, signed by the boundary's
/// direction.
proof fn lemma_combo_insert_sticker(n: int, d: int, c: Seq<i16>, b: int, v: i16)
    requires
        n >= 1,
        1 <= d <= 32767,
        is_combo(n, d - 1, c),
        0 <= b < d,
        is_boundary(n, v as int),
    ensures
        is_sticker(n, d, c.insert(b, v)),
        (v as int) >= 0 ==> solved_color(n, d, c.insert(b, v)) as int == b,
        (v as int) < 0 ==> solved_color(n, d, c.insert(b, v)) as int == spec_compl(b),
{
    let p = c.insert(b, v);
    lemma_remove_insert(c, b, v);
    assert(sticker_at(n, d, p, b)) by {
        assert forall|i: int| 0 <= i < d && i != b implies is_interior(n, #[trigger] p[i] as int) by {
            if i < b {
                assert(p[i] == c[i]);
            } else {
                assert(p[i] == c[i - 1]);
            }
        }
    }
    let bc = bidx(n, d, p);
    assert(sticker_at(n, d, p, bc));
    lemma_sticker_index_unique(n, d, p, b, bc);
    assert(n >= 1);
    if (v as int) >= 0 {
        assert(v as int == n);
    } else {
        assert(v as int == -n);
    }
}

impl Puzzle {
    /// Builds the canonical solved state: every sticker position is present
    /// and carries the color of its own face.
    pub fn make_solved(n: i16, d: u16) -> (r: Puzzle)
        requires
            1 <= n,
            1 <= d <= 32767,
        ensures
            r.wf(),
            r.n == n,
            r.d == d,
            r@ == solved_map(n as int, d as int),
    {
        let cs = combos(n, d - 1);
        let mut m = StickerMap::new();
        let mut ci: usize = 0;
        while ci < cs.len()
            invariant
                1 <= n,
                1 <= d <= 32767,
                0 <= ci <= cs@.len(),
                m.wf(),
                forall|i: int|
                    0 <= i < cs@.len() ==> is_combo(n as int, d as int - 1, (#[trigger] cs@[i])@),
                forall|p: Seq<i16>|
                    #[trigger] m@.dom().contains(p) ==> is_sticker(n as int, d as int, p)
                        && m@[p] == solved_color(n as int, d as int, p),
                forall|j: int, b: int, v: i16|
                    0 <= j < ci && 0 <= b < d && is_boundary(n as int, v as int)
                        ==> #[trigger] m@.dom().contains(cs@[j]@.insert(b, v)),
            decreases cs@.len() - ci,
        {
            let mut b: usize = 0;
            while b < d as usize
                invariant
                    1 <= n,
                    1 <= d <= 32767,
                    0 <= ci < cs@.len(),
                    0 <= b <= d,
                    m.wf(),
                    forall|i: int|
                        0 <= i < cs@.len() ==> is_combo(n as int, d as int - 1, (#[trigger] cs@[i])@),
                    forall|p: Seq<i16>|
                        #[trigger] m@.dom().contains(p) ==> is_sticker(n as int, d as int, p)
                            && m@[p] == solved_color(n as int, d as int, p),
                    forall|j: int, bb: int, v: i16|
                        0 <= j < ci && 0 <= bb < d && is_boundary(n as int, v as int)
                            ==> #[trigger] m@.dom().contains(cs@[j]@.insert(bb, v)),
                    forall|bb: int, v: i16|
                        0 <= bb < b && is_boundary(n as int, v as int)
                            ==> #[trigger] m@.dom().contains(cs@[ci as int]@.insert(bb, v)),
                decreases d as int - b,
            {
                let c = &cs[ci];
                let mut pos = c.clone();
                pos.insert(b, n);
                proof {
                    lemma_combo_insert_sticker(n as int, d as int, cs@[ci as int]@, b as int, n);
                }
                m.insert_if_absent(pos, b as i16);
                let c2 = &cs[ci];
                let mut neg = c2.clone();
                neg.insert(b, -n);
                proof {
                    lemma_combo_insert_sticker(n as int, d as int, cs@[ci as int]@, b as int, (-n) as i16);
                }
                m.insert_if_absent(neg, compl(b as i16));
                proof {
                    assert forall|bb: int, v: i16|
                        0 <= bb < b + 1 && is_boundary(n as int, v as int) implies m@.dom().contains(
                        cs@[ci as int]@.insert(bb, v),
                    ) by {
                        if bb == b {
                            assert(v as int == n || v as int == -n);
                            if v as int == n {
                                assert(v == n);
                                assert(m@.dom().contains(cs@[ci as int]@.insert(bb, n)));
                            } else {
                                assert(v == -n);
                                assert(m@.dom().contains(cs@[ci as int]@.insert(bb, (-n) as i16)));
                            }
                        }
                    }
                }
                b += 1;
            }
            ci += 1;
        }
        proof {
            assert(m@.dom() =~= sticker_dom(n as int, d as int)) by {
                assert forall|p: Seq<i16>| sticker_dom(n as int, d as int).contains(p) implies m@
                    .dom().contains(p) by {
                    let bi = choose|bb: int| sticker_at(n as int, d as int, p, bb);
                    let c = p.remove(bi);
                    lemma_insert_remove(p, bi);
                    assert(is_combo(n as int, d as int - 1, c)) by {
                        assert forall|i: int| 0 <= i < d - 1 implies is_interior(
                            n as int,
                            #[trigger] c[i] as int,
                        ) by {
                            if i < bi {
                                assert(c[i] == p[i]);
                            } else {
                                assert(c[i] == p[i + 1]);
                            }
                        }
                    }
                    assert(contains_vec(cs@, c));
                    let j = choose|j: int| 0 <= j < cs@.len() && (#[trigger] cs@[j])@ == c;
                    assert(m@.dom().contains(cs@[j]@.insert(bi, p[bi])));
                }
            }
            assert(m@ =~= solved_map(n as int, d as int));
        }
        Puzzle { n, d, stickers: m }
    }
}

} // verus!

verus! {

// ------------------------------------------------------------------
// Turns: validity, the rotation rule, and the turned mapping
// ------------------------------------------------------------------

/// A side turn is structurally valid when `side`'s axis differs from both
/// rotation axes and the rotation plane is not degenerate. (These are the
/// checks the engine itself performs; a failing turn is a strict no-op.)
pub open spec fn side_turn_ok(t: SideTurn) -> bool {
    !((t.side == t.from) || (t.side as int == spec_compl(t.from as int)) || (t.side == t.to) || (
    t.side as int == spec_compl(t.to as int)) || (t.from == t.to) || (t.from as int == spec_compl(
        t.to as int,
    )))
}

/// The axis codes of a side turn name axes of the puzzle.
pub open spec fn side_turn_axes_ok(t: SideTurn, d: int) -> bool {
    spec_ax(t.side as int) < d && spec_ax(t.from as int) < d && spec_ax(t.to as int) < d
}

/// A whole-puzzle rotation is valid when its plane is not degenerate.
pub open spec fn puzzle_turn_ok(t: PuzzleTurn) -> bool {
    !((t.from == t.to) || (t.from as int == spec_compl(t.to as int)))
}

pub open spec fn puzzle_turn_axes_ok(t: PuzzleTurn, d: int) -> bool {
    spec_ax(t.from as int) < d && spec_ax(t.to as int) < d
}

pub open spec fn turn_ok(t: Turn) -> bool {
    match t {
        Turn::Side(st) => side_turn_ok(st),
        Turn::Puzzle(pt) => puzzle_turn_ok(pt),
    }
}

pub open spec fn turn_axes_ok(t: Turn, d: int) -> bool {
    match t {
        Turn::Side(st) => side_turn_axes_ok(st, d),
        Turn::Puzzle(pt) => puzzle_turn_axes_ok(pt, d),
    }
}

/// The unsigned axis pair that a requested `from`/`to` pair rotates through:
/// both are normalized to unsigned axes, and they are swapped when exactly one
/// was negative, fixing a consistent rotation direction.
pub open spec fn eff_from(from: int, to: int) -> int {
    if (from < 0) != (to < 0) {
        spec_ax(to)
    } else {
        spec_ax(from)
    }
}

pub open spec fn eff_to(from: int, to: int) -> int {
    if (from < 0) != (to < 0) {
        spec_ax(from)
    } else {
        spec_ax(to)
    }
}

/// The pre-image of a position under the quarter rotation through axes
/// `f -> t`: the rotated position takes its color from this position.
pub open spec fn rot_pre(p: Seq<i16>, f: int, t: int) -> Seq<i16> {
    p.update(f, p[t]).update(t, (-(p[f] as int)) as i16)
}

/// Whether a position's coordinate along the side's axis falls in the layer
/// window `[layer_min - 1, layer_max + 1]`. The padding by one includes the
/// boundary coordinates attached to the selected layer block; the coordinate
/// grid has no other values in between, so it admits nothing else.
pub open spec fn in_window(t: SideTurn, p: Seq<i16>) -> bool {
    t.layer_min as int - 1 <= p[spec_ax(t.side as int)] as int
        && p[spec_ax(t.side as int)] as int <= t.layer_max as int + 1
}

/// The sticker mapping after a valid side turn: positions in the window take
/// the color of their rotation pre-image, all others keep theirs. The key set
/// never changes.
pub open spec fn side_turned(m: Map<Seq<i16>, i16>, t: SideTurn) -> Map<Seq<i16>, i16> {
    Map::new(
        |p: Seq<i16>| m.dom().contains(p),
        |p: Seq<i16>|
            if in_window(t, p) {
                m[rot_pre(p, eff_from(t.from as int, t.to as int), eff_to(t.from as int, t.to as int))]
            } else {
                m[p]
            },
    )
}

/// The sticker mapping after a valid whole-puzzle rotation: every position
/// takes the color of its rotation pre-image.
pub open spec fn puzzle_turned(m: Map<Seq<i16>, i16>, t: PuzzleTurn) -> Map<Seq<i16>, i16> {
    Map::new(
        |p: Seq<i16>| m.dom().contains(p),
        |p: Seq<i16>| m[rot_pre(p, eff_from(t.from as int, t.to as int), eff_to(t.from as int, t.to as int))],
    )
}

pub open spec fn turned(m: Map<Seq<i16>, i16>, t: Turn) -> Map<Seq<i16>, i16> {
    match t {
        Turn::Side(st) => side_turned(m, st),
        Turn::Puzzle(pt) => puzzle_turned(m, pt),
    }
}

/// Negating an interior coordinate gives an interior coordinate: the interior
/// grid is symmetric around zero.
proof fn lemma_interior_neg(n: int, x: int)
    requires
        is_interior(n, x),
    ensures
        is_interior(n, -x),
{
    vstd::arithmetic::div_mod::lemma_fundamental_div_mod(x - n, 2);
    let q = (x - n) / 2;
    assert(-x - n == 2 * (-q - n - 1) + 1);
    vstd::arithmetic::div_mod::lemma_mod_multiples_vanish(-q - n - 1, 1, 2);
}

/// The rotation pre-image of a sticker position is again a sticker position,
/// and coordinates off the rotation plane are untouched.
pub proof fn lemma_rot_pre_sticker(n: int, d: int, p: Seq<i16>, f: int, t: int)
    requires
        1 <= n <= 32767,
        is_sticker(n, d, p),
        0 <= f < d,
        0 <= t < d,
        f != t,
    ensures
        is_sticker(n, d, rot_pre(p, f, t)),
        rot_pre(p, f, t).len() == d,
        forall|i: int| 0 <= i < d && i != f && i != t ==> rot_pre(p, f, t)[i] == p[i],
        rot_pre(p, f, t)[f] == p[t],
        rot_pre(p, f, t)[t] as int == -(p[f] as int),
{
    let q = rot_pre(p, f, t);
    let b = choose|b: int| sticker_at(n, d, p, b);
    assert(sticker_at(n, d, p, b));
    assert(-n <= p[f] as int <= n) by {
        if f != b {
            assert(is_interior(n, p[f] as int));
        }
    }
    assert(q[t] as int == -(p[f] as int));
    if b == f {
        assert(sticker_at(n, d, q, t)) by {
            assert(is_boundary(n, q[t] as int));
            assert forall|i: int| 0 <= i < d && i != t implies is_interior(n, #[trigger] q[i] as int) by {
                if i == f {
                    assert(q[i] == p[t]);
                    assert(is_interior(n, p[t] as int));
                } else {
                    assert(q[i] == p[i]);
                    assert(is_interior(n, p[i] as int));
                }
            }
        }
    } else if b == t {
        assert(sticker_at(n, d, q, f)) by {
            assert(q[f] == p[t]);
            assert(is_boundary(n, q[f] as int));
            assert forall|i: int| 0 <= i < d && i != f implies is_interior(n, #[trigger] q[i] as int) by {
                if i == t {
                    assert(is_interior(n, p[f] as int));
                    lemma_interior_neg(n, p[f] as int);
                    assert(q[i] as int == -(p[f] as int));
                } else {
                    assert(q[i] == p[i]);
                    assert(is_interior(n, p[i] as int));
                }
            }
        }
    } else {
        assert(sticker_at(n, d, q, b)) by {
            assert(q[b] == p[b]);
            assert forall|i: int| 0 <= i < d && i != b implies is_interior(n, #[trigger] q[i] as int) by {
                if i == f {
                    assert(q[i] == p[t]);
                    assert(is_interior(n, p[t] as int));
                } else if i == t {
                    assert(is_interior(n, p[f] as int));
                    lemma_interior_neg(n, p[f] as int);
                    assert(q[i] as int == -(p[f] as int));
                } else {
                    assert(q[i] == p[i]);
                    assert(is_interior(n, p[i] as int));
                }
            }
        }
    }
}

} // verus!

verus! {

impl Puzzle {
    /// Applies a layered side turn. A structurally invalid turn (its `side`
    /// axis coinciding with a rotation axis, or a degenerate plane) fails and
    /// mutates nothing; a valid one atomically replaces the color mapping by
    /// the turned mapping, computed entirely against the pre-turn state.
    fn side_turn(&mut self, turn: SideTurn) -> (r: Option<()>)
        requires
            old(self).wf(),
            side_turn_axes_ok(turn, old(self).d as int),
        ensures
            final(self).n == old(self).n,
            final(self).d == old(self).d,
            final(self).wf(),
            side_turn_ok(turn) ==> r == Some(()) && final(self)@ == side_turned(old(self)@, turn),
            !side_turn_ok(turn) ==> r == None::<()> && *final(self) == *old(self),
    {
        let side = turn.side;
        let from = turn.from;
        let to = turn.to;
        if side == from || side == compl(from) || side == to || side == compl(to) || from == to
            || from == compl(to) {
            return None;
        }
        let s_ax = ax(side);
        let to_swap = (from < 0) != (to < 0);
        let f0 = ax(from);
        let t0 = ax(to);
        let f = if to_swap { t0 } else { f0 };
        let t = if to_swap { f0 } else { t0 };
        proof {
            assert(f as int == eff_from(turn.from as int, turn.to as int));
            assert(t as int == eff_to(turn.from as int, turn.to as int));
            crate::axis::lemma_ax_same(turn.from as int, turn.to as int);
            assert(f != t);
            crate::axis::lemma_ax_same(turn.side as int, turn.from as int);
            crate::axis::lemma_ax_same(turn.side as int, turn.to as int);
            assert(s_ax != f && s_ax != t);
            lemma_assoc_map(self.stickers.entries@);
        }
        let ghost m0 = self.stickers@;
        let ghost s0 = self.stickers.entries@;
        let ghost n_ = self.n as int;
        let ghost d_ = self.d as int;
        let mut new_entries: Vec<(Vec<i16>, i16)> = Vec::new();
        let mut idx: usize = 0;
        let len = self.stickers.entries.len();
        while idx < len
            invariant
                *self == *old(self),
                self.wf(),
                m0 == self.stickers@,
                s0 == self.stickers.entries@,
                n_ == self.n as int,
                d_ == self.d as int,
                len == s0.len(),
                unique_keys(s0),
                0 <= idx <= len,
                0 <= f < d_,
                0 <= t < d_,
                f != t,
                0 <= s_ax < d_,
                s_ax as int == spec_ax(turn.side as int),
                f as int == eff_from(turn.from as int, turn.to as int),
                t as int == eff_to(turn.from as int, turn.to as int),
                new_entries@.len() == idx,
                forall|j: int| 0 <= j < idx ==> (#[trigger] new_entries@[j]).0@ == s0[j].0@,
                forall|j: int|
                    0 <= j < idx ==> (#[trigger] new_entries@[j]).1 == (if in_window(
                        turn,
                        s0[j].0@,
                    ) {
                        m0[rot_pre(s0[j].0@, f as int, t as int)]
                    } else {
                        s0[j].1
                    }),
            decreases len - idx,
        {
            let key = self.stickers.entries[idx].0.clone();
            let val = self.stickers.entries[idx].1;
            proof {
                lemma_assoc_map(s0);
                assert(m0.dom().contains(key@));
                assert(is_sticker(n_, d_, key@));
                assert(key@.len() == d_) by {
                    let b = choose|b: int| sticker_at(n_, d_, key@, b);
                }
            }
            let cv = key[s_ax as usize];
            let windowed = (cv as i32) >= (turn.layer_min as i32) - 1 && (cv as i32) <= (
            turn.layer_max as i32) + 1;
            proof {
                assert(windowed == in_window(turn, key@));
            }
            let newval: i16;
            if windowed {
                proof {
                    lemma_rot_pre_sticker(n_, d_, key@, f as int, t as int);
                    lemma_sticker_coords_bounded(n_, d_, key@, f as int);
                    lemma_sticker_coords_bounded(n_, d_, key@, t as int);
                }
                let mut fp = key.clone();
                let pf = fp[f as usize];
                let pt = fp[t as usize];
                fp[f as usize] = pt;
                fp[t as usize] = -pf;
                proof {
                    assert(fp@ =~= rot_pre(key@, f as int, t as int));
                    assert(m0.dom().contains(fp@));
                }
                let got = self.stickers.get(&fp);
                newval = got.unwrap();
            } else {
                newval = val;
            }
            new_entries.push((key, newval));
            idx += 1;
        }
        proof {
            assert(unique_keys(new_entries@)) by {
                assert forall|i: int, j: int| 0 <= i < j < new_entries@.len() implies (
                #[trigger] new_entries@[i]).0@ != (#[trigger] new_entries@[j]).0@ by {
                    assert(new_entries@[i].0@ == s0[i].0@);
                    assert(new_entries@[j].0@ == s0[j].0@);
                }
            }
        }
        let ghost ne = new_entries@;
        self.stickers.entries = new_entries;
        proof {
            lemma_assoc_map(ne);
            lemma_assoc_map(s0);
            assert(self.stickers@ =~= side_turned(m0, turn)) by {
                assert forall|p: Seq<i16>| #[trigger] assoc_map(ne).dom().contains(p) implies
                    m0.dom().contains(p) by {
                    let j = choose|j: int| 0 <= j < ne.len() && (#[trigger] ne[j]).0@ == p;
                    assert(s0[j].0@ == p);
                }
                assert forall|p: Seq<i16>| #[trigger] m0.dom().contains(p) implies assoc_map(
                    ne,
                ).dom().contains(p) by {
                    let j = choose|j: int| 0 <= j < s0.len() && (#[trigger] s0[j]).0@ == p;
                    assert(ne[j].0@ == p);
                }
                assert forall|p: Seq<i16>| #[trigger] m0.dom().contains(p) implies assoc_map(ne)[p]
                    == side_turned(m0, turn)[p] by {
                    let j = choose|j: int| 0 <= j < s0.len() && (#[trigger] s0[j]).0@ == p;
                    assert(ne[j].0@ == p);
                    assert(assoc_map(ne)[p] == ne[j].1);
                    assert(m0[p] == s0[j].1);
                }
            }
            assert(self.stickers@.dom() =~= sticker_dom(n_, d_));
        }
        Some(())
    }

    /// Applies a whole-puzzle reorientation: the same rotation rule with no
    /// layer window. Fails (and mutates nothing) only for a degenerate plane.
    fn puzzle_rotate(&mut self, turn: PuzzleTurn) -> (r: Option<()>)
        requires
            old(self).wf(),
            puzzle_turn_axes_ok(turn, old(self).d as int),
        ensures
            final(self).n == old(self).n,
            final(self).d == old(self).d,
            final(self).wf(),
            puzzle_turn_ok(turn) ==> r == Some(()) && final(self)@ == puzzle_turned(
                old(self)@,
                turn,
            ),
            !puzzle_turn_ok(turn) ==> r == None::<()> && *final(self) == *old(self),
    {
        let from = turn.from;
        let to = turn.to;
        if from == to || from == compl(to) {
            return None;
        }
        let to_swap = (from < 0) != (to < 0);
        let f0 = ax(from);
        let t0 = ax(to);
        let f = if to_swap { t0 } else { f0 };
        let t = if to_swap { f0 } else { t0 };
        proof {
            assert(f as int == eff_from(turn.from as int, turn.to as int));
            assert(t as int == eff_to(turn.from as int, turn.to as int));
            crate::axis::lemma_ax_same(turn.from as int, turn.to as int);
            assert(f != t);
            lemma_assoc_map(self.stickers.entries@);
        }
        let ghost m0 = self.stickers@;
        let ghost s0 = self.stickers.entries@;
        let ghost n_ = self.n as int;
        let ghost d_ = self.d as int;
        let mut new_entries: Vec<(Vec<i16>, i16)> = Vec::new();
        let mut idx: usize = 0;
        let len = self.stickers.entries.len();
        while idx < len
            invariant
                *self == *old(self),
                self.wf(),
                m0 == self.stickers@,
                s0 == self.stickers.entries@,
                n_ == self.n as int,
                d_ == self.d as int,
                len == s0.len(),
                unique_keys(s0),
                0 <= idx <= len,
                0 <= f < d_,
                0 <= t < d_,
                f != t,
                f as int == eff_from(turn.from as int, turn.to as int),
                t as int == eff_to(turn.from as int, turn.to as int),
                new_entries@.len() == idx,
                forall|j: int| 0 <= j < idx ==> (#[trigger] new_entries@[j]).0@ == s0[j].0@,
                forall|j: int|
                    0 <= j < idx ==> (#[trigger] new_entries@[j]).1 == m0[rot_pre(
                        s0[j].0@,
                        f as int,
                        t as int,
                    )],
            decreases len - idx,
        {
            let key = self.stickers.entries[idx].0.clone();
            proof {
                lemma_assoc_map(s0);
                assert(m0.dom().contains(key@));
                assert(is_sticker(n_, d_, key@));
                assert(key@.len() == d_) by {
                    let b = choose|b: int| sticker_at(n_, d_, key@, b);
                }
                lemma_rot_pre_sticker(n_, d_, key@, f as int, t as int);
                lemma_sticker_coords_bounded(n_, d_, key@, f as int);
                lemma_sticker_coords_bounded(n_, d_, key@, t as int);
            }
            let mut fp = key.clone();
            let pf = fp[f as usize];
            let pt = fp[t as usize];
            fp[f as usize] = pt;
            fp[t as usize] = -pf;
            proof {
                assert(fp@ =~= rot_pre(key@, f as int, t as int));
                assert(m0.dom().contains(fp@));
            }
            let got = self.stickers.get(&fp);
            let newval = got.unwrap();
            new_entries.push((key, newval));
            idx += 1;
        }
        proof {
            assert(unique_keys(new_entries@)) by {
                assert forall|i: int, j: int| 0 <= i < j < new_entries@.len() implies (
                #[trigger] new_entries@[i]).0@ != (#[trigger] new_entries@[j]).0@ by {
                    assert(new_entries@[i].0@ == s0[i].0@);
                    assert(new_entries@[j].0@ == s0[j].0@);
                }
            }
        }
        let ghost ne = new_entries@;
        self.stickers.entries = new_entries;
        proof {
            lemma_assoc_map(ne);
            lemma_assoc_map(s0);
            assert(self.stickers@ =~= puzzle_turned(m0, turn)) by {
                assert forall|p: Seq<i16>| #[trigger] assoc_map(ne).dom().contains(p) implies
                    m0.dom().contains(p) by {
                    let j = choose|j: int| 0 <= j < ne.len() && (#[trigger] ne[j]).0@ == p;
                    assert(s0[j].0@ == p);
                }
                assert forall|p: Seq<i16>| #[trigger] m0.dom().contains(p) implies assoc_map(
                    ne,
                ).dom().contains(p) by {
                    let j = choose|j: int| 0 <= j < s0.len() && (#[trigger] s0[j]).0@ == p;
                    assert(ne[j].0@ == p);
                }
                assert forall|p: Seq<i16>| #[trigger] m0.dom().contains(p) implies assoc_map(ne)[p]
                    == puzzle_turned(m0, turn)[p] by {
                    let j = choose|j: int| 0 <= j < s0.len() && (#[trigger] s0[j]).0@ == p;
                    assert(ne[j].0@ == p);
                    assert(assoc_map(ne)[p] == ne[j].1);
                }
            }
            assert(self.stickers@.dom() =~= sticker_dom(n_, d_));
        }
        Some(())
    }

    /// Applies one requested move. A structurally invalid request is rejected
    /// as an explicit failure and the mapping is untouched; a valid one turns
    /// the mapping and succeeds.
    pub fn turn(&mut self, turn: Turn) -> (r: Option<()>)
        requires
            old(self).wf(),
            turn_axes_ok(turn, old(self).d as int),
        ensures
            final(self).n == old(self).n,
            final(self).d == old(self).d,
            final(self).wf(),
            turn_ok(turn) ==> r == Some(()) && final(self)@ == turned(old(self)@, turn),
            !turn_ok(turn) ==> r == None::<()> && *final(self) == *old(self),
    {
        match turn {
            Turn::Side(t) => self.side_turn(t),
            Turn::Puzzle(t) => self.puzzle_rotate(t),
        }
    }
}

} // verus!

verus! {

/// The state is solved when every face is monochromatic: any two stickers on
/// the same face share a color, whichever color that is. (A reoriented solved
/// state is still solved.)
pub open spec fn is_solved_spec(m: Map<Seq<i16>, i16>, n: int, d: int) -> bool {
    forall|p: Seq<i16>, q: Seq<i16>|
        #[trigger] m.dom().contains(p) && #[trigger] m.dom().contains(q) && face_of(n, d, p)
            == face_of(n, d, q) ==> m[p] == m[q]
}

/// The face of a sticker position, located by scanning for its boundary
/// coordinate.
fn face_code(n: i16, d: u16, key: &Vec<i16>) -> (r: i16)
    requires
        1 <= n,
        1 <= d <= 32767,
        is_sticker(n as int, d as int, key@),
        key@.len() == d,
    ensures
        r as int == face_of(n as int, d as int, key@),
{
    let ghost b = choose|b: int| sticker_at(n as int, d as int, key@, b);
    let mut i: usize = 0;
    while i < key.len()
        invariant
            1 <= n,
            1 <= d <= 32767,
            is_sticker(n as int, d as int, key@),
            key@.len() == d,
            sticker_at(n as int, d as int, key@, b),
            0 <= i <= d,
            forall|j: int| 0 <= j < i ==> !is_boundary(n as int, (#[trigger] key@[j]) as int),
        decreases d as int - i,
    {
        if key[i] == n || key[i] == -n {
            proof {
                if i as int != b {
                    assert(is_interior(n as int, key@[i as int] as int));
                    assert(false);
                }
                let bx = bidx(n as int, d as int, key@);
                assert(sticker_at(n as int, d as int, key@, bx));
                lemma_sticker_index_unique(n as int, d as int, key@, bx, b);
            }
            if key[i] < 0 {
                return compl(i as i16);
            } else {
                return i as i16;
            }
        }
        i += 1;
    }
    proof {
        assert(is_boundary(n as int, key@[b] as int));
        assert(false);
    }
    0
}

/// Whether equal face codes always carry equal values.
fn pairs_consistent(fcs: &Vec<i16>, vals: &Vec<i16>) -> (r: bool)
    requires
        fcs@.len() == vals@.len(),
    ensures
        r == (forall|i: int, j: int|
            0 <= i < fcs@.len() && 0 <= j < fcs@.len() && fcs@[i] == fcs@[j] ==> vals@[i]
                == vals@[j]),
{
    let len = fcs.len();
    let mut i: usize = 0;
    while i < len
        invariant
            fcs@.len() == vals@.len(),
            len == fcs@.len(),
            0 <= i <= len,
            forall|a: int, b: int|
                0 <= a < i && 0 <= b < len && fcs@[a] == fcs@[b] ==> vals@[a] == vals@[b],
        decreases len - i,
    {
        let mut j: usize = 0;
        while j < len
            invariant
                fcs@.len() == vals@.len(),
                len == fcs@.len(),
                0 <= i < len,
                0 <= j <= len,
                forall|a: int, b: int|
                    0 <= a < i && 0 <= b < len && fcs@[a] == fcs@[b] ==> vals@[a] == vals@[b],
                forall|b: int| 0 <= b < j && fcs@[i as int] == fcs@[b] ==> vals@[i as int] == vals@[b],
            decreases len - j,
        {
            if fcs[i] == fcs[j] && vals[i] != vals[j] {
                return false;
            }
            j += 1;
        }
        i += 1;
    }
    true
}

impl Puzzle {
    /// Whether every face is monochromatic, regardless of which color each
    /// face carries.
    pub fn is_solved(&self) -> (r: bool)
        requires
            self.wf(),
        ensures
            r == is_solved_spec(self@, self.n as int, self.d as int),
    {
        let ghost m0 = self.stickers@;
        let ghost s0 = self.stickers.entries@;
        let ghost n_ = self.n as int;
        let ghost d_ = self.d as int;
        proof {
            lemma_assoc_map(s0);
        }
        let len = self.stickers.entries.len();
        let mut fcs: Vec<i16> = Vec::new();
        let mut vals: Vec<i16> = Vec::new();
        let mut idx: usize = 0;
        while idx < len
            invariant
                self.wf(),
                m0 == self.stickers@,
                s0 == self.stickers.entries@,
                n_ == self.n as int,
                d_ == self.d as int,
                len == s0.len(),
                0 <= idx <= len,
                fcs@.len() == idx,
                vals@.len() == idx,
                forall|j: int|
                    0 <= j < idx ==> (#[trigger] fcs@[j]) as int == face_of(n_, d_, s0[j].0@),
                forall|j: int| 0 <= j < idx ==> (#[trigger] vals@[j]) == s0[j].1,
            decreases len - idx,
        {
            let key = &self.stickers.entries[idx].0;
            let val = self.stickers.entries[idx].1;
            proof {
                lemma_assoc_map(s0);
                assert(m0.dom().contains(key@));
                assert(is_sticker(n_, d_, key@));
                assert(key@.len() == d_) by {
                    let b = choose|b: int| sticker_at(n_, d_, key@, b);
                }
            }
            let fc = face_code(self.n, self.d, key);
            fcs.push(fc);
            vals.push(val);
            idx += 1;
        }
        let ok = pairs_consistent(&fcs, &vals);
        proof {
            lemma_assoc_map(s0);
            if ok {
                assert forall|p: Seq<i16>, q: Seq<i16>|
                    #[trigger] m0.dom().contains(p) && #[trigger] m0.dom().contains(q) && face_of(
                        n_,
                        d_,
                        p,
                    ) == face_of(n_, d_, q) implies m0[p] == m0[q] by {
                    let jp = choose|j: int| 0 <= j < s0.len() && (#[trigger] s0[j]).0@ == p;
                    let jq = choose|j: int| 0 <= j < s0.len() && (#[trigger] s0[j]).0@ == q;
                    assert(fcs@[jp] as int == face_of(n_, d_, p));
                    assert(fcs@[jq] as int == face_of(n_, d_, q));
                    assert(fcs@[jp] == fcs@[jq]);
                    assert(vals@[jp] == vals@[jq]);
                    assert(m0[p] == s0[jp].1);
                    assert(m0[q] == s0[jq].1);
                }
            } else {
                let (i, j) = choose|i: int, j: int|
                    0 <= i < fcs@.len() && 0 <= j < fcs@.len() && fcs@[i] == fcs@[j] && vals@[i]
                        != vals@[j];
                let p = s0[i].0@;
                let q = s0[j].0@;
                assert(m0.dom().contains(p));
                assert(m0.dom().contains(q));
                assert(face_of(n_, d_, p) == face_of(n_, d_, q));
                assert(m0[p] == vals@[i]);
                assert(m0[q] == vals@[j]);
                assert(!is_solved_spec(m0, n_, d_));
            }
        }
        ok
    }
}

} // verus!

verus! {

// ------------------------------------------------------------------
// Cells, piece bodies, and their attached stickers
// ------------------------------------------------------------------

/// A cell: a grid position with at most one boundary coordinate. Both
/// stickers and piece bodies are cells.
pub open spec fn is_cell(n: int, d: int, p: Seq<i16>) -> bool {
    &&& p.len() == d
    &&& forall|i: int|
        0 <= i < d ==> is_boundary(n, #[trigger] p[i] as int) || is_interior(n, p[i] as int)
    &&& forall|i: int, j: int|
        0 <= i < j < d && is_boundary(n, #[trigger] p[i] as int) ==> !is_boundary(
            n,
            #[trigger] p[j] as int,
        )
}

/// A piece body: a cell with no boundary coordinate at all.
pub open spec fn is_body(n: int, d: int, p: Seq<i16>) -> bool {
    p.len() == d && forall|i: int| 0 <= i < d ==> is_interior(n, #[trigger] p[i] as int)
}

/// The first index at or after `i` holding a boundary coordinate, or the
/// length if there is none.
pub open spec fn first_bnd(n: int, p: Seq<i16>, i: int) -> int
    decreases p.len() - i when 0 <= i <= p.len()
{
    if i >= p.len() {
        p.len() as int
    } else if is_boundary(n, p[i] as int) {
        i
    } else {
        first_bnd(n, p, i + 1)
    }
}

pub proof fn lemma_first_bnd(n: int, p: Seq<i16>, i: int)
    requires
        0 <= i <= p.len(),
    ensures
        i <= first_bnd(n, p, i) <= p.len(),
        first_bnd(n, p, i) < p.len() ==> is_boundary(n, p[first_bnd(n, p, i)] as int),
        forall|j: int| i <= j < first_bnd(n, p, i) ==> !is_boundary(n, #[trigger] p[j] as int),
    decreases p.len() - i,
{
    if i < p.len() && !is_boundary(n, p[i] as int) {
        lemma_first_bnd(n, p, i + 1);
    }
}

/// The body cell of a cell: a boundary coordinate is moved one step inward;
/// an interior-only cell is its own body.
pub open spec fn body_of(n: int, p: Seq<i16>) -> Seq<i16> {
    let b = first_bnd(n, p, 0);
    if b == p.len() {
        p
    } else {
        p.update(b, if p[b] as int == n {
            (p[b] - 1) as i16
        } else {
            (p[b] + 1) as i16
        })
    }
}

/// The body of a cell is a body.
pub proof fn lemma_body_of_cell(n: int, d: int, p: Seq<i16>)
    requires
        n >= 1,
        is_cell(n, d, p),
    ensures
        is_body(n, d, body_of(n, p)),
        body_of(n, p).len() == d,
{
    lemma_first_bnd(n, p, 0);
    let b = first_bnd(n, p, 0);
    let q = body_of(n, p);
    if b < p.len() {
        assert forall|i: int| 0 <= i < d implies is_interior(n, #[trigger] q[i] as int) by {
            if i == b {
                assert(is_boundary(n, p[b] as int));
                assert((q[b] as int - n) % 2 == 1) by {
                    if p[b] as int == n {
                        assert(q[b] as int == n - 1);
                        vstd::arithmetic::div_mod::lemma_mod_multiples_vanish(-1, 1, 2);
                    } else {
                        assert(q[b] as int == -n + 1);
                        vstd::arithmetic::div_mod::lemma_mod_multiples_vanish(-n, 1, 2);
                    }
                }
            } else {
                if i < b {
                    assert(!is_boundary(n, p[i] as int));
                } else {
                    assert(is_boundary(n, p[b] as int));
                    assert(!is_boundary(n, p[i] as int));
                }
                assert(is_interior(n, p[i] as int));
            }
        }
    }
}

/// Whether a body coordinate sits right next to a boundary of its axis.
pub open spec fn adj_bnd(n: int, x: int) -> bool {
    x == n - 1 || x == -(n - 1)
}

/// The sticker position attached to a body cell along axis `i` (meaningful
/// when `adj_bnd` holds of `p[i]`).
pub open spec fn sticker_of(n: int, p: Seq<i16>, i: int) -> Seq<i16> {
    p.update(i, if p[i] as int == n - 1 {
        n as i16
    } else {
        (-n) as i16
    })
}

/// The colors attached to a body cell, collected over the axes from `i` on:
/// for every axis whose coordinate is adjacent to a boundary, the color of
/// the attached sticker; on a single-layer puzzle each such axis contributes
/// the complementary color as well, since both directions of the axis fold
/// onto the same body cell.
pub open spec fn body_colors(m: Map<Seq<i16>, i16>, n: int, p: Seq<i16>, i: int) -> Seq<i16>
    decreases p.len() - i when 0 <= i <= p.len()
{
    if i >= p.len() {
        Seq::empty()
    } else {
        let rest = body_colors(m, n, p, i + 1);
        if p[i] as int == n - 1 {
            let c = m[p.update(i, n as i16)];
            if n == 1 {
                seq![c, spec_compl(c as int) as i16] + rest
            } else {
                seq![c] + rest
            }
        } else if p[i] as int == -(n - 1) {
            let c = m[p.update(i, (-n) as i16)];
            if n == 1 {
                seq![c, spec_compl(c as int) as i16] + rest
            } else {
                seq![c] + rest
            }
        } else {
            rest
        }
    }
}

/// A body cell with a coordinate adjacent to a boundary yields a sticker
/// position when that coordinate is pushed onto the boundary.
pub proof fn lemma_body_update_sticker(n: int, d: int, p: Seq<i16>, i: int, v: i16)
    requires
        n >= 1,
        is_body(n, d, p),
        0 <= i < d,
        is_boundary(n, v as int),
    ensures
        is_sticker(n, d, p.update(i, v)),
{
    let q = p.update(i, v);
    assert(sticker_at(n, d, q, i)) by {
        assert forall|j: int| 0 <= j < d && j != i implies is_interior(n, #[trigger] q[j] as int) by {
            assert(q[j] == p[j]);
        }
    }
}

impl Puzzle {
    /// Normalizes a cell to its piece body: a boundary coordinate is shifted
    /// one step inward.
    pub fn piece_body(&self, piece: &[i16]) -> (r: Vec<i16>)
        requires
            self.wf(),
        ensures
            r@ == body_of(self.n as int, piece@),
    {
        let n = self.n;
        let mut out: Vec<i16> = Vec::new();
        let mut i: usize = 0;
        while i < piece.len()
            invariant
                out@.len() == i,
                0 <= i <= piece@.len(),
                forall|j: int| 0 <= j < i ==> out@[j] == piece@[j],
            decreases piece@.len() - i,
        {
            out.push(piece[i]);
            i += 1;
        }
        proof {
            assert(out@ =~= piece@);
        }
        let mut ind: usize = 0;
        while ind < piece.len()
            invariant
                1 <= n,
                n == self.n,
                out@ == piece@,
                0 <= ind <= piece@.len(),
                forall|j: int| 0 <= j < ind ==> !is_boundary(n as int, #[trigger] piece@[j] as int),
            decreases piece@.len() - ind,
        {
            if piece[ind] == n || piece[ind] == -n {
                proof {
                    lemma_first_bnd(n as int, piece@, 0);
                    assert(first_bnd(n as int, piece@, 0) == ind) by {
                        let b = first_bnd(n as int, piece@, 0);
                        if b < ind {
                            assert(!is_boundary(n as int, piece@[b] as int));
                        }
                        if b > ind {
                            assert(!is_boundary(n as int, piece@[ind as int] as int));
                        }
                    }
                }
                if piece[ind] == n {
                    let v = piece[ind] - 1;
                    out[ind] = v;
                } else {
                    let v = piece[ind] + 1;
                    out[ind] = v;
                }
                proof {
                    assert(out@ =~= body_of(self.n as int, piece@));
                }
                return out;
            }
            ind += 1;
        }
        proof {
            lemma_first_bnd(self.n as int, piece@, 0);
            assert(first_bnd(self.n as int, piece@, 0) == piece@.len());
            assert(out@ =~= body_of(self.n as int, piece@));
        }
        out
    }

    /// The colors attached to a piece body: one per axis whose coordinate is
    /// adjacent to a boundary (two complementary ones per such axis when
    /// `n == 1`).
    pub fn piece_body_stickers(&self, piece: &[i16]) -> (r: Vec<i16>)
        requires
            self.wf(),
            is_body(self.n as int, self.d as int, piece@),
        ensures
            r@ == body_colors(self@, self.n as int, piece@, 0),
    {
        let ghost m0 = self.stickers@;
        let ghost n_ = self.n as int;
        let ghost d_ = self.d as int;
        let n = self.n;
        let mut colors: Vec<i16> = Vec::new();
        let mut i: usize = 0;
        let len = piece.len();
        while i < len
            invariant
                self.wf(),
                m0 == self.stickers@,
                n_ == self.n as int,
                d_ == self.d as int,
                n == self.n,
                is_body(n_, d_, piece@),
                len == piece@.len(),
                0 <= i <= len,
                colors@ + body_colors(m0, n_, piece@, i as int) == body_colors(m0, n_, piece@, 0),
            decreases len - i,
        {
            let x = piece[i];
            let ghost colors0 = colors@;
            if x == n - 1 || x == -(n - 1) {
                let mut pos: Vec<i16> = Vec::new();
                let mut j: usize = 0;
                while j < len
                    invariant
                        pos@.len() == j,
                        0 <= j <= len,
                        len == piece@.len(),
                        forall|k: int| 0 <= k < j ==> pos@[k] == piece@[k],
                    decreases len - j,
                {
                    pos.push(piece[j]);
                    j += 1;
                }
                if x == n - 1 {
                    pos[i] = n;
                    proof {
                        assert(pos@ =~= piece@.update(i as int, n as i16));
                    }
                } else {
                    pos[i] = -n;
                    proof {
                        assert(pos@ =~= piece@.update(i as int, (-n) as i16));
                    }
                }
                proof {
                    lemma_body_update_sticker(n_, d_, piece@, i as int, pos@[i as int]);
                    assert(m0.dom().contains(pos@));
                }
                let c = self.stickers.get(&pos).unwrap();
                colors.push(c);
                if n == 1 {
                    colors.push(compl(c));
                }
            }
            proof {
                assert(colors@ + body_colors(m0, n_, piece@, i as int + 1) == body_colors(
                    m0,
                    n_,
                    piece@,
                    0,
                )) by {
                    if piece@[i as int] as int == n_ - 1 {
                        let c = m0[piece@.update(i as int, n_ as i16)];
                        if n_ == 1 {
                            assert(colors@ =~= colors0 + seq![c, spec_compl(c as int) as i16]);
                            assert(colors0 + (seq![c, spec_compl(c as int) as i16] + body_colors(
                                m0,
                                n_,
                                piece@,
                                i as int + 1,
                            )) =~= colors@ + body_colors(m0, n_, piece@, i as int + 1));
                        } else {
                            assert(colors@ =~= colors0 + seq![c]);
                            assert(colors0 + (seq![c] + body_colors(m0, n_, piece@, i as int + 1))
                                =~= colors@ + body_colors(m0, n_, piece@, i as int + 1));
                        }
                    } else if piece@[i as int] as int == -(n_ - 1) {
                        let c = m0[piece@.update(i as int, (-n_) as i16)];
                        if n_ == 1 {
                            assert(colors@ =~= colors0 + seq![c, spec_compl(c as int) as i16]);
                            assert(colors0 + (seq![c, spec_compl(c as int) as i16] + body_colors(
                                m0,
                                n_,
                                piece@,
                                i as int + 1,
                            )) =~= colors@ + body_colors(m0, n_, piece@, i as int + 1));
                        } else {
                            assert(colors@ =~= colors0 + seq![c]);
                            assert(colors0 + (seq![c] + body_colors(m0, n_, piece@, i as int + 1))
                                =~= colors@ + body_colors(m0, n_, piece@, i as int + 1));
                        }
                    } else {
                        assert(colors@ == colors0);
                    }
                }
            }
            i += 1;
        }
        proof {
            assert(colors@ + Seq::<i16>::empty() =~= colors@);
        }
        colors
    }

    /// The colors attached to a cell: the cell is normalized to its piece
    /// body, then every boundary-adjacent axis contributes its sticker color.
    pub fn stickers(&self, piece: &[i16]) -> (r: Vec<i16>)
        requires
            self.wf(),
            is_cell(self.n as int, self.d as int, piece@),
        ensures
            r@ == body_colors(self@, self.n as int, body_of(self.n as int, piece@), 0),
    {
        let body = self.piece_body(piece);
        proof {
            lemma_body_of_cell(self.n as int, self.d as int, piece@);
        }
        self.piece_body_stickers(body.as_slice())
    }
}

} // verus!

verus! {

// ------------------------------------------------------------------
// Scrambling
// ------------------------------------------------------------------

#[verifier::external_type_specification]
#[verifier::external_body]
pub struct ExThreadRng(rand::rngs::ThreadRng);

/// Relies on rand's `SliceRandom::shuffle`: it permutes the slice in place,
/// so the result holds the same elements in some order. Nothing more is
/// assumed of the order, which depends on the generator's state.
#[verifier::external_body]
fn shuffle_axes(rng: &mut rand::rngs::ThreadRng, v: &mut Vec<i16>)
    ensures
        final(v)@.to_multiset() == old(v)@.to_multiset(),
{
    rand::seq::SliceRandom::shuffle(v.as_mut_slice(), rng);
}

/// Relies on rand's `RngExt::random_range`: the result lies in the given
/// half-open range. An empty range panics there, so it is excluded here.
#[verifier::external_body]
fn rand_below(rng: &mut rand::rngs::ThreadRng, n: i16) -> (r: i16)
    requires
        1 <= n,
    ensures
        0 <= r < n,
{
    rand::RngExt::random_range(rng, 0..n)
}

impl Puzzle {
    /// Scrambles the state by a large fixed number of random side turns: each
    /// draws three distinct axes and a uniformly random layer. The key set and
    /// the parameters are untouched whatever the generator returns.
    pub fn scramble(&mut self, rng: &mut rand::rngs::ThreadRng)
        requires
            old(self).wf(),
            old(self).d >= 3,
        ensures
            final(self).wf(),
            final(self).n == old(self).n,
            final(self).d == old(self).d,
            final(self)@.dom() == old(self)@.dom(),
    {
        let mut k: usize = 0;
        while k < 5000
            invariant
                self.wf(),
                self.n == old(self).n,
                self.d == old(self).d,
                self.d >= 3,
                self@.dom() == old(self)@.dom(),
            decreases 5000 - k,
        {
            let ghost dom0 = self@.dom();
            let mut axes: Vec<i16> = Vec::new();
            let mut a: i16 = 0;
            while (a as u16) < self.d
                invariant
                    self.d <= 32767,
                    0 <= a as int <= self.d as int,
                    axes@.len() == a as int,
                    forall|j: int| 0 <= j < a as int ==> (#[trigger] axes@[j]) as int == j,
                decreases self.d as int - a as int,
            {
                axes.push(a);
                a += 1;
            }
            let ghost axes0 = axes@;
            shuffle_axes(rng, &mut axes);
            proof {
                axes0.to_multiset_ensures();
                axes@.to_multiset_ensures();
                assert(axes@.len() == self.d as int);
                assert forall|j: int| 0 <= j < axes@.len() implies 0 <= ((#[trigger] axes@[j]) as int)
                    && ((axes@[j]) as int) < self.d as int by {
                    assert(axes@.contains(axes@[j]));
                    assert(axes@.to_multiset().count(axes@[j]) > 0);
                    assert(axes0.contains(axes@[j]));
                    let w = choose|w: int| 0 <= w < axes0.len() && axes0[w] == axes@[j];
                }
            }
            let layer_r = rand_below(rng, self.n);
            let layer = ((self.n as i32) - 1 - 2 * (layer_r as i32)) as i16;
            let side = axes[0];
            let from = axes[1];
            let to = axes[2];
            let t = SideTurn { side, layer_min: layer, layer_max: layer, from, to };
            proof {
                assert(side_turn_axes_ok(t, self.d as int));
                // the three axes are drawn distinct, so the turn is
                // structurally valid
                assert(axes0.no_duplicates());
                axes0.lemma_multiset_has_no_duplicates();
                assert forall|x: i16| axes@.to_multiset().contains(x) implies axes@.to_multiset()
                    .count(x) == 1 by {
                    assert(axes0.to_multiset().contains(x));
                }
                axes@.lemma_multiset_has_no_duplicates_conv();
                assert(side != from && side != to && from != to);
                assert(side_turn_ok(t)) by {
                    assert(side >= 0 && from >= 0 && to >= 0);
                    assert(spec_compl(t.from as int) < 0);
                    assert(spec_compl(t.to as int) < 0);
                }
            }
            let r = self.turn(Turn::Side(t));
            proof {
                assert(r == Some(()));
                assert(self@.dom() =~= dom0);
            }
            k += 1;
        }
    }
}

} // verus!

verus! {

// ------------------------------------------------------------------
// Group laws of the turn algebra
// ------------------------------------------------------------------

/// The canonical solved mapping is solved: every sticker carries its own
/// face, so every face is monochromatic.
pub proof fn lemma_solved_map_is_solved(n: int, d: int)
    requires
        n >= 1,
        d >= 1,
    ensures
        is_solved_spec(solved_map(n, d), n, d),
{
    let m = solved_map(n, d);
    assert forall|p: Seq<i16>, q: Seq<i16>|
        #[trigger] m.dom().contains(p) && #[trigger] m.dom().contains(q) && face_of(n, d, p)
            == face_of(n, d, q) implies m[p] == m[q] by {
        assert(m[p] == solved_color(n, d, p));
        assert(m[q] == solved_color(n, d, q));
    }
}

/// Inverting a side turn swaps the two effective rotation axes.
proof fn lemma_eff_inverse(t: SideTurn)
    ensures
        eff_from(t.spec_inverse().from as int, t.spec_inverse().to as int) == eff_to(
            t.from as int,
            t.to as int,
        ),
        eff_to(t.spec_inverse().from as int, t.spec_inverse().to as int) == eff_from(
            t.from as int,
            t.to as int,
        ),
{
}

/// For a structurally valid side turn, the window axis differs from both
/// effective rotation axes, and the two rotation axes differ.
proof fn lemma_side_axes_distinct(t: SideTurn)
    requires
        side_turn_ok(t),
    ensures
        spec_ax(t.side as int) != eff_from(t.from as int, t.to as int),
        spec_ax(t.side as int) != eff_to(t.from as int, t.to as int),
        eff_from(t.from as int, t.to as int) != eff_to(t.from as int, t.to as int),
{
    crate::axis::lemma_ax_same(t.side as int, t.from as int);
    crate::axis::lemma_ax_same(t.side as int, t.to as int);
    crate::axis::lemma_ax_same(t.from as int, t.to as int);
}

/// The rotation through `t -> f` followed by the rotation through `f -> t`
/// restores the position.
proof fn lemma_rot_pre_undo(p: Seq<i16>, f: int, t: int)
    requires
        0 <= f < p.len(),
        0 <= t < p.len(),
        f != t,
        -32767 <= p[f] as int <= 32767,
        -32767 <= p[t] as int <= 32767,
    ensures
        rot_pre(rot_pre(p, t, f), f, t) =~= p,
{
    let q = rot_pre(p, t, f);
    assert(q[t] == p[f]);
    assert(q[f] as int == -(p[t] as int));
}

/// Applying the rotation through `f -> t` twice negates both plane
/// coordinates and touches nothing else.
proof fn lemma_rot_pre_twice(p: Seq<i16>, f: int, t: int)
    requires
        0 <= f < p.len(),
        0 <= t < p.len(),
        f != t,
        -32767 <= p[f] as int <= 32767,
        -32767 <= p[t] as int <= 32767,
    ensures
        rot_pre(rot_pre(p, f, t), f, t) =~= p.update(f, (-(p[f] as int)) as i16).update(
            t,
            (-(p[t] as int)) as i16,
        ),
{
    let q = rot_pre(p, f, t);
    assert(q[f] == p[t]);
    assert(q[t] as int == -(p[f] as int));
}

/// Applying a valid side turn and then its inverse restores the exact prior
/// mapping.
pub proof fn lemma_side_turn_then_inverse(m: Map<Seq<i16>, i16>, n: int, d: int, t: SideTurn)
    requires
        1 <= n <= 32767,
        1 <= d <= 32767,
        m.dom() == sticker_dom(n, d),
        side_turn_ok(t),
        side_turn_axes_ok(t, d),
    ensures
        side_turn_ok(t.spec_inverse()),
        side_turn_axes_ok(t.spec_inverse(), d),
        side_turned(side_turned(m, t), t.spec_inverse()) == m,
{
    let ti = t.spec_inverse();
    let f = eff_from(t.from as int, t.to as int);
    let tt = eff_to(t.from as int, t.to as int);
    lemma_eff_inverse(t);
    lemma_side_axes_distinct(t);
    let m1 = side_turned(m, t);
    let m2 = side_turned(m1, ti);
    assert(m1.dom() =~= m.dom());
    assert forall|p: Seq<i16>| #[trigger] m.dom().contains(p) implies m2[p] == m[p] by {
        assert(is_sticker(n, d, p));
        let s = spec_ax(t.side as int);
        assert(in_window(ti, p) == in_window(t, p));
        if in_window(t, p) {
            let q = rot_pre(p, tt, f);
            lemma_rot_pre_sticker(n, d, p, tt, f);
            lemma_sticker_coords_bounded(n, d, p, f);
            lemma_sticker_coords_bounded(n, d, p, tt);
            assert(q[s] == p[s]);
            assert(in_window(t, q));
            assert(m.dom().contains(q));
            assert(m2[p] == m1[q]);
            assert(m1[q] == m[rot_pre(q, f, tt)]);
            lemma_rot_pre_undo(p, f, tt);
            assert(rot_pre(q, f, tt) == p);
        } else {
            assert(m2[p] == m1[p]);
            assert(m1[p] == m[p]);
        }
    }
    assert(m2 =~= m);
}

/// Applying a valid whole-puzzle rotation and then its inverse restores the
/// exact prior mapping.
pub proof fn lemma_puzzle_turn_then_inverse(m: Map<Seq<i16>, i16>, n: int, d: int, t: PuzzleTurn)
    requires
        1 <= n <= 32767,
        1 <= d <= 32767,
        m.dom() == sticker_dom(n, d),
        puzzle_turn_ok(t),
        puzzle_turn_axes_ok(t, d),
    ensures
        puzzle_turn_ok(t.spec_inverse()),
        puzzle_turn_axes_ok(t.spec_inverse(), d),
        puzzle_turned(puzzle_turned(m, t), t.spec_inverse()) == m,
{
    let ti = t.spec_inverse();
    let f = eff_from(t.from as int, t.to as int);
    let tt = eff_to(t.from as int, t.to as int);
    assert(eff_from(ti.from as int, ti.to as int) == tt);
    assert(eff_to(ti.from as int, ti.to as int) == f);
    crate::axis::lemma_ax_same(t.from as int, t.to as int);
    let m1 = puzzle_turned(m, t);
    let m2 = puzzle_turned(m1, ti);
    assert(m1.dom() =~= m.dom());
    assert forall|p: Seq<i16>| #[trigger] m.dom().contains(p) implies m2[p] == m[p] by {
        assert(is_sticker(n, d, p));
        let q = rot_pre(p, tt, f);
        lemma_rot_pre_sticker(n, d, p, tt, f);
        lemma_sticker_coords_bounded(n, d, p, f);
        lemma_sticker_coords_bounded(n, d, p, tt);
        assert(m.dom().contains(q));
        assert(m2[p] == m1[q]);
        assert(m1[q] == m[rot_pre(q, f, tt)]);
        lemma_rot_pre_undo(p, f, tt);
        assert(rot_pre(q, f, tt) == p);
    }
    assert(m2 =~= m);
}

/// Applying a valid turn and then its inverse restores the exact prior
/// mapping (the group inverse law).
pub proof fn lemma_turn_then_inverse(m: Map<Seq<i16>, i16>, n: int, d: int, t: Turn)
    requires
        1 <= n <= 32767,
        1 <= d <= 32767,
        m.dom() == sticker_dom(n, d),
        turn_ok(t),
        turn_axes_ok(t, d),
    ensures
        turn_ok(t.spec_inverse()),
        turn_axes_ok(t.spec_inverse(), d),
        turned(turned(m, t), t.spec_inverse()) == m,
{
    match t {
        Turn::Side(st) => lemma_side_turn_then_inverse(m, n, d, st),
        Turn::Puzzle(pt) => lemma_puzzle_turn_then_inverse(m, n, d, pt),
    }
}

/// Applying one and the same valid side turn four times restores the exact
/// prior mapping (the quarter-turn 4-cycle law).
pub proof fn lemma_side_turn_four_times(m: Map<Seq<i16>, i16>, n: int, d: int, t: SideTurn)
    requires
        1 <= n <= 32767,
        1 <= d <= 32767,
        m.dom() == sticker_dom(n, d),
        side_turn_ok(t),
        side_turn_axes_ok(t, d),
    ensures
        side_turned(side_turned(side_turned(side_turned(m, t), t), t), t) == m,
{
    let f = eff_from(t.from as int, t.to as int);
    let tt = eff_to(t.from as int, t.to as int);
    lemma_side_axes_distinct(t);
    let s = spec_ax(t.side as int);
    let m1 = side_turned(m, t);
    let m2 = side_turned(m1, t);
    let m3 = side_turned(m2, t);
    let m4 = side_turned(m3, t);
    assert(m1.dom() =~= m.dom());
    assert(m2.dom() =~= m.dom());
    assert(m3.dom() =~= m.dom());
    assert forall|p: Seq<i16>| #[trigger] m.dom().contains(p) implies m4[p] == m[p] by {
        assert(is_sticker(n, d, p));
        if in_window(t, p) {
            let q1 = rot_pre(p, f, tt);
            lemma_rot_pre_sticker(n, d, p, f, tt);
            lemma_sticker_coords_bounded(n, d, p, f);
            lemma_sticker_coords_bounded(n, d, p, tt);
            let q2 = rot_pre(q1, f, tt);
            lemma_rot_pre_sticker(n, d, q1, f, tt);
            lemma_sticker_coords_bounded(n, d, q1, f);
            lemma_sticker_coords_bounded(n, d, q1, tt);
            let q3 = rot_pre(q2, f, tt);
            lemma_rot_pre_sticker(n, d, q2, f, tt);
            lemma_sticker_coords_bounded(n, d, q2, f);
            lemma_sticker_coords_bounded(n, d, q2, tt);
            assert(q1[s] == p[s] && q2[s] == p[s] && q3[s] == p[s]);
            assert(in_window(t, q1) && in_window(t, q2) && in_window(t, q3));
            assert(m.dom().contains(q1) && m.dom().contains(q2) && m.dom().contains(q3));
            assert(m4[p] == m3[q1]);
            assert(m3[q1] == m2[q2]);
            assert(m2[q2] == m1[q3]);
            assert(m1[q3] == m[rot_pre(q3, f, tt)]);
            lemma_rot_pre_twice(p, f, tt);
            let pneg = p.update(f, (-(p[f] as int)) as i16).update(tt, (-(p[tt] as int)) as i16);
            assert(q2 == pneg);
            lemma_rot_pre_twice(q2, f, tt);
            assert(rot_pre(q3, f, tt) =~= p);
        } else {
            assert(m4[p] == m3[p] && m3[p] == m2[p] && m2[p] == m1[p] && m1[p] == m[p]);
        }
    }
    assert(m4 =~= m);
}

} // verus!

verus! {

/// Axes without a boundary-adjacent coordinate contribute no colors.
proof fn lemma_body_colors_none(m: Map<Seq<i16>, i16>, n: int, p: Seq<i16>, a: int, b: int)
    requires
        0 <= a <= b <= p.len(),
        forall|k: int| a <= k < b ==> !adj_bnd(n, #[trigger] p[k] as int),
    ensures
        body_colors(m, n, p, a) == body_colors(m, n, p, b),
    decreases b - a,
{
    if a < b {
        assert(!adj_bnd(n, p[a] as int));
        lemma_body_colors_none(m, n, p, a + 1, b);
    }
}

/// A piece body adjacent to exactly two boundaries carries exactly the two
/// attached boundary stickers' colors — in axis order as a sequence, and
/// order-independently as a set.
pub proof fn lemma_corner_body_stickers(
    m: Map<Seq<i16>, i16>,
    n: int,
    d: int,
    p: Seq<i16>,
    i: int,
    j: int,
)
    requires
        n >= 2,
        is_body(n, d, p),
        0 <= i < j < d,
        adj_bnd(n, p[i] as int),
        adj_bnd(n, p[j] as int),
        forall|k: int| 0 <= k < d && k != i && k != j ==> !adj_bnd(n, #[trigger] p[k] as int),
    ensures
        body_colors(m, n, p, 0) == seq![m[sticker_of(n, p, i)], m[sticker_of(n, p, j)]],
        body_colors(m, n, p, 0).to_set() == set![m[sticker_of(n, p, i)], m[sticker_of(n, p, j)]],
{
    let ci = m[sticker_of(n, p, i)];
    let cj = m[sticker_of(n, p, j)];
    lemma_body_colors_none(m, n, p, j + 1, p.len() as int);
    assert(body_colors(m, n, p, j) =~= seq![cj]) by {
        assert(body_colors(m, n, p, j + 1) == Seq::<i16>::empty());
        assert(seq![cj] + Seq::<i16>::empty() =~= seq![cj]);
    }
    lemma_body_colors_none(m, n, p, i + 1, j);
    assert(body_colors(m, n, p, i) =~= seq![ci, cj]) by {
        assert(seq![ci] + seq![cj] =~= seq![ci, cj]);
    }
    lemma_body_colors_none(m, n, p, 0, i);
    assert(body_colors(m, n, p, 0) =~= seq![ci, cj]);
    assert(body_colors(m, n, p, 0).to_set() =~= set![ci, cj]) by {
        assert(seq![ci, cj][0] == ci);
        assert(seq![ci, cj][1] == cj);
        assert(seq![ci, cj].contains(ci));
        assert(seq![ci, cj].contains(cj));
    }
}

} // verus!

verus! {

impl StickerMap {
    /// The stickers as plain pairs: unique positions, each present in the
    /// mapping with its color, and together covering the whole mapping.
    pub fn pairs(&self) -> (r: Vec<(Vec<i16>, i16)>)
        requires
            self.wf(),
        ensures
            forall|i: int, j: int|
                0 <= i < j < r@.len() ==> (#[trigger] r@[i]).0@ != (#[trigger] r@[j]).0@,
            forall|i: int|
                0 <= i < r@.len() ==> self@.dom().contains((#[trigger] r@[i]).0@) && self@[r@[
                i].0@] == r@[i].1,
            forall|p: Seq<i16>|
                #[trigger] self@.dom().contains(p) ==> exists|i: int|
                    0 <= i < r@.len() && (#[trigger] r@[i]).0@ == p,
    {
        proof {
            lemma_assoc_map(self.entries@);
        }
        let mut r: Vec<(Vec<i16>, i16)> = Vec::new();
        let mut i: usize = 0;
        while i < self.entries.len()
            invariant
                self.wf(),
                0 <= i <= self.entries@.len(),
                r@.len() == i,
                forall|j: int|
                    0 <= j < i ==> (#[trigger] r@[j]).0@ == self.entries@[j].0@ && r@[j].1
                        == self.entries@[j].1,
            decreases self.entries@.len() - i,
        {
            let k = self.entries[i].0.clone();
            let c = self.entries[i].1;
            proof {
                assert(k@ =~= self.entries@[i as int].0@);
            }
            r.push((k, c));
            i += 1;
        }
        proof {
            lemma_assoc_map(self.entries@);
            assert forall|p: Seq<i16>| #[trigger] self@.dom().contains(p) implies exists|i2: int|
                0 <= i2 < r@.len() && (#[trigger] r@[i2]).0@ == p by {
                let j = choose|j: int|
                    0 <= j < self.entries@.len() && (#[trigger] self.entries@[j]).0@ == p;
                assert(r@[j].0@ == p);
            }
        }
        r
    }
}

} // verus!
