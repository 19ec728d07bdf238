//! The layout generator: a deterministic recursive algorithm projecting the
//! d-dimensional puzzle's cells onto a 2D screen grid (a generalized net).
//!
//! A layout maps screen coordinates to position vectors (and some screen
//! coordinates to keybind hints). It is built by pure value-to-value
//! transforms: translation, bounding-box squish, union and concatenation.

use vstd::prelude::*;

use crate::puzzle::is_boundary;
use crate::puzzle::is_interior;

verus! {

/// The mathematical value of a layout: its extent and its two maps, keyed by
/// unbounded screen coordinates.
pub ghost struct LayoutV {
    pub width: int,
    pub height: int,
    pub points: Map<(int, int), Seq<i16>>,
    pub hints: Map<(int, int), Option<i16>>,
}

// ------------------------------------------------------------------
// Screen-coordinate maps as unique-key entry lists
// ------------------------------------------------------------------

pub open spec fn pt_key(e: ((i16, i16), Vec<i16>)) -> (int, int) {
    (e.0.0 as int, e.0.1 as int)
}

pub open spec fn hk_key(e: ((i16, i16), Option<i16>)) -> (int, int) {
    (e.0.0 as int, e.0.1 as int)
}

pub open spec fn pt_map(s: Seq<((i16, i16), Vec<i16>)>) -> Map<(int, int), Seq<i16>>
    decreases s.len(),
{
    if s.len() == 0 {
        Map::empty()
    } else {
        pt_map(s.drop_last()).insert(pt_key(s.last()), s.last().1@)
    }
}

pub open spec fn hk_map(s: Seq<((i16, i16), Option<i16>)>) -> Map<(int, int), Option<i16>>
    decreases s.len(),
{
    if s.len() == 0 {
        Map::empty()
    } else {
        hk_map(s.drop_last()).insert(hk_key(s.last()), s.last().1)
    }
}

pub open spec fn pt_unique(s: Seq<((i16, i16), Vec<i16>)>) -> bool {
    forall|i: int, j: int| 0 <= i < j < s.len() ==> pt_key(#[trigger] s[i]) != pt_key(#[trigger] s[j])
}

pub open spec fn hk_unique(s: Seq<((i16, i16), Option<i16>)>) -> bool {
    forall|i: int, j: int| 0 <= i < j < s.len() ==> hk_key(#[trigger] s[i]) != hk_key(#[trigger] s[j])
}

/// On a unique-key entry list the denoted map is exactly the entries.
pub proof fn lemma_pt_map(s: Seq<((i16, i16), Vec<i16>)>)
    requires
        pt_unique(s),
    ensures
        forall|i: int|
            0 <= i < s.len() ==> pt_map(s).dom().contains(pt_key(#[trigger] s[i])) && pt_map(s)[
            pt_key(s[i])] == s[i].1@,
        forall|k: (int, int)|
            #[trigger] pt_map(s).dom().contains(k) ==> exists|i: int|
                0 <= i < s.len() && pt_key(#[trigger] s[i]) == k,
        pt_map(s).dom().finite(),
    decreases s.len(),
{
    if s.len() > 0 {
        assert(pt_unique(s.drop_last())) by {
            assert forall|i: int, j: int| 0 <= i < j < s.drop_last().len() implies pt_key(
                #[trigger] s.drop_last()[i],
            ) != pt_key(#[trigger] s.drop_last()[j]) by {
                assert(s.drop_last()[i] == s[i]);
                assert(s.drop_last()[j] == s[j]);
            }
        }
        lemma_pt_map(s.drop_last());
        assert forall|i: int| 0 <= i < s.len() implies pt_map(s).dom().contains(
            pt_key(#[trigger] s[i]),
        ) && pt_map(s)[pt_key(s[i])] == s[i].1@ by {
            if i < s.len() - 1 {
                assert(s.drop_last()[i] == s[i]);
                assert(pt_key(s[i]) != pt_key(s[s.len() - 1]));
            } else {
                assert(s[i] == s.last());
            }
        }
        assert forall|k: (int, int)| #[trigger] pt_map(s).dom().contains(k) implies exists|i: int|
            0 <= i < s.len() && pt_key(#[trigger] s[i]) == k by {
            if k == pt_key(s.last()) {
                assert(pt_key(s[s.len() - 1]) == k);
            } else {
                let i = choose|i: int|
                    0 <= i < s.drop_last().len() && pt_key(#[trigger] s.drop_last()[i]) == k;
                assert(pt_key(s[i]) == k);
            }
        }
    }
}

pub proof fn lemma_hk_map(s: Seq<((i16, i16), Option<i16>)>)
    requires
        hk_unique(s),
    ensures
        forall|i: int|
            0 <= i < s.len() ==> hk_map(s).dom().contains(hk_key(#[trigger] s[i])) && hk_map(s)[
            hk_key(s[i])] == s[i].1,
        forall|k: (int, int)|
            #[trigger] hk_map(s).dom().contains(k) ==> exists|i: int|
                0 <= i < s.len() && hk_key(#[trigger] s[i]) == k,
        hk_map(s).dom().finite(),
    decreases s.len(),
{
    if s.len() > 0 {
        assert(hk_unique(s.drop_last())) by {
            assert forall|i: int, j: int| 0 <= i < j < s.drop_last().len() implies hk_key(
                #[trigger] s.drop_last()[i],
            ) != hk_key(#[trigger] s.drop_last()[j]) by {
                assert(s.drop_last()[i] == s[i]);
                assert(s.drop_last()[j] == s[j]);
            }
        }
        lemma_hk_map(s.drop_last());
        assert forall|i: int| 0 <= i < s.len() implies hk_map(s).dom().contains(
            hk_key(#[trigger] s[i]),
        ) && hk_map(s)[hk_key(s[i])] == s[i].1 by {
            if i < s.len() - 1 {
                assert(s.drop_last()[i] == s[i]);
                assert(hk_key(s[i]) != hk_key(s[s.len() - 1]));
            } else {
                assert(s[i] == s.last());
            }
        }
        assert forall|k: (int, int)| #[trigger] hk_map(s).dom().contains(k) implies exists|i: int|
            0 <= i < s.len() && hk_key(#[trigger] s[i]) == k by {
            if k == hk_key(s.last()) {
                assert(hk_key(s[s.len() - 1]) == k);
            } else {
                let i = choose|i: int|
                    0 <= i < s.drop_last().len() && hk_key(#[trigger] s.drop_last()[i]) == k;
                assert(hk_key(s[i]) == k);
            }
        }
    }
}

/// The screen-coordinate-to-position map of a layout.
pub struct PointMap {
    entries: Vec<((i16, i16), Vec<i16>)>,
}

impl View for PointMap {
    type V = Map<(int, int), Seq<i16>>;

    closed spec fn view(&self) -> Map<(int, int), Seq<i16>> {
        pt_map(self.entries@)
    }
}

/// The screen-coordinate-to-keybind-hint map of a layout (`None` marks a
/// rotation-center hint, `Some(code)` a directional hint for an axis).
pub struct HintMap {
    entries: Vec<((i16, i16), Option<i16>)>,
}

impl View for HintMap {
    type V = Map<(int, int), Option<i16>>;

    closed spec fn view(&self) -> Map<(int, int), Option<i16>> {
        hk_map(self.entries@)
    }
}

impl PointMap {
    pub closed spec fn wf(self) -> bool {
        pt_unique(self.entries@)
    }

    pub fn new() -> (r: Self)
        ensures
            r.wf(),
            r@ == Map::<(int, int), Seq<i16>>::empty(),
    {
        PointMap { entries: Vec::new() }
    }

    /// Looks a screen coordinate up.
    pub fn get(&self, x: i16, y: i16) -> (r: Option<&Vec<i16>>)
        requires
            self.wf(),
        ensures
            (match r {
                Some(v) => self@.dom().contains((x as int, y as int)) && self@[(x as int, y as int)]
                    == v@,
                None => !self@.dom().contains((x as int, y as int)),
            }),
    {
        proof {
            lemma_pt_map(self.entries@);
        }
        let mut i: usize = 0;
        while i < self.entries.len()
            invariant
                self.wf(),
                0 <= i <= self.entries@.len(),
                forall|j: int|
                    0 <= j < i ==> pt_key(#[trigger] self.entries@[j]) != (x as int, y as int),
            decreases self.entries@.len() - i,
        {
            let (kx, ky) = self.entries[i].0;
            if kx == x && ky == y {
                proof {
                    lemma_pt_map(self.entries@);
                }
                return Some(&self.entries[i].1);
            }
            i += 1;
        }
        proof {
            lemma_pt_map(self.entries@);
            if self@.dom().contains((x as int, y as int)) {
                let j = choose|j: int|
                    0 <= j < self.entries@.len() && pt_key(#[trigger] self.entries@[j]) == (
                    x as int,
                    y as int,
                );
            }
        }
        None
    }

    /// The number of points held.
    pub fn num_entries(&self) -> (r: usize)
        requires
            self.wf(),
        ensures
            r == self@.dom().len(),
    {
        proof {
            lemma_pt_entries_len(self.entries@);
        }
        self.entries.len()
    }
}

/// On a unique-key entry list the map has as many keys as there are entries.
proof fn lemma_pt_entries_len(s: Seq<((i16, i16), Vec<i16>)>)
    requires
        pt_unique(s),
    ensures
        pt_map(s).dom().finite(),
        pt_map(s).dom().len() == s.len(),
    decreases s.len(),
{
    if s.len() > 0 {
        assert(pt_unique(s.drop_last())) by {
            assert forall|i: int, j: int| 0 <= i < j < s.drop_last().len() implies pt_key(
                #[trigger] s.drop_last()[i],
            ) != pt_key(#[trigger] s.drop_last()[j]) by {
                assert(s.drop_last()[i] == s[i]);
                assert(s.drop_last()[j] == s[j]);
            }
        }
        lemma_pt_entries_len(s.drop_last());
        lemma_pt_map(s.drop_last());
        if pt_map(s.drop_last()).dom().contains(pt_key(s.last())) {
            let i = choose|i: int|
                0 <= i < s.drop_last().len() && pt_key(#[trigger] s.drop_last()[i]) == pt_key(
                s.last());
            assert(pt_key(s[i]) == pt_key(s[s.len() - 1]));
            assert(false);
        }
    }
}

impl HintMap {
    pub closed spec fn wf(self) -> bool {
        hk_unique(self.entries@)
    }

    pub fn new() -> (r: Self)
        ensures
            r.wf(),
            r@ == Map::<(int, int), Option<i16>>::empty(),
    {
        HintMap { entries: Vec::new() }
    }

    /// Looks a screen coordinate up.
    pub fn get(&self, x: i16, y: i16) -> (r: Option<Option<i16>>)
        requires
            self.wf(),
        ensures
            (match r {
                Some(v) => self@.dom().contains((x as int, y as int)) && self@[(x as int, y as int)]
                    == v,
                None => !self@.dom().contains((x as int, y as int)),
            }),
    {
        proof {
            lemma_hk_map(self.entries@);
        }
        let mut i: usize = 0;
        while i < self.entries.len()
            invariant
                self.wf(),
                0 <= i <= self.entries@.len(),
                forall|j: int|
                    0 <= j < i ==> hk_key(#[trigger] self.entries@[j]) != (x as int, y as int),
            decreases self.entries@.len() - i,
        {
            let (kx, ky) = self.entries[i].0;
            if kx == x && ky == y {
                proof {
                    lemma_hk_map(self.entries@);
                }
                return Some(self.entries[i].1);
            }
            i += 1;
        }
        proof {
            lemma_hk_map(self.entries@);
            if self@.dom().contains((x as int, y as int)) {
                let j = choose|j: int|
                    0 <= j < self.entries@.len() && hk_key(#[trigger] self.entries@[j]) == (
                    x as int,
                    y as int,
                );
            }
        }
        None
    }
}

/// A 2D character-grid layout of the puzzle: a bounding box, one position
/// vector per drawn screen coordinate, and the keybind hints.
pub struct Layout {
    pub width: u16,
    pub height: u16,
    pub points: PointMap,
    pub keybind_hints: HintMap,
}

impl View for Layout {
    type V = LayoutV;

    open spec fn view(&self) -> LayoutV {
        LayoutV {
            width: self.width as int,
            height: self.height as int,
            points: self.points@,
            hints: self.keybind_hints@,
        }
    }
}

/// Every key of both maps lies inside the bounding box, which itself fits the
/// screen-coordinate range.
pub open spec fn bounded_v(l: LayoutV) -> bool {
    &&& 0 <= l.width <= 32767
    &&& 0 <= l.height <= 32767
    &&& forall|k: (int, int)| #[trigger] l.points.dom().contains(k) ==> 0 <= k.0 < l.width && 0 <= k.1 < l.height
    &&& forall|k: (int, int)| #[trigger] l.hints.dom().contains(k) ==> 0 <= k.0 < l.width && 0 <= k.1 < l.height
}

impl Layout {
    /// The entry lists behind both maps carry no duplicate keys.
    pub open spec fn wf(self) -> bool {
        self.points.wf() && self.keybind_hints.wf()
    }

    pub fn new() -> (r: Self)
        ensures
            r.wf(),
            r@.width == 0,
            r@.height == 0,
            r@.points == Map::<(int, int), Seq<i16>>::empty(),
            r@.hints == Map::<(int, int), Option<i16>>::empty(),
    {
        Layout { width: 0, height: 0, points: PointMap::new(), keybind_hints: HintMap::new() }
    }
}

} // verus!

verus! {

// ------------------------------------------------------------------
// The model operations: each executable transform mirrors one of these
// ------------------------------------------------------------------

/// A map with every key shifted by `(dx, dy)`.
pub open spec fn shift_pts(m: Map<(int, int), Seq<i16>>, dx: int, dy: int) -> Map<
    (int, int),
    Seq<i16>,
> {
    Map::new(
        |k: (int, int)| m.dom().contains((k.0 - dx, k.1 - dy)),
        |k: (int, int)| m[(k.0 - dx, k.1 - dy)],
    )
}

pub open spec fn shift_hks(m: Map<(int, int), Option<i16>>, dx: int, dy: int) -> Map<
    (int, int),
    Option<i16>,
> {
    Map::new(
        |k: (int, int)| m.dom().contains((k.0 - dx, k.1 - dy)),
        |k: (int, int)| m[(k.0 - dx, k.1 - dy)],
    )
}

pub open spec fn move_right_v(l: LayoutV, s: int) -> LayoutV {
    LayoutV {
        width: l.width + s,
        height: l.height,
        points: shift_pts(l.points, s, 0),
        hints: shift_hks(l.hints, s, 0),
    }
}

pub open spec fn move_down_v(l: LayoutV, s: int) -> LayoutV {
    LayoutV {
        width: l.width,
        height: l.height + s,
        points: shift_pts(l.points, 0, s),
        hints: shift_hks(l.hints, 0, s),
    }
}

/// The largest x coordinate of a key set, `-1` when it is empty (so that the
/// tight width is the value plus one).
pub open spec fn is_max_x(s: Set<(int, int)>, v: int) -> bool {
    if exists|k: (int, int)| s.contains(k) {
        (exists|k: (int, int)| s.contains(k) && k.0 == v) && (forall|k: (int, int)|
            s.contains(k) ==> k.0 <= v)
    } else {
        v == -1
    }
}

pub open spec fn is_max_y(s: Set<(int, int)>, v: int) -> bool {
    if exists|k: (int, int)| s.contains(k) {
        (exists|k: (int, int)| s.contains(k) && k.1 == v) && (forall|k: (int, int)|
            s.contains(k) ==> k.1 <= v)
    } else {
        v == -1
    }
}

/// The smallest x coordinate of a key set, `0` when it is empty (so that an
/// empty layout is not translated).
pub open spec fn is_min_x(s: Set<(int, int)>, v: int) -> bool {
    if exists|k: (int, int)| s.contains(k) {
        (exists|k: (int, int)| s.contains(k) && k.0 == v) && (forall|k: (int, int)|
            s.contains(k) ==> v <= k.0)
    } else {
        v == 0
    }
}

pub open spec fn is_min_y(s: Set<(int, int)>, v: int) -> bool {
    if exists|k: (int, int)| s.contains(k) {
        (exists|k: (int, int)| s.contains(k) && k.1 == v) && (forall|k: (int, int)|
            s.contains(k) ==> v <= k.1)
    } else {
        v == 0
    }
}

pub open spec fn max_x(s: Set<(int, int)>) -> int {
    choose|v: int| is_max_x(s, v)
}

pub open spec fn max_y(s: Set<(int, int)>) -> int {
    choose|v: int| is_max_y(s, v)
}

pub open spec fn min_x(s: Set<(int, int)>) -> int {
    choose|v: int| is_min_x(s, v)
}

pub open spec fn min_y(s: Set<(int, int)>) -> int {
    choose|v: int| is_min_y(s, v)
}

/// Each extreme is unique, so the chosen value is the witnessed one.
pub proof fn lemma_extremes_unique(s: Set<(int, int)>, v: int)
    ensures
        is_max_x(s, v) ==> max_x(s) == v,
        is_max_y(s, v) ==> max_y(s) == v,
        is_min_x(s, v) ==> min_x(s) == v,
        is_min_y(s, v) ==> min_y(s) == v,
{
    if is_max_x(s, v) {
        let w = choose|w: int| is_max_x(s, w);
        assert(is_max_x(s, w));
    }
    if is_max_y(s, v) {
        let w = choose|w: int| is_max_y(s, w);
        assert(is_max_y(s, w));
    }
    if is_min_x(s, v) {
        let w = choose|w: int| is_min_x(s, w);
        assert(is_min_x(s, w));
    }
    if is_min_y(s, v) {
        let w = choose|w: int| is_min_y(s, w);
        assert(is_min_y(s, w));
    }
}

/// Tightens the width to the rightmost drawn column.
pub open spec fn squish_right_v(l: LayoutV) -> LayoutV {
    LayoutV { width: max_x(l.points.dom()) + 1, ..l }
}

/// Tightens the height to the lowest drawn row.
pub open spec fn squish_bottom_v(l: LayoutV) -> LayoutV {
    LayoutV { height: max_y(l.points.dom()) + 1, ..l }
}

/// Translates so that the leftmost drawn column is column zero.
pub open spec fn squish_left_v(l: LayoutV) -> LayoutV {
    move_right_v(l, -min_x(l.points.dom()))
}

pub open spec fn squish_top_v(l: LayoutV) -> LayoutV {
    move_down_v(l, -min_y(l.points.dom()))
}

pub open spec fn squish_horiz_v(l: LayoutV) -> LayoutV {
    squish_right_v(squish_left_v(l))
}

pub open spec fn squish_vert_v(l: LayoutV) -> LayoutV {
    squish_bottom_v(squish_top_v(l))
}

pub open spec fn squish_all_v(l: LayoutV) -> LayoutV {
    squish_vert_v(squish_horiz_v(l))
}

pub open spec fn spec_max(a: int, b: int) -> int {
    if a >= b {
        a
    } else {
        b
    }
}

/// Overlays another layout; where both hold a key the other wins, and the
/// bounding box covers both.
pub open spec fn union_v(a: LayoutV, b: LayoutV) -> LayoutV {
    LayoutV {
        width: spec_max(a.width, b.width),
        height: spec_max(a.height, b.height),
        points: a.points.union_prefer_right(b.points),
        hints: a.hints.union_prefer_right(b.hints),
    }
}

pub open spec fn join_horiz_v(a: LayoutV, b: LayoutV, gap: int) -> LayoutV {
    union_v(a, move_right_v(b, a.width + gap))
}

pub open spec fn join_vert_v(a: LayoutV, b: LayoutV, gap: int) -> LayoutV {
    union_v(a, move_down_v(b, a.height + gap))
}

/// The number of boundary coordinates in a position.
pub open spec fn bnd_count(n: int, p: Seq<i16>) -> int
    decreases p.len(),
{
    if p.len() == 0 {
        0
    } else {
        bnd_count(n, p.drop_last()) + (if is_boundary(n, p.last() as int) {
            1int
        } else {
            0int
        })
    }
}

/// Discards points whose position holds two or more boundary coordinates.
pub open spec fn clean_v(l: LayoutV, n: int) -> LayoutV {
    LayoutV {
        points: Map::new(
            |k: (int, int)| l.points.dom().contains(k) && bnd_count(n, l.points[k]) <= 1,
            |k: (int, int)| l.points[k],
        ),
        ..l
    }
}

/// Appends a coordinate to every stored position.
pub open spec fn push_all_v(l: LayoutV, x: i16) -> LayoutV {
    LayoutV {
        points: Map::new(
            |k: (int, int)| l.points.dom().contains(k),
            |k: (int, int)| l.points[k].push(x),
        ),
        ..l
    }
}

/// Re-tags the keybind hints of the copy for slice value `i` of the newly
/// introduced axis `d - 1`: the two interior slots next to the extremes turn
/// prior center hints into directional hints for that axis, the two central
/// slices keep their hints, and every other hint is dropped.
pub open spec fn retag_v(l: LayoutV, i: int, n: int, d: int) -> LayoutV {
    LayoutV {
        hints: Map::new(
            |k: (int, int)| l.hints.dom().contains(k) && (if i == -n + 1 {
                l.hints[k] is None
            } else if i == n - 1 {
                l.hints[k] is None
            } else {
                i == 0 || i == 1
            }),
            |k: (int, int)|
                if i == -n + 1 {
                    Some((-d) as i16)
                } else if i == n - 1 {
                    Some((d - 1) as i16)
                } else {
                    l.hints[k]
                },
        ),
        ..l
    }
}

} // verus!

verus! {

impl Layout {
    /// Translates the whole layout to the right (a negative shift moves it
    /// left); the width moves with it.
    pub fn move_right(self, shift: i16) -> (r: Self)
        requires
            self.wf(),
            forall|k: (int, int)| #[trigger]
                self@.points.dom().contains(k) ==> -32768 <= k.0 + shift <= 32767,
            forall|k: (int, int)| #[trigger]
                self@.hints.dom().contains(k) ==> -32768 <= k.0 + shift <= 32767,
            0 <= self@.width + shift <= 32767,
        ensures
            r.wf(),
            r@ == move_right_v(self@, shift as int),
    {
        let ghost lv = self@;
        let ghost s0 = self.points.entries@;
        let ghost h0 = self.keybind_hints.entries@;
        proof {
            lemma_pt_map(s0);
            lemma_hk_map(h0);
        }
        let mut pts: Vec<((i16, i16), Vec<i16>)> = Vec::new();
        let mut i: usize = 0;
        let n = self.points.entries.len();
        while i < n
            invariant
                self.wf(),
                lv == self@,
                s0 == self.points.entries@,
                forall|k: (int, int)| #[trigger]
                    lv.points.dom().contains(k) ==> -32768 <= k.0 + shift <= 32767,
                n == s0.len(),
                0 <= i <= n,
                pts@.len() == i,
                forall|j: int|
                    0 <= j < i ==> pt_key(#[trigger] pts@[j]) == (
                        pt_key(s0[j]).0 + shift,
                        pt_key(s0[j]).1,
                    ) && pts@[j].1@ == s0[j].1@,
            decreases n - i,
        {
            let x = self.points.entries[i].0.0;
            let y = self.points.entries[i].0.1;
            let v = self.points.entries[i].1.clone();
            proof {
                lemma_pt_map(s0);
                assert(lv.points.dom().contains(pt_key(s0[i as int])));
            }
            let nx = ((x as i32) + (shift as i32)) as i16;
            pts.push(((nx, y), v));
            proof {
                assert(pts@[i as int].1@ =~= s0[i as int].1@);
            }
            i += 1;
        }
        let mut hks: Vec<((i16, i16), Option<i16>)> = Vec::new();
        let mut i2: usize = 0;
        let nh = self.keybind_hints.entries.len();
        while i2 < nh
            invariant
                self.wf(),
                lv == self@,
                h0 == self.keybind_hints.entries@,
                forall|k: (int, int)| #[trigger]
                    lv.hints.dom().contains(k) ==> -32768 <= k.0 + shift <= 32767,
                nh == h0.len(),
                0 <= i2 <= nh,
                hks@.len() == i2,
                forall|j: int|
                    0 <= j < i2 ==> hk_key(#[trigger] hks@[j]) == (
                        hk_key(h0[j]).0 + shift,
                        hk_key(h0[j]).1,
                    ) && hks@[j].1 == h0[j].1,
            decreases nh - i2,
        {
            let x = self.keybind_hints.entries[i2].0.0;
            let y = self.keybind_hints.entries[i2].0.1;
            let v = self.keybind_hints.entries[i2].1;
            proof {
                lemma_hk_map(h0);
                assert(lv.hints.dom().contains(hk_key(h0[i2 as int])));
            }
            let nx = ((x as i32) + (shift as i32)) as i16;
            hks.push(((nx, y), v));
            i2 += 1;
        }
        let w = ((self.width as i32) + (shift as i32)) as u16;
        let r = Layout {
            width: w,
            height: self.height,
            points: PointMap { entries: pts },
            keybind_hints: HintMap { entries: hks },
        };
        proof {
            assert(pt_unique(pts@)) by {
                assert forall|a: int, b: int| 0 <= a < b < pts@.len() implies pt_key(
                    #[trigger] pts@[a],
                ) != pt_key(#[trigger] pts@[b]) by {
                    assert(pt_key(s0[a]) != pt_key(s0[b]));
                }
            }
            assert(hk_unique(hks@)) by {
                assert forall|a: int, b: int| 0 <= a < b < hks@.len() implies hk_key(
                    #[trigger] hks@[a],
                ) != hk_key(#[trigger] hks@[b]) by {
                    assert(hk_key(h0[a]) != hk_key(h0[b]));
                }
            }
            lemma_pt_map(pts@);
            lemma_hk_map(hks@);
            lemma_pt_map(s0);
            lemma_hk_map(h0);
            let sh = shift as int;
            assert(r@.points =~= shift_pts(lv.points, sh, 0)) by {
                assert forall|k: (int, int)| #[trigger] pt_map(pts@).dom().contains(k) implies
                    shift_pts(lv.points, sh, 0).dom().contains(k) && pt_map(pts@)[k] == shift_pts(
                    lv.points,
                    sh,
                    0,
                )[k] by {
                    let j = choose|j: int| 0 <= j < pts@.len() && pt_key(#[trigger] pts@[j]) == k;
                    assert(lv.points.dom().contains(pt_key(s0[j])));
                    assert((k.0 - sh, k.1) == pt_key(s0[j]));
                    assert(pt_map(pts@)[k] == pts@[j].1@);
                    assert(lv.points[pt_key(s0[j])] == s0[j].1@);
                }
                assert forall|k: (int, int)| #[trigger]
                    shift_pts(lv.points, sh, 0).dom().contains(k) implies pt_map(
                    pts@,
                ).dom().contains(k) by {
                    assert(lv.points.dom().contains((k.0 - sh, k.1)));
                    let j = choose|j: int|
                        0 <= j < s0.len() && pt_key(#[trigger] s0[j]) == (k.0 - sh, k.1);
                    assert(pt_key(pts@[j]) == k);
                }
            }
            assert(r@.hints =~= shift_hks(lv.hints, sh, 0)) by {
                assert forall|k: (int, int)| #[trigger] hk_map(hks@).dom().contains(k) implies
                    shift_hks(lv.hints, sh, 0).dom().contains(k) && hk_map(hks@)[k] == shift_hks(
                    lv.hints,
                    sh,
                    0,
                )[k] by {
                    let j = choose|j: int| 0 <= j < hks@.len() && hk_key(#[trigger] hks@[j]) == k;
                    assert(lv.hints.dom().contains(hk_key(h0[j])));
                    assert((k.0 - sh, k.1) == hk_key(h0[j]));
                    assert(hk_map(hks@)[k] == hks@[j].1);
                    assert(lv.hints[hk_key(h0[j])] == h0[j].1);
                }
                assert forall|k: (int, int)| #[trigger]
                    shift_hks(lv.hints, sh, 0).dom().contains(k) implies hk_map(
                    hks@,
                ).dom().contains(k) by {
                    assert(lv.hints.dom().contains((k.0 - sh, k.1)));
                    let j = choose|j: int|
                        0 <= j < h0.len() && hk_key(#[trigger] h0[j]) == (k.0 - sh, k.1);
                    assert(hk_key(hks@[j]) == k);
                }
            }
            assert(r@ == move_right_v(lv, sh));
        }
        r
    }
}

} // verus!

verus! {

impl Layout {
    /// Translates the whole layout downward (a negative shift moves it up);
    /// the height moves with it.
    pub fn move_down(self, shift: i16) -> (r: Self)
        requires
            self.wf(),
            forall|k: (int, int)| #[trigger]
                self@.points.dom().contains(k) ==> -32768 <= k.1 + shift <= 32767,
            forall|k: (int, int)| #[trigger]
                self@.hints.dom().contains(k) ==> -32768 <= k.1 + shift <= 32767,
            0 <= self@.height + shift <= 32767,
        ensures
            r.wf(),
            r@ == move_down_v(self@, shift as int),
    {
        let ghost lv = self@;
        let ghost s0 = self.points.entries@;
        let ghost h0 = self.keybind_hints.entries@;
        proof {
            lemma_pt_map(s0);
            lemma_hk_map(h0);
        }
        let mut pts: Vec<((i16, i16), Vec<i16>)> = Vec::new();
        let mut i: usize = 0;
        let n = self.points.entries.len();
        while i < n
            invariant
                self.wf(),
                lv == self@,
                s0 == self.points.entries@,
                forall|k: (int, int)| #[trigger]
                    lv.points.dom().contains(k) ==> -32768 <= k.1 + shift <= 32767,
                n == s0.len(),
                0 <= i <= n,
                pts@.len() == i,
                forall|j: int|
                    0 <= j < i ==> pt_key(#[trigger] pts@[j]) == (
                        pt_key(s0[j]).0,
                        pt_key(s0[j]).1 + shift,
                    ) && pts@[j].1@ == s0[j].1@,
            decreases n - i,
        {
            let x = self.points.entries[i].0.0;
            let y = self.points.entries[i].0.1;
            let v = self.points.entries[i].1.clone();
            proof {
                lemma_pt_map(s0);
                assert(lv.points.dom().contains(pt_key(s0[i as int])));
            }
            let ny = ((y as i32) + (shift as i32)) as i16;
            pts.push(((x, ny), v));
            proof {
                assert(pts@[i as int].1@ =~= s0[i as int].1@);
            }
            i += 1;
        }
        let mut hks: Vec<((i16, i16), Option<i16>)> = Vec::new();
        let mut i2: usize = 0;
        let nh = self.keybind_hints.entries.len();
        while i2 < nh
            invariant
                self.wf(),
                lv == self@,
                h0 == self.keybind_hints.entries@,
                forall|k: (int, int)| #[trigger]
                    lv.hints.dom().contains(k) ==> -32768 <= k.1 + shift <= 32767,
                nh == h0.len(),
                0 <= i2 <= nh,
                hks@.len() == i2,
                forall|j: int|
                    0 <= j < i2 ==> hk_key(#[trigger] hks@[j]) == (
                        hk_key(h0[j]).0,
                        hk_key(h0[j]).1 + shift,
                    ) && hks@[j].1 == h0[j].1,
            decreases nh - i2,
        {
            let x = self.keybind_hints.entries[i2].0.0;
            let y = self.keybind_hints.entries[i2].0.1;
            let v = self.keybind_hints.entries[i2].1;
            proof {
                lemma_hk_map(h0);
                assert(lv.hints.dom().contains(hk_key(h0[i2 as int])));
            }
            let ny = ((y as i32) + (shift as i32)) as i16;
            hks.push(((x, ny), v));
            i2 += 1;
        }
        let h = ((self.height as i32) + (shift as i32)) as u16;
        let r = Layout {
            width: self.width,
            height: h,
            points: PointMap { entries: pts },
            keybind_hints: HintMap { entries: hks },
        };
        proof {
            assert(pt_unique(pts@)) by {
                assert forall|a: int, b: int| 0 <= a < b < pts@.len() implies pt_key(
                    #[trigger] pts@[a],
                ) != pt_key(#[trigger] pts@[b]) by {
                    assert(pt_key(s0[a]) != pt_key(s0[b]));
                }
            }
            assert(hk_unique(hks@)) by {
                assert forall|a: int, b: int| 0 <= a < b < hks@.len() implies hk_key(
                    #[trigger] hks@[a],
                ) != hk_key(#[trigger] hks@[b]) by {
                    assert(hk_key(h0[a]) != hk_key(h0[b]));
                }
            }
            lemma_pt_map(pts@);
            lemma_hk_map(hks@);
            lemma_pt_map(s0);
            lemma_hk_map(h0);
            let sh = shift as int;
            assert(r@.points =~= shift_pts(lv.points, 0, sh)) by {
                assert forall|k: (int, int)| #[trigger] pt_map(pts@).dom().contains(k) implies
                    shift_pts(lv.points, 0, sh).dom().contains(k) && pt_map(pts@)[k] == shift_pts(
                    lv.points,
                    0,
                    sh,
                )[k] by {
                    let j = choose|j: int| 0 <= j < pts@.len() && pt_key(#[trigger] pts@[j]) == k;
                    assert(lv.points.dom().contains(pt_key(s0[j])));
                    assert((k.0, k.1 - sh) == pt_key(s0[j]));
                    assert(pt_map(pts@)[k] == pts@[j].1@);
                    assert(lv.points[pt_key(s0[j])] == s0[j].1@);
                }
                assert forall|k: (int, int)| #[trigger]
                    shift_pts(lv.points, 0, sh).dom().contains(k) implies pt_map(
                    pts@,
                ).dom().contains(k) by {
                    assert(lv.points.dom().contains((k.0, k.1 - sh)));
                    let j = choose|j: int|
                        0 <= j < s0.len() && pt_key(#[trigger] s0[j]) == (k.0, k.1 - sh);
                    assert(pt_key(pts@[j]) == k);
                }
            }
            assert(r@.hints =~= shift_hks(lv.hints, 0, sh)) by {
                assert forall|k: (int, int)| #[trigger] hk_map(hks@).dom().contains(k) implies
                    shift_hks(lv.hints, 0, sh).dom().contains(k) && hk_map(hks@)[k] == shift_hks(
                    lv.hints,
                    0,
                    sh,
                )[k] by {
                    let j = choose|j: int| 0 <= j < hks@.len() && hk_key(#[trigger] hks@[j]) == k;
                    assert(lv.hints.dom().contains(hk_key(h0[j])));
                    assert((k.0, k.1 - sh) == hk_key(h0[j]));
                    assert(hk_map(hks@)[k] == hks@[j].1);
                    assert(lv.hints[hk_key(h0[j])] == h0[j].1);
                }
                assert forall|k: (int, int)| #[trigger]
                    shift_hks(lv.hints, 0, sh).dom().contains(k) implies hk_map(
                    hks@,
                ).dom().contains(k) by {
                    assert(lv.hints.dom().contains((k.0, k.1 - sh)));
                    let j = choose|j: int|
                        0 <= j < h0.len() && hk_key(#[trigger] h0[j]) == (k.0, k.1 - sh);
                    assert(hk_key(hks@[j]) == k);
                }
            }
            assert(r@ == move_down_v(lv, sh));
        }
        r
    }
}

} // verus!

verus! {

impl Layout {
    /// Tightens the width to the rightmost drawn column.
    pub fn squish_right(&mut self)
        requires
            old(self).wf(),
            forall|k: (int, int)| #[trigger]
                old(self)@.points.dom().contains(k) ==> 0 <= k.0 <= 32766,
        ensures
            final(self).wf(),
            final(self)@ == squish_right_v(old(self)@),
            is_max_x(old(self)@.points.dom(), max_x(old(self)@.points.dom())),
    {
        let ghost s0 = self.points.entries@;
        proof {
            lemma_pt_map(s0);
        }
        let mut best: i32 = -1;
        let mut i: usize = 0;
        let n = self.points.entries.len();
        while i < n
            invariant
                *self == *old(self),
                self.wf(),
                s0 == self.points.entries@,
                forall|k: (int, int)| #[trigger]
                    old(self)@.points.dom().contains(k) ==> 0 <= k.0 <= 32766,
                n == s0.len(),
                0 <= i <= n,
                -1 <= best <= 32766,
                forall|j: int| 0 <= j < i ==> pt_key(#[trigger] s0[j]).0 <= best,
                best == -1 || exists|j: int| 0 <= j < i && pt_key(#[trigger] s0[j]).0 == best,
            decreases n - i,
        {
            let x = self.points.entries[i].0.0;
            proof {
                lemma_pt_map(s0);
                assert(old(self)@.points.dom().contains(pt_key(s0[i as int])));
            }
            if (x as i32) > best {
                best = x as i32;
            }
            i += 1;
        }
        proof {
            lemma_pt_map(s0);
            let dom = old(self)@.points.dom();
            assert(is_max_x(dom, best as int)) by {
                if exists|k: (int, int)| dom.contains(k) {
                    let k0 = choose|k: (int, int)| dom.contains(k);
                    let j0 = choose|j: int| 0 <= j < s0.len() && pt_key(#[trigger] s0[j]) == k0;
                    assert(pt_key(s0[j0]).0 <= best);
                    assert(best != -1);
                    let ja = choose|j: int| 0 <= j < s0.len() && pt_key(#[trigger] s0[j]).0 == best;
                    assert(dom.contains(pt_key(s0[ja])));
                    assert forall|k: (int, int)| dom.contains(k) implies k.0 <= best as int by {
                        let j = choose|j: int| 0 <= j < s0.len() && pt_key(#[trigger] s0[j]) == k;
                    }
                } else {
                    if best != -1 {
                        let ja = choose|j: int|
                            0 <= j < s0.len() && pt_key(#[trigger] s0[j]).0 == best;
                        assert(dom.contains(pt_key(s0[ja])));
                        assert(false);
                    }
                }
            }
            lemma_extremes_unique(dom, best as int);
        }
        self.width = (best + 1) as u16;
    }

    /// Tightens the height to the lowest drawn row.
    pub fn squish_bottom(&mut self)
        requires
            old(self).wf(),
            forall|k: (int, int)| #[trigger]
                old(self)@.points.dom().contains(k) ==> 0 <= k.1 <= 32766,
        ensures
            final(self).wf(),
            final(self)@ == squish_bottom_v(old(self)@),
            is_max_y(old(self)@.points.dom(), max_y(old(self)@.points.dom())),
    {
        let ghost s0 = self.points.entries@;
        proof {
            lemma_pt_map(s0);
        }
        let mut best: i32 = -1;
        let mut i: usize = 0;
        let n = self.points.entries.len();
        while i < n
            invariant
                *self == *old(self),
                self.wf(),
                s0 == self.points.entries@,
                forall|k: (int, int)| #[trigger]
                    old(self)@.points.dom().contains(k) ==> 0 <= k.1 <= 32766,
                n == s0.len(),
                0 <= i <= n,
                -1 <= best <= 32766,
                forall|j: int| 0 <= j < i ==> pt_key(#[trigger] s0[j]).1 <= best,
                best == -1 || exists|j: int| 0 <= j < i && pt_key(#[trigger] s0[j]).1 == best,
            decreases n - i,
        {
            let y = self.points.entries[i].0.1;
            proof {
                lemma_pt_map(s0);
                assert(old(self)@.points.dom().contains(pt_key(s0[i as int])));
            }
            if (y as i32) > best {
                best = y as i32;
            }
            i += 1;
        }
        proof {
            lemma_pt_map(s0);
            let dom = old(self)@.points.dom();
            assert(is_max_y(dom, best as int)) by {
                if exists|k: (int, int)| dom.contains(k) {
                    let k0 = choose|k: (int, int)| dom.contains(k);
                    let j0 = choose|j: int| 0 <= j < s0.len() && pt_key(#[trigger] s0[j]) == k0;
                    assert(pt_key(s0[j0]).1 <= best);
                    assert(best != -1);
                    let ja = choose|j: int| 0 <= j < s0.len() && pt_key(#[trigger] s0[j]).1 == best;
                    assert(dom.contains(pt_key(s0[ja])));
                    assert forall|k: (int, int)| dom.contains(k) implies k.1 <= best as int by {
                        let j = choose|j: int| 0 <= j < s0.len() && pt_key(#[trigger] s0[j]) == k;
                    }
                } else {
                    if best != -1 {
                        let ja = choose|j: int|
                            0 <= j < s0.len() && pt_key(#[trigger] s0[j]).1 == best;
                        assert(dom.contains(pt_key(s0[ja])));
                        assert(false);
                    }
                }
            }
            lemma_extremes_unique(dom, best as int);
        }
        self.height = (best + 1) as u16;
    }

    /// Translates so that the leftmost drawn column is column zero.
    pub fn squish_left(self) -> (r: Self)
        requires
            self.wf(),
            0 <= self@.width <= 32767,
            forall|k: (int, int)| #[trigger]
                self@.points.dom().contains(k) ==> 0 <= k.0 < self@.width,
            forall|k: (int, int)| #[trigger]
                self@.hints.dom().contains(k) ==> self@.points.dom().contains(k),
        ensures
            r.wf(),
            r@ == squish_left_v(self@),
            is_min_x(self@.points.dom(), min_x(self@.points.dom())),
    {
        let ghost s0 = self.points.entries@;
        let ghost dom = self@.points.dom();
        proof {
            lemma_pt_map(s0);
        }
        let mut mn: i32 = 32767;
        let mut found = false;
        let mut i: usize = 0;
        let n = self.points.entries.len();
        while i < n
            invariant
                self.wf(),
                s0 == self.points.entries@,
                dom == self@.points.dom(),
                forall|k: (int, int)| #[trigger] dom.contains(k) ==> 0 <= k.0 < self@.width,
                0 <= self@.width <= 32767,
                n == s0.len(),
                0 <= i <= n,
                0 <= mn <= 32767,
                found == (i > 0 && n > 0),
                forall|j: int| 0 <= j < i ==> mn <= pt_key(#[trigger] s0[j]).0,
                found ==> exists|j: int| 0 <= j < i && pt_key(#[trigger] s0[j]).0 == mn,
            decreases n - i,
        {
            let x = self.points.entries[i].0.0;
            proof {
                lemma_pt_map(s0);
                assert(dom.contains(pt_key(s0[i as int])));
            }
            if !found || (x as i32) < mn {
                mn = x as i32;
            }
            found = true;
            i += 1;
        }
        let shift_i32: i32 = if found {
            -mn
        } else {
            0
        };
        proof {
            lemma_pt_map(s0);
            let v: int = if found {
                mn as int
            } else {
                0
            };
            assert(is_min_x(dom, v)) by {
                if exists|k: (int, int)| dom.contains(k) {
                    let k0 = choose|k: (int, int)| dom.contains(k);
                    let j0 = choose|j: int| 0 <= j < s0.len() && pt_key(#[trigger] s0[j]) == k0;
                    assert(n > 0);
                    assert(found);
                    let ja = choose|j: int| 0 <= j < s0.len() && pt_key(#[trigger] s0[j]).0 == mn;
                    assert(dom.contains(pt_key(s0[ja])));
                    assert forall|k: (int, int)| dom.contains(k) implies v <= k.0 by {
                        let j = choose|j: int| 0 <= j < s0.len() && pt_key(#[trigger] s0[j]) == k;
                    }
                } else {
                    if found {
                        let ja = choose|j: int|
                            0 <= j < s0.len() && pt_key(#[trigger] s0[j]).0 == mn;
                        assert(dom.contains(pt_key(s0[ja])));
                        assert(false);
                    }
                }
            }
            lemma_extremes_unique(dom, v);
            assert(min_x(dom) == v);
        }
        let sh = shift_i32 as i16;
        proof {
            assert(sh as int == -min_x(dom));
            assert forall|k: (int, int)| #[trigger] self@.points.dom().contains(k) implies -32768
                <= k.0 + sh <= 32767 by {}
            assert forall|k: (int, int)| #[trigger] self@.hints.dom().contains(k) implies -32768
                <= k.0 + sh <= 32767 by {}
            assert(0 <= self@.width + sh <= 32767) by {
                if found {
                    let ja = choose|j: int| 0 <= j < s0.len() && pt_key(#[trigger] s0[j]).0 == mn;
                    assert(dom.contains(pt_key(s0[ja])));
                }
            }
        }
        self.move_right(sh)
    }

    /// Translates so that the topmost drawn row is row zero.
    pub fn squish_top(self) -> (r: Self)
        requires
            self.wf(),
            0 <= self@.height <= 32767,
            forall|k: (int, int)| #[trigger]
                self@.points.dom().contains(k) ==> 0 <= k.1 < self@.height,
            forall|k: (int, int)| #[trigger]
                self@.hints.dom().contains(k) ==> self@.points.dom().contains(k),
        ensures
            r.wf(),
            r@ == squish_top_v(self@),
            is_min_y(self@.points.dom(), min_y(self@.points.dom())),
    {
        let ghost s0 = self.points.entries@;
        let ghost dom = self@.points.dom();
        proof {
            lemma_pt_map(s0);
        }
        let mut mn: i32 = 32767;
        let mut found = false;
        let mut i: usize = 0;
        let n = self.points.entries.len();
        while i < n
            invariant
                self.wf(),
                s0 == self.points.entries@,
                dom == self@.points.dom(),
                forall|k: (int, int)| #[trigger] dom.contains(k) ==> 0 <= k.1 < self@.height,
                0 <= self@.height <= 32767,
                n == s0.len(),
                0 <= i <= n,
                0 <= mn <= 32767,
                found == (i > 0 && n > 0),
                forall|j: int| 0 <= j < i ==> mn <= pt_key(#[trigger] s0[j]).1,
                found ==> exists|j: int| 0 <= j < i && pt_key(#[trigger] s0[j]).1 == mn,
            decreases n - i,
        {
            let y = self.points.entries[i].0.1;
            proof {
                lemma_pt_map(s0);
                assert(dom.contains(pt_key(s0[i as int])));
            }
            if !found || (y as i32) < mn {
                mn = y as i32;
            }
            found = true;
            i += 1;
        }
        let shift_i32: i32 = if found {
            -mn
        } else {
            0
        };
        proof {
            lemma_pt_map(s0);
            let v: int = if found {
                mn as int
            } else {
                0
            };
            assert(is_min_y(dom, v)) by {
                if exists|k: (int, int)| dom.contains(k) {
                    let k0 = choose|k: (int, int)| dom.contains(k);
                    let j0 = choose|j: int| 0 <= j < s0.len() && pt_key(#[trigger] s0[j]) == k0;
                    assert(n > 0);
                    assert(found);
                    let ja = choose|j: int| 0 <= j < s0.len() && pt_key(#[trigger] s0[j]).1 == mn;
                    assert(dom.contains(pt_key(s0[ja])));
                    assert forall|k: (int, int)| dom.contains(k) implies v <= k.1 by {
                        let j = choose|j: int| 0 <= j < s0.len() && pt_key(#[trigger] s0[j]) == k;
                    }
                } else {
                    if found {
                        let ja = choose|j: int|
                            0 <= j < s0.len() && pt_key(#[trigger] s0[j]).1 == mn;
                        assert(dom.contains(pt_key(s0[ja])));
                        assert(false);
                    }
                }
            }
            lemma_extremes_unique(dom, v);
            assert(min_y(dom) == v);
        }
        let sh = shift_i32 as i16;
        proof {
            assert(sh as int == -min_y(dom));
            assert(0 <= self@.height + sh <= 32767) by {
                if found {
                    let ja = choose|j: int| 0 <= j < s0.len() && pt_key(#[trigger] s0[j]).1 == mn;
                    assert(dom.contains(pt_key(s0[ja])));
                }
            }
        }
        self.move_down(sh)
    }
}

} // verus!

verus! {

/// Replacing the entry at `i` by one with the same key denotes an insert.
proof fn lemma_pt_update(s: Seq<((i16, i16), Vec<i16>)>, i: int, e: ((i16, i16), Vec<i16>))
    requires
        pt_unique(s),
        0 <= i < s.len(),
        pt_key(e) == pt_key(s[i]),
    ensures
        pt_unique(s.update(i, e)),
        pt_map(s.update(i, e)) == pt_map(s).insert(pt_key(e), e.1@),
    decreases s.len(),
{
    let su = s.update(i, e);
    assert(pt_unique(su)) by {
        assert forall|a: int, b: int| 0 <= a < b < su.len() implies pt_key(#[trigger] su[a])
            != pt_key(#[trigger] su[b]) by {
            assert(pt_key(su[a]) == pt_key(s[a]));
            assert(pt_key(su[b]) == pt_key(s[b]));
        }
    }
    if i == s.len() - 1 {
        assert(su.drop_last() =~= s.drop_last());
        assert(pt_map(su) == pt_map(s.drop_last()).insert(pt_key(e), e.1@));
        assert(pt_map(s.drop_last()).insert(pt_key(s.last()), s.last().1@).insert(pt_key(e), e.1@)
            =~= pt_map(s.drop_last()).insert(pt_key(e), e.1@));
    } else {
        assert(pt_unique(s.drop_last())) by {
            assert forall|a: int, b: int| 0 <= a < b < s.drop_last().len() implies pt_key(
                #[trigger] s.drop_last()[a],
            ) != pt_key(#[trigger] s.drop_last()[b]) by {
                assert(s.drop_last()[a] == s[a]);
                assert(s.drop_last()[b] == s[b]);
            }
        }
        lemma_pt_update(s.drop_last(), i, e);
        assert(su.drop_last() =~= s.drop_last().update(i, e));
        assert(su.last() == s.last());
        assert(pt_map(su) == pt_map(s.drop_last().update(i, e)).insert(pt_key(s.last()), s.last().1@));
        assert(pt_key(e) != pt_key(s.last())) by {
            assert(pt_key(s[i]) != pt_key(s[s.len() - 1]));
        }
        assert(pt_map(s.drop_last()).insert(pt_key(e), e.1@).insert(pt_key(s.last()), s.last().1@)
            =~= pt_map(s.drop_last()).insert(pt_key(s.last()), s.last().1@).insert(pt_key(e), e.1@));
    }
}

proof fn lemma_hk_update(s: Seq<((i16, i16), Option<i16>)>, i: int, e: ((i16, i16), Option<i16>))
    requires
        hk_unique(s),
        0 <= i < s.len(),
        hk_key(e) == hk_key(s[i]),
    ensures
        hk_unique(s.update(i, e)),
        hk_map(s.update(i, e)) == hk_map(s).insert(hk_key(e), e.1),
    decreases s.len(),
{
    let su = s.update(i, e);
    assert(hk_unique(su)) by {
        assert forall|a: int, b: int| 0 <= a < b < su.len() implies hk_key(#[trigger] su[a])
            != hk_key(#[trigger] su[b]) by {
            assert(hk_key(su[a]) == hk_key(s[a]));
            assert(hk_key(su[b]) == hk_key(s[b]));
        }
    }
    if i == s.len() - 1 {
        assert(su.drop_last() =~= s.drop_last());
        assert(hk_map(su) == hk_map(s.drop_last()).insert(hk_key(e), e.1));
        assert(hk_map(s.drop_last()).insert(hk_key(s.last()), s.last().1).insert(hk_key(e), e.1)
            =~= hk_map(s.drop_last()).insert(hk_key(e), e.1));
    } else {
        assert(hk_unique(s.drop_last())) by {
            assert forall|a: int, b: int| 0 <= a < b < s.drop_last().len() implies hk_key(
                #[trigger] s.drop_last()[a],
            ) != hk_key(#[trigger] s.drop_last()[b]) by {
                assert(s.drop_last()[a] == s[a]);
                assert(s.drop_last()[b] == s[b]);
            }
        }
        lemma_hk_update(s.drop_last(), i, e);
        assert(su.drop_last() =~= s.drop_last().update(i, e));
        assert(su.last() == s.last());
        assert(hk_map(su) == hk_map(s.drop_last().update(i, e)).insert(hk_key(s.last()), s.last().1));
        assert(hk_key(e) != hk_key(s.last())) by {
            assert(hk_key(s[i]) != hk_key(s[s.len() - 1]));
        }
        assert(hk_map(s.drop_last()).insert(hk_key(e), e.1).insert(hk_key(s.last()), s.last().1)
            =~= hk_map(s.drop_last()).insert(hk_key(s.last()), s.last().1).insert(hk_key(e), e.1));
    }
}

impl PointMap {
    /// Records or replaces the position at a screen coordinate.
    pub fn insert(&mut self, x: i16, y: i16, val: Vec<i16>)
        requires
            old(self).wf(),
        ensures
            final(self).wf(),
            final(self)@ == old(self)@.insert((x as int, y as int), val@),
    {
        let ghost s0 = self.entries@;
        proof {
            lemma_pt_map(s0);
        }
        let mut i: usize = 0;
        let n = self.entries.len();
        while i < n
            invariant
                *self == *old(self),
                self.wf(),
                s0 == self.entries@,
                n == s0.len(),
                0 <= i <= n,
                forall|j: int| 0 <= j < i ==> pt_key(#[trigger] s0[j]) != (x as int, y as int),
            decreases n - i,
        {
            let kx = self.entries[i].0.0;
            let ky = self.entries[i].0.1;
            if kx == x && ky == y {
                let ghost e = ((x, y), val);
                proof {
                    lemma_pt_update(s0, i as int, e);
                }
                self.entries[i] = ((x, y), val);
                proof {
                    assert(self.entries@ =~= s0.update(i as int, e));
                }
                return ;
            }
            i += 1;
        }
        proof {
            lemma_pt_map(s0);
            if self@.dom().contains((x as int, y as int)) {
                let j = choose|j: int|
                    0 <= j < s0.len() && pt_key(#[trigger] s0[j]) == (x as int, y as int);
                assert(false);
            }
        }
        let ghost s1 = self.entries@;
        self.entries.push(((x, y), val));
        proof {
            assert(self.entries@.drop_last() =~= s1);
            assert forall|a: int, b: int| 0 <= a < b < self.entries@.len() implies pt_key(
                #[trigger] self.entries@[a],
            ) != pt_key(#[trigger] self.entries@[b]) by {
                if b < self.entries@.len() - 1 {
                    assert(self.entries@[a] == s1[a]);
                    assert(self.entries@[b] == s1[b]);
                } else {
                    assert(self.entries@[a] == s1[a]);
                }
            }
        }
    }
}

impl HintMap {
    /// Records or replaces the hint at a screen coordinate.
    pub fn insert(&mut self, x: i16, y: i16, val: Option<i16>)
        requires
            old(self).wf(),
        ensures
            final(self).wf(),
            final(self)@ == old(self)@.insert((x as int, y as int), val),
    {
        let ghost s0 = self.entries@;
        proof {
            lemma_hk_map(s0);
        }
        let mut i: usize = 0;
        let n = self.entries.len();
        while i < n
            invariant
                *self == *old(self),
                self.wf(),
                s0 == self.entries@,
                n == s0.len(),
                0 <= i <= n,
                forall|j: int| 0 <= j < i ==> hk_key(#[trigger] s0[j]) != (x as int, y as int),
            decreases n - i,
        {
            let kx = self.entries[i].0.0;
            let ky = self.entries[i].0.1;
            if kx == x && ky == y {
                let ghost e = ((x, y), val);
                proof {
                    lemma_hk_update(s0, i as int, e);
                }
                self.entries[i] = ((x, y), val);
                proof {
                    assert(self.entries@ =~= s0.update(i as int, e));
                }
                return ;
            }
            i += 1;
        }
        proof {
            lemma_hk_map(s0);
            if self@.dom().contains((x as int, y as int)) {
                let j = choose|j: int|
                    0 <= j < s0.len() && hk_key(#[trigger] s0[j]) == (x as int, y as int);
                assert(false);
            }
        }
        let ghost s1 = self.entries@;
        self.entries.push(((x, y), val));
        proof {
            assert(self.entries@.drop_last() =~= s1);
            assert forall|a: int, b: int| 0 <= a < b < self.entries@.len() implies hk_key(
                #[trigger] self.entries@[a],
            ) != hk_key(#[trigger] self.entries@[b]) by {
                if b < self.entries@.len() - 1 {
                    assert(self.entries@[a] == s1[a]);
                    assert(self.entries@[b] == s1[b]);
                } else {
                    assert(self.entries@[a] == s1[a]);
                }
            }
        }
    }
}

} // verus!

verus! {

impl Layout {
    /// Overlays another layout onto this one: where both hold a screen
    /// coordinate the other's entry wins, and the bounding box covers both.
    pub fn union(&mut self, other: Self)
        requires
            old(self).wf(),
            other.wf(),
        ensures
            final(self).wf(),
            final(self)@ == union_v(old(self)@, other@),
    {
        let ghost a = old(self)@;
        let ghost ob = other@;
        if other.width > self.width {
            self.width = other.width;
        }
        if other.height > self.height {
            self.height = other.height;
        }
        let ghost o0 = other.points.entries@;
        proof {
            lemma_pt_map(o0);
            assert(o0.take(0) =~= Seq::<((i16, i16), Vec<i16>)>::empty());
            assert(a.points.union_prefer_right(pt_map(o0.take(0))) =~= a.points);
        }
        let mut i: usize = 0;
        let n = other.points.entries.len();
        while i < n
            invariant
                self.points.wf(),
                self.keybind_hints == old(self).keybind_hints,
                self.width as int == spec_max(a.width, ob.width),
                self.height as int == spec_max(a.height, ob.height),
                other.wf(),
                o0 == other.points.entries@,
                n == o0.len(),
                0 <= i <= n,
                self.points@ == a.points.union_prefer_right(pt_map(o0.take(i as int))),
            decreases n - i,
        {
            let x = other.points.entries[i].0.0;
            let y = other.points.entries[i].0.1;
            let v = other.points.entries[i].1.clone();
            proof {
                assert(v@ =~= o0[i as int].1@);
            }
            self.points.insert(x, y, v);
            proof {
                assert(o0.take(i as int + 1).drop_last() =~= o0.take(i as int));
                assert(o0.take(i as int + 1).last() == o0[i as int]);
                assert(pt_map(o0.take(i as int + 1)) == pt_map(o0.take(i as int)).insert(
                    pt_key(o0[i as int]),
                    o0[i as int].1@,
                ));
                assert(a.points.union_prefer_right(pt_map(o0.take(i as int + 1)))
                    =~= a.points.union_prefer_right(pt_map(o0.take(i as int))).insert(
                    pt_key(o0[i as int]),
                    o0[i as int].1@,
                ));
            }
            i += 1;
        }
        proof {
            assert(o0.take(n as int) =~= o0);
        }
        let ghost h0 = other.keybind_hints.entries@;
        proof {
            lemma_hk_map(h0);
            assert(h0.take(0) =~= Seq::<((i16, i16), Option<i16>)>::empty());
            assert(a.hints.union_prefer_right(hk_map(h0.take(0))) =~= a.hints);
        }
        let mut i2: usize = 0;
        let nh = other.keybind_hints.entries.len();
        while i2 < nh
            invariant
                self.keybind_hints.wf(),
                self.points@ == a.points.union_prefer_right(ob.points),
                self.points.wf(),
                self.width as int == spec_max(a.width, ob.width),
                self.height as int == spec_max(a.height, ob.height),
                other.wf(),
                h0 == other.keybind_hints.entries@,
                nh == h0.len(),
                0 <= i2 <= nh,
                self.keybind_hints@ == a.hints.union_prefer_right(hk_map(h0.take(i2 as int))),
            decreases nh - i2,
        {
            let x = other.keybind_hints.entries[i2].0.0;
            let y = other.keybind_hints.entries[i2].0.1;
            let v = other.keybind_hints.entries[i2].1;
            self.keybind_hints.insert(x, y, v);
            proof {
                assert(h0.take(i2 as int + 1).drop_last() =~= h0.take(i2 as int));
                assert(h0.take(i2 as int + 1).last() == h0[i2 as int]);
                assert(hk_map(h0.take(i2 as int + 1)) == hk_map(h0.take(i2 as int)).insert(
                    hk_key(h0[i2 as int]),
                    h0[i2 as int].1,
                ));
                assert(a.hints.union_prefer_right(hk_map(h0.take(i2 as int + 1)))
                    =~= a.hints.union_prefer_right(hk_map(h0.take(i2 as int))).insert(
                    hk_key(h0[i2 as int]),
                    h0[i2 as int].1,
                ));
            }
            i2 += 1;
        }
        proof {
            assert(h0.take(nh as int) =~= h0);
            assert(final(self)@ == union_v(a, ob));
        }
    }

    /// Joins another layout to the right of this one, separated by a gap.
    pub fn join_horiz(&mut self, other: Self, gap: i16)
        requires
            old(self).wf(),
            other.wf(),
            0 <= gap,
            0 <= old(self)@.width,
            0 <= other@.width,
            old(self)@.width + gap + other@.width <= 32767,
            forall|k: (int, int)| #[trigger]
                other@.points.dom().contains(k) ==> 0 <= k.0 < other@.width,
            forall|k: (int, int)| #[trigger]
                other@.hints.dom().contains(k) ==> 0 <= k.0 < other@.width,
        ensures
            final(self).wf(),
            final(self)@ == join_horiz_v(old(self)@, other@, gap as int),
    {
        let shift = ((self.width as i32) + (gap as i32)) as i16;
        let moved = other.move_right(shift);
        self.union(moved);
    }

    /// Joins another layout below this one, separated by a gap.
    pub fn join_vert(&mut self, other: Self, gap: i16)
        requires
            old(self).wf(),
            other.wf(),
            0 <= gap,
            0 <= old(self)@.height,
            0 <= other@.height,
            old(self)@.height + gap + other@.height <= 32767,
            forall|k: (int, int)| #[trigger]
                other@.points.dom().contains(k) ==> 0 <= k.1 < other@.height,
            forall|k: (int, int)| #[trigger]
                other@.hints.dom().contains(k) ==> 0 <= k.1 < other@.height,
        ensures
            final(self).wf(),
            final(self)@ == join_vert_v(old(self)@, other@, gap as int),
    {
        let shift = ((self.height as i32) + (gap as i32)) as i16;
        let moved = other.move_down(shift);
        self.union(moved);
    }

    /// Squishes horizontally: the leftmost drawn column becomes column zero
    /// and the width becomes tight.
    pub fn squish_horiz(self) -> (r: Self)
        requires
            self.wf(),
            bounded_v(self@),
            forall|k: (int, int)| #[trigger]
                self@.hints.dom().contains(k) ==> self@.points.dom().contains(k),
        ensures
            r.wf(),
            r@ == squish_horiz_v(self@),
            is_min_x(self@.points.dom(), min_x(self@.points.dom())),
            bounded_v(r@),
            0 <= r@.width <= self@.width,
            r@.height == self@.height,
    {
        let ghost lv = self@;
        let mut mid = self.squish_left();
        let ghost mn = min_x(lv.points.dom());
        proof {
            assert(0 <= mn) by {
                if exists|k: (int, int)| lv.points.dom().contains(k) {
                    let k0 = choose|k: (int, int)| lv.points.dom().contains(k) && k.0 == mn;
                }
            }
            assert forall|k: (int, int)| #[trigger] mid@.points.dom().contains(k) implies 0 <= k.0
                <= 32766 && 0 <= k.0 < mid@.width && 0 <= k.1 < mid@.height by {
                assert(lv.points.dom().contains((k.0 + mn, k.1)));
            }
        }
        mid.squish_right();
        proof {
            let mx = max_x(squish_left_v(lv).points.dom());
            assert(mid@.width == mx + 1);
            assert(mx + 1 >= 0) by {
                if exists|k: (int, int)| squish_left_v(lv).points.dom().contains(k) {
                    let k0 = choose|k: (int, int)|
                        squish_left_v(lv).points.dom().contains(k) && k.0 == mx;
                    assert(lv.points.dom().contains((k0.0 + mn, k0.1)));
                } else {
                    assert(mx == -1);
                }
            }
            assert(mx + 1 <= lv.width) by {
                if exists|k: (int, int)| squish_left_v(lv).points.dom().contains(k) {
                    let k0 = choose|k: (int, int)|
                        squish_left_v(lv).points.dom().contains(k) && k.0 == mx;
                    assert(lv.points.dom().contains((k0.0 + mn, k0.1)));
                    assert(k0.0 + mn < lv.width);
                } else {
                    assert(mx == -1);
                }
            }
            assert(bounded_v(mid@)) by {
                assert forall|k: (int, int)| #[trigger] mid@.points.dom().contains(k) implies 0
                    <= k.0 < mid@.width && 0 <= k.1 < mid@.height by {
                    assert(lv.points.dom().contains((k.0 + mn, k.1)));
                    assert(k.0 <= mx);
                }
                assert forall|k: (int, int)| #[trigger] mid@.hints.dom().contains(k) implies 0
                    <= k.0 < mid@.width && 0 <= k.1 < mid@.height by {
                    assert(lv.hints.dom().contains((k.0 + mn, k.1)));
                    assert(lv.points.dom().contains((k.0 + mn, k.1)));
                    assert(mid@.points.dom().contains(k));
                    assert(k.0 <= mx);
                }
            }
        }
        mid
    }

    /// Squishes vertically: the topmost drawn row becomes row zero and the
    /// height becomes tight.
    pub fn squish_vert(self) -> (r: Self)
        requires
            self.wf(),
            bounded_v(self@),
            forall|k: (int, int)| #[trigger]
                self@.hints.dom().contains(k) ==> self@.points.dom().contains(k),
        ensures
            r.wf(),
            r@ == squish_vert_v(self@),
            is_min_y(self@.points.dom(), min_y(self@.points.dom())),
            bounded_v(r@),
            0 <= r@.height <= self@.height,
            r@.width == self@.width,
    {
        let ghost lv = self@;
        let mut mid = self.squish_top();
        let ghost mn = min_y(lv.points.dom());
        proof {
            assert(0 <= mn) by {
                if exists|k: (int, int)| lv.points.dom().contains(k) {
                    let k0 = choose|k: (int, int)| lv.points.dom().contains(k) && k.1 == mn;
                }
            }
            assert forall|k: (int, int)| #[trigger] mid@.points.dom().contains(k) implies 0 <= k.1
                <= 32766 && 0 <= k.0 < mid@.width && 0 <= k.1 < mid@.height by {
                assert(lv.points.dom().contains((k.0, k.1 + mn)));
            }
        }
        mid.squish_bottom();
        proof {
            let mx = max_y(squish_top_v(lv).points.dom());
            assert(mid@.height == mx + 1);
            assert(mx + 1 >= 0) by {
                if exists|k: (int, int)| squish_top_v(lv).points.dom().contains(k) {
                    let k0 = choose|k: (int, int)|
                        squish_top_v(lv).points.dom().contains(k) && k.1 == mx;
                    assert(lv.points.dom().contains((k0.0, k0.1 + mn)));
                } else {
                    assert(mx == -1);
                }
            }
            assert(mx + 1 <= lv.height) by {
                if exists|k: (int, int)| squish_top_v(lv).points.dom().contains(k) {
                    let k0 = choose|k: (int, int)|
                        squish_top_v(lv).points.dom().contains(k) && k.1 == mx;
                    assert(lv.points.dom().contains((k0.0, k0.1 + mn)));
                    assert(k0.1 + mn < lv.height);
                } else {
                    assert(mx == -1);
                }
            }
            assert(bounded_v(mid@)) by {
                assert forall|k: (int, int)| #[trigger] mid@.points.dom().contains(k) implies 0
                    <= k.0 < mid@.width && 0 <= k.1 < mid@.height by {
                    assert(lv.points.dom().contains((k.0, k.1 + mn)));
                    assert(k.1 <= mx);
                }
                assert forall|k: (int, int)| #[trigger] mid@.hints.dom().contains(k) implies 0
                    <= k.0 < mid@.width && 0 <= k.1 < mid@.height by {
                    assert(lv.hints.dom().contains((k.0, k.1 + mn)));
                    assert(lv.points.dom().contains((k.0, k.1 + mn)));
                    assert(mid@.points.dom().contains(k));
                    assert(k.1 <= mx);
                }
            }
        }
        mid
    }

    /// Squishes in both directions.
    pub fn squish_all(self) -> (r: Self)
        requires
            self.wf(),
            0 <= self@.width <= 32767,
            0 <= self@.height <= 32767,
            forall|k: (int, int)| #[trigger]
                self@.points.dom().contains(k) ==> 0 <= k.0 < self@.width && 0 <= k.1
                    < self@.height,
            forall|k: (int, int)| #[trigger]
                self@.hints.dom().contains(k) ==> self@.points.dom().contains(k),
        ensures
            r.wf(),
            r@ == squish_all_v(self@),
    {
        let ghost lv = self@;
        let mid = self.squish_horiz();
        proof {
            let mn = min_x(lv.points.dom());
            assert(0 <= mn) by {
                if exists|k: (int, int)| lv.points.dom().contains(k) {
                    let k0 = choose|k: (int, int)| lv.points.dom().contains(k) && k.0 == mn;
                }
            }
            assert forall|k: (int, int)| #[trigger] mid@.points.dom().contains(k) implies 0 <= k.1
                < mid@.height by {
                assert(lv.points.dom().contains((k.0 + mn, k.1)));
            }
            assert forall|k: (int, int)| #[trigger] mid@.hints.dom().contains(k) implies
                mid@.points.dom().contains(k) by {
                assert(lv.hints.dom().contains((k.0 + mn, k.1)));
                assert(lv.points.dom().contains((k.0 + mn, k.1)));
            }
            assert(0 <= mid@.height <= 32767);
        }
        mid.squish_vert()
    }
}

} // verus!

verus! {

/// The views of a list of layouts.
pub open spec fn lviews(s: Seq<Layout>) -> Seq<LayoutV> {
    Seq::new(s.len(), |i: int| s[i]@)
}

/// An empty layout value.
pub open spec fn empty_v() -> LayoutV {
    LayoutV {
        width: 0,
        height: 0,
        points: Map::empty(),
        hints: Map::empty(),
    }
}

/// A row of layouts joined left to right with a gap between neighbours.
pub open spec fn concat_horiz_v(ls: Seq<LayoutV>, gap: int) -> LayoutV
    decreases ls.len(),
{
    if ls.len() == 0 {
        empty_v()
    } else if ls.len() == 1 {
        ls[0]
    } else {
        join_horiz_v(concat_horiz_v(ls.drop_last(), gap), ls.last(), gap)
    }
}

/// A column of layouts joined top to bottom with a gap between neighbours.
pub open spec fn concat_vert_v(ls: Seq<LayoutV>, gap: int) -> LayoutV
    decreases ls.len(),
{
    if ls.len() == 0 {
        empty_v()
    } else if ls.len() == 1 {
        ls[0]
    } else {
        join_vert_v(concat_vert_v(ls.drop_last(), gap), ls.last(), gap)
    }
}

/// The total width of a row: the widths plus one gap per joint.
pub open spec fn row_width(ls: Seq<LayoutV>, gap: int) -> int
    decreases ls.len(),
{
    if ls.len() == 0 {
        0
    } else if ls.len() == 1 {
        ls[0].width
    } else {
        row_width(ls.drop_last(), gap) + gap + ls.last().width
    }
}

pub open spec fn col_height(ls: Seq<LayoutV>, gap: int) -> int
    decreases ls.len(),
{
    if ls.len() == 0 {
        0
    } else if ls.len() == 1 {
        ls[0].height
    } else {
        col_height(ls.drop_last(), gap) + gap + ls.last().height
    }
}

/// A prefix of a row is no wider than the whole row.
pub proof fn lemma_row_width_mono(ls: Seq<LayoutV>, gap: int, k: int)
    requires
        0 <= k <= ls.len(),
        gap >= 0,
        forall|i: int| 0 <= i < ls.len() ==> (#[trigger] ls[i]).width >= 0,
    ensures
        0 <= row_width(ls.take(k), gap) <= row_width(ls, gap),
    decreases ls.len() - k,
{
    if k == ls.len() {
        assert(ls.take(k) =~= ls);
        assert(row_width(ls, gap) >= 0) by {
            lemma_row_width_nonneg(ls, gap);
        }
    } else {
        lemma_row_width_mono(ls, gap, k + 1);
        assert(ls.take(k + 1).drop_last() =~= ls.take(k));
        assert forall|i: int| 0 <= i < ls.take(k).len() implies (#[trigger] ls.take(k)[i]).width
            >= 0 by {
            assert(ls.take(k)[i] == ls[i]);
        }
        lemma_row_width_nonneg(ls.take(k), gap);
        if k > 0 {
            assert(ls.take(k + 1).last() == ls[k]);
            assert(ls[k].width >= 0);
            assert(row_width(ls.take(k + 1), gap) == row_width(ls.take(k), gap) + gap
                + ls[k].width);
        }
    }
}

pub proof fn lemma_row_width_nonneg(ls: Seq<LayoutV>, gap: int)
    requires
        gap >= 0,
        forall|i: int| 0 <= i < ls.len() ==> (#[trigger] ls[i]).width >= 0,
    ensures
        row_width(ls, gap) >= 0,
    decreases ls.len(),
{
    if ls.len() > 1 {
        assert forall|i: int| 0 <= i < ls.drop_last().len() implies (#[trigger] ls.drop_last()[
        i]).width >= 0 by {
            assert(ls.drop_last()[i] == ls[i]);
        }
        lemma_row_width_nonneg(ls.drop_last(), gap);
    }
}

pub proof fn lemma_col_height_mono(ls: Seq<LayoutV>, gap: int, k: int)
    requires
        0 <= k <= ls.len(),
        gap >= 0,
        forall|i: int| 0 <= i < ls.len() ==> (#[trigger] ls[i]).height >= 0,
    ensures
        0 <= col_height(ls.take(k), gap) <= col_height(ls, gap),
    decreases ls.len() - k,
{
    if k == ls.len() {
        assert(ls.take(k) =~= ls);
        assert(col_height(ls, gap) >= 0) by {
            lemma_col_height_nonneg(ls, gap);
        }
    } else {
        lemma_col_height_mono(ls, gap, k + 1);
        assert(ls.take(k + 1).drop_last() =~= ls.take(k));
        assert forall|i: int| 0 <= i < ls.take(k).len() implies (#[trigger] ls.take(k)[i]).height
            >= 0 by {
            assert(ls.take(k)[i] == ls[i]);
        }
        lemma_col_height_nonneg(ls.take(k), gap);
        if k > 0 {
            assert(ls.take(k + 1).last() == ls[k]);
            assert(ls[k].height >= 0);
            assert(col_height(ls.take(k + 1), gap) == col_height(ls.take(k), gap) + gap
                + ls[k].height);
        }
    }
}

pub proof fn lemma_col_height_nonneg(ls: Seq<LayoutV>, gap: int)
    requires
        gap >= 0,
        forall|i: int| 0 <= i < ls.len() ==> (#[trigger] ls[i]).height >= 0,
    ensures
        col_height(ls, gap) >= 0,
    decreases ls.len(),
{
    if ls.len() > 1 {
        assert forall|i: int| 0 <= i < ls.drop_last().len() implies (#[trigger] ls.drop_last()[
        i]).height >= 0 by {
            assert(ls.drop_last()[i] == ls[i]);
        }
        lemma_col_height_nonneg(ls.drop_last(), gap);
    }
}

impl Layout {
    /// Joins a non-empty list of layouts left to right.
    pub fn concat_horiz(layouts: Vec<Layout>, gap: i16) -> (r: Layout)
        requires
            layouts@.len() >= 1,
            0 <= gap,
            forall|i: int| 0 <= i < layouts@.len() ==> (#[trigger] layouts@[i]).wf(),
            forall|i: int, k: (int, int)|
                0 <= i < layouts@.len() && #[trigger] layouts@[i]@.points.dom().contains(k)
                    ==> 0 <= k.0 < layouts@[i]@.width,
            forall|i: int, k: (int, int)|
                0 <= i < layouts@.len() && #[trigger] layouts@[i]@.hints.dom().contains(k)
                    ==> 0 <= k.0 < layouts@[i]@.width,
            forall|i: int| 0 <= i < layouts@.len() ==> (#[trigger] layouts@[i])@.width >= 0,
            row_width(lviews(layouts@), gap as int) <= 32767,
        ensures
            r.wf(),
            r@ == concat_horiz_v(lviews(layouts@), gap as int),
    {
        let ghost orig = layouts@;
        let ghost lvs = lviews(layouts@);
        let n = layouts.len();
        let mut rest = layouts;
        let mut out = rest.remove(0);
        let mut k: usize = 1;
        proof {
            assert(lvs.take(1) =~= seq![lvs[0]]);
            assert(concat_horiz_v(lvs.take(1), gap as int) == lvs[0]);
            assert(row_width(lvs.take(1), gap as int) == lvs[0].width);
        }
        while k < n
            invariant
                1 <= k <= n,
                n == orig.len(),
                lvs == lviews(orig),
                lvs.len() == n,
                rest@.len() == n - k,
                forall|i: int| 0 <= i < rest@.len() ==> (#[trigger] rest@[i]) == orig[k + i],
                forall|i: int| 0 <= i < orig.len() ==> (#[trigger] orig[i]).wf(),
                forall|i: int, kk: (int, int)|
                    0 <= i < orig.len() && #[trigger] orig[i]@.points.dom().contains(kk)
                        ==> 0 <= kk.0 < orig[i]@.width,
                forall|i: int, kk: (int, int)|
                    0 <= i < orig.len() && #[trigger] orig[i]@.hints.dom().contains(kk)
                        ==> 0 <= kk.0 < orig[i]@.width,
                forall|i: int| 0 <= i < orig.len() ==> (#[trigger] orig[i])@.width >= 0,
                0 <= gap,
                row_width(lvs, gap as int) <= 32767,
                out.wf(),
                out@ == concat_horiz_v(lvs.take(k as int), gap as int),
                out@.width == row_width(lvs.take(k as int), gap as int),
            decreases n - k,
        {
            let nxt = rest.remove(0);
            proof {
                assert(nxt == orig[k as int]);
                assert(nxt@ == lvs[k as int]);
                lemma_row_width_mono(lvs, gap as int, k as int + 1);
                assert(lvs.take(k as int + 1).drop_last() =~= lvs.take(k as int));
                assert(lvs.take(k as int + 1).last() == lvs[k as int]);
                assert(row_width(lvs.take(k as int + 1), gap as int) == out@.width + gap
                    + nxt@.width);
            }
            out.join_horiz(nxt, gap);
            k += 1;
        }
        proof {
            assert(lvs.take(n as int) =~= lvs);
        }
        out
    }

    /// Joins a non-empty list of layouts top to bottom.
    pub fn concat_vert(layouts: Vec<Layout>, gap: i16) -> (r: Layout)
        requires
            layouts@.len() >= 1,
            0 <= gap,
            forall|i: int| 0 <= i < layouts@.len() ==> (#[trigger] layouts@[i]).wf(),
            forall|i: int, k: (int, int)|
                0 <= i < layouts@.len() && #[trigger] layouts@[i]@.points.dom().contains(k)
                    ==> 0 <= k.1 < layouts@[i]@.height,
            forall|i: int, k: (int, int)|
                0 <= i < layouts@.len() && #[trigger] layouts@[i]@.hints.dom().contains(k)
                    ==> 0 <= k.1 < layouts@[i]@.height,
            forall|i: int| 0 <= i < layouts@.len() ==> (#[trigger] layouts@[i])@.height >= 0,
            col_height(lviews(layouts@), gap as int) <= 32767,
        ensures
            r.wf(),
            r@ == concat_vert_v(lviews(layouts@), gap as int),
    {
        let ghost orig = layouts@;
        let ghost lvs = lviews(layouts@);
        let n = layouts.len();
        let mut rest = layouts;
        let mut out = rest.remove(0);
        let mut k: usize = 1;
        proof {
            assert(lvs.take(1) =~= seq![lvs[0]]);
            assert(concat_vert_v(lvs.take(1), gap as int) == lvs[0]);
            assert(col_height(lvs.take(1), gap as int) == lvs[0].height);
        }
        while k < n
            invariant
                1 <= k <= n,
                n == orig.len(),
                lvs == lviews(orig),
                lvs.len() == n,
                rest@.len() == n - k,
                forall|i: int| 0 <= i < rest@.len() ==> (#[trigger] rest@[i]) == orig[k + i],
                forall|i: int| 0 <= i < orig.len() ==> (#[trigger] orig[i]).wf(),
                forall|i: int, kk: (int, int)|
                    0 <= i < orig.len() && #[trigger] orig[i]@.points.dom().contains(kk)
                        ==> 0 <= kk.1 < orig[i]@.height,
                forall|i: int, kk: (int, int)|
                    0 <= i < orig.len() && #[trigger] orig[i]@.hints.dom().contains(kk)
                        ==> 0 <= kk.1 < orig[i]@.height,
                forall|i: int| 0 <= i < orig.len() ==> (#[trigger] orig[i])@.height >= 0,
                0 <= gap,
                col_height(lvs, gap as int) <= 32767,
                out.wf(),
                out@ == concat_vert_v(lvs.take(k as int), gap as int),
                out@.height == col_height(lvs.take(k as int), gap as int),
            decreases n - k,
        {
            let nxt = rest.remove(0);
            proof {
                assert(nxt == orig[k as int]);
                assert(nxt@ == lvs[k as int]);
                lemma_col_height_mono(lvs, gap as int, k as int + 1);
                assert(lvs.take(k as int + 1).drop_last() =~= lvs.take(k as int));
                assert(lvs.take(k as int + 1).last() == lvs[k as int]);
                assert(col_height(lvs.take(k as int + 1), gap as int) == out@.height + gap
                    + nxt@.height);
            }
            out.join_vert(nxt, gap);
            k += 1;
        }
        proof {
            assert(lvs.take(n as int) =~= lvs);
        }
        out
    }
}

} // verus!

verus! {

/// Counts the boundary coordinates of a position.
fn count_bnd(n: i16, p: &Vec<i16>) -> (c: usize)
    requires
        -32767 <= n,
    ensures
        c as int == bnd_count(n as int, p@),
{
    let mut cnt: usize = 0;
    let mut j: usize = 0;
    while j < p.len()
        invariant
            -32767 <= n,
            0 <= j <= p@.len(),
            cnt <= j,
            cnt as int == bnd_count(n as int, p@.take(j as int)),
        decreases p@.len() - j,
    {
        proof {
            assert(p@.take(j as int + 1).drop_last() =~= p@.take(j as int));
            assert(p@.take(j as int + 1).last() == p@[j as int]);
        }
        if p[j] == n || p[j] == -n {
            cnt += 1;
        }
        j += 1;
    }
    proof {
        assert(p@.take(p@.len() as int) =~= p@);
    }
    cnt
}

/// The point map filtered to positions with at most one boundary coordinate.
pub open spec fn cfilter(m: Map<(int, int), Seq<i16>>, n: int) -> Map<(int, int), Seq<i16>> {
    Map::new(
        |k: (int, int)| m.dom().contains(k) && bnd_count(n, m[k]) <= 1,
        |k: (int, int)| m[k],
    )
}

/// The hint map after the re-tagging for slice value `i`.
pub open spec fn rfilter(m: Map<(int, int), Option<i16>>, i: int, n: int, d: int) -> Map<
    (int, int),
    Option<i16>,
> {
    Map::new(
        |k: (int, int)| m.dom().contains(k) && retag_keep(m[k], i, n),
        |k: (int, int)| retag_val(m[k], i, n, d),
    )
}

impl Layout {
    /// Discards the points whose position holds two or more boundary
    /// coordinates; hints and the bounding box stay.
    /// Discards the points whose position holds two or more boundary
    /// coordinates; hints and the bounding box stay.
    pub fn clean(self, n: i16) -> (r: Self)
        requires
            self.wf(),
            -32767 <= n,
        ensures
            r.wf(),
            r@ == clean_v(self@, n as int),
    {
        let ghost lv = self@;
        let ghost s0 = self.points.entries@;
        proof {
            lemma_pt_map(s0);
        }
        let mut pts: Vec<((i16, i16), Vec<i16>)> = Vec::new();
        let mut i: usize = 0;
        let cnt = self.points.entries.len();
        proof {
            assert(s0.take(0) =~= Seq::<((i16, i16), Vec<i16>)>::empty());
            assert(pt_map(pts@) =~= cfilter(pt_map(s0.take(0)), n as int));
        }
        while i < cnt
            invariant
                self.wf(),
                lv == self@,
                s0 == self.points.entries@,
                -32767 <= n,
                cnt == s0.len(),
                0 <= i <= cnt,
                pt_unique(pts@),
                pt_map(pts@) == cfilter(pt_map(s0.take(i as int)), n as int),
            decreases cnt - i,
        {
            let c = count_bnd(n, &self.points.entries[i].1);
            let ghost pts0 = pts@;
            let ghost prefix = pt_map(s0.take(i as int));
            proof {
                assert(s0.take(i as int + 1).drop_last() =~= s0.take(i as int));
                assert(s0.take(i as int + 1).last() == s0[i as int]);
                assert(pt_map(s0.take(i as int + 1)) == prefix.insert(
                    pt_key(s0[i as int]),
                    s0[i as int].1@,
                ));
                assert(!prefix.dom().contains(pt_key(s0[i as int]))) by {
                    assert(pt_unique(s0.take(i as int))) by {
                        assert forall|a: int, b: int|
                            0 <= a < b < s0.take(i as int).len() implies pt_key(
                            #[trigger] s0.take(i as int)[a],
                        ) != pt_key(#[trigger] s0.take(i as int)[b]) by {
                            assert(s0.take(i as int)[a] == s0[a]);
                            assert(s0.take(i as int)[b] == s0[b]);
                        }
                    }
                    lemma_pt_map(s0.take(i as int));
                    if prefix.dom().contains(pt_key(s0[i as int])) {
                        let j = choose|j: int|
                            0 <= j < s0.take(i as int).len() && pt_key(
                                #[trigger] s0.take(i as int)[j],
                            ) == pt_key(s0[i as int]);
                        assert(pt_key(s0[j]) == pt_key(s0[i as int]));
                        assert(false);
                    }
                }
            }
            if c <= 1 {
                let x = self.points.entries[i].0.0;
                let y = self.points.entries[i].0.1;
                let v = self.points.entries[i].1.clone();
                proof {
                    assert(v@ =~= s0[i as int].1@);
                    lemma_pt_map(pts0);
                    assert(!pt_map(pts0).dom().contains(pt_key(s0[i as int])));
                }
                pts.push(((x, y), v));
                proof {
                    assert(pts@.drop_last() =~= pts0);
                    assert(pts@.last() == pts@[pts@.len() - 1]);
                    assert(pt_key(pts@[pts@.len() - 1]) == pt_key(s0[i as int]));
                    assert(pt_unique(pts@)) by {
                        assert forall|a: int, b: int| 0 <= a < b < pts@.len() implies pt_key(
                            #[trigger] pts@[a],
                        ) != pt_key(#[trigger] pts@[b]) by {
                            if b < pts@.len() - 1 {
                                assert(pts@[a] == pts0[a]);
                                assert(pts@[b] == pts0[b]);
                            } else {
                                assert(pts@[a] == pts0[a]);
                                lemma_pt_map(pts0);
                            }
                        }
                    }
                    assert(pt_map(pts@) == pt_map(pts0).insert(pt_key(s0[i as int]), s0[i as int].1@));
                    assert(pt_map(pts@) =~= cfilter(pt_map(s0.take(i as int + 1)), n as int));
                }
            } else {
                proof {
                    assert(pt_map(pts@) =~= cfilter(pt_map(s0.take(i as int + 1)), n as int));
                }
            }
            i += 1;
        }
        let r = Layout {
            width: self.width,
            height: self.height,
            points: PointMap { entries: pts },
            keybind_hints: self.keybind_hints,
        };
        proof {
            assert(s0.take(cnt as int) =~= s0);
            assert(r@.points =~= clean_v(lv, n as int).points);
            assert(r@ == clean_v(lv, n as int));
        }
        r
    }

    /// Appends a coordinate to every stored position.
    pub fn push_all(self, x: i16) -> (r: Self)
        requires
            self.wf(),
        ensures
            r.wf(),
            r@ == push_all_v(self@, x),
    {
        let ghost lv = self@;
        let ghost s0 = self.points.entries@;
        proof {
            lemma_pt_map(s0);
        }
        let mut pts: Vec<((i16, i16), Vec<i16>)> = Vec::new();
        let mut i: usize = 0;
        let cnt = self.points.entries.len();
        while i < cnt
            invariant
                self.wf(),
                lv == self@,
                s0 == self.points.entries@,
                cnt == s0.len(),
                0 <= i <= cnt,
                pts@.len() == i,
                forall|j: int|
                    0 <= j < i ==> pt_key(#[trigger] pts@[j]) == pt_key(s0[j]) && pts@[j].1@ == s0[
                    j].1@.push(x),
            decreases cnt - i,
        {
            let kx = self.points.entries[i].0.0;
            let ky = self.points.entries[i].0.1;
            let mut v = self.points.entries[i].1.clone();
            proof {
                assert(v@ =~= s0[i as int].1@);
            }
            v.push(x);
            pts.push(((kx, ky), v));
            i += 1;
        }
        let r = Layout {
            width: self.width,
            height: self.height,
            points: PointMap { entries: pts },
            keybind_hints: self.keybind_hints,
        };
        proof {
            assert(pt_unique(pts@)) by {
                assert forall|a: int, b: int| 0 <= a < b < pts@.len() implies pt_key(
                    #[trigger] pts@[a],
                ) != pt_key(#[trigger] pts@[b]) by {
                    assert(pt_key(s0[a]) != pt_key(s0[b]));
                }
            }
            lemma_pt_map(pts@);
            lemma_pt_map(s0);
            let target = push_all_v(lv, x);
            assert(r@.points =~= target.points) by {
                assert forall|k: (int, int)| #[trigger] r@.points.dom().contains(k) implies
                    target.points.dom().contains(k) && r@.points[k] == target.points[k] by {
                    let m = choose|m: int|
                        0 <= m < pts@.len() && pt_key(#[trigger] pts@[m]) == k;
                    assert(pt_key(s0[m]) == k);
                    assert(lv.points.dom().contains(k));
                    assert(lv.points[k] == s0[m].1@);
                    assert(r@.points[k] == pts@[m].1@);
                }
                assert forall|k: (int, int)| #[trigger] target.points.dom().contains(k) implies
                    r@.points.dom().contains(k) by {
                    let j = choose|j: int|
                        0 <= j < s0.len() && pt_key(#[trigger] s0[j]) == k;
                    assert(pt_key(pts@[j]) == k);
                }
            }
            assert(r@ == target);
        }
        r
    }

    /// Rewrites the keybind hints for the copy holding slice value `i` of the
    /// newly introduced axis `d - 1`.
    /// Rewrites the keybind hints for the copy holding slice value `i` of the
    /// newly introduced axis `d - 1`.
    fn retag(&mut self, i: i16, n: i16, d: u16)
        requires
            old(self).wf(),
            1 <= n,
            1 <= d <= 32767,
        ensures
            final(self).wf(),
            final(self)@ == retag_v(old(self)@, i as int, n as int, d as int),
    {
        let ghost lv = old(self)@;
        let ghost h0 = self.keybind_hints.entries@;
        proof {
            lemma_hk_map(h0);
        }
        let lo = -n + 1;
        let hi = n - 1;
        let mut hks: Vec<((i16, i16), Option<i16>)> = Vec::new();
        let mut m: usize = 0;
        let cnt = self.keybind_hints.entries.len();
        proof {
            assert(h0.take(0) =~= Seq::<((i16, i16), Option<i16>)>::empty());
            assert(hk_map(hks@) =~= rfilter(hk_map(h0.take(0)), i as int, n as int, d as int));
        }
        while m < cnt
            invariant
                *self == *old(self),
                self.wf(),
                lv == self@,
                h0 == self.keybind_hints.entries@,
                cnt == h0.len(),
                0 <= m <= cnt,
                1 <= n,
                1 <= d <= 32767,
                lo as int == -(n as int) + 1,
                hi as int == n as int - 1,
                hk_unique(hks@),
                hk_map(hks@) == rfilter(hk_map(h0.take(m as int)), i as int, n as int, d as int),
            decreases cnt - m,
        {
            let side = self.keybind_hints.entries[m].1;
            let keep: bool = if i == lo || i == hi {
                side.is_none()
            } else {
                i == 0 || i == 1
            };
            let ghost hks0 = hks@;
            let ghost prefix = hk_map(h0.take(m as int));
            proof {
                assert(keep == retag_keep(h0[m as int].1, i as int, n as int));
                assert(h0.take(m as int + 1).drop_last() =~= h0.take(m as int));
                assert(h0.take(m as int + 1).last() == h0[m as int]);
                assert(hk_map(h0.take(m as int + 1)) == prefix.insert(
                    hk_key(h0[m as int]),
                    h0[m as int].1,
                ));
                assert(!prefix.dom().contains(hk_key(h0[m as int]))) by {
                    assert(hk_unique(h0.take(m as int))) by {
                        assert forall|a: int, b: int|
                            0 <= a < b < h0.take(m as int).len() implies hk_key(
                            #[trigger] h0.take(m as int)[a],
                        ) != hk_key(#[trigger] h0.take(m as int)[b]) by {
                            assert(h0.take(m as int)[a] == h0[a]);
                            assert(h0.take(m as int)[b] == h0[b]);
                        }
                    }
                    lemma_hk_map(h0.take(m as int));
                    if prefix.dom().contains(hk_key(h0[m as int])) {
                        let j = choose|j: int|
                            0 <= j < h0.take(m as int).len() && hk_key(
                                #[trigger] h0.take(m as int)[j],
                            ) == hk_key(h0[m as int]);
                        assert(hk_key(h0[j]) == hk_key(h0[m as int]));
                        assert(false);
                    }
                }
            }
            if keep {
                let kx = self.keybind_hints.entries[m].0.0;
                let ky = self.keybind_hints.entries[m].0.1;
                let nv: Option<i16> = if i == lo {
                    Some(-(d as i32) as i16)
                } else if i == hi {
                    Some((d - 1) as i16)
                } else {
                    side
                };
                proof {
                    assert(nv == retag_val(h0[m as int].1, i as int, n as int, d as int));
                    lemma_hk_map(hks0);
                    assert(!hk_map(hks0).dom().contains(hk_key(h0[m as int])));
                }
                hks.push(((kx, ky), nv));
                proof {
                    assert(hks@.drop_last() =~= hks0);
                    assert(hk_key(hks@[hks@.len() - 1]) == hk_key(h0[m as int]));
                    assert(hk_unique(hks@)) by {
                        assert forall|a: int, b: int| 0 <= a < b < hks@.len() implies hk_key(
                            #[trigger] hks@[a],
                        ) != hk_key(#[trigger] hks@[b]) by {
                            if b < hks@.len() - 1 {
                                assert(hks@[a] == hks0[a]);
                                assert(hks@[b] == hks0[b]);
                            } else {
                                assert(hks@[a] == hks0[a]);
                                lemma_hk_map(hks0);
                            }
                        }
                    }
                    assert(hk_map(hks@) == hk_map(hks0).insert(hk_key(h0[m as int]), nv));
                    assert(hk_map(hks@) =~= rfilter(
                        hk_map(h0.take(m as int + 1)),
                        i as int,
                        n as int,
                        d as int,
                    ));
                }
            } else {
                proof {
                    assert(hk_map(hks@) =~= rfilter(
                        hk_map(h0.take(m as int + 1)),
                        i as int,
                        n as int,
                        d as int,
                    ));
                }
            }
            m += 1;
        }
        self.keybind_hints.entries = hks;
        proof {
            assert(h0.take(cnt as int) =~= h0);
            assert(self@.hints =~= retag_v(lv, i as int, n as int, d as int).hints);
            assert(self@ == retag_v(lv, i as int, n as int, d as int));
        }
    }
}

/// Whether a hint survives the re-tagging for slice value `i`.
pub open spec fn retag_keep(side: Option<i16>, i: int, n: int) -> bool {
    if i == -n + 1 {
        side is None
    } else if i == n - 1 {
        side is None
    } else {
        i == 0 || i == 1
    }
}

/// The hint value after the re-tagging for slice value `i`.
pub open spec fn retag_val(side: Option<i16>, i: int, n: int, d: int) -> Option<i16> {
    if i == -n + 1 {
        Some((-d) as i16)
    } else if i == n - 1 {
        Some((d - 1) as i16)
    } else {
        side
    }
}

} // verus!

verus! {

// ------------------------------------------------------------------
// The recursive layout model
// ------------------------------------------------------------------

/// The gap inserted between neighbouring slices at recursion depth `d`.
pub open spec fn spec_gap(d: int, compact: bool) -> int {
    if compact {
        if d == 1 || d == 3 || d == 5 || d == 7 {
            1
        } else {
            0
        }
    } else {
        if d == 1 {
            1
        } else if d == 3 {
            2
        } else if d == 4 {
            1
        } else if d == 5 {
            10
        } else if d == 6 {
            4
        } else if d == 7 {
            40
        } else if d == 8 {
            18
        } else {
            0
        }
    }
}

/// The slice value of the `j`-th copy: the two boundary values flank the `n`
/// interior values in order.
pub open spec fn val_at(n: int, j: int) -> int {
    if j == 0 {
        -n
    } else if j == n + 1 {
        n
    } else {
        -n - 1 + 2 * j
    }
}

/// One processed copy of the lower-dimensional layout: the slice value is
/// appended to every position, positions with two boundary coordinates are
/// discarded, a boundary slice is squished (horizontally at odd depth,
/// vertically at even depth), and the keybind hints are re-tagged.
pub open spec fn copy_v(lower: LayoutV, n: int, d: int, compact: bool, j: int) -> LayoutV {
    let i = val_at(n, j);
    let pushed = clean_v(push_all_v(lower, i as i16), n);
    let squished = if i == n || i == -n {
        if d % 2 == 1 {
            squish_horiz_v(pushed)
        } else {
            squish_vert_v(pushed)
        }
    } else {
        pushed
    };
    retag_v(squished, i, n, d)
}

pub open spec fn copies_v(lower: LayoutV, n: int, d: int, compact: bool) -> Seq<LayoutV> {
    Seq::new((n + 2) as nat, |j: int| copy_v(lower, n, d, compact, j))
}

/// The layout of the whole puzzle: the base holds one point with the empty
/// position (with a center hint when there is room, `n > 2`); each further
/// depth concatenates the processed copies, horizontally at odd depth and
/// vertically (in reversed order) at even depth.
pub open spec fn layout_model(n: int, d: int, compact: bool) -> LayoutV
    decreases d,
{
    if d <= 0 {
        LayoutV {
            width: 1,
            height: 1,
            points: Map::<(int, int), Seq<i16>>::empty().insert((0, 0), Seq::empty()),
            hints: if n > 2 {
                Map::<(int, int), Option<i16>>::empty().insert((0, 0), None)
            } else {
                Map::empty()
            },
        }
    } else {
        let lower = layout_model(n, d - 1, compact);
        let cs = copies_v(lower, n, d, compact);
        if d % 2 == 1 {
            concat_horiz_v(cs, spec_gap(d, compact))
        } else {
            concat_vert_v(cs.reverse(), spec_gap(d, compact))
        }
    }
}

/// An upper bound on the model's width, ignoring that squishing shrinks.
pub open spec fn bound_w(n: int, d: int, compact: bool) -> int
    decreases d,
{
    if d <= 0 {
        1
    } else if d % 2 == 1 {
        (n + 2) * bound_w(n, d - 1, compact) + (n + 1) * spec_gap(d, compact)
    } else {
        bound_w(n, d - 1, compact)
    }
}

pub open spec fn bound_h(n: int, d: int, compact: bool) -> int
    decreases d,
{
    if d <= 0 {
        1
    } else if d % 2 == 0 {
        (n + 2) * bound_h(n, d - 1, compact) + (n + 1) * spec_gap(d, compact)
    } else {
        bound_h(n, d - 1, compact)
    }
}

/// The bounds are at least one and grow with the depth.
pub proof fn lemma_bounds_grow(n: int, d: int, compact: bool)
    requires
        n >= 1,
        d >= 1,
    ensures
        1 <= bound_w(n, d - 1, compact) <= bound_w(n, d, compact),
        1 <= bound_h(n, d - 1, compact) <= bound_h(n, d, compact),
    decreases d,
{
    if d == 1 {
        assert(bound_w(n, 0, compact) == 1);
        assert(bound_h(n, 0, compact) == 1);
        assert(spec_gap(1, compact) >= 0);
        assert((n + 2) * 1 == n + 2) by (nonlinear_arith);
        assert((n + 1) * spec_gap(1, compact) >= 0) by (nonlinear_arith)
            requires
                n >= 1,
                spec_gap(1, compact) >= 0,
        ;
    } else {
        lemma_bounds_grow(n, d - 1, compact);
        let bw = bound_w(n, d - 1, compact);
        let bh = bound_h(n, d - 1, compact);
        let g = spec_gap(d, compact);
        assert(g >= 0);
        if d % 2 == 1 {
            assert((n + 2) * bw >= bw && (n + 1) * g >= 0) by (nonlinear_arith)
                requires
                    n >= 1,
                    bw >= 1,
                    g >= 0,
            ;
        } else {
            assert((n + 2) * bh >= bh && (n + 1) * g >= 0) by (nonlinear_arith)
                requires
                    n >= 1,
                    bh >= 1,
                    g >= 0,
            ;
        }
    }
}

/// A row of at most `n + 2` copies, each no wider than `bw`, fits the bound.
pub proof fn lemma_row_width_bounded(ls: Seq<LayoutV>, gap: int, bw: int)
    requires
        ls.len() >= 1,
        gap >= 0,
        bw >= 0,
        forall|i: int| 0 <= i < ls.len() ==> 0 <= (#[trigger] ls[i]).width <= bw,
    ensures
        row_width(ls, gap) <= ls.len() * (bw + gap) - gap,
    decreases ls.len(),
{
    if ls.len() == 1 {
        assert(1int * (bw + gap) - gap == bw) by (nonlinear_arith);
    } else {
        assert forall|i: int| 0 <= i < ls.drop_last().len() implies 0 <= (#[trigger] ls.drop_last()[
        i]).width <= bw by {
            assert(ls.drop_last()[i] == ls[i]);
        }
        lemma_row_width_bounded(ls.drop_last(), gap, bw);
        let k = ls.len() - 1;
        assert(row_width(ls, gap) <= k * (bw + gap) - gap + gap + bw);
        assert(k * (bw + gap) + bw <= (k + 1) * (bw + gap) - gap) by (nonlinear_arith)
            requires
                k >= 1,
                bw >= 0,
                gap >= 0,
        ;
    }
}

pub proof fn lemma_col_height_bounded(ls: Seq<LayoutV>, gap: int, bh: int)
    requires
        ls.len() >= 1,
        gap >= 0,
        bh >= 0,
        forall|i: int| 0 <= i < ls.len() ==> 0 <= (#[trigger] ls[i]).height <= bh,
    ensures
        col_height(ls, gap) <= ls.len() * (bh + gap) - gap,
    decreases ls.len(),
{
    if ls.len() == 1 {
        assert(1int * (bh + gap) - gap == bh) by (nonlinear_arith);
    } else {
        assert forall|i: int| 0 <= i < ls.drop_last().len() implies 0 <= (#[trigger] ls.drop_last()[
        i]).height <= bh by {
            assert(ls.drop_last()[i] == ls[i]);
        }
        lemma_col_height_bounded(ls.drop_last(), gap, bh);
        let k = ls.len() - 1;
        assert(col_height(ls, gap) <= k * (bh + gap) - gap + gap + bh);
        assert(k * (bh + gap) + bh <= (k + 1) * (bh + gap) - gap) by (nonlinear_arith)
            requires
                k >= 1,
                bh >= 0,
                gap >= 0,
        ;
    }
}

} // verus!

verus! {

/// Every hint sits on a drawn point whose position has no boundary
/// coordinate.
pub open spec fn hints_interior(l: LayoutV, n: int) -> bool {
    forall|k: (int, int)| #[trigger]
        l.hints.dom().contains(k) ==> l.points.dom().contains(k) && bnd_count(n, l.points[k]) == 0
}

/// Joining a row keeps every layout's points and hints: the box is the sum of
/// widths and gaps, the values of the point maps are all kept, and hints stay
/// on interior points.
pub proof fn lemma_concat_horiz_props(ls: Seq<LayoutV>, gap: int, n: int)
    requires
        ls.len() >= 1,
        gap >= 0,
        forall|i: int| 0 <= i < ls.len() ==> bounded_v(#[trigger] ls[i]),
        forall|i: int| 0 <= i < ls.len() ==> hints_interior(#[trigger] ls[i], n),
        row_width(ls, gap) <= 32767,
    ensures
        concat_horiz_v(ls, gap).width == row_width(ls, gap),
        bounded_v(concat_horiz_v(ls, gap)),
        hints_interior(concat_horiz_v(ls, gap), n),
        forall|q: Seq<i16>|
            concat_horiz_v(ls, gap).points.contains_value(q) <==> exists|i: int|
                0 <= i < ls.len() && (#[trigger] ls[i]).points.contains_value(q),
        exists|i: int|
            0 <= i < ls.len() && concat_horiz_v(ls, gap).height == (#[trigger] ls[i]).height,
        (forall|i: int|
            0 <= i < ls.len() ==> (#[trigger] ls[i]).hints == Map::<(int, int), Option<i16>>::empty())
            ==> concat_horiz_v(ls, gap).hints == Map::<(int, int), Option<i16>>::empty(),
    decreases ls.len(),
{
    let c = concat_horiz_v(ls, gap);
    if ls.len() == 1 {
        assert forall|q: Seq<i16>| c.points.contains_value(q) implies exists|i: int|
            0 <= i < ls.len() && (#[trigger] ls[i]).points.contains_value(q) by {
            assert(ls[0].points.contains_value(q));
        }
        assert(c.height == ls[0].height);
        if forall|i: int|
            0 <= i < ls.len() ==> (#[trigger] ls[i]).hints == Map::<(int, int), Option<i16>>::empty() {
            assert(c.hints == ls[0].hints);
        }
    } else {
        let pre = ls.drop_last();
        assert forall|i: int| 0 <= i < pre.len() implies bounded_v(#[trigger] pre[i])
            && hints_interior(#[trigger] pre[i], n) && 0 <= pre[i].width by {
            assert(pre[i] == ls[i]);
        }
        assert forall|i: int| 0 <= i < ls.len() implies 0 <= (#[trigger] ls[i]).width by {}
        lemma_row_width_mono(ls, gap, ls.len() - 1);
        assert(ls.take(ls.len() - 1) =~= pre);
        lemma_concat_horiz_props(pre, gap, n);
        let a = concat_horiz_v(pre, gap);
        let b = ls.last();
        let sh = a.width + gap;
        let m = move_right_v(b, sh);
        assert(c == union_v(a, m));
        assert(row_width(ls, gap) == a.width + gap + b.width);
        assert(0 <= b.width);
        assert(c.width == spec_max(a.width, m.width));
        assert(c.width == row_width(ls, gap));
        assert forall|k: (int, int)| #[trigger] m.points.dom().contains(k) implies sh <= k.0
            < sh + b.width && 0 <= k.1 < b.height by {
            assert(b.points.dom().contains((k.0 - sh, k.1)));
        }
        assert forall|k: (int, int)| #[trigger] m.hints.dom().contains(k) implies sh <= k.0 && 0
            <= k.1 by {
            assert(b.hints.dom().contains((k.0 - sh, k.1)));
        }
        assert(bounded_v(c)) by {
            assert forall|k: (int, int)| #[trigger] c.points.dom().contains(k) implies 0 <= k.0
                < c.width && 0 <= k.1 < c.height by {
                if m.points.dom().contains(k) {
                } else {
                    assert(a.points.dom().contains(k));
                }
            }
            assert forall|k: (int, int)| #[trigger] c.hints.dom().contains(k) implies 0 <= k.0
                < c.width && 0 <= k.1 < c.height by {
                if m.hints.dom().contains(k) {
                    assert(b.hints.dom().contains((k.0 - sh, k.1)));
                } else {
                    assert(a.hints.dom().contains(k));
                }
            }
        }
        assert(hints_interior(c, n)) by {
            assert forall|k: (int, int)| #[trigger] c.hints.dom().contains(k) implies
                c.points.dom().contains(k) && bnd_count(n, c.points[k]) == 0 by {
                if m.hints.dom().contains(k) {
                    assert(b.hints.dom().contains((k.0 - sh, k.1)));
                    assert(b.points.dom().contains((k.0 - sh, k.1)));
                    assert(m.points.dom().contains(k));
                    assert(c.points[k] == m.points[k]);
                    assert(m.points[k] == b.points[(k.0 - sh, k.1)]);
                } else {
                    assert(a.hints.dom().contains(k));
                    assert(a.points.dom().contains(k));
                    assert(k.0 < a.width);
                    assert(!m.points.dom().contains(k));
                    assert(c.points[k] == a.points[k]);
                }
            }
        }
        assert forall|q: Seq<i16>| #[trigger] c.points.contains_value(q) implies exists|i: int|
            0 <= i < ls.len() && (#[trigger] ls[i]).points.contains_value(q) by {
            let k = choose|k: (int, int)| #[trigger] c.points.dom().contains(k) && c.points[k] == q;
            if m.points.dom().contains(k) {
                assert(b.points.dom().contains((k.0 - sh, k.1)));
                assert(b.points[(k.0 - sh, k.1)] == q);
                assert(b.points.contains_value(q));
                assert(ls[ls.len() - 1].points.contains_value(q));
            } else {
                assert(a.points.dom().contains(k));
                assert(a.points[k] == q);
                assert(a.points.contains_value(q));
                let i = choose|i: int|
                    0 <= i < pre.len() && (#[trigger] pre[i]).points.contains_value(q);
                assert(ls[i].points.contains_value(q));
            }
        }
        assert forall|q: Seq<i16>, i: int|
            0 <= i < ls.len() && (#[trigger] ls[i]).points.contains_value(q) implies
            #[trigger] c.points.contains_value(q) by {
            if i < ls.len() - 1 {
                assert(pre[i].points.contains_value(q));
                assert(a.points.contains_value(q));
                let k = choose|k: (int, int)| #[trigger]
                    a.points.dom().contains(k) && a.points[k] == q;
                assert(k.0 < a.width);
                assert(!m.points.dom().contains(k));
                assert(c.points.dom().contains(k) && c.points[k] == q);
            } else {
                let k = choose|k: (int, int)| #[trigger]
                    b.points.dom().contains(k) && b.points[k] == q;
                assert(m.points.dom().contains((k.0 + sh, k.1)));
                assert(m.points[(k.0 + sh, k.1)] == q);
                assert(c.points.dom().contains((k.0 + sh, k.1)) && c.points[(k.0 + sh, k.1)] == q);
            }
        }
        assert(exists|i: int| 0 <= i < ls.len() && c.height == (#[trigger] ls[i]).height) by {
            if c.height == b.height {
                assert(c.height == ls[ls.len() - 1].height);
            } else {
                let i = choose|i: int| 0 <= i < pre.len() && a.height == (#[trigger] pre[i]).height;
                assert(c.height == ls[i].height);
            }
        }
        if forall|i: int|
            0 <= i < ls.len() ==> (#[trigger] ls[i]).hints == Map::<(int, int), Option<i16>>::empty() {
            assert forall|i: int|
                0 <= i < pre.len() implies (#[trigger] pre[i]).hints == Map::<
                (int, int),
                Option<i16>,
            >::empty() by {
                assert(pre[i] == ls[i]);
            }
            assert(b.hints == Map::<(int, int), Option<i16>>::empty()) by {
                assert(ls[ls.len() - 1].hints == Map::<(int, int), Option<i16>>::empty());
            }
            assert(c.hints =~= Map::<(int, int), Option<i16>>::empty()) by {
                assert forall|k: (int, int)| !(#[trigger] c.hints.dom().contains(k)) by {
                    if m.hints.dom().contains(k) {
                        assert(b.hints.dom().contains((k.0 - sh, k.1)));
                        assert(false);
                    }
                }
            }
        }
    }
}

} // verus!

verus! {

/// Joining a column keeps every layout's points and hints: the box is the sum of
/// heights and gaps, the values of the point maps are all kept, and hints stay
/// on interior points.
pub proof fn lemma_concat_vert_props(ls: Seq<LayoutV>, gap: int, n: int)
    requires
        ls.len() >= 1,
        gap >= 0,
        forall|i: int| 0 <= i < ls.len() ==> bounded_v(#[trigger] ls[i]),
        forall|i: int| 0 <= i < ls.len() ==> hints_interior(#[trigger] ls[i], n),
        col_height(ls, gap) <= 32767,
    ensures
        concat_vert_v(ls, gap).height == col_height(ls, gap),
        bounded_v(concat_vert_v(ls, gap)),
        hints_interior(concat_vert_v(ls, gap), n),
        forall|q: Seq<i16>|
            concat_vert_v(ls, gap).points.contains_value(q) <==> exists|i: int|
                0 <= i < ls.len() && (#[trigger] ls[i]).points.contains_value(q),
        exists|i: int|
            0 <= i < ls.len() && concat_vert_v(ls, gap).width == (#[trigger] ls[i]).width,
        (forall|i: int|
            0 <= i < ls.len() ==> (#[trigger] ls[i]).hints == Map::<(int, int), Option<i16>>::empty())
            ==> concat_vert_v(ls, gap).hints == Map::<(int, int), Option<i16>>::empty(),
    decreases ls.len(),
{
    let c = concat_vert_v(ls, gap);
    if ls.len() == 1 {
        assert forall|q: Seq<i16>| c.points.contains_value(q) implies exists|i: int|
            0 <= i < ls.len() && (#[trigger] ls[i]).points.contains_value(q) by {
            assert(ls[0].points.contains_value(q));
        }
        assert(c.width == ls[0].width);
        if forall|i: int|
            0 <= i < ls.len() ==> (#[trigger] ls[i]).hints == Map::<(int, int), Option<i16>>::empty() {
            assert(c.hints == ls[0].hints);
        }
    } else {
        let pre = ls.drop_last();
        assert forall|i: int| 0 <= i < pre.len() implies bounded_v(#[trigger] pre[i])
            && hints_interior(#[trigger] pre[i], n) && 0 <= pre[i].height by {
            assert(pre[i] == ls[i]);
        }
        assert forall|i: int| 0 <= i < ls.len() implies 0 <= (#[trigger] ls[i]).height by {}
        lemma_col_height_mono(ls, gap, ls.len() - 1);
        assert(ls.take(ls.len() - 1) =~= pre);
        lemma_concat_vert_props(pre, gap, n);
        let a = concat_vert_v(pre, gap);
        let b = ls.last();
        let sh = a.height + gap;
        let m = move_down_v(b, sh);
        assert(c == union_v(a, m));
        assert(col_height(ls, gap) == a.height + gap + b.height);
        assert(0 <= b.height);
        assert(c.height == spec_max(a.height, m.height));
        assert(c.height == col_height(ls, gap));
        assert forall|k: (int, int)| #[trigger] m.points.dom().contains(k) implies sh <= k.1
            < sh + b.height && 0 <= k.0 < b.width by {
            assert(b.points.dom().contains((k.0, k.1 - sh)));
        }
        assert forall|k: (int, int)| #[trigger] m.hints.dom().contains(k) implies sh <= k.1 && 0
            <= k.0 by {
            assert(b.hints.dom().contains((k.0, k.1 - sh)));
        }
        assert(bounded_v(c)) by {
            assert forall|k: (int, int)| #[trigger] c.points.dom().contains(k) implies 0 <= k.0
                < c.width && 0 <= k.1 < c.height by {
                if m.points.dom().contains(k) {
                } else {
                    assert(a.points.dom().contains(k));
                }
            }
            assert forall|k: (int, int)| #[trigger] c.hints.dom().contains(k) implies 0 <= k.0
                < c.width && 0 <= k.1 < c.height by {
                if m.hints.dom().contains(k) {
                    assert(b.hints.dom().contains((k.0, k.1 - sh)));
                } else {
                    assert(a.hints.dom().contains(k));
                }
            }
        }
        assert(hints_interior(c, n)) by {
            assert forall|k: (int, int)| #[trigger] c.hints.dom().contains(k) implies
                c.points.dom().contains(k) && bnd_count(n, c.points[k]) == 0 by {
                if m.hints.dom().contains(k) {
                    assert(b.hints.dom().contains((k.0, k.1 - sh)));
                    assert(b.points.dom().contains((k.0, k.1 - sh)));
                    assert(m.points.dom().contains(k));
                    assert(c.points[k] == m.points[k]);
                    assert(m.points[k] == b.points[(k.0, k.1 - sh)]);
                } else {
                    assert(a.hints.dom().contains(k));
                    assert(a.points.dom().contains(k));
                    assert(k.1 < a.height);
                    assert(!m.points.dom().contains(k));
                    assert(c.points[k] == a.points[k]);
                }
            }
        }
        assert forall|q: Seq<i16>| #[trigger] c.points.contains_value(q) implies exists|i: int|
            0 <= i < ls.len() && (#[trigger] ls[i]).points.contains_value(q) by {
            let k = choose|k: (int, int)| #[trigger] c.points.dom().contains(k) && c.points[k] == q;
            if m.points.dom().contains(k) {
                assert(b.points.dom().contains((k.0, k.1 - sh)));
                assert(b.points[(k.0, k.1 - sh)] == q);
                assert(b.points.contains_value(q));
                assert(ls[ls.len() - 1].points.contains_value(q));
            } else {
                assert(a.points.dom().contains(k));
                assert(a.points[k] == q);
                assert(a.points.contains_value(q));
                let i = choose|i: int|
                    0 <= i < pre.len() && (#[trigger] pre[i]).points.contains_value(q);
                assert(ls[i].points.contains_value(q));
            }
        }
        assert forall|q: Seq<i16>, i: int|
            0 <= i < ls.len() && (#[trigger] ls[i]).points.contains_value(q) implies
            #[trigger] c.points.contains_value(q) by {
            if i < ls.len() - 1 {
                assert(pre[i].points.contains_value(q));
                assert(a.points.contains_value(q));
                let k = choose|k: (int, int)| #[trigger]
                    a.points.dom().contains(k) && a.points[k] == q;
                assert(k.1 < a.height);
                assert(!m.points.dom().contains(k));
                assert(c.points.dom().contains(k) && c.points[k] == q);
            } else {
                let k = choose|k: (int, int)| #[trigger]
                    b.points.dom().contains(k) && b.points[k] == q;
                assert(m.points.dom().contains((k.0, k.1 + sh)));
                assert(m.points[(k.0, k.1 + sh)] == q);
                assert(c.points.dom().contains((k.0, k.1 + sh)) && c.points[(k.0, k.1 + sh)] == q);
            }
        }
        assert(exists|i: int| 0 <= i < ls.len() && c.width == (#[trigger] ls[i]).width) by {
            if c.width == b.width {
                assert(c.width == ls[ls.len() - 1].width);
            } else {
                let i = choose|i: int| 0 <= i < pre.len() && a.width == (#[trigger] pre[i]).width;
                assert(c.width == ls[i].width);
            }
        }
        if forall|i: int|
            0 <= i < ls.len() ==> (#[trigger] ls[i]).hints == Map::<(int, int), Option<i16>>::empty() {
            assert forall|i: int|
                0 <= i < pre.len() implies (#[trigger] pre[i]).hints == Map::<
                (int, int),
                Option<i16>,
            >::empty() by {
                assert(pre[i] == ls[i]);
            }
            assert(b.hints == Map::<(int, int), Option<i16>>::empty()) by {
                assert(ls[ls.len() - 1].hints == Map::<(int, int), Option<i16>>::empty());
            }
            assert(c.hints =~= Map::<(int, int), Option<i16>>::empty()) by {
                assert forall|k: (int, int)| !(#[trigger] c.hints.dom().contains(k)) by {
                    if m.hints.dom().contains(k) {
                        assert(b.hints.dom().contains((k.0, k.1 - sh)));
                        assert(false);
                    }
                }
            }
        }
    }
}

} // verus!

verus! {

// ------------------------------------------------------------------
// Generating the layout
// ------------------------------------------------------------------

/// Basic counting facts: the count is non-negative, zero exactly when no
/// coordinate is a boundary, and at most one exactly when no two are.
pub proof fn lemma_bnd_count_facts(n: int, p: Seq<i16>)
    ensures
        bnd_count(n, p) >= 0,
        (bnd_count(n, p) == 0) <==> (forall|i: int|
            0 <= i < p.len() ==> !is_boundary(n, (#[trigger] p[i]) as int)),
        (bnd_count(n, p) <= 1) <==> (forall|i: int, j: int|
            0 <= i < j < p.len() && is_boundary(n, (#[trigger] p[i]) as int) ==> !is_boundary(
                n,
                (#[trigger] p[j]) as int,
            )),
    decreases p.len(),
{
    if p.len() > 0 {
        let pre = p.drop_last();
        lemma_bnd_count_facts(n, pre);
        assert(forall|i: int| 0 <= i < pre.len() ==> #[trigger] pre[i] == p[i]);
        if bnd_count(n, p) == 0 {
            assert forall|i: int| 0 <= i < p.len() implies !is_boundary(
                n,
                (#[trigger] p[i]) as int,
            ) by {
                if i < p.len() - 1 {
                    assert(p[i] == pre[i]);
                    assert(!is_boundary(n, pre[i] as int));
                } else {
                    assert(p[i] == p.last());
                }
            }
        }
        if forall|i: int| 0 <= i < p.len() ==> !is_boundary(n, (#[trigger] p[i]) as int) {
            assert forall|i: int| 0 <= i < pre.len() implies !is_boundary(
                n,
                (#[trigger] pre[i]) as int,
            ) by {
                assert(pre[i] == p[i]);
            }
            assert(bnd_count(n, pre) == 0);
            assert(!is_boundary(n, p[p.len() - 1] as int));
        }
        if bnd_count(n, p) <= 1 {
            if is_boundary(n, p.last() as int) {
                assert(bnd_count(n, pre) == 0);
            }
            assert forall|i: int, j: int|
                0 <= i < j < p.len() && is_boundary(n, (#[trigger] p[i]) as int) implies !is_boundary(
                n,
                (#[trigger] p[j]) as int,
            ) by {
                if j < p.len() - 1 {
                    assert(pre[i] == p[i] && pre[j] == p[j]);
                } else {
                    if is_boundary(n, p.last() as int) {
                        assert(!is_boundary(n, pre[i] as int));
                    }
                }
            }
        }
        if forall|i: int, j: int|
            0 <= i < j < p.len() && is_boundary(n, (#[trigger] p[i]) as int) ==> !is_boundary(
                n,
                (#[trigger] p[j]) as int,
            ) {
            if is_boundary(n, p.last() as int) {
                assert forall|i: int| 0 <= i < pre.len() implies !is_boundary(
                    n,
                    (#[trigger] pre[i]) as int,
                ) by {
                    assert(p[i] == pre[i]);
                    if is_boundary(n, p[i] as int) {
                        assert(!is_boundary(n, p[p.len() - 1] as int));
                    }
                }
                assert(bnd_count(n, pre) == 0);
            } else {
                assert forall|i: int, j: int|
                    0 <= i < j < pre.len() && is_boundary(n, (#[trigger] pre[i]) as int) implies !is_boundary(
                    n,
                    (#[trigger] pre[j]) as int,
                ) by {
                    assert(p[i] == pre[i] && p[j] == pre[j]);
                }
            }
        }
    }
}

/// A cell of depth `d` is a cell of depth `d - 1` extended by one grid
/// coordinate, with at most one boundary coordinate overall.
pub proof fn lemma_cell_step(n: int, d: int, q: Seq<i16>)
    requires
        n >= 1,
        d >= 1,
    ensures
        crate::puzzle::is_cell(n, d, q) <==> (q.len() == d && crate::puzzle::is_cell(
            n,
            d - 1,
            q.drop_last(),
        ) && (is_boundary(n, q.last() as int) || is_interior(n, q.last() as int)) && bnd_count(
            n,
            q,
        ) <= 1),
{
    lemma_bnd_count_facts(n, q);
    if q.len() == d {
        let pre = q.drop_last();
        assert(forall|i: int| 0 <= i < pre.len() ==> #[trigger] pre[i] == q[i]);
        if crate::puzzle::is_cell(n, d, q) {
            assert(crate::puzzle::is_cell(n, d - 1, pre)) by {
                assert forall|i: int| 0 <= i < d - 1 implies is_boundary(
                    n,
                    (#[trigger] pre[i]) as int,
                ) || is_interior(n, pre[i] as int) by {
                    assert(q[i] == pre[i]);
                    assert(is_boundary(n, q[i] as int) || is_interior(n, q[i] as int));
                }
                assert forall|i: int, j: int|
                    0 <= i < j < d - 1 && is_boundary(n, (#[trigger] pre[i]) as int) implies !is_boundary(
                    n,
                    (#[trigger] pre[j]) as int,
                ) by {
                    assert(q[i] == pre[i] && q[j] == pre[j]);
                }
            }
            assert(is_boundary(n, q.last() as int) || is_interior(n, q.last() as int)) by {
                assert(q[d - 1] == q.last());
            }
        }
        if crate::puzzle::is_cell(n, d - 1, pre) && (is_boundary(n, q.last() as int)
            || is_interior(n, q.last() as int)) && bnd_count(n, q) <= 1 {
            assert(crate::puzzle::is_cell(n, d, q)) by {
                assert forall|i: int| 0 <= i < d implies is_boundary(n, (#[trigger] q[i]) as int)
                    || is_interior(n, q[i] as int) by {
                    if i < d - 1 {
                        assert(q[i] == pre[i]);
                        assert(is_boundary(n, pre[i] as int) || is_interior(n, pre[i] as int));
                    } else {
                        assert(q[i] == q.last());
                    }
                }
            }
        }
    }
}

/// Every grid coordinate is the slice value of some copy.
pub proof fn lemma_val_at_covers(n: int, v: int)
    requires
        n >= 1,
        is_boundary(n, v) || is_interior(n, v),
    ensures
        exists|j: int| 0 <= j <= n + 1 && #[trigger] val_at(n, j) == v,
{
    if v == -n {
        assert(val_at(n, 0) == v);
    } else if v == n {
        assert(val_at(n, n + 1) == v);
    } else {
        vstd::arithmetic::div_mod::lemma_fundamental_div_mod(v - n, 2);
        let q = (v - n) / 2;
        let j = q + n + 1;
        assert(v == -n - 1 + 2 * j);
        assert(1 <= j <= n);
        assert(val_at(n, j) == v);
    }
}

/// The gap table.
fn gap_for(d: u16, compact: bool) -> (g: i16)
    ensures
        g as int == spec_gap(d as int, compact),
        0 <= g <= 40,
{
    if compact {
        if d == 1 || d == 3 || d == 5 || d == 7 {
            1
        } else {
            0
        }
    } else {
        if d == 1 {
            1
        } else if d == 3 {
            2
        } else if d == 4 {
            1
        } else if d == 5 {
            10
        } else if d == 6 {
            4
        } else if d == 7 {
            40
        } else if d == 8 {
            18
        } else {
            0
        }
    }
}

impl Layout {
    /// An equal copy of this layout.
    fn duplicate(&self) -> (r: Self)
        requires
            self.wf(),
        ensures
            r.wf(),
            r@ == self@,
    {
        let ghost s0 = self.points.entries@;
        let ghost h0 = self.keybind_hints.entries@;
        let mut pts: Vec<((i16, i16), Vec<i16>)> = Vec::new();
        let mut i: usize = 0;
        let n = self.points.entries.len();
        while i < n
            invariant
                self.wf(),
                s0 == self.points.entries@,
                n == s0.len(),
                0 <= i <= n,
                pts@.len() == i,
                forall|j: int|
                    0 <= j < i ==> pt_key(#[trigger] pts@[j]) == pt_key(s0[j]) && pts@[j].1@ == s0[
                    j].1@,
            decreases n - i,
        {
            let x = self.points.entries[i].0.0;
            let y = self.points.entries[i].0.1;
            let v = self.points.entries[i].1.clone();
            proof {
                assert(v@ =~= s0[i as int].1@);
            }
            pts.push(((x, y), v));
            i += 1;
        }
        let mut hks: Vec<((i16, i16), Option<i16>)> = Vec::new();
        let mut i2: usize = 0;
        let nh = self.keybind_hints.entries.len();
        while i2 < nh
            invariant
                self.wf(),
                h0 == self.keybind_hints.entries@,
                nh == h0.len(),
                0 <= i2 <= nh,
                hks@.len() == i2,
                forall|j: int| 0 <= j < i2 ==> #[trigger] hks@[j] == h0[j],
            decreases nh - i2,
        {
            hks.push(self.keybind_hints.entries[i2]);
            i2 += 1;
        }
        let r = Layout {
            width: self.width,
            height: self.height,
            points: PointMap { entries: pts },
            keybind_hints: HintMap { entries: hks },
        };
        proof {
            assert(pt_unique(pts@)) by {
                assert forall|a: int, b: int| 0 <= a < b < pts@.len() implies pt_key(
                    #[trigger] pts@[a],
                ) != pt_key(#[trigger] pts@[b]) by {
                    assert(pt_key(s0[a]) != pt_key(s0[b]));
                }
            }
            assert(hks@ =~= h0);
            lemma_pt_map(pts@);
            lemma_pt_map(s0);
            assert(r.points@ =~= self.points@) by {
                assert forall|k: (int, int)| #[trigger] pt_map(pts@).dom().contains(k) implies
                    pt_map(s0).dom().contains(k) && pt_map(pts@)[k] == pt_map(s0)[k] by {
                    let j = choose|j: int| 0 <= j < pts@.len() && pt_key(#[trigger] pts@[j]) == k;
                    assert(pt_key(s0[j]) == k);
                    assert(pt_map(pts@)[k] == pts@[j].1@);
                    assert(pt_map(s0)[k] == s0[j].1@);
                }
                assert forall|k: (int, int)| #[trigger] pt_map(s0).dom().contains(k) implies
                    pt_map(pts@).dom().contains(k) by {
                    let j = choose|j: int| 0 <= j < s0.len() && pt_key(#[trigger] s0[j]) == k;
                    assert(pt_key(pts@[j]) == k);
                }
            }
            assert(r@ == self@);
        }
        r
    }
}

} // verus!

verus! {

/// Everything make_layout needs of one processed copy: it matches the model,
/// it is bounded by the lower layout's bounds, its hints sit on interior
/// points, and its points hold exactly the cells ending in its slice value.
pub open spec fn good_copy(
    c: LayoutV,
    lw: LayoutV,
    n: int,
    d: int,
    compact: bool,
    j: int,
    bw: int,
    bh: int,
) -> bool {
    &&& c == copy_v(lw, n, d, compact, j)
    &&& bounded_v(c)
    &&& hints_interior(c, n)
    &&& 0 <= c.width <= bw
    &&& 0 <= c.height <= bh
    &&& (n <= 2 ==> c.hints == Map::<(int, int), Option<i16>>::empty())
    &&& forall|q: Seq<i16>|
        #[trigger] c.points.contains_value(q) <==> (crate::puzzle::is_cell(n, d, q) && q.len() == d
            && (q[d - 1] as int) == val_at(n, j))
}

impl Layout {
    /// Builds the processed copy of the lower-dimensional layout for the
    /// `j`-th slice value.
    #[verifier::rlimit(100)]
    fn make_copy(lower: &Layout, n: i16, d: u16, compact: bool, j: usize) -> (c: Layout)
        requires
            1 <= n,
            1 <= d <= 8,
            0 <= j <= n as int + 1,
            lower.wf(),
            bounded_v(lower@),
            hints_interior(lower@, n as int),
            n as int <= 2 ==> lower@.hints == Map::<(int, int), Option<i16>>::empty(),
            forall|q: Seq<i16>|
                #[trigger] lower@.points.contains_value(q) <==> crate::puzzle::is_cell(
                    n as int,
                    d as int - 1,
                    q,
                ),
        ensures
            c.wf(),
            good_copy(
                c@,
                lower@,
                n as int,
                d as int,
                compact,
                j as int,
                lower@.width,
                lower@.height,
            ),
    {
        let ghost n_ = n as int;
        let ghost d_ = d as int;
        let ghost lw = lower@;
        let iv: i16 = if j == 0 {
            -n
        } else if j == (n as usize) + 1 {
            n
        } else {
            ((-(n as i32)) - 1 + 2 * (j as i32)) as i16
        };
        proof {
            assert(iv as int == val_at(n_, j as int));
            if 1 <= j as int && j as int <= n_ {
                assert(is_interior(n_, iv as int)) by {
                    assert(iv as int == -n_ - 1 + 2 * (j as int));
                    assert(iv as int - n_ == 2 * (j as int - n_ - 1) + 1);
                    vstd::arithmetic::div_mod::lemma_mod_multiples_vanish(j as int - n_ - 1, 1, 2);
                }
            }
        }
        let ghost pv = push_all_v(lw, iv);
        let ghost cv = clean_v(pv, n_);
        let pushed = lower.duplicate().push_all(iv);
        let cleaned = pushed.clean(n);
        proof {
            assert(cleaned@ == cv);
            assert(bounded_v(cv)) by {
                assert forall|k: (int, int)| #[trigger] cv.points.dom().contains(k) implies 0 <= k.0
                    < cv.width && 0 <= k.1 < cv.height by {
                    assert(lw.points.dom().contains(k));
                }
            }
            assert forall|k: (int, int)| #[trigger] cv.hints.dom().contains(k) implies
                cv.points.dom().contains(k) by {
                assert(lw.hints.dom().contains(k));
                assert(lw.points.dom().contains(k));
                assert(bnd_count(n_, lw.points[k]) == 0);
                assert(pv.points[k] == lw.points[k].push(iv));
                assert(bnd_count(n_, lw.points[k].push(iv)) <= 1) by {
                    assert(lw.points[k].push(iv).drop_last() =~= lw.points[k]);
                }
            }
        }
        let is_b = j == 0 || j == (n as usize) + 1;
        let mut copy = if is_b {
            if d % 2 == 1 {
                cleaned.squish_horiz()
            } else {
                cleaned.squish_vert()
            }
        } else {
            cleaned
        };
        let ghost sv = copy@;
        proof {
            // the squished (or untouched) copy is bounded and no larger
            if is_b {
                assert(bounded_v(sv));
                assert(0 <= sv.width <= lw.width && 0 <= sv.height <= lw.height);
            } else {
                assert(sv == cv);
                assert(bounded_v(sv));
            }
            // values of the points are untouched by squishing
            assert forall|q: Seq<i16>| #[trigger] sv.points.contains_value(q) implies
                cv.points.contains_value(q) by {
                let k = choose|k: (int, int)| #[trigger]
                    sv.points.dom().contains(k) && sv.points[k] == q;
                if is_b {
                    if d_ % 2 == 1 {
                        let mn = min_x(cv.points.dom());
                        assert(cv.points.dom().contains((k.0 + mn, k.1)));
                        assert(cv.points[(k.0 + mn, k.1)] == q);
                    } else {
                        let mn = min_y(cv.points.dom());
                        assert(cv.points.dom().contains((k.0, k.1 + mn)));
                        assert(cv.points[(k.0, k.1 + mn)] == q);
                    }
                }
            }
            assert forall|q: Seq<i16>| #[trigger] cv.points.contains_value(q) implies
                sv.points.contains_value(q) by {
                let k = choose|k: (int, int)| #[trigger]
                    cv.points.dom().contains(k) && cv.points[k] == q;
                if is_b {
                    if d_ % 2 == 1 {
                        let mn = min_x(cv.points.dom());
                        assert(sv.points.dom().contains((k.0 - mn, k.1)));
                        assert(sv.points[(k.0 - mn, k.1)] == q);
                    } else {
                        let mn = min_y(cv.points.dom());
                        assert(sv.points.dom().contains((k.0, k.1 - mn)));
                        assert(sv.points[(k.0, k.1 - mn)] == q);
                    }
                }
            }
            // hints of the shifted copy still sit on interior points
            assert forall|k: (int, int)| #[trigger] sv.hints.dom().contains(k) implies
                sv.points.dom().contains(k) && bnd_count(n_, sv.points[k]) == 0 + (if is_boundary(
                n_,
                iv as int,
            ) {
                1int
            } else {
                0int
            }) by {
                let ghost korig: (int, int) = if is_b {
                    if d_ % 2 == 1 {
                        (k.0 + min_x(cv.points.dom()), k.1)
                    } else {
                        (k.0, k.1 + min_y(cv.points.dom()))
                    }
                } else {
                    k
                };
                assert(cv.hints.dom().contains(korig));
                assert(lw.hints.dom().contains(korig));
                assert(lw.points.dom().contains(korig));
                assert(bnd_count(n_, lw.points[korig]) == 0);
                assert(cv.points.dom().contains(korig)) by {
                    assert(bnd_count(n_, lw.points[korig].push(iv)) <= 1) by {
                        assert(lw.points[korig].push(iv).drop_last() =~= lw.points[korig]);
                    }
                }
                assert(cv.points[korig] == lw.points[korig].push(iv));
                assert(sv.points.dom().contains(k) && sv.points[k] == cv.points[korig]);
                assert(bnd_count(n_, lw.points[korig].push(iv)) == bnd_count(n_, lw.points[korig])
                    + (if is_boundary(n_, iv as int) {
                    1int
                } else {
                    0int
                })) by {
                    assert(lw.points[korig].push(iv).drop_last() =~= lw.points[korig]);
                }
            }
        }
        copy.retag(iv, n, d);
        proof {
            let rv = retag_v(sv, iv as int, n_, d_);
            assert(copy@ == rv);
            assert(copy@ == copy_v(lw, n_, d_, compact, j as int));
            assert(bounded_v(rv)) by {
                assert forall|k: (int, int)| #[trigger] rv.hints.dom().contains(k) implies 0 <= k.0
                    < rv.width && 0 <= k.1 < rv.height by {
                    assert(sv.hints.dom().contains(k));
                }
            }
            if is_b {
                // a boundary slice keeps no hints at all
                assert(rv.hints =~= Map::<(int, int), Option<i16>>::empty()) by {
                    assert forall|k: (int, int)| !(#[trigger] rv.hints.dom().contains(k)) by {
                        if rv.hints.dom().contains(k) {
                            assert(sv.hints.dom().contains(k));
                            if n_ <= 2 {
                                assert(lw.hints == Map::<(int, int), Option<i16>>::empty());
                                assert(cv.hints.dom().contains(if is_b {
                                    if d_ % 2 == 1 {
                                        (k.0 + min_x(cv.points.dom()), k.1)
                                    } else {
                                        (k.0, k.1 + min_y(cv.points.dom()))
                                    }
                                } else {
                                    k
                                }));
                                assert(false);
                            } else {
                                assert(iv as int == n_ || iv as int == -n_);
                                assert(retag_keep(sv.hints[k], iv as int, n_));
                                assert(false);
                            }
                        }
                    }
                }
                assert(hints_interior(rv, n_));
            } else {
                assert(hints_interior(rv, n_)) by {
                    assert forall|k: (int, int)| #[trigger] rv.hints.dom().contains(k) implies
                        rv.points.dom().contains(k) && bnd_count(n_, rv.points[k]) == 0 by {
                        assert(sv.hints.dom().contains(k));
                        assert(!is_boundary(n_, iv as int));
                        assert(sv.points.dom().contains(k) && bnd_count(n_, sv.points[k]) == 0);
                    }
                }
            }
            if n_ <= 2 {
                assert(rv.hints =~= Map::<(int, int), Option<i16>>::empty()) by {
                    assert forall|k: (int, int)| !(#[trigger] rv.hints.dom().contains(k)) by {
                        if rv.hints.dom().contains(k) {
                            assert(sv.hints.dom().contains(k));
                            let korig: (int, int) = if is_b {
                                if d_ % 2 == 1 {
                                    (k.0 + min_x(cv.points.dom()), k.1)
                                } else {
                                    (k.0, k.1 + min_y(cv.points.dom()))
                                }
                            } else {
                                k
                            };
                            assert(cv.hints.dom().contains(korig));
                            assert(lw.hints.dom().contains(korig));
                            assert(false);
                        }
                    }
                }
            }
            // the points hold exactly the cells ending in this slice value
            assert forall|q: Seq<i16>| #[trigger] rv.points.contains_value(q) implies
                crate::puzzle::is_cell(n_, d_, q) && q.len() == d_ && (q[d_ - 1] as int) == val_at(
                n_,
                j as int,
            ) by {
                assert(sv.points.contains_value(q));
                assert(cv.points.contains_value(q));
                let k = choose|k: (int, int)| #[trigger]
                    cv.points.dom().contains(k) && cv.points[k] == q;
                assert(lw.points.dom().contains(k));
                let p = lw.points[k];
                assert(q == p.push(iv));
                assert(bnd_count(n_, q) <= 1);
                assert(lw.points.contains_value(p));
                assert(crate::puzzle::is_cell(n_, d_ - 1, p));
                assert(p.len() == d_ - 1);
                lemma_cell_step(n_, d_, q);
                assert(q.drop_last() =~= p);
                assert(q.last() == iv);
                assert(is_boundary(n_, iv as int) || is_interior(n_, iv as int));
            }
            assert forall|q: Seq<i16>|
                crate::puzzle::is_cell(n_, d_, q) && q.len() == d_ && (q[d_ - 1] as int) == val_at(
                    n_,
                    j as int,
                ) implies #[trigger] rv.points.contains_value(q) by {
                lemma_cell_step(n_, d_, q);
                let p = q.drop_last();
                assert(crate::puzzle::is_cell(n_, d_ - 1, p));
                assert(lw.points.contains_value(p));
                let k = choose|k: (int, int)| #[trigger]
                    lw.points.dom().contains(k) && lw.points[k] == p;
                assert(q.last() == q[d_ - 1]);
                assert(q.last() as int == iv as int);
                assert(q.last() == iv);
                assert(pv.points[k] == p.push(iv));
                assert(p.push(iv) =~= q);
                assert(bnd_count(n_, q) <= 1);
                assert(cv.points.dom().contains(k) && cv.points[k] == q);
                assert(cv.points.contains_value(q));
                assert(sv.points.contains_value(q));
            }
        }
        copy
    }
}

} // verus!

verus! {

impl Layout {
    /// Builds the 2D net of the puzzle for `(n, d)`: a pure, deterministic,
    /// recursive function of its inputs, whose exact value is pinned by the
    /// layout model. Its points cover exactly the cells of the puzzle grid:
    /// the length-`d` positions with at most one boundary coordinate.
    #[verifier::rlimit(100)]
    pub fn make_layout(n: i16, d: u16, compact: bool) -> (r: Layout)
        requires
            1 <= n,
            d <= 8,
            bound_w(n as int, d as int, compact) <= 32767,
            bound_h(n as int, d as int, compact) <= 32767,
        ensures
            r.wf(),
            r@ == layout_model(n as int, d as int, compact),
            bounded_v(r@),
            hints_interior(r@, n as int),
            r@.width <= bound_w(n as int, d as int, compact),
            r@.height <= bound_h(n as int, d as int, compact),
            n as int <= 2 ==> r@.hints == Map::<(int, int), Option<i16>>::empty(),
            forall|q: Seq<i16>|
                #[trigger] r@.points.contains_value(q) <==> crate::puzzle::is_cell(
                    n as int,
                    d as int,
                    q,
                ),
        decreases d,
    {
        let ghost n_ = n as int;
        let ghost d_ = d as int;
        if d == 0 {
            let mut points = PointMap::new();
            points.insert(0, 0, Vec::new());
            let mut hints = HintMap::new();
            if n > 2 {
                hints.insert(0, 0, None);
            }
            let r = Layout { width: 1, height: 1, points, keybind_hints: hints };
            proof {
                let model = layout_model(n_, 0, compact);
                assert(r@.points =~= model.points) by {
                    assert(r@.points.dom().contains((0int, 0int)));
                }
                assert(r@.hints =~= model.hints);
                assert(r@ == model);
                assert(hints_interior(r@, n_)) by {
                    assert forall|k: (int, int)| #[trigger] r@.hints.dom().contains(k) implies
                        r@.points.dom().contains(k) && bnd_count(n_, r@.points[k]) == 0 by {
                        assert(k == (0int, 0int));
                        assert(r@.points[k] =~= Seq::<i16>::empty());
                    }
                }
                if n_ <= 2 {
                    assert(r@.hints =~= Map::<(int, int), Option<i16>>::empty());
                }
                assert forall|q: Seq<i16>| #[trigger] r@.points.contains_value(q) implies
                    crate::puzzle::is_cell(n_, 0, q) by {
                    let k = choose|k: (int, int)| #[trigger]
                        r@.points.dom().contains(k) && r@.points[k] == q;
                    assert(q =~= Seq::<i16>::empty());
                }
                assert forall|q: Seq<i16>| crate::puzzle::is_cell(n_, 0, q) implies
                    #[trigger] r@.points.contains_value(q) by {
                    assert(q.len() == 0);
                    assert(q =~= Seq::<i16>::empty());
                    assert(r@.points.dom().contains((0int, 0int)) && r@.points[(0int, 0int)] == q);
                }
            }
            r
        } else {
            proof {
                lemma_bounds_grow(n_, d_, compact);
            }
            let lower = Self::make_layout(n, d - 1, compact);
            let g = gap_for(d, compact);
            let ghost lw = lower@;
            let ghost bw_low = bound_w(n_, d_ - 1, compact);
            let ghost bh_low = bound_h(n_, d_ - 1, compact);
            let mut row: Vec<Layout> = Vec::new();
            let count = (n as usize) + 2;
            let mut j: usize = 0;
            while j < count
                invariant
                    1 <= n,
                    1 <= d <= 8,
                    n_ == n as int,
                    d_ == d as int,
                    count == n as int + 2,
                    0 <= j <= count,
                    lower.wf(),
                    lw == lower@,
                    bounded_v(lw),
                    hints_interior(lw, n_),
                    lw.width <= bw_low,
                    lw.height <= bh_low,
                    n_ <= 2 ==> lw.hints == Map::<(int, int), Option<i16>>::empty(),
                    forall|q: Seq<i16>|
                        #[trigger] lw.points.contains_value(q) <==> crate::puzzle::is_cell(
                            n_,
                            d_ - 1,
                            q,
                        ),
                    row@.len() == j,
                    forall|jj: int|
                        0 <= jj < j ==> (#[trigger] row@[jj]).wf() && good_copy(
                            row@[jj]@,
                            lw,
                            n_,
                            d_,
                            compact,
                            jj,
                            lw.width,
                            lw.height,
                        ),
                decreases count - j,
            {
                let copy = Self::make_copy(&lower, n, d, compact, j);
                row.push(copy);
                j += 1;
            }
            let ghost copies = copies_v(lw, n_, d_, compact);
            proof {
                assert(lviews(row@) =~= copies) by {
                    assert forall|jj: int| 0 <= jj < count implies lviews(row@)[jj] == copies[jj] by {
                        assert(row@[jj]@ == copy_v(lw, n_, d_, compact, jj));
                    }
                }
                assert forall|i: int| 0 <= i < copies.len() implies bounded_v(#[trigger] copies[i])
                    && hints_interior(copies[i], n_) && 0 <= copies[i].width <= bw_low && 0
                    <= copies[i].height <= bh_low by {
                    assert(copies[i] == row@[i]@);
                }
            }
            let ghost gi = g as int;
            if d % 2 == 1 {
                proof {
                    lemma_row_width_bounded(copies, gi, bw_low);
                    assert((n_ + 2) * (bw_low + gi) - gi == (n_ + 2) * bw_low + (n_ + 1) * gi)
                        by (nonlinear_arith);
                    assert(row_width(copies, gi) <= bound_w(n_, d_, compact));
                    lemma_concat_horiz_props(copies, gi, n_);
                }
                let out = Self::concat_horiz(row, g);
                proof {
                    let model = layout_model(n_, d_, compact);
                    assert(out@ == model);
                    assert(out@.height <= bh_low) by {
                        let i = choose|i: int|
                            0 <= i < copies.len() && out@.height == (#[trigger] copies[i]).height;
                    }
                    assert(bound_h(n_, d_, compact) == bh_low);
                    if n_ <= 2 {
                        assert forall|i: int| 0 <= i < copies.len() implies (#[trigger] copies[
                        i]).hints == Map::<(int, int), Option<i16>>::empty() by {
                            assert(copies[i] == row@.index(i)@);
                        }
                    }
                    assert forall|q: Seq<i16>| #[trigger] out@.points.contains_value(q) implies
                        crate::puzzle::is_cell(n_, d_, q) by {
                        let i = choose|i: int|
                            0 <= i < copies.len() && (#[trigger] copies[i]).points.contains_value(
                                q,
                            );
                    }
                    assert forall|q: Seq<i16>| crate::puzzle::is_cell(n_, d_, q) implies
                        #[trigger] out@.points.contains_value(q) by {
                        assert(q.len() == d_);
                        assert(is_boundary(n_, q[d_ - 1] as int) || is_interior(
                            n_,
                            q[d_ - 1] as int,
                        ));
                        lemma_val_at_covers(n_, q[d_ - 1] as int);
                        let jj = choose|jj: int|
                            0 <= jj <= n_ + 1 && #[trigger] val_at(n_, jj) == q[d_ - 1] as int;
                        assert(copies[jj].points.contains_value(q));
                    }
                }
                out
            } else {
                let mut rev: Vec<Layout> = Vec::new();
                let ghost orig_row = row@;
                while row.len() > 0
                    invariant
                        rev@.len() + row@.len() == count,
                        count == n as int + 2,
                        orig_row.len() == count,
                        row@ == orig_row.take(row@.len() as int),
                        forall|i: int|
                            0 <= i < rev@.len() ==> #[trigger] rev@[i] == orig_row[count - 1 - i],
                    decreases row@.len(),
                {
                    let x = row.pop().unwrap();
                    proof {
                        assert(orig_row.take(row@.len() as int + 1).last() == orig_row[row@.len() as int]);
                        assert(orig_row.take(row@.len() as int + 1).drop_last() =~= orig_row.take(
                            row@.len() as int,
                        ));
                    }
                    rev.push(x);
                }
                proof {
                    assert(lviews(rev@) =~= copies.reverse()) by {
                        assert forall|i: int| 0 <= i < count implies lviews(rev@)[i]
                            == copies.reverse()[i] by {
                            assert(rev@[i] == orig_row[count - 1 - i]);
                            assert(copies.reverse()[i] == copies[count - 1 - i]);
                            assert(orig_row[count - 1 - i]@ == copies[count - 1 - i]);
                        }
                    }
                    let rc = copies.reverse();
                    assert forall|i: int| 0 <= i < rc.len() implies bounded_v(#[trigger] rc[i])
                        && hints_interior(rc[i], n_) && 0 <= rc[i].height <= bh_low && 0 <= rc[
                    i].width <= bw_low && (#[trigger] rev@[i]).wf() by {
                        assert(rc[i] == copies[count - 1 - i]);
                        assert(rev@[i] == orig_row[count - 1 - i]);
                    }
                    lemma_col_height_bounded(rc, gi, bh_low);
                    assert((n_ + 2) * (bh_low + gi) - gi == (n_ + 2) * bh_low + (n_ + 1) * gi)
                        by (nonlinear_arith);
                    assert(col_height(rc, gi) <= bound_h(n_, d_, compact));
                    lemma_concat_vert_props(rc, gi, n_);
                }
                let out = Self::concat_vert(rev, g);
                proof {
                    let rc = copies.reverse();
                    let model = layout_model(n_, d_, compact);
                    assert(out@ == model);
                    assert(out@.width <= bw_low) by {
                        let i = choose|i: int|
                            0 <= i < rc.len() && out@.width == (#[trigger] rc[i]).width;
                        assert(rc[i] == copies[count - 1 - i]);
                    }
                    assert(bound_w(n_, d_, compact) == bw_low);
                    if n_ <= 2 {
                        assert forall|i: int| 0 <= i < rc.len() implies (#[trigger] rc[i]).hints
                            == Map::<(int, int), Option<i16>>::empty() by {
                            assert(rc[i] == copies[count - 1 - i]);
                            assert(copies[count - 1 - i] == orig_row[count - 1 - i]@);
                        }
                    }
                    assert forall|q: Seq<i16>| #[trigger] out@.points.contains_value(q) implies
                        crate::puzzle::is_cell(n_, d_, q) by {
                        let i = choose|i: int|
                            0 <= i < rc.len() && (#[trigger] rc[i]).points.contains_value(q);
                        assert(rc[i] == copies[count - 1 - i]);
                    }
                    assert forall|q: Seq<i16>| crate::puzzle::is_cell(n_, d_, q) implies
                        #[trigger] out@.points.contains_value(q) by {
                        assert(q.len() == d_);
                        assert(is_boundary(n_, q[d_ - 1] as int) || is_interior(
                            n_,
                            q[d_ - 1] as int,
                        ));
                        lemma_val_at_covers(n_, q[d_ - 1] as int);
                        let jj = choose|jj: int|
                            0 <= jj <= n_ + 1 && #[trigger] val_at(n_, jj) == q[d_ - 1] as int;
                        assert(copies[jj].points.contains_value(q));
                        assert(rc[count - 1 - jj] == copies[jj]);
                    }
                }
                out
            }
        }
    }
}

} // verus!

verus! {

/// A position is a sticker exactly when it is a drawn cell carrying a
/// boundary coordinate. Together with the contracts of `make_layout` and
/// `make_solved` this ties the two components: the positions that the layout
/// draws on a face are exactly the solved puzzle's sticker keys.
pub proof fn lemma_cells_vs_stickers(n: int, d: int, q: Seq<i16>)
    requires
        n >= 1,
    ensures
        crate::puzzle::is_sticker(n, d, q) <==> (crate::puzzle::is_cell(n, d, q) && exists|i: int|
            0 <= i < q.len() && is_boundary(n, (#[trigger] q[i]) as int)),
{
    if crate::puzzle::is_sticker(n, d, q) {
        let b = choose|b: int| crate::puzzle::sticker_at(n, d, q, b);
        assert(is_boundary(n, q[b] as int));
        assert(crate::puzzle::is_cell(n, d, q)) by {
            assert forall|i: int| 0 <= i < d implies is_boundary(n, (#[trigger] q[i]) as int)
                || is_interior(n, q[i] as int) by {
                if i != b {
                    assert(is_interior(n, q[i] as int));
                }
            }
            assert forall|i: int, j: int|
                0 <= i < j < d && is_boundary(n, (#[trigger] q[i]) as int) implies !is_boundary(
                n,
                (#[trigger] q[j]) as int,
            ) by {
                if i != b {
                    assert(is_interior(n, q[i] as int));
                } else {
                    assert(is_interior(n, q[j] as int));
                }
            }
        }
    }
    if crate::puzzle::is_cell(n, d, q) && exists|i: int|
        0 <= i < q.len() && is_boundary(n, (#[trigger] q[i]) as int) {
        let b = choose|i: int| 0 <= i < q.len() && is_boundary(n, (#[trigger] q[i]) as int);
        assert(crate::puzzle::sticker_at(n, d, q, b)) by {
            assert forall|i: int| 0 <= i < d && i != b implies is_interior(
                n,
                (#[trigger] q[i]) as int,
            ) by {
                if i < b {
                    assert(!is_boundary(n, q[b] as int) || !is_boundary(n, q[i] as int) || false);
                    if is_boundary(n, q[i] as int) {
                        assert(!is_boundary(n, q[b] as int));
                    }
                } else {
                    if is_boundary(n, q[i] as int) {
                        assert(!is_boundary(n, q[i] as int));
                    }
                }
            }
        }
    }
}

/// The bounds grow monotonically between any two depths.
pub proof fn lemma_bounds_grow_upto(n: int, d1: int, d2: int, compact: bool)
    requires
        n >= 1,
        0 <= d1 <= d2,
    ensures
        bound_w(n, d1, compact) <= bound_w(n, d2, compact),
        bound_h(n, d1, compact) <= bound_h(n, d2, compact),
    decreases d2 - d1,
{
    if d1 < d2 {
        lemma_bounds_grow(n, d2, compact);
        lemma_bounds_grow_upto(n, d1, d2 - 1, compact);
    }
}

/// Whether the layout for `(n, d)` fits the screen-coordinate range; exactly
/// the precondition of `make_layout`.
pub fn layout_fits(n: i16, d: u16, compact: bool) -> (r: bool)
    ensures
        r == (1 <= n && d <= 8 && bound_w(n as int, d as int, compact) <= 32767 && bound_h(
            n as int,
            d as int,
            compact,
        ) <= 32767),
{
    if n < 1 || d > 8 {
        return false;
    }
    let mut w: i64 = 1;
    let mut h: i64 = 1;
    let mut dd: u16 = 0;
    while dd < d
        invariant
            1 <= n,
            d <= 8,
            0 <= dd <= d,
            w == bound_w(n as int, dd as int, compact),
            h == bound_h(n as int, dd as int, compact),
            1 <= w <= 32767,
            1 <= h <= 32767,
        decreases d - dd,
    {
        let g = gap_for(dd + 1, compact);
        proof {
            lemma_bounds_grow(n as int, dd as int + 1, compact);
            assert((n as int + 2) * w <= 32769 * 32767 && (n as int + 1) * (g as int) <= 32768 * 40)
                by (nonlinear_arith)
                requires
                    1 <= n as int <= 32767,
                    1 <= w <= 32767,
                    0 <= g as int <= 40,
            ;
            assert((n as int + 2) * w >= 1 && (n as int + 1) * (g as int) >= 0) by (nonlinear_arith)
                requires
                    1 <= n as int,
                    1 <= w,
                    0 <= g as int,
            ;
            assert((n as int + 2) * h <= 32769 * 32767 && (n as int + 2) * h >= 1)
                by (nonlinear_arith)
                requires
                    1 <= n as int <= 32767,
                    1 <= h <= 32767,
            ;
        }
        if (dd + 1) % 2 == 1 {
            w = (n as i64 + 2) * w + (n as i64 + 1) * (g as i64);
        } else {
            h = (n as i64 + 2) * h + (n as i64 + 1) * (g as i64);
        }
        if w > 32767 || h > 32767 {
            proof {
                lemma_bounds_grow_upto(n as int, dd as int + 1, d as int, compact);
            }
            return false;
        }
        dd = dd + 1;
    }
    true
}

impl PointMap {
    /// The entries as plain pairs: unique screen coordinates, each present in
    /// the map with its position, and together covering the whole map.
    pub fn pairs(&self) -> (r: Vec<((i16, i16), Vec<i16>)>)
        requires
            self.wf(),
        ensures
            forall|i: int, j: int|
                0 <= i < j < r@.len() ==> pt_key(#[trigger] r@[i]) != pt_key(#[trigger] r@[j]),
            forall|i: int|
                0 <= i < r@.len() ==> self@.dom().contains(pt_key(#[trigger] r@[i])) && self@[
                pt_key(r@[i])] == r@[i].1@,
            forall|k: (int, int)|
                #[trigger] self@.dom().contains(k) ==> exists|i: int|
                    0 <= i < r@.len() && pt_key(#[trigger] r@[i]) == k,
    {
        proof {
            lemma_pt_map(self.entries@);
        }
        let mut r: Vec<((i16, i16), Vec<i16>)> = Vec::new();
        let mut i: usize = 0;
        while i < self.entries.len()
            invariant
                self.wf(),
                0 <= i <= self.entries@.len(),
                r@.len() == i,
                forall|j: int|
                    0 <= j < i ==> pt_key(#[trigger] r@[j]) == pt_key(self.entries@[j]) && r@[j].1@
                        == self.entries@[j].1@,
            decreases self.entries@.len() - i,
        {
            let x = self.entries[i].0.0;
            let y = self.entries[i].0.1;
            let v = self.entries[i].1.clone();
            proof {
                assert(v@ =~= self.entries@[i as int].1@);
            }
            r.push(((x, y), v));
            i += 1;
        }
        proof {
            lemma_pt_map(self.entries@);
            assert forall|k: (int, int)| #[trigger] self@.dom().contains(k) implies exists|i2: int|
                0 <= i2 < r@.len() && pt_key(#[trigger] r@[i2]) == k by {
                let j = choose|j: int|
                    0 <= j < self.entries@.len() && pt_key(#[trigger] self.entries@[j]) == k;
                assert(pt_key(r@[j]) == k);
            }
        }
        r
    }
}

impl HintMap {
    /// The entries as plain pairs, analogous to `PointMap::pairs`.
    pub fn pairs(&self) -> (r: Vec<((i16, i16), Option<i16>)>)
        requires
            self.wf(),
        ensures
            forall|i: int|
                0 <= i < r@.len() ==> self@.dom().contains(hk_key(#[trigger] r@[i])) && self@[
                hk_key(r@[i])] == r@[i].1,
            forall|k: (int, int)|
                #[trigger] self@.dom().contains(k) ==> exists|i: int|
                    0 <= i < r@.len() && hk_key(#[trigger] r@[i]) == k,
    {
        proof {
            lemma_hk_map(self.entries@);
        }
        let mut r: Vec<((i16, i16), Option<i16>)> = Vec::new();
        let mut i: usize = 0;
        while i < self.entries.len()
            invariant
                self.wf(),
                0 <= i <= self.entries@.len(),
                r@.len() == i,
                forall|j: int| 0 <= j < i ==> #[trigger] r@[j] == self.entries@[j],
            decreases self.entries@.len() - i,
        {
            r.push(self.entries[i]);
            i += 1;
        }
        proof {
            lemma_hk_map(self.entries@);
            assert forall|k: (int, int)| #[trigger] self@.dom().contains(k) implies exists|i2: int|
                0 <= i2 < r@.len() && hk_key(#[trigger] r@[i2]) == k by {
                let j = choose|j: int|
                    0 <= j < self.entries@.len() && hk_key(#[trigger] self.entries@[j]) == k;
                assert(hk_key(r@[j]) == k);
            }
        }
        r
    }
}

} // verus!

verus! {

/// A layout with its width overridden (for column alignment in a grid).
pub open spec fn set_w_v(l: LayoutV, w: int) -> LayoutV {
    LayoutV { width: w, ..l }
}

/// The widest entry of column `i` over all rows (zero for no rows).
pub open spec fn col_maxw(rows: Seq<Seq<LayoutV>>, i: int) -> int
    decreases rows.len(),
{
    if rows.len() == 0 {
        0
    } else {
        spec_max(col_maxw(rows.drop_last(), i), rows.last()[i].width)
    }
}

/// Row `j` with every entry widened to its column's width.
pub open spec fn aligned_row_v(rows: Seq<Seq<LayoutV>>, j: int) -> Seq<LayoutV> {
    Seq::new(rows[j].len(), |i: int| set_w_v(rows[j][i], col_maxw(rows, i)))
}

/// The rows of a grid after alignment, each joined left to right.
pub open spec fn grid_rows_v(rows: Seq<Seq<LayoutV>>, gh: int) -> Seq<LayoutV> {
    Seq::new(rows.len(), |j: int| concat_horiz_v(aligned_row_v(rows, j), gh))
}

/// A grid of layouts: columns are width-aligned, rows are joined left to
/// right, and the rows are joined top to bottom.
pub open spec fn concat_grid_v(rows: Seq<Seq<LayoutV>>, gh: int, gv: int) -> LayoutV {
    concat_vert_v(grid_rows_v(rows, gh), gv)
}

/// The views of a grid of layouts.
pub open spec fn lgviews(s: Seq<Vec<Layout>>) -> Seq<Seq<LayoutV>> {
    Seq::new(s.len(), |j: int| lviews(s[j]@))
}

/// No column entry is wider than its column.
proof fn lemma_col_maxw(rows: Seq<Seq<LayoutV>>, i: int, j: int, cap: int)
    requires
        0 <= j < rows.len(),
        0 <= i,
        forall|a: int| 0 <= a < rows.len() ==> i < (#[trigger] rows[a]).len(),
        forall|a: int, b: int|
            0 <= a < rows.len() && 0 <= b < (#[trigger] rows[a]).len() ==> 0 <= (#[trigger] rows[a][
            b]).width <= cap,
        cap >= 0,
    ensures
        rows[j][i].width <= col_maxw(rows, i),
        0 <= col_maxw(rows, i) <= cap,
    decreases rows.len(),
{
    if rows.len() > 0 {
        let pre = rows.drop_last();
        assert(forall|a: int| 0 <= a < pre.len() ==> #[trigger] pre[a] == rows[a]);
        assert forall|a: int| 0 <= a < pre.len() implies i < (#[trigger] pre[a]).len() by {
            assert(pre[a] == rows[a]);
        }
        assert forall|a: int, b: int|
            0 <= a < pre.len() && 0 <= b < (#[trigger] pre[a]).len() implies 0 <= (
        #[trigger] pre[a][b]).width <= cap by {
            assert(pre[a] == rows[a]);
            assert(rows[a][b].width <= cap);
        }
        if j < rows.len() - 1 {
            lemma_col_maxw(pre, i, j, cap);
        } else {
            assert(rows.last()[i].width <= cap);
            if pre.len() > 0 {
                lemma_col_maxw(pre, i, 0, cap);
            }
        }
        if pre.len() > 0 {
            lemma_col_maxw(pre, i, 0, cap);
        }
    }
}

impl Layout {
    /// Joins a grid of layouts: every column is first widened to its widest
    /// entry, each row is joined left to right, and the rows are joined top
    /// to bottom.
    pub fn concat_grid(layouts: Vec<Vec<Layout>>, gap_horiz: i16, gap_vert: i16) -> (r: Layout)
        requires
            layouts@.len() >= 1,
            forall|j: int|
                0 <= j < layouts@.len() ==> (#[trigger] layouts@[j])@.len() == layouts@[0]@.len(),
            layouts@[0]@.len() >= 1,
            0 <= gap_horiz,
            0 <= gap_vert,
            forall|j: int, i: int|
                0 <= j < layouts@.len() && 0 <= i < (#[trigger] layouts@[j])@.len() ==> (
                #[trigger] layouts@[j]@[i]).wf() && bounded_v(layouts@[j]@[i]@),
            forall|j: int|
                0 <= j < layouts@.len() ==> row_width(
                    #[trigger] aligned_row_v(lgviews(layouts@), j),
                    gap_horiz as int,
                ) <= 32767,
            col_height(grid_rows_v(lgviews(layouts@), gap_horiz as int), gap_vert as int) <= 32767,
        ensures
            r.wf(),
            r@ == concat_grid_v(lgviews(layouts@), gap_horiz as int, gap_vert as int),
    {
        let ghost gvs = lgviews(layouts@);
        let ghost orig = layouts@;
        let rows_n = layouts.len();
        let cols = layouts[0].len();
        // the widest entry of each column
        let mut maxes: Vec<u16> = Vec::new();
        let mut i: usize = 0;
        while i < cols
            invariant
                gvs == lgviews(orig),
                orig.len() == rows_n,
                rows_n >= 1,
                layouts@ == orig,
                cols == orig[0]@.len(),
                forall|j: int| 0 <= j < orig.len() ==> (#[trigger] orig[j])@.len() == cols,
                forall|j: int, ii: int|
                    0 <= j < orig.len() && 0 <= ii < (#[trigger] orig[j])@.len() ==> (
                    #[trigger] orig[j]@[ii]).wf() && bounded_v(orig[j]@[ii]@),
                0 <= i <= cols,
                maxes@.len() == i,
                forall|ii: int|
                    0 <= ii < i ==> (#[trigger] maxes@[ii]) as int == col_maxw(gvs, ii),
            decreases cols - i,
        {
            let mut mx: u16 = 0;
            let mut j: usize = 0;
            while j < rows_n
                invariant
                    gvs == lgviews(orig),
                    orig.len() == rows_n,
                    layouts@ == orig,
                    cols == orig[0]@.len(),
                    forall|jj: int| 0 <= jj < orig.len() ==> (#[trigger] orig[jj])@.len() == cols,
                    forall|jj: int, ii: int|
                        0 <= jj < orig.len() && 0 <= ii < (#[trigger] orig[jj])@.len() ==> (
                        #[trigger] orig[jj]@[ii]).wf() && bounded_v(orig[jj]@[ii]@),
                    0 <= i < cols,
                    0 <= j <= rows_n,
                    mx as int == col_maxw(gvs.take(j as int), i as int),
                    mx <= 32767,
                decreases rows_n - j,
            {
                proof {
                    assert(gvs.take(j as int + 1).drop_last() =~= gvs.take(j as int));
                    assert(gvs.take(j as int + 1).last() == gvs[j as int]);
                    assert(gvs[j as int] == lviews(orig[j as int]@));
                    assert(gvs[j as int][i as int] == orig[j as int]@[i as int]@);
                    assert(bounded_v(orig[j as int]@[i as int]@));
                }
                let w = layouts[j][i].width;
                if w > mx {
                    mx = w;
                }
                j += 1;
            }
            proof {
                assert(gvs.take(rows_n as int) =~= gvs);
            }
            maxes.push(mx);
            i += 1;
        }
        // rebuild each row with aligned widths and join it
        let mut rows_out: Vec<Layout> = Vec::new();
        let mut rest = layouts;
        let mut j: usize = 0;
        while j < rows_n
            invariant
                gvs == lgviews(orig),
                orig.len() == rows_n,
                rows_n >= 1,
                cols == orig[0]@.len(),
                cols >= 1,
                0 <= gap_horiz,
                forall|jj: int| 0 <= jj < orig.len() ==> (#[trigger] orig[jj])@.len() == cols,
                forall|jj: int, ii: int|
                    0 <= jj < orig.len() && 0 <= ii < (#[trigger] orig[jj])@.len() ==> (
                    #[trigger] orig[jj]@[ii]).wf() && bounded_v(orig[jj]@[ii]@),
                forall|jj: int|
                    0 <= jj < orig.len() ==> row_width(
                        #[trigger] aligned_row_v(gvs, jj),
                        gap_horiz as int,
                    ) <= 32767,
                maxes@.len() == cols,
                forall|ii: int|
                    0 <= ii < cols ==> (#[trigger] maxes@[ii]) as int == col_maxw(gvs, ii),
                0 <= j <= rows_n,
                rest@.len() == rows_n - j,
                forall|jj: int| 0 <= jj < rest@.len() ==> (#[trigger] rest@[jj]) == orig[j + jj],
                rows_out@.len() == j,
                forall|jj: int|
                    0 <= jj < j ==> (#[trigger] rows_out@[jj]).wf() && rows_out@[jj]@
                        == concat_horiz_v(aligned_row_v(gvs, jj), gap_horiz as int),
            decreases rows_n - j,
        {
            let mut row = rest.remove(0);
            let mut aligned: Vec<Layout> = Vec::new();
            let mut i2: usize = 0;
            while i2 < cols
                invariant
                    gvs == lgviews(orig),
                    orig.len() == rows_n,
                    cols == orig[0]@.len(),
                    forall|jj: int| 0 <= jj < orig.len() ==> (#[trigger] orig[jj])@.len() == cols,
                    forall|jj: int, ii: int|
                        0 <= jj < orig.len() && 0 <= ii < (#[trigger] orig[jj])@.len() ==> (
                        #[trigger] orig[jj]@[ii]).wf() && bounded_v(orig[jj]@[ii]@),
                    maxes@.len() == cols,
                    forall|ii: int|
                        0 <= ii < cols ==> (#[trigger] maxes@[ii]) as int == col_maxw(gvs, ii),
                    0 <= j < rows_n,
                    0 <= i2 <= cols,
                    row@.len() == cols - i2,
                    forall|ii: int|
                        0 <= ii < row@.len() ==> (#[trigger] row@[ii]) == orig[j as int]@[i2 + ii],
                    aligned@.len() == i2,
                    forall|ii: int|
                        0 <= ii < i2 ==> (#[trigger] aligned@[ii]).wf() && aligned@[ii]@
                            == set_w_v(gvs[j as int][ii], col_maxw(gvs, ii)),
                decreases cols - i2,
            {
                let mut l = row.remove(0);
                proof {
                    assert(l == orig[j as int]@[i2 as int]);
                    assert(gvs[j as int][i2 as int] == orig[j as int]@[i2 as int]@);
                }
                l.width = maxes[i2];
                aligned.push(l);
                i2 += 1;
            }
            proof {
                assert(lviews(aligned@) =~= aligned_row_v(gvs, j as int)) by {
                    assert forall|ii: int| 0 <= ii < cols implies lviews(aligned@)[ii]
                        == aligned_row_v(gvs, j as int)[ii] by {
                        assert(aligned@[ii]@ == set_w_v(gvs[j as int][ii], col_maxw(gvs, ii)));
                    }
                }
                assert forall|ii: int| 0 <= ii < cols implies (#[trigger] aligned@[ii]).wf() && 0
                    <= aligned@[ii]@.width && (forall|k: (int, int)| #[trigger]
                    aligned@[ii]@.points.dom().contains(k) ==> 0 <= k.0 < aligned@[ii]@.width) && (
                forall|k: (int, int)| #[trigger]
                    aligned@[ii]@.hints.dom().contains(k) ==> 0 <= k.0 < aligned@[ii]@.width) by {
                    lemma_col_maxw(gvs, ii, j as int, 32767);
                    assert(bounded_v(gvs[j as int][ii]));
                    assert(aligned@[ii]@.width == col_maxw(gvs, ii));
                    assert(gvs[j as int][ii].width <= col_maxw(gvs, ii));
                }
            }
            let joined = Self::concat_horiz(aligned, gap_horiz);
            rows_out.push(joined);
            j += 1;
        }
        proof {
            assert(lviews(rows_out@) =~= grid_rows_v(gvs, gap_horiz as int)) by {
                assert forall|jj: int| 0 <= jj < rows_n implies lviews(rows_out@)[jj]
                    == grid_rows_v(gvs, gap_horiz as int)[jj] by {
                    assert(rows_out@[jj]@ == concat_horiz_v(aligned_row_v(gvs, jj), gap_horiz as int));
                }
            }
            assert forall|jj: int| 0 <= jj < rows_n implies (#[trigger] rows_out@[jj]).wf() && 0
                <= rows_out@[jj]@.height && (forall|k: (int, int)| #[trigger]
                rows_out@[jj]@.points.dom().contains(k) ==> 0 <= k.1 < rows_out@[jj]@.height) && (
            forall|k: (int, int)| #[trigger]
                rows_out@[jj]@.hints.dom().contains(k) ==> 0 <= k.1 < rows_out@[jj]@.height) by {
                let arow = aligned_row_v(gvs, jj);
                assert forall|ii: int| 0 <= ii < arow.len() implies bounded_v(#[trigger] arow[ii]) by {
                    lemma_col_maxw(gvs, ii, jj, 32767);
                    assert(arow[ii] == set_w_v(gvs[jj][ii], col_maxw(gvs, ii)));
                    assert(bounded_v(gvs[jj][ii]));
                }
                lemma_concat_horiz_props_free(arow, gap_horiz as int);
                assert(bounded_v(concat_horiz_v(arow, gap_horiz as int)));
            }
        }
        Self::concat_vert(rows_out, gap_vert)
    }
}

/// The bounded part of the row-joining lemma, without any condition on what
/// the hints mark.
pub proof fn lemma_concat_horiz_props_free(ls: Seq<LayoutV>, gap: int)
    requires
        ls.len() >= 1,
        gap >= 0,
        forall|i: int| 0 <= i < ls.len() ==> bounded_v(#[trigger] ls[i]),
        row_width(ls, gap) <= 32767,
    ensures
        concat_horiz_v(ls, gap).width == row_width(ls, gap),
        bounded_v(concat_horiz_v(ls, gap)),
    decreases ls.len(),
{
    let c = concat_horiz_v(ls, gap);
    if ls.len() == 1 {
    } else {
        let pre = ls.drop_last();
        assert forall|i: int| 0 <= i < pre.len() implies bounded_v(#[trigger] pre[i]) && 0 <= pre[
        i].width by {
            assert(pre[i] == ls[i]);
        }
        assert forall|i: int| 0 <= i < ls.len() implies 0 <= (#[trigger] ls[i]).width by {}
        lemma_row_width_mono(ls, gap, ls.len() - 1);
        assert(ls.take(ls.len() - 1) =~= pre);
        lemma_concat_horiz_props_free(pre, gap);
        let a = concat_horiz_v(pre, gap);
        let b = ls.last();
        let sh = a.width + gap;
        let m = move_right_v(b, sh);
        assert(c == union_v(a, m));
        assert(row_width(ls, gap) == a.width + gap + b.width);
        assert(0 <= b.width);
        assert(c.width == row_width(ls, gap));
        assert forall|k: (int, int)| #[trigger] m.points.dom().contains(k) implies sh <= k.0 < sh
            + b.width && 0 <= k.1 < b.height by {
            assert(b.points.dom().contains((k.0 - sh, k.1)));
        }
        assert forall|k: (int, int)| #[trigger] m.hints.dom().contains(k) implies sh <= k.0 < sh
            + b.width && 0 <= k.1 < b.height by {
            assert(b.hints.dom().contains((k.0 - sh, k.1)));
        }
        assert(bounded_v(c)) by {
            assert forall|k: (int, int)| #[trigger] c.points.dom().contains(k) implies 0 <= k.0
                < c.width && 0 <= k.1 < c.height by {
                if m.points.dom().contains(k) {
                } else {
                    assert(a.points.dom().contains(k));
                }
            }
            assert forall|k: (int, int)| #[trigger] c.hints.dom().contains(k) implies 0 <= k.0
                < c.width && 0 <= k.1 < c.height by {
                if m.hints.dom().contains(k) {
                } else {
                    assert(a.hints.dom().contains(k));
                }
            }
        }
    }
}

} // verus!
