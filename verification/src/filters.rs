//! Sticker filters: a disjunction of conjunctions of selectors over the
//! colors attached to a piece. A selector either demands (or forbids) a
//! color, or demands an exact sticker count.

use vstd::prelude::*;

verus! {

/// One atomic selector: a color that must be attached, or a number of
/// attached stickers.
#[derive(Clone, Copy, Debug, PartialEq, Eq, Structural)]
pub enum FilterSelector {
    Side(i16),
    Type(usize),
}

/// A selector together with its polarity: the piece must (`have`) or must not
/// (`!have`) satisfy it.
#[derive(Clone, Copy, Debug, PartialEq, Eq, Structural)]
pub struct FilterSelectorBool {
    pub have: bool,
    pub selector: FilterSelector,
}

/// A filter: a disjunction of conjunctive clauses.
#[derive(Clone, Debug)]
pub struct Filter(pub Vec<Vec<FilterSelectorBool>>);

/// Whether one selector holds of a list of attached colors.
pub open spec fn sel_matches(s: FilterSelector, colors: Seq<i16>) -> bool {
    match s {
        FilterSelector::Side(c) => colors.contains(c),
        FilterSelector::Type(k) => colors.len() == k,
    }
}

/// Whether a conjunctive clause holds: every selector agrees with its
/// polarity.
pub open spec fn clause_matches(cl: Seq<FilterSelectorBool>, colors: Seq<i16>) -> bool {
    forall|i: int|
        0 <= i < cl.len() ==> sel_matches((#[trigger] cl[i]).selector, colors) == cl[i].have
}

/// Whether a filter holds: some clause holds.
pub open spec fn filter_matches(f: Seq<Seq<FilterSelectorBool>>, colors: Seq<i16>) -> bool {
    exists|i: int| 0 <= i < f.len() && clause_matches(#[trigger] f[i], colors)
}

impl Filter {
    /// The clauses of the filter.
    pub open spec fn clauses(self) -> Seq<Seq<FilterSelectorBool>> {
        self.0@.map(|i: int, v: Vec<FilterSelectorBool>| v@)
    }
}

impl Default for Filter {
    /// The default filter holds one empty clause, which every piece matches.
    fn default() -> (r: Self)
        ensures
            r.clauses().len() == 1,
            r.clauses()[0] == Seq::<FilterSelectorBool>::empty(),
            forall|colors: Seq<i16>| filter_matches(r.clauses(), colors),
    {
        let r = Filter(vec![vec![]]);
        proof {
            assert(r.clauses()[0] =~= Seq::<FilterSelectorBool>::empty());
            assert forall|colors: Seq<i16>| filter_matches(r.clauses(), colors) by {
                assert(clause_matches(r.clauses()[0], colors));
            }
        }
        r
    }
}

impl FilterSelector {
    /// Whether this selector holds of the attached colors.
    pub fn matches_stickers(&self, colors: &[i16]) -> (r: bool)
        ensures
            r == sel_matches(*self, colors@),
    {
        match self {
            FilterSelector::Side(color) => {
                let mut i: usize = 0;
                while i < colors.len()
                    invariant
                        *self == FilterSelector::Side(*color),
                        0 <= i <= colors@.len(),
                        forall|j: int| 0 <= j < i ==> (#[trigger] colors@[j]) != *color,
                    decreases colors@.len() - i,
                {
                    if colors[i] == *color {
                        proof {
                            assert(colors@[i as int] == *color);
                            assert(colors@.contains(*color));
                        }
                        return true;
                    }
                    i += 1;
                }
                proof {
                    if colors@.contains(*color) {
                        let j = choose|j: int|
                            0 <= j < colors@.len() && (#[trigger] colors@[j]) == *color;
                    }
                }
                false
            },
            FilterSelector::Type(k) => colors.len() == *k,
        }
    }
}

impl Filter {
    /// Whether any clause of the filter holds of the attached colors: every
    /// selector of that clause agrees with its polarity.
    pub fn matches_stickers(&self, colors: &[i16]) -> (r: bool)
        ensures
            r == filter_matches(self.clauses(), colors@),
    {
        let mut ci: usize = 0;
        while ci < self.0.len()
            invariant
                0 <= ci <= self.0@.len(),
                forall|j: int| 0 <= j < ci ==> !clause_matches(#[trigger] self.clauses()[j], colors@),
            decreases self.0@.len() - ci,
        {
            let clause = &self.0[ci];
            let mut si: usize = 0;
            let mut all = true;
            while si < clause.len()
                invariant
                    0 <= si <= clause@.len(),
                    clause@ == self.clauses()[ci as int],
                    ci < self.0@.len(),
                    all == (forall|j: int|
                        0 <= j < si ==> sel_matches(
                            (#[trigger] clause@[j]).selector,
                            colors@,
                        ) == clause@[j].have),
                decreases clause@.len() - si,
            {
                let m = clause[si].selector.matches_stickers(colors);
                if m != clause[si].have {
                    all = false;
                }
                si += 1;
            }
            if all {
                proof {
                    assert(clause_matches(self.clauses()[ci as int], colors@));
                }
                return true;
            }
            ci += 1;
        }
        proof {
            if filter_matches(self.clauses(), colors@) {
                let j = choose|j: int|
                    0 <= j < self.clauses().len() && clause_matches(
                        #[trigger] self.clauses()[j],
                        colors@,
                    );
            }
        }
        false
    }
}

} // verus!
