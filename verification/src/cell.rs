//! The domain of one grid cell: which of the values 0, 1, 2, 3 it may still hold.

use vstd::prelude::*;

verus! {

/// The domain of a cell that nothing is known about: all four values.
pub open spec fn full_domain() -> Set<u8> {
    Set::new(|v: u8| v <= 3)
}

/// The domain `d` after a guess of `v`: the singleton `{v}` where `v` was
/// possible, and `d` itself where it was not.
pub open spec fn restrict(d: Set<u8>, v: u8) -> Set<u8> {
    if d.contains(v) {
        set![v]
    } else {
        d
    }
}

/// The win condition for one cell: its value is determined, or the values that
/// are left are harmless (neither 2 nor 3 is among them).
pub open spec fn resolved(d: Set<u8>) -> bool {
    d.len() == 1 || (!d.contains(2) && !d.contains(3))
}

/// A cell that is open but cannot hold a zero: any guess there is free of risk.
pub open spec fn riskless(d: Set<u8>) -> bool {
    d.len() != 1 && !d.contains(0)
}

/// The set of values a cell may still take, a subset of {0, 1, 2, 3}.
///
/// Each set has exactly one representation, so `==` on cells is equality of
/// their views (`lemma_same_values`).
#[derive(Clone, Copy, Debug, PartialEq, Eq, Structural)]
pub struct GCell {
    zero: bool,
    one: bool,
    two: bool,
    three: bool,
}

impl View for GCell {
    type V = Set<u8>;

    closed spec fn view(&self) -> Set<u8> {
        Set::new(|v: u8| self.holds(v))
    }
}

impl GCell {
    spec fn holds(self, v: u8) -> bool {
        ||| v == 0 && self.zero
        ||| v == 1 && self.one
        ||| v == 2 && self.two
        ||| v == 3 && self.three
    }

    spec fn count(self) -> nat {
        let a: nat = if self.zero { 1 } else { 0 };
        let b: nat = if self.one { 1 } else { 0 };
        let c: nat = if self.two { 1 } else { 0 };
        let d: nat = if self.three { 1 } else { 0 };
        a + b + c + d
    }

    proof fn lemma_count(self)
        ensures
            self@.finite(),
            self@.len() == self.count(),
    {
        let s0 = Set::<u8>::empty();
        let s1 = if self.zero { s0.insert(0) } else { s0 };
        let s2 = if self.one { s1.insert(1) } else { s1 };
        let s3 = if self.two { s2.insert(2) } else { s2 };
        let s4 = if self.three { s3.insert(3) } else { s3 };
        assert(s4 =~= self@);
    }

    /// A cell holds only values from 0 to 3, so its view is a finite set of at
    /// most four values.
    pub proof fn lemma_range(self)
        ensures
            self@.finite(),
            self@.len() <= 4,
            self@.subset_of(full_domain()),
    {
        self.lemma_count();
    }

    /// Two cells that allow the same values are the same cell.
    pub proof fn lemma_same_values(self, other: GCell)
        requires
            self@ == other@,
        ensures
            self == other,
    {
        assert(self.zero == self@.contains(0));
        assert(self.one == self@.contains(1));
        assert(self.two == self@.contains(2));
        assert(self.three == self@.contains(3));
        assert(other.zero == other@.contains(0));
        assert(other.one == other@.contains(1));
        assert(other.two == other@.contains(2));
        assert(other.three == other@.contains(3));
    }

    /// The cell of which nothing is known yet.
    pub fn new() -> (cell: Self)
        ensures
            cell@ == full_domain(),
    {
        let cell = GCell { zero: true, one: true, two: true, three: true };
        assert(cell@ =~= full_domain());
        cell
    }

    /// The cell with no value left: a contradiction.
    pub fn empty() -> (cell: Self)
        ensures
            cell@ == Set::<u8>::empty(),
    {
        let cell = GCell { zero: false, one: false, two: false, three: false };
        assert(cell@ =~= Set::<u8>::empty());
        cell
    }

    /// Whether `item` is still possible here.
    pub fn has(&self, item: u8) -> (found: bool)
        ensures
            found == self@.contains(item),
    {
        (item == 0 && self.zero) || (item == 1 && self.one) || (item == 2 && self.two) || (item == 3
            && self.three)
    }

    /// Whether exactly one value is left.
    pub fn is_known(&self) -> (known: bool)
        ensures
            known == (self@.len() == 1),
    {
        proof {
            self.lemma_count();
        }
        let mut n: u8 = 0;
        if self.zero {
            n = n + 1;
        }
        if self.one {
            n = n + 1;
        }
        if self.two {
            n = n + 1;
        }
        if self.three {
            n = n + 1;
        }
        n == 1
    }

    /// The value of a cell that is known; `None` for one that is open or empty.
    pub fn value(&self) -> (known: Option<u8>)
        ensures
            known is Some <==> self@.len() == 1,
            known is Some ==> self@ == set![known->0],
    {
        proof {
            self.lemma_count();
        }
        let found = if self.zero && !self.one && !self.two && !self.three {
            Some(0u8)
        } else if !self.zero && self.one && !self.two && !self.three {
            Some(1u8)
        } else if !self.zero && !self.one && self.two && !self.three {
            Some(2u8)
        } else if !self.zero && !self.one && !self.two && self.three {
            Some(3u8)
        } else {
            None
        };
        assert(found is Some ==> self@ =~= set![found->0]);
        found
    }

    /// Whether the cell counts as finished: known, or open between harmless
    /// values only.
    pub fn is_resolved(&self) -> (done: bool)
        ensures
            done == resolved(self@),
    {
        self.is_known() || (!self.has(2) && !self.has(3))
    }

    /// Guesses `item`: where it is possible the cell becomes `{item}`, where it
    /// is not the cell stays as it was.
    pub fn set(&mut self, item: u8)
        ensures
            final(self)@ == restrict(old(self)@, item),
    {
        if self.has(item) {
            let cell = GCell { zero: item == 0, one: item == 1, two: item == 2, three: item == 3 };
            assert(cell@ =~= set![item]);
            *self = cell;
        }
    }

    /// The values that are left, in ascending order.
    pub fn values(&self) -> (vals: Vec<u8>)
        ensures
            forall|v: u8| vals@.contains(v) <==> self@.contains(v),
            forall|i: int, j: int| 0 <= i < j < vals.len() ==> vals[i] < vals[j],
    {
        let mut vals: Vec<u8> = Vec::new();
        let mut v: u8 = 0;
        while v < 4
            invariant
                v <= 4,
                forall|w: u8| vals@.contains(w) <==> (self@.contains(w) && w < v),
                forall|i: int| 0 <= i < vals.len() ==> vals[i] < v,
                forall|i: int, j: int| 0 <= i < j < vals.len() ==> vals[i] < vals[j],
            decreases 4 - v,
        {
            if self.has(v) {
                let ghost before = vals@;
                vals.push(v);
                assert(vals@[vals.len() - 1] == v);
                assert forall|w: u8| vals@.contains(w) <==> (self@.contains(w) && w < v + 1) by {
                    if vals@.contains(w) {
                        let i = choose|i: int| 0 <= i < vals.len() && vals[i] == w;
                        if i < before.len() {
                            assert(before[i] == w);
                            assert(before.contains(w));
                        }
                    }
                    if self@.contains(w) && w < v {
                        assert(before.contains(w));
                        let i = choose|i: int| 0 <= i < before.len() && before[i] == w;
                        assert(vals@[i] == w);
                    }
                }
            }
            v = v + 1;
        }
        vals
    }

    /// The values possible in both cells.
    pub fn intersect(&self, other: &GCell) -> (both: GCell)
        ensures
            both@ == self@.intersect(other@),
    {
        let both = GCell {
            zero: self.zero && other.zero,
            one: self.one && other.one,
            two: self.two && other.two,
            three: self.three && other.three,
        };
        assert(both@ =~= self@.intersect(other@));
        both
    }

    /// The values possible in either cell.
    pub fn union(&self, other: &GCell) -> (either: GCell)
        ensures
            either@ == self@.union(other@),
    {
        let either = GCell {
            zero: self.zero || other.zero,
            one: self.one || other.one,
            two: self.two || other.two,
            three: self.three || other.three,
        };
        assert(either@ =~= self@.union(other@));
        either
    }
}

} // verus!
