//! The candidate set of one cell.

use crate::bits::{
    digits, lemma_mask_bounds, lemma_values_clear, lemma_values_constants, lemma_values_finite,
    lemma_values_meet, lemma_values_single, mask_contains, mask_count, mask_list, mask_values,
    ALL_VALUES,
};
use vstd::prelude::*;

verus! {

/// The digits that are still possible in one cell, kept as nine bit flags.
///
/// The view of a cell is the set of its possible digits. Bits above the ninth
/// are never set.
#[derive(Clone, Copy)]
pub struct SudokuCell {
    bits: usize,
}

impl View for SudokuCell {
    type V = Set<int>;

    open spec fn view(&self) -> Set<int> {
        mask_values(self.mask())
    }
}

impl SudokuCell {
    /// The bit flags of the cell.
    pub closed spec fn mask(self) -> usize {
        self.bits
    }

    #[verifier::type_invariant]
    spec fn within_nine_bits(self) -> bool {
        self.bits <= ALL_VALUES
    }

    /// A cell holds finitely many digits, all between 1 and 9.
    pub proof fn lemma_view_bounded(self)
        ensures
            self@.finite(),
            self@.len() <= 9,
            self@.subset_of(digits()),
    {
        lemma_values_finite(self.mask());
    }

    /// Constructs a new cell where all values (1-9) are possible.
    pub fn new_all() -> (c: SudokuCell)
        ensures
            c@ == digits(),
    {
        proof {
            lemma_values_constants();
        }
        SudokuCell { bits: ALL_VALUES }
    }

    /// Constructs a cell where only the single value `v` is possible.
    pub fn new_const(v: usize) -> (c: SudokuCell)
        requires
            1 <= v <= 9,
        ensures
            c@ == set![v as int],
    {
        proof {
            lemma_values_single(v);
            lemma_mask_bounds(0, 0, (v - 1) as usize);
        }
        SudokuCell { bits: 1usize << (v - 1) }
    }

    /// The bit flags of the cell: bit `v - 1` is set exactly if `v` is possible.
    pub fn bits(&self) -> (m: usize)
        ensures
            m == self.mask(),
            m <= ALL_VALUES,
    {
        proof {
            use_type_invariant(self);
        }
        self.bits
    }

    /// Returns the number of possible values.
    pub fn num_possibilities(&self) -> (n: usize)
        ensures
            n == self@.len(),
            n <= 9,
    {
        mask_count(self.bits)
    }

    /// Returns `true` iff the cell is solved, i.e., it has a single possible
    /// value.
    pub fn is_solved(&self) -> (b: bool)
        ensures
            b == (self@.len() == 1),
    {
        self.num_possibilities() == 1
    }

    /// Returns the value of a solved cell, and `None` for a cell that is not
    /// solved.
    pub fn solution(&self) -> (r: Option<usize>)
        ensures
            match r {
                Some(v) => self@ == set![v as int],
                None => self@.len() != 1,
            },
    {
        if !self.is_solved() {
            return None;
        }
        proof {
            self.lemma_view_bounded();
        }
        let mut v: usize = 1;
        while v <= 9
            invariant
                1 <= v <= 10,
                self@.finite(),
                self@.len() == 1,
                forall|w: int| 1 <= w < v ==> !self@.contains(w),
            decreases 10 - v,
        {
            if self.is_possible(v) {
                proof {
                    assert(self@.remove(v as int).len() == 0);
                    assert(self@ =~= set![v as int]) by {
                        assert forall|w: int| self@.contains(w) implies w == v by {
                            if w != v {
                                assert(self@.remove(v as int).contains(w));
                            }
                        }
                    }
                }
                return Some(v);
            }
            v += 1;
        }
        proof {
            assert(self@ =~= Set::<int>::empty());
        }
        None
    }

    /// Returns `true` iff the value `v` is possible in this cell.
    pub fn is_possible(&self, v: usize) -> (b: bool)
        ensures
            b == self@.contains(v as int),
    {
        mask_contains(self.bits, v)
    }

    /// Returns the possible values of this cell in ascending order.
    pub fn possible_values(&self) -> (r: Vec<usize>)
        ensures
            forall|i: int, j: int| 0 <= i < j < r.len() ==> r[i] < r[j],
            forall|i: int| 0 <= i < r.len() ==> self@.contains(#[trigger] r[i] as int),
            forall|v: int| self@.contains(v) ==> r@.contains(v as usize),
            r.len() == self@.len(),
    {
        mask_list(self.bits)
    }

    /// Whether this cell and `mask` have a digit in common.
    pub fn meets(&self, mask: usize) -> (b: bool)
        ensures
            b == !self@.disjoint(mask_values(mask)),
    {
        proof {
            use_type_invariant(self);
            lemma_values_meet(mask, self.bits);
            assert(mask_values(mask).disjoint(self@) == self@.disjoint(mask_values(mask)));
        }
        mask & self.bits != 0
    }

    /// This cell without the digits of `mask`.
    pub fn without(&self, mask: usize) -> (c: SudokuCell)
        ensures
            c@ == self@.difference(mask_values(mask)),
    {
        proof {
            use_type_invariant(self);
            lemma_values_clear(self.bits, mask);
            lemma_mask_bounds(self.bits, mask, 0);
        }
        SudokuCell { bits: self.bits & !mask }
    }
}

} // verus!
