use vstd::prelude::*;

verus! {

/// Index of a maximal element of a nonempty array; among equal maxima the
/// last one wins.
pub trait NonZeroArrayExt {
    /// The elements, as seen by specifications.
    spec fn values(&self) -> Seq<u16>;

    /// The index of the last maximal element.
    fn max_index(&self) -> (r: usize)
        requires
            self.values().len() > 0,
        ensures
            0 <= r < self.values().len(),
            forall|j: int|
                0 <= j < self.values().len() ==> self.values()[j] <= self.values()[r as int],
            forall|j: int| r < j < self.values().len() ==> self.values()[j] < self.values()[r as int],
    ;
}

impl<const N: usize> NonZeroArrayExt for [u16; N] {
    open spec fn values(&self) -> Seq<u16> {
        self@
    }

    fn max_index(&self) -> (r: usize) {
        let mut best: usize = 0;
        let mut i: usize = 1;
        while i < N
            invariant
                self@.len() == N,
                0 <= best < i <= N,
                forall|j: int| 0 <= j < i ==> self@[j] <= self@[best as int],
                forall|j: int| best < j < i ==> self@[j] < self@[best as int],
            decreases N - i,
    {
            if self[i] >= self[best] {
                best = i;
            }
            i = i + 1;
        }
        best
    }
}

} // verus!
