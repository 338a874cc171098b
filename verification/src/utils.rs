//! Small helpers over sequences of values.

use vstd::prelude::*;

verus! {

/// Walking a sequence two neighbouring items at a time.
pub trait PairWise<T> {
    /// The items the receiver holds, in order.
    spec fn items(&self) -> Seq<T>;

    /// Every adjacent pair of items, in order: item `i` beside item
    /// `i + 1`.
    fn pairwise(&self) -> (r: Vec<(T, T)>)
        ensures
            self.items().len() == 0 ==> r@.len() == 0,
            self.items().len() > 0 ==> r@.len() == self.items().len() - 1,
            forall|i: int|
                0 <= i < r@.len() ==> #[trigger] r@[i] == (self.items()[i], self.items()[i + 1]),
    ;
}

impl<T: Copy> PairWise<T> for [T] {
    open spec fn items(&self) -> Seq<T> {
        self@
    }

    fn pairwise(&self) -> (r: Vec<(T, T)>)
    {
        let mut out: Vec<(T, T)> = Vec::new();
        if self.len() >= 1 {
            let mut i: usize = 0;
            while i < self.len() - 1
                invariant
                    self@.len() >= 1,
                    i <= self@.len() - 1,
                    out@.len() == i,
                    forall|j: int|
                        0 <= j < i ==> #[trigger] out@[j] == (self@[j], self@[j + 1]),
                decreases self@.len() - 1 - i,
            {
                out.push((self[i], self[i + 1]));
                i = i + 1;
            }
        }
        out
    }
}

} // verus!
