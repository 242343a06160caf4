use vstd::prelude::*;

verus! {

/// Position of the first element that satisfies a predicate.
pub trait IndexOf<T> {
    /// The elements searched, in order.
    spec fn elements(&self) -> Seq<T>;

    fn index_of<F>(&self, predicate: F) -> (r: Option<usize>) where F: Fn(&T) -> bool
        requires
            forall|i: int| 0 <= i < self.elements().len() ==> predicate.requires((&self.elements()[i],)),
        ensures
            match r {
                Some(i) => {
                    &&& i < self.elements().len()
                    &&& predicate.ensures((&self.elements()[i as int],), true)
                    &&& forall|j: int| 0 <= j < i ==> predicate.ensures((&self.elements()[j],), false)
                },
                None => forall|j: int|
                    0 <= j < self.elements().len() ==> predicate.ensures((&self.elements()[j],), false),
            },
    ;
}

impl<T> IndexOf<T> for Vec<T> {
    open spec fn elements(&self) -> Seq<T> {
        self@
    }

    fn index_of<F>(&self, predicate: F) -> (r: Option<usize>) where F: Fn(&T) -> bool {
        let mut idx: usize = 0;
        assert forall|i: int| 0 <= i < self@.len() implies predicate.requires((&self@[i],)) by {
            assert(self.elements()[i] == self@[i]);
        }
        while idx < self.len()
            invariant
                idx <= self@.len(),
                forall|i: int| 0 <= i < self@.len() ==> predicate.requires((&self@[i],)),
                forall|j: int| 0 <= j < idx ==> predicate.ensures((&self@[j],), false),
            decreases self@.len() - idx,
        {
            if predicate(&self[idx]) {
                return Some(idx);
            }
            idx = idx + 1;
        }
        None
    }
}

} // verus!
