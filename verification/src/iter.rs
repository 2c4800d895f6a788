use vstd::prelude::*;

verus! {

/// A container whose first and last items can be taken in one pass.
pub trait FirstLast {
    type Item;

    /// The items, in order.
    spec fn items(&self) -> Seq<Self::Item>;

    /// The first and last item, or `None` when there are none; a single item
    /// is both first and last.
    fn first_last(&self) -> (r: Option<(Self::Item, Self::Item)>)
        ensures
            self.items().len() == 0 ==> r is None,
            self.items().len() > 0 ==> r == Some((self.items().first(), self.items().last())),
    ;
}

impl<T: Copy> FirstLast for Vec<T> {
    type Item = T;

    open spec fn items(&self) -> Seq<T> {
        self@
    }

    fn first_last(&self) -> (r: Option<(T, T)>)
        ensures
            self.items().len() == 0 ==> r is None,
            self.items().len() > 0 ==> r == Some((self.items().first(), self.items().last())),
    {
        if self.len() == 0 {
            None
        } else {
            Some((self[0], self[self.len() - 1]))
        }
    }
}

} // verus!
