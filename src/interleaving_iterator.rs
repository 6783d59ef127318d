//! [`InterleavingIterator`], which takes one item from each of several
//! collections in turn.
use vstd::prelude::*;

verus! {

/// Alternates through its collections, yielding one item of each in turn,
/// until it comes to a collection that is exhausted.
#[derive(Debug)]
pub struct InterleavingIterator<T> {
    collections: Vec<Vec<T>>,
    positions: Vec<usize>,
    collection_index: usize,
}

impl<T: Copy> InterleavingIterator<T> {
    /// The collections, in turn order.
    pub closed spec fn collections_view(&self) -> Seq<Seq<T>> {
        self.collections@.map_values(|c: Vec<T>| c@)
    }

    /// For each collection, how many of its items have been yielded.
    pub closed spec fn positions_view(&self) -> Seq<usize> {
        self.positions@
    }

    /// The collection whose turn is next.
    pub closed spec fn turn(&self) -> int {
        self.collection_index as int
    }

    /// The iterator's invariant: at least one collection, one position per
    /// collection, each within its collection, and a turn that names one of
    /// them.
    pub closed spec fn wf(&self) -> bool {
        &&& self.positions@.len() == self.collections@.len()
        &&& 0 <= self.collection_index < self.collections@.len()
        &&& forall|i: int|
            0 <= i < self.collections@.len() ==> #[trigger] self.positions@[i]
                <= self.collections@[i]@.len()
    }

    /// Starts at the first item of the first collection. With no collection
    /// at all there is nothing to pull from: the result is not well formed.
    pub fn new(collections: Vec<Vec<T>>) -> (r: Self)
        ensures
            r.wf() <==> collections@.len() > 0,
            r.collections_view() == collections@.map_values(|c: Vec<T>| c@),
            r.positions_view() == Seq::new(collections@.len(), |i: int| 0usize),
            r.turn() == 0,
    {
        let mut positions: Vec<usize> = Vec::new();
        let mut i: usize = 0;
        while i < collections.len()
            invariant
                i <= collections@.len(),
                positions@ == Seq::new(i as nat, |k: int| 0usize),
            decreases collections.len() - i,
        {
            positions.push(0);
            i = i + 1;
        }
        InterleavingIterator { collections, positions, collection_index: 0 }
    }

    /// Yields the next item of the collection whose turn it is, or `None`
    /// when that one is exhausted; either way the turn passes to the next
    /// collection.
    pub fn next(&mut self) -> (r: Option<T>)
        requires
            old(self).wf(),
        ensures
            final(self).wf(),
            final(self).collections_view() == old(self).collections_view(),
            final(self).turn() == (old(self).turn() + 1) % old(self).collections_view().len() as int,
            ({
                let c = old(self).turn();
                let p = old(self).positions_view()[c];
                if p < old(self).collections_view()[c].len() {
                    &&& r == Some(old(self).collections_view()[c][p as int])
                    &&& final(self).positions_view() == old(self).positions_view().update(c, (p + 1) as usize)
                } else {
                    &&& r is None
                    &&& final(self).positions_view() == old(self).positions_view()
                }
            }),
    {
        let n = self.collections.len();
        let c = self.collection_index;
        let p = self.positions[c];
        let item = if p < self.collections[c].len() {
            let x: T = self.collections[c][p];
            self.positions.set(c, p + 1);
            Some(x)
        } else {
            None
        };
        self.collection_index = (c + 1) % n;
        proof {
            assert forall|i: int| 0 <= i < self.collections@.len() implies #[trigger] self.positions@[i]
                <= self.collections@[i]@.len() by {
                if i != c {
                    assert(self.positions@[i] == old(self).positions@[i]);
                }
            }
        }
        item
    }
}

} // verus!
