//! Iteration over a tiered vector: a non-owning forward view that walks
//! the vector by index, and an owning iterator that consumes the block
//! list, draining blocks from the front and pruning each one as it
//! empties.

use vstd::prelude::*;

use crate::block::CyclicArray;
use crate::blocks::{blocks_view, lemma_blocks_view_skip_unfold};
use crate::tiered::Vector;

verus! {

broadcast use crate::block::lemma_block_len_fits;

/// Immutable forward iterator over a borrowed vector.
pub struct VectorIter<'a, T> {
    /// the vector being read
    array: &'a Vector<T>,
    /// position of the next element to yield
    position: usize,
}

impl<'a, T> VectorIter<'a, T> {
    /// The iterator reads a well-formed vector and sits at or before
    /// its end.
    pub closed spec fn wf(&self) -> bool {
        self.array.wf() && self.position <= self.array@.len()
    }

    /// The contents still to be yielded.
    pub closed spec fn remaining(&self) -> Seq<T> {
        self.array@.skip(self.position as int)
    }

    /// Start a forward iteration over the given vector.
    pub fn new(array: &'a Vector<T>) -> (r: Self)
        requires
            array.wf(),
        ensures
            r.wf(),
            r.remaining() == array@,
    {
        let r = VectorIter { array, position: 0 };
        proof {
            assert(array@.skip(0) =~= array@);
        }
        r
    }

    /// Yield a reference to the next element, or nothing once every
    /// element has been yielded.
    pub fn next(&mut self) -> (r: Option<&'a T>)
        requires
            old(self).wf(),
        ensures
            final(self).wf(),
            old(self).remaining().len() == 0 ==> r is None && *final(self) == *old(self),
            old(self).remaining().len() > 0 ==> r == Some(&old(self).remaining().first())
                && final(self).remaining() == old(self).remaining().drop_first(),
    {
        let array = self.array;
        proof {
            array.lemma_len_bound();
        }
        let r = array.get(self.position);
        if r.is_some() {
            self.position = self.position + 1;
            proof {
                assert(final(self).remaining() =~= old(self).remaining().drop_first());
                assert(old(self).remaining().first() == array@[old(self).position as int]);
            }
        } else {
            proof {
                assert(old(self).remaining() =~= Seq::<T>::empty());
            }
        }
        r
    }
}

/// An iterator that moves the elements out of a tiered vector. It takes
/// over the vector's whole block list; each step pops the front of the
/// first block and prunes that block once it is empty.
pub struct VectorIntoIter<T> {
    /// number of elements still to be yielded
    count: usize,
    /// the blocks taken over from the vector
    index: Vec<CyclicArray<T>>,
}

impl<T> View for VectorIntoIter<T> {
    type V = Seq<T>;

    /// The elements still to be yielded, in order.
    closed spec fn view(&self) -> Seq<T> {
        blocks_view(self.index@)
    }
}

impl<T> VectorIntoIter<T> {
    /// Every block is well formed and nonempty, and the count matches
    /// the total contents.
    pub closed spec fn wf(&self) -> bool {
        &&& forall|j: int|
            0 <= j < self.index@.len() ==> (#[trigger] self.index@[j]).wf()
                && self.index@[j]@.len() > 0
        &&& self.count == self@.len()
    }

    /// Take over the blocks of a drained vector representation.
    pub(crate) fn from_parts(count: usize, index: Vec<CyclicArray<T>>) -> (r: Self)
        requires
            forall|j: int|
                0 <= j < index@.len() ==> (#[trigger] index@[j]).wf() && index@[j]@.len() > 0,
            count == blocks_view(index@).len(),
        ensures
            r.wf(),
            r@ == blocks_view(index@),
    {
        VectorIntoIter { count, index }
    }

    /// Yield the next element, or nothing once the vector is drained.
    pub fn next(&mut self) -> (r: Option<T>)
        requires
            old(self).wf(),
        ensures
            final(self).wf(),
            old(self)@.len() == 0 ==> r is None && final(self)@ == old(self)@,
            old(self)@.len() > 0 ==> r == Some(old(self)@.first()) && final(self)@ == old(
                self,
            )@.drop_first(),
    {
        if self.count > 0 {
            proof {
                assert(self.index@.len() > 0);
                lemma_blocks_view_skip_unfold(self.index@, 0);
                assert(self.index@.skip(0) =~= self.index@);
            }
            let ghost pre = self.index@;
            let ret = self.index[0].pop_front();
            self.count = self.count - 1;
            proof {
                assert(pre[0]@.len() > 0);
                assert(ret == Some(old(self)@.first()));
                lemma_blocks_view_skip_unfold(self.index@, 0);
                assert(self.index@.skip(0) =~= self.index@);
                assert(self.index@.skip(1) =~= pre.skip(1));
                assert(self@ =~= old(self)@.drop_first());
            }
            if self.index[0].is_empty() {
                let ghost mid = self.index@;
                let _ = self.index.remove(0);
                proof {
                    lemma_blocks_view_skip_unfold(mid, 0);
                    assert(mid.skip(0) =~= mid);
                    assert(mid.skip(1) =~= self.index@);
                    assert(mid[0]@ + blocks_view(self.index@) =~= blocks_view(self.index@));
                }
            }
            ret
        } else {
            proof {
                if self.index@.len() > 0 {
                    lemma_blocks_view_skip_unfold(self.index@, 0);
                    assert(self.index@.skip(0) =~= self.index@);
                    assert(self.index@[0]@.len() > 0);
                    assert(self@.len() > 0);
                }
            }
            None
        }
    }
}

} // verus!
