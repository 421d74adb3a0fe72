//! The block primitive: a fixed-capacity circular buffer (a "cyclic
//! array"). Logical element `i` lives at physical slot
//! `(head + i) mod capacity`; slots outside the live range hold nothing.

use vstd::prelude::*;

verus! {

/// Fixed-capacity circular buffer supporting push and pop at both ends
/// as well as insertion and removal at arbitrary offsets.
///
/// Unlike the standard library's `VecDeque`, a cyclic array never grows:
/// pushing into a full buffer is excluded by precondition.
pub struct CyclicArray<T> {
    /// backing storage of `capacity` slots; a slot holds `Some` exactly
    /// when it is inside the live circular range
    buffer: Vec<Option<T>>,
    /// physical slot of the logical first element
    head: usize,
    /// number of live elements
    count: usize,
}

impl<T> CyclicArray<T> {
    /// Number of slots in the backing storage.
    pub closed spec fn spec_capacity(&self) -> nat {
        self.buffer@.len()
    }

    /// Physical slot of logical index `i`, for `0 <= i <= capacity`.
    closed spec fn slot_of(&self, i: int) -> int {
        if self.head + i < self.buffer@.len() {
            self.head + i
        } else {
            self.head + i - self.buffer@.len()
        }
    }

    /// Logical rank of physical slot `s`, for `0 <= s < capacity`;
    /// the inverse of `slot_of`.
    closed spec fn rank_of(&self, s: int) -> int {
        if s >= self.head {
            s - self.head
        } else {
            s - self.head + self.buffer@.len()
        }
    }

    /// The head points into the buffer (or is zero when there is no
    /// buffer at all).
    closed spec fn head_in_range(&self) -> bool {
        &&& (self.buffer@.len() == 0 ==> self.head == 0)
        &&& (self.buffer@.len() > 0 ==> self.head < self.buffer@.len())
    }

    /// Well-formedness: the count fits the capacity, the head is in
    /// range, and a slot is occupied exactly when its rank is below the
    /// count.
    pub closed spec fn wf(&self) -> bool {
        &&& self.count <= self.buffer@.len()
        &&& self.buffer@.len() <= usize::MAX
        &&& self.head_in_range()
        &&& forall|s: int|
            0 <= s < self.buffer@.len() ==> ((#[trigger] self.buffer@[s]) is Some <==> self.rank_of(
                s,
            ) < self.count)
    }

    /// Construct a new cyclic array with the given capacity.
    pub fn new(capacity: usize) -> (r: Self)
        ensures
            r.wf(),
            r@ == Seq::<T>::empty(),
            r.spec_capacity() == capacity,
    {
        let mut buffer: Vec<Option<T>> = Vec::new();
        let mut i: usize = 0;
        while i < capacity
            invariant
                i <= capacity,
                buffer@.len() == i,
                forall|s: int| 0 <= s < i ==> (#[trigger] buffer@[s]) is None,
            decreases capacity - i,
        {
            buffer.push(None);
            i = i + 1;
        }
        let r = Self { buffer, head: 0, count: 0 };
        assert(r@ =~= Seq::<T>::empty());
        r
    }

    /// Return the number of elements in the array.
    pub fn len(&self) -> (r: usize)
        ensures
            r == self@.len(),
    {
        self.count
    }

    /// Returns the total number of elements the cyclic array can hold.
    pub fn capacity(&self) -> (r: usize)
        ensures
            r == self.spec_capacity(),
    {
        self.buffer.len()
    }

    /// Returns true if the array has a length of 0.
    pub fn is_empty(&self) -> (r: bool)
        ensures
            r <==> self@.len() == 0,
    {
        self.count == 0
    }

    /// Returns true if the array has a length equal to its capacity.
    pub fn is_full(&self) -> (r: bool)
        requires
            self.wf(),
        ensures
            r <==> self@.len() == self.spec_capacity(),
    {
        self.count == self.buffer.len()
    }

    /// Physical slot of the logical offset `addend` past the head,
    /// wrapping around the end of the buffer.
    fn physical_add(&self, addend: usize) -> (r: usize)
        requires
            self.head_in_range(),
            addend <= self.spec_capacity(),
        ensures
            r == self.slot_of(addend as int),
    {
        let cap = self.buffer.len();
        let room = cap - self.head;
        if addend < room {
            self.head + addend
        } else {
            addend - room
        }
    }

    /// Physical slot `subtrahend` places before the head, wrapping
    /// around the start of the buffer.
    fn physical_sub(&self, subtrahend: usize) -> (r: usize)
        requires
            self.head_in_range(),
            subtrahend <= self.spec_capacity(),
        ensures
            r == if subtrahend <= self.head {
                self.head - subtrahend
            } else {
                self.head + self.spec_capacity() - subtrahend
            },
    {
        if subtrahend <= self.head {
            self.head - subtrahend
        } else {
            let cap = self.buffer.len();
            cap - (subtrahend - self.head)
        }
    }

    /// Appends an element to the back of the cyclic array.
    pub fn push_back(&mut self, value: T)
        requires
            old(self).wf(),
            old(self)@.len() < old(self).spec_capacity(),
        ensures
            final(self).wf(),
            final(self)@ == old(self)@.push(value),
            final(self).spec_capacity() == old(self).spec_capacity(),
    {
        let off = self.physical_add(self.count);
        self.buffer[off] = Some(value);
        self.count = self.count + 1;
        proof {
            assert(self@ =~= old(self)@.push(value));
        }
    }

    /// Prepends an element to the front of the cyclic array.
    pub fn push_front(&mut self, value: T)
        requires
            old(self).wf(),
            old(self)@.len() < old(self).spec_capacity(),
        ensures
            final(self).wf(),
            final(self)@ == old(self)@.insert(0, value),
            final(self).spec_capacity() == old(self).spec_capacity(),
    {
        let h = self.physical_sub(1);
        self.head = h;
        self.buffer[h] = Some(value);
        self.count = self.count + 1;
        proof {
            assert forall|i: int| 0 <= i < self@.len() implies self@[i] == old(self)@.insert(
                0,
                value,
            )[i] by {
                if i > 0 {
                    assert(self.slot_of(i) == old(self).slot_of(i - 1));
                }
            }
            assert(self@ =~= old(self)@.insert(0, value));
        }
    }

    /// Removes the last element and returns it, or `None` if the cyclic
    /// array is empty.
    pub fn pop_back(&mut self) -> (r: Option<T>)
        requires
            old(self).wf(),
        ensures
            final(self).wf(),
            final(self).spec_capacity() == old(self).spec_capacity(),
            old(self)@.len() == 0 ==> r is None && final(self)@ == old(self)@,
            old(self)@.len() > 0 ==> r == Some(old(self)@.last()) && final(self)@ == old(
                self,
            )@.drop_last(),
    {
        if self.count == 0 {
            proof {
                assert(self@ =~= old(self)@);
            }
            None
        } else {
            let c = self.count - 1;
            self.count = c;
            let off = self.physical_add(c);
            let v = self.buffer[off].take();
            proof {
                assert(old(self).rank_of(old(self).slot_of(c as int)) == c);
                assert(v == Some(old(self)@.last()));
                assert(self@ =~= old(self)@.drop_last());
            }
            v
        }
    }

    /// Removes the first element and returns it, or `None` if the cyclic
    /// array is empty.
    pub fn pop_front(&mut self) -> (r: Option<T>)
        requires
            old(self).wf(),
        ensures
            final(self).wf(),
            final(self).spec_capacity() == old(self).spec_capacity(),
            old(self)@.len() == 0 ==> r is None && final(self)@ == old(self)@,
            old(self)@.len() > 0 ==> r == Some(old(self)@.first()) && final(self)@ == old(
                self,
            )@.drop_first(),
    {
        if self.count == 0 {
            proof {
                assert(self@ =~= old(self)@);
            }
            None
        } else {
            let old_head = self.head;
            self.head = self.physical_add(1);
            self.count = self.count - 1;
            let v = self.buffer[old_head].take();
            proof {
                assert(old(self).rank_of(old_head as int) == 0);
                assert(v == Some(old(self)@.first()));
                assert forall|i: int| 0 <= i < self@.len() implies self@[i] == old(
                    self,
                )@.drop_first()[i] by {
                    assert(self.slot_of(i) == old(self).slot_of(i + 1));
                }
                assert(self@ =~= old(self)@.drop_first());
            }
            v
        }
    }

    /// Provides a reference to the element at the given index.
    pub fn get(&self, index: usize) -> (r: Option<&T>)
        requires
            self.wf(),
        ensures
            match r {
                Some(v) => index < self@.len() && *v == self@[index as int],
                None => index >= self@.len(),
            },
    {
        if index < self.count {
            let off = self.physical_add(index);
            proof {
                assert(self.rank_of(self.slot_of(index as int)) == index);
            }
            self.buffer[off].as_ref()
        } else {
            None
        }
    }

    /// Returns a mutable reference to an element.
    pub fn get_mut(&mut self, index: usize) -> (r: Option<&mut T>)
        requires
            old(self).wf(),
        ensures
            final(self).wf(),
            final(self).spec_capacity() == old(self).spec_capacity(),
            match r {
                Some(v) => {
                    &&& index < old(self)@.len()
                    &&& *v == old(self)@[index as int]
                    &&& final(self)@ =~= old(self)@.update(index as int, *final(v))
                },
                None => index >= old(self)@.len() && final(self)@ == old(self)@,
            },
    {
        if index < self.count {
            let off = self.physical_add(index);
            proof {
                assert(old(self).rank_of(old(self).slot_of(index as int)) == index);
            }
            self.buffer[off].as_mut()
        } else {
            proof {
                assert(self@ =~= old(self)@);
            }
            None
        }
    }

    /// Clears the cyclic array, removing and dropping all values. The
    /// capacity is unchanged.
    pub fn clear(&mut self)
        requires
            old(self).wf(),
        ensures
            final(self).wf(),
            final(self)@ == Seq::<T>::empty(),
            final(self).spec_capacity() == old(self).spec_capacity(),
    {
        while self.count != 0
            invariant
                self.wf(),
                self.spec_capacity() == old(self).spec_capacity(),
            decreases self@.len(),
        {
            let _ = self.pop_front();
        }
        self.head = 0;
        proof {
            assert(self@ =~= Seq::<T>::empty());
        }
    }

    /// Inserts an element at position `index` within the array, shifting
    /// whichever side of the insertion point needs fewer element moves.
    pub fn insert(&mut self, index: usize, value: T)
        requires
            old(self).wf(),
            index <= old(self)@.len(),
            old(self)@.len() < old(self).spec_capacity(),
        ensures
            final(self).wf(),
            final(self)@ == old(self)@.insert(index as int, value),
            final(self).spec_capacity() == old(self).spec_capacity(),
        decreases old(self)@.len(),
    {
        if index == 0 {
            self.push_front(value);
        } else if index == self.count {
            self.push_back(value);
            proof {
                assert(old(self)@.push(value) =~= old(self)@.insert(index as int, value));
            }
        } else if index < self.count - index {
            // fewer moves on the left: relocate the front element around
            // the recursive insertion
            let front = self.pop_front().unwrap();
            self.insert(index - 1, value);
            self.push_front(front);
            proof {
                assert(self@ =~= old(self)@.insert(index as int, value));
            }
        } else {
            // fewer moves on the right
            let back = self.pop_back().unwrap();
            self.insert(index, value);
            self.push_back(back);
            proof {
                assert(self@ =~= old(self)@.insert(index as int, value));
            }
        }
    }

    /// Removes and returns the element at position `index` within the
    /// array, shifting whichever side needs fewer element moves.
    pub fn remove(&mut self, index: usize) -> (r: T)
        requires
            old(self).wf(),
            index < old(self)@.len(),
        ensures
            final(self).wf(),
            r == old(self)@[index as int],
            final(self)@ == old(self)@.remove(index as int),
            final(self).spec_capacity() == old(self).spec_capacity(),
        decreases old(self)@.len(),
    {
        if index == 0 {
            let r = self.pop_front().unwrap();
            proof {
                assert(old(self)@.drop_first() =~= old(self)@.remove(0));
            }
            r
        } else if index == self.count - 1 {
            let r = self.pop_back().unwrap();
            proof {
                assert(old(self)@.drop_last() =~= old(self)@.remove(index as int));
            }
            r
        } else if index < self.count - 1 - index {
            let front = self.pop_front().unwrap();
            let r = self.remove(index - 1);
            self.push_front(front);
            proof {
                assert(self@ =~= old(self)@.remove(index as int));
            }
            r
        } else {
            let back = self.pop_back().unwrap();
            let r = self.remove(index);
            self.push_back(back);
            proof {
                assert(self@ =~= old(self)@.remove(index as int));
            }
            r
        }
    }

    /// Take the elements from the two other cyclic arrays into a new
    /// cyclic array with the combined capacity.
    pub fn combine(a: CyclicArray<T>, b: CyclicArray<T>) -> (r: Self)
        requires
            a.wf(),
            b.wf(),
            a.spec_capacity() + b.spec_capacity() <= usize::MAX,
        ensures
            r.wf(),
            r@ == a@ + b@,
            r.spec_capacity() == a.spec_capacity() + b.spec_capacity(),
    {
        let ghost sa = a@;
        let ghost sb = b@;
        let ghost total = a.spec_capacity() + b.spec_capacity();
        let mut a = a;
        let mut b = b;
        let mut this = CyclicArray::new(a.capacity() + b.capacity());
        while a.len() > 0
            invariant
                a.wf(),
                b.wf(),
                this.wf(),
                b@ == sb,
                b@.len() <= b.spec_capacity(),
                this.spec_capacity() == total,
                total == a.spec_capacity() + b.spec_capacity(),
                this@.len() + a@.len() <= a.spec_capacity(),
                this@ + a@ == sa,
            decreases a@.len(),
        {
            let v = a.pop_front().unwrap();
            this.push_back(v);
            proof {
                assert(this@ + a@ =~= sa);
            }
        }
        proof {
            assert(this@ =~= this@ + a@);
            assert(this@ + b@ =~= sa + sb);
        }
        while b.len() > 0
            invariant
                b.wf(),
                this.wf(),
                this.spec_capacity() == total,
                this@.len() + b@.len() <= total,
                this@ + b@ == sa + sb,
            decreases b@.len(),
        {
            let v = b.pop_front().unwrap();
            this.push_back(v);
            proof {
                assert(this@ + b@ =~= sa + sb);
            }
        }
        proof {
            assert(this@ =~= sa + sb);
        }
        this
    }

    /// Take the elements from the other cyclic array into a new cyclic
    /// array with the given capacity, which must exceed the element
    /// count.
    pub fn from(capacity: usize, other: CyclicArray<T>) -> (r: Self)
        requires
            other.wf(),
            capacity > other@.len(),
        ensures
            r.wf(),
            r@ == other@,
            r.spec_capacity() == capacity,
    {
        let ghost so = other@;
        let mut other = other;
        let mut this = CyclicArray::new(capacity);
        while other.len() > 0
            invariant
                other.wf(),
                this.wf(),
                this.spec_capacity() == capacity,
                this@.len() + other@.len() < capacity + 1,
                this@ + other@ == so,
            decreases other@.len(),
        {
            let v = other.pop_front().unwrap();
            this.push_back(v);
            proof {
                assert(this@ + other@ =~= so);
            }
        }
        proof {
            assert(this@ =~= this@ + other@);
        }
        this
    }

    /// Split this cyclic buffer of even capacity into two buffers of
    /// half the capacity. The first receives elements up to its
    /// capacity; the second receives any overflow and may end up empty.
    pub fn split(self) -> (r: (CyclicArray<T>, CyclicArray<T>))
        requires
            self.wf(),
            self.spec_capacity() % 2 == 0,
        ensures
            r.0.wf(),
            r.1.wf(),
            r.0.spec_capacity() == self.spec_capacity() / 2,
            r.1.spec_capacity() == self.spec_capacity() / 2,
            r.0@ + r.1@ == self@,
            r.0@.len() == if self@.len() <= self.spec_capacity() / 2 {
                self@.len()
            } else {
                self.spec_capacity() / 2
            },
    {
        let ghost s0 = self@;
        let ghost cap0 = self.spec_capacity();
        let mut me = self;
        let half = me.capacity() / 2;
        let mut a = CyclicArray::new(half);
        let mut b = CyclicArray::new(half);
        while a.len() < half && me.len() > 0
            invariant
                me.wf(),
                a.wf(),
                a.spec_capacity() == half,
                a@ + me@ == s0,
                a@.len() <= half,
                me@.len() + a@.len() == s0.len(),
                s0.len() <= cap0,
                half + half == cap0,
                b@ == Seq::<T>::empty(),
                b.wf(),
                b.spec_capacity() == half,
            decreases me@.len(),
        {
            let v = me.pop_front().unwrap();
            a.push_back(v);
            proof {
                assert(a@ + me@ =~= s0);
            }
        }
        proof {
            assert(a@.len() == if s0.len() <= half {
                s0.len() as int
            } else {
                half as int
            });
        }
        proof {
            assert(a@ + b@ + me@ =~= s0);
        }
        while me.len() > 0
            invariant
                me.wf(),
                b.wf(),
                b.spec_capacity() == half,
                me@.len() + b@.len() <= half,
                a@ + b@ + me@ == s0,
                a@.len() == if s0.len() <= half {
                    s0.len() as int
                } else {
                    half as int
                },
            decreases me@.len(),
        {
            let v = me.pop_front().unwrap();
            b.push_back(v);
            proof {
                assert(a@ + b@ + me@ =~= s0);
            }
        }
        proof {
            assert(a@ + b@ =~= a@ + b@ + me@);
        }
        (a, b)
    }
}

impl<T> Default for CyclicArray<T> {
    /// The default cyclic array is the empty one with no capacity.
    fn default() -> (r: Self)
        ensures
            r.wf(),
            r@ == Seq::<T>::empty(),
            r.spec_capacity() == 0,
    {
        Self::new(0)
    }
}

impl<T> vstd::std_specs::core::IndexSpecImpl<usize> for CyclicArray<T> {
    /// Indexing demands a well-formed array and an in-range position.
    open spec fn index_req(&self, i: &usize) -> bool {
        self.wf() && *i < self@.len()
    }
}

impl<T> core::ops::Index<usize> for CyclicArray<T> {
    type Output = T;

    /// Panic-free indexing under the `index_req` precondition.
    fn index(&self, i: usize) -> (r: &T) {
        self.get(i).unwrap()
    }
}

/// A well-formed cyclic array never holds more elements than its
/// capacity.
pub broadcast proof fn lemma_block_len_fits<T>(b: CyclicArray<T>)
    ensures
        #[trigger] b.wf() ==> b@.len() <= b.spec_capacity(),
{
}

impl<T> View for CyclicArray<T> {
    type V = Seq<T>;

    /// The logical contents: the live elements in rank order.
    closed spec fn view(&self) -> Seq<T> {
        Seq::new(self.count as nat, |i: int| self.buffer@[self.slot_of(i)].unwrap())
    }
}

} // verus!
