//! The tiered sequence itself: an ordered list of equally sized blocks
//! (the "index"), a block-capacity exponent `k` with its derived sizing
//! fields, and the insert/remove algorithms that relay elements across
//! block boundaries and resize the blocks when the count crosses the
//! upper or lower threshold.

use vstd::arithmetic::div_mod::{lemma_fundamental_div_mod, lemma_mod_bound};
use vstd::arithmetic::mul::{lemma_mul_inequality, lemma_mul_nonnegative};
use vstd::arithmetic::power2::{lemma2_to64, lemma_pow2_adds, lemma_pow2_strictly_increases, pow2};
use vstd::bits::{
    lemma_usize_low_bits_mask_is_mod, lemma_usize_shl_is_mul, lemma_usize_shr_is_div,
    low_bits_mask,
};
use vstd::prelude::*;

use crate::block::CyclicArray;
use crate::iter::{VectorIntoIter, VectorIter};
use crate::blocks::{
    blocks_view, lemma_blocks_view_around, lemma_blocks_view_index, lemma_blocks_view_len,
    lemma_blocks_view_push, lemma_blocks_view_skip_unfold,
};

verus! {

broadcast use crate::block::lemma_block_len_fits;

/// Tiered vector: a dynamically resizable sequence with constant-time
/// random access and O(sqrt(n)) arbitrary-position insertion and
/// removal. It owns an ordered collection of circular-buffer blocks,
/// each of capacity `l = 2^k`; every block except the last is full.
pub struct Vector<T> {
    /// each block has capacity l = 2^k
    k: usize,
    /// bit mask extracting the offset inside a block: l - 1
    k_mask: usize,
    /// the block capacity l = 2^k, cached
    l: usize,
    /// when the count reaches this threshold, the vector expands
    upper_limit: usize,
    /// when the count falls below this threshold, the vector compresses
    lower_limit: usize,
    /// number of elements in the vector
    count: usize,
    /// the ordered list of blocks
    index: Vec<CyclicArray<T>>,
}

impl<T> View for Vector<T> {
    type V = Seq<T>;

    /// The logical contents: the concatenation of all block contents.
    closed spec fn view(&self) -> Seq<T> {
        blocks_view(self.index@)
    }
}

impl<T> Vector<T> {
    /// Total number of elements the vector can hold without allocating:
    /// the block capacity times the number of blocks.
    pub closed spec fn spec_capacity(&self) -> int {
        self.l * self.index@.len()
    }

    /// Every block is well formed with capacity `l`, and every block
    /// except the last is full.
    closed spec fn blocks_ok(&self) -> bool {
        let n = self.index@.len() as int;
        forall|j: int|
            0 <= j < n ==> {
                let b = #[trigger] self.index@[j];
                &&& b.wf()
                &&& b.spec_capacity() == self.l
                &&& (j < n - 1 ==> b@.len() == self.l)
            }
    }

    /// The five sizing fields are coherent: they are all derived from
    /// `k` (the freshly created vector keeps a zero lower threshold,
    /// which gates nothing while `k` is at its minimum).
    closed spec fn sizing_ok(&self) -> bool {
        &&& self.k >= 2
        &&& self.l == pow2(self.k as nat)
        &&& self.k_mask == self.l - 1
        &&& self.upper_limit == self.l * self.l
        &&& (self.lower_limit == self.upper_limit / 8 || (self.k == 2 && self.lower_limit == 0))
    }

    /// Well-formedness. Besides block shape and sizing coherence, the
    /// count never exceeds the upper threshold, and while `k` is above
    /// its minimum the count stays within one of the lower threshold —
    /// which is what guarantees that a compression always meets blocks
    /// it can split in half cleanly.
    pub closed spec fn wf(&self) -> bool {
        let n = self.index@.len() as int;
        &&& self.sizing_ok()
        &&& self.count <= self.upper_limit
        &&& (self.k > 2 ==> self.count + 1 >= self.lower_limit)
        &&& self.blocks_ok()
        &&& (n == 0 ==> self.count == 0)
        &&& (n > 0 ==> (n - 1) * self.l < self.count <= n * self.l)
        &&& (n > 0 ==> self.index@[n - 1]@.len() == self.count - (n - 1) * self.l)
    }

    /// The state every freshly created or cleared vector is in: minimum
    /// block exponent and no blocks at all.
    pub closed spec fn is_cleared(&self) -> bool {
        &&& self.k == 2
        &&& self.k_mask == 3
        &&& self.l == 4
        &&& self.upper_limit == 16
        &&& (self.lower_limit == 0 || self.lower_limit == 2)
        &&& self.count == 0
        &&& self.index@.len() == 0
    }

    /// A cleared vector is well formed, empty and has no capacity.
    pub proof fn lemma_cleared_observables(&self)
        requires
            self.is_cleared(),
        ensures
            self.wf(),
            self@ == Seq::<T>::empty(),
            self.spec_capacity() == 0,
    {
        lemma2_to64();
        assert(self@ =~= Seq::<T>::empty());
    }

    /// The view's length equals the stored count, and the count fits
    /// the capacity.
    proof fn lemma_counts(&self)
        requires
            self.wf(),
        ensures
            self@.len() == self.count,
            self.count <= self.spec_capacity(),
            self.index@.len() <= self.l,
            self.spec_capacity() <= self.upper_limit,
    {
        let n = self.index@.len() as int;
        let l = self.l as int;
        lemma_blocks_view_len(self.index@, l);
        if n > 0 {
            assert(self.index@[n - 1] == self.index@.last());
            assert(blocks_view(self.index@).len() == (n - 1) * l + self.index@[n - 1]@.len());
            // n <= l, since (n - 1) * l < count <= l * l
            assert(n <= l) by (nonlinear_arith)
                requires
                    (n - 1) * l < l * l,
                    l > 0,
            ;
            assert(l * n <= l * l) by (nonlinear_arith)
                requires
                    n <= l,
                    l >= 0,
            ;
            assert(self.count <= n * l);
            assert(self.spec_capacity() == l * n);
            assert(n * l == l * n) by (nonlinear_arith);
        } else {
            assert(self.spec_capacity() == l * 0);
            assert(l * 0 == 0) by (nonlinear_arith);
        }
    }

    /// The compression trigger, phrased over the public block width:
    /// the exponent is above its minimum exactly when the width is at
    /// least eight, and the lower threshold is then an eighth of the
    /// upper one.
    proof fn lemma_compress_trigger(&self)
        requires
            self.sizing_ok(),
        ensures
            self.k > 2 <==> self.l >= 8,
            self.k > 2 ==> self.lower_limit == self.l * self.l / 8,
            self.k == 2 ==> self.l == 4,
    {
        lemma2_to64();
        if self.k > 2 {
            if self.k > 3 {
                lemma_pow2_strictly_increases(3, self.k as nat);
            }
        }
    }

    /// The number of blocks currently held.
    pub closed spec fn spec_block_count(&self) -> int {
        self.index@.len() as int
    }

    /// Invariant: the length never exceeds the capacity, the capacity is
    /// the block width times the block count, and the spare capacity
    /// stays below one block width — that is, every block except the
    /// last is full.
    pub proof fn lemma_capacity_structure(&self)
        requires
            self.wf(),
        ensures
            self@.len() <= self.spec_capacity(),
            self.spec_capacity() == self.spec_block_width() * self.spec_block_count(),
            self.spec_block_count() > 0 ==> self.spec_capacity() - self@.len()
                < self.spec_block_width(),
            self.spec_block_count() == 0 ==> self@.len() == 0 && self.spec_capacity() == 0,
    {
        self.lemma_counts();
        let n = self.index@.len() as int;
        let l = self.l as int;
        if n > 0 {
            assert(n * l == (n - 1) * l + l) by (nonlinear_arith);
            assert(n * l == l * n) by (nonlinear_arith);
        } else {
            assert(l * 0 == 0) by (nonlinear_arith);
        }
    }

    /// Invariant: the block width never falls below four, its starting
    /// value.
    pub proof fn lemma_block_width_min(&self)
        requires
            self.wf(),
        ensures
            self.spec_block_width() >= 4,
    {
        self.lemma_width_min();
    }

    /// The length of a well-formed vector fits the machine word.
    pub proof fn lemma_len_bound(&self)
        requires
            self.wf(),
        ensures
            self@.len() <= usize::MAX,
    {
        self.lemma_counts();
    }

    /// The block width never falls below its starting value of four.
    proof fn lemma_width_min(&self)
        requires
            self.sizing_ok(),
        ensures
            self.l >= 4,
    {
        lemma2_to64();
        if self.k > 2 {
            lemma_pow2_strictly_increases(2, self.k as nat);
        }
    }

    /// Element `i` of the vector lives in block `i / l` at offset
    /// `i % l`.
    proof fn lemma_locate(&self, i: int)
        requires
            self.wf(),
            0 <= i < self.count,
        ensures
            ({
                let l = self.l as int;
                let sub = i / l;
                let off = i % l;
                &&& 0 <= sub < self.index@.len()
                &&& 0 <= off < self.index@[sub]@.len()
                &&& i == sub * l + off
                &&& self@.len() == self.count
                &&& self@[i] == self.index@[sub]@[off]
            }),
    {
        let n = self.index@.len() as int;
        let l = self.l as int;
        let sub = i / l;
        let off = i % l;
        self.lemma_counts();
        lemma_fundamental_div_mod(i, l);
        lemma_mod_bound(i, l);
        assert(sub >= 0) by (nonlinear_arith)
            requires
                i >= 0,
                l > 0,
                sub == i / l,
        ;
        // sub < n: otherwise l * sub >= l * n >= count > i
        if sub >= n {
            lemma_mul_inequality(n, sub, l);
            assert(n * l <= sub * l);
            assert(sub * l <= i);
            assert(false);
        }
        if sub == n - 1 {
            assert(off == i - (n - 1) * l);
            assert(off < self.index@[sub]@.len());
        } else {
            assert(self.index@[sub]@.len() == l);
        }
        lemma_blocks_view_index(self.index@, l, sub, off);
    }

    /// Everything a removal needs to know about where element `i`
    /// lives: the shift and mask arithmetic, the block layout, and the
    /// contents of each block as a subrange of the whole view.
    proof fn lemma_remove_setup(&self, i: usize)
        requires
            self.wf(),
            i < self.count,
        ensures
            ({
                let l = self.l as int;
                let n = self.index@.len() as int;
                &&& n > 0
                &&& l >= 4
                &&& self.k < usize::BITS
                &&& self@.len() == self.count
                &&& (i >> self.k) == i as int / l
                &&& (i & self.k_mask) == i as int % l
                &&& (((self.count - 1) as usize) >> self.k) == n - 1
                &&& i as int / l <= n - 1
                &&& i as int == (i as int / l) * l + (i as int % l)
                &&& 0 <= i as int % l < l
                &&& n * l == (n - 1) * l + l
                &&& (forall|m: int|
                    0 <= m < n ==> (#[trigger] self.index@[m]).wf()
                        && self.index@[m].spec_capacity() == l)
                &&& (forall|m: int| 0 <= m < n - 1 ==> (#[trigger] self.index@[m])@.len() == l)
                &&& self.index@[n - 1]@.len() == self.count - (n - 1) * l
                &&& (forall|m: int|
                    0 <= m < n ==> (#[trigger] self.index@[m])@ == self@.subrange(
                        m * l,
                        m * l + self.index@[m]@.len(),
                    ))
            }),
    {
        let l = self.l as int;
        let n = self.index@.len() as int;
        self.lemma_counts();
        self.lemma_width_min();
        assert(n * l == (n - 1) * l + l) by (nonlinear_arith);
        crate::blocks::lemma_blocks_view_subranges(self.index@, l);
        self.lemma_shift_mask(i);
        self.lemma_shift_mask((self.count - 1) as usize);
        lemma_fundamental_div_mod(i as int, l);
        lemma_mod_bound(i as int, l);
        assert(l * (i as int / l) == (i as int / l) * l) by (nonlinear_arith);
        lemma_fundamental_div_mod(self.count - 1, l);
        vstd::arithmetic::div_mod::lemma_fundamental_div_mod_converse(
            self.count - 1,
            l,
            n - 1,
            self.count - 1 - (n - 1) * l,
        );
        vstd::arithmetic::div_mod::lemma_div_is_ordered(i as int, self.count - 1, l);
    }

    /// The shift by `k` and the mask by `l - 1` compute division and
    /// remainder by the block capacity.
    proof fn lemma_shift_mask(&self, i: usize)
        requires
            self.sizing_ok(),
        ensures
            self.k < usize::BITS,
            (i >> self.k) == i as int / self.l as int,
            (i & self.k_mask) == i as int % self.l as int,
    {
        vstd::layout::unsigned_int_max_values();
        assert(self.k < usize::BITS) by {
            if self.k >= usize::BITS {
                if self.k > usize::BITS {
                    lemma_pow2_strictly_increases(usize::BITS as nat, self.k as nat);
                }
                assert(pow2(self.k as nat) > usize::MAX);
            }
        }
        lemma_usize_shr_is_div(i, self.k);
        lemma_usize_low_bits_mask_is_mod(i, self.k as nat);
        assert(low_bits_mask(self.k as nat) == self.k_mask);
        assert(pow2(self.k as nat) == self.l);
    }

    /// Return an empty vector with zero capacity.
    pub fn new() -> (r: Self)
        ensures
            r.wf(),
            r.is_cleared(),
            r@ == Seq::<T>::empty(),
            r.spec_capacity() == 0,
    {
        let r = Self {
            k: 2,
            k_mask: 3,
            l: 4,
            upper_limit: 16,
            lower_limit: 0,
            count: 0,
            index: Vec::new(),
        };
        proof {
            r.lemma_cleared_observables();
        }
        r
    }

    /// Return the number of elements in the vector.
    pub fn len(&self) -> (r: usize)
        requires
            self.wf(),
        ensures
            r == self@.len(),
    {
        proof {
            self.lemma_counts();
        }
        self.count
    }

    /// Returns true if the vector has a length of 0.
    pub fn is_empty(&self) -> (r: bool)
        requires
            self.wf(),
        ensures
            r <==> self@.len() == 0,
    {
        proof {
            self.lemma_counts();
        }
        self.count == 0
    }

    /// Returns the total number of elements the vector can hold without
    /// reallocating.
    pub fn capacity(&self) -> (r: usize)
        requires
            self.wf(),
        ensures
            r == self.spec_capacity(),
            self@.len() <= r,
    {
        let n = self.index.len();
        proof {
            self.lemma_counts();
            self.lemma_shift_mask(0);
            assert(1 * pow2(self.k as nat) == pow2(self.k as nat)) by (nonlinear_arith);
            lemma_usize_shl_is_mul(1, self.k);
            assert((1usize << self.k) == self.l);
        }
        (1usize << self.k) * n
    }

    /// Clears the vector, dropping all elements, releasing every block
    /// and resetting the sizing fields to their defaults.
    pub fn clear(&mut self)
        requires
            old(self).wf(),
        ensures
            final(self).wf(),
            final(self).is_cleared(),
            final(self)@ == Seq::<T>::empty(),
            final(self).spec_capacity() == 0,
    {
        self.index = Vec::new();
        self.count = 0;
        self.k = 2;
        self.k_mask = 3;
        self.l = 4;
        self.upper_limit = 16;
        self.lower_limit = 2;
        proof {
            self.lemma_cleared_observables();
        }
    }

    /// Retrieve a reference to the element at the given offset, or
    /// nothing when the offset is at or past the length.
    pub fn get(&self, index: usize) -> (r: Option<&T>)
        requires
            self.wf(),
        ensures
            match r {
                Some(v) => index < self@.len() && *v == self@[index as int],
                None => index >= self@.len(),
            },
    {
        proof {
            self.lemma_counts();
        }
        if index >= self.count {
            None
        } else {
            proof {
                self.lemma_shift_mask(index);
                self.lemma_locate(index as int);
            }
            let sub = index >> self.k;
            let r_prime = index & self.k_mask;
            self.index[sub].get(r_prime)
        }
    }

    /// The block capacity `l`: the width every full block has.
    pub closed spec fn spec_block_width(&self) -> int {
        self.l as int
    }

    /// Double the per-block capacity by combining adjacent blocks into
    /// new blocks of twice the size; an unpaired trailing block is
    /// re-homed into a fresh block of the new capacity. Runs exactly
    /// when the count has reached the upper threshold, at which point
    /// every block is full.
    fn expand(&mut self)
        requires
            old(self).wf(),
            old(self).count == old(self).upper_limit,
            old(self).upper_limit <= usize::MAX / 4,
        ensures
            final(self).wf(),
            final(self)@ == old(self)@,
            final(self).count == old(self).count,
            final(self).spec_block_width() == 2 * old(self).spec_block_width(),
            final(self).upper_limit == 4 * old(self).upper_limit,
    {
        let ghost s0 = self@;
        let ghost l = self.l as int;
        let ghost n0 = self.index@.len() as int;
        let ghost c0 = self.count as int;
        proof {
            self.lemma_counts();
            self.lemma_width_min();
            assert(c0 >= 16) by (nonlinear_arith)
                requires
                    c0 == l * l,
                    l >= 4,
            ;
            // every block is full: count == n0 * l is forced
            assert(n0 > 0);
            assert(n0 == l && c0 == n0 * l) by (nonlinear_arith)
                requires
                    (n0 - 1) * l < c0 <= n0 * l,
                    c0 == l * l,
                    l > 0,
            ;
            assert((n0 - 1) * l == n0 * l - l) by (nonlinear_arith);
            assert(self.index@[n0 - 1]@.len() == l);
            // the shifted width and the new thresholds fit the machine
            self.lemma_shift_mask(0);
            lemma_pow2_adds(self.k as nat, 1);
            lemma2_to64();
            assert(pow2(self.k as nat + 1) == 2 * l);
            assert(4 * (l * l) <= usize::MAX) by (nonlinear_arith)
                requires
                    l * l <= usize::MAX / 4,
            ;
            assert(2 * l * (2 * l) == 4 * (l * l)) by (nonlinear_arith);
            assert(self.k + 1 < usize::BITS) by {
                vstd::layout::unsigned_int_max_values();
                if self.k + 1 >= usize::BITS {
                    if self.k + 1 > usize::BITS {
                        lemma_pow2_strictly_increases(usize::BITS as nat, self.k as nat + 1);
                    }
                    assert(pow2(self.k as nat + 1) > usize::MAX);
                }
            }
            assert(1 * pow2(self.k as nat + 1) == pow2(self.k as nat + 1)) by (nonlinear_arith);
        }
        let l_prime = 1usize << (self.k + 1);
        proof {
            lemma_usize_shl_is_mul(1, (self.k + 1) as usize);
            assert(l_prime == 2 * l);
        }
        let mut old_index: Vec<CyclicArray<T>> = Vec::new();
        core::mem::swap(&mut old_index, &mut self.index);
        proof {
            assert(blocks_view(self.index@) + blocks_view(old_index@) =~= s0);
        }
        while old_index.len() > 0
            invariant
                l_prime == 2 * l,
                l > 0,
                self.k == old(self).k,
                self.k + 1 < usize::BITS,
                self.count == c0,
                blocks_view(self.index@) + blocks_view(old_index@) == s0,
                forall|j: int|
                    0 <= j < old_index@.len() ==> {
                        let b = #[trigger] old_index@[j];
                        b.wf() && b.spec_capacity() == l && b@.len() == l
                    },
                forall|j: int|
                    0 <= j < self.index@.len() ==> {
                        let b = #[trigger] self.index@[j];
                        b.wf() && b.spec_capacity() == l_prime
                    },
                forall|j: int|
                    0 <= j < self.index@.len() - 1 ==> (#[trigger] self.index@[j])@.len()
                        == l_prime,
                self.index@.len() > 0 && old_index@.len() > 0 ==> self.index@.last()@.len()
                    == l_prime,
                self.index@.len() > 0 ==> self.index@.last()@.len() > 0,
            decreases old_index@.len(),
        {
            let ghost pre_new = self.index@;
            let ghost pre_old = old_index@;
            let a = old_index.remove(0);
            if old_index.len() > 0 {
                let b = old_index.remove(0);
                let c = CyclicArray::combine(a, b);
                self.index.push(c);
                proof {
                    assert(pre_old.remove(0).remove(0) =~= pre_old.skip(2));
                    lemma_blocks_view_skip_unfold(pre_old, 0);
                    lemma_blocks_view_skip_unfold(pre_old, 1);
                    assert(pre_old.skip(0) =~= pre_old);
                    lemma_blocks_view_push(pre_new, c);
                    assert(blocks_view(self.index@) + blocks_view(old_index@) =~= s0);
                }
            } else {
                let c = CyclicArray::from(l_prime, a);
                self.index.push(c);
                proof {
                    assert(pre_old.remove(0) =~= pre_old.skip(1));
                    lemma_blocks_view_skip_unfold(pre_old, 0);
                    assert(pre_old.skip(0) =~= pre_old);
                    lemma_blocks_view_push(pre_new, c);
                    assert(blocks_view(self.index@) + blocks_view(old_index@) =~= s0);
                }
            }
        }
        self.k = self.k + 1;
        self.k_mask = l_prime - 1;
        self.l = l_prime;
        self.upper_limit = l_prime * l_prime;
        self.lower_limit = self.upper_limit / 8;
        proof {
            let lp = l_prime as int;
            assert(blocks_view(old_index@) =~= Seq::<T>::empty());
            assert(self@ =~= s0);
            let n = self.index@.len() as int;
            lemma_blocks_view_len(self.index@, lp);
            assert(self@.len() == c0);
            assert(n > 0);
            let lastlen = self.index@[n - 1]@.len() as int;
            assert(self.index@[n - 1] == self.index@.last());
            assert((n - 1) * lp + lastlen == c0);
            assert(n * lp == (n - 1) * lp + lp) by (nonlinear_arith);
            assert((n - 1) * lp < c0 <= n * lp);
            // the new sizing fields are coherent
            assert(self.upper_limit == 4 * (l * l)) by (nonlinear_arith)
                requires
                    self.upper_limit == lp * lp,
                    lp == 2 * l,
            ;
            assert(self.count <= self.upper_limit);
            // count + 1 >= lower_limit: the count is the old threshold,
            // half the new lower threshold's denominator worth
            assert(4 * c0 <= 8 * c0);
            vstd::arithmetic::div_mod::lemma_div_is_ordered(4 * c0, 8 * c0, 8);
            vstd::arithmetic::div_mod::lemma_div_multiples_vanish(c0, 8);
            assert(self.lower_limit <= c0);
        }
    }

    /// After an insertion at offset `rp` of block `su`, with the gap
    /// relayed from block `su` to the last block `en`, the concatenated
    /// view is the old view with the value inserted at position `ix`.
    #[verifier::rlimit(100)]
    proof fn lemma_insert_reassemble(
        bs2: Seq<CyclicArray<T>>,
        s: Seq<T>,
        l: int,
        n: int,
        count0: int,
        su: int,
        en: int,
        rp: int,
        ix: int,
        value: T,
    )
        requires
            l >= 4,
            en == n - 1,
            0 <= su <= en,
            n == bs2.len(),
            (n - 1) * l <= count0 < n * l,
            s.len() == count0,
            0 <= rp < l,
            ix == su * l + rp,
            ix <= count0,
            forall|m: int| 0 <= m < su ==> (#[trigger] bs2[m])@ == s.subrange(m * l, m * l + l),
            su < en ==> bs2[su]@ == s.subrange(su * l, su * l + l - 1).insert(rp, value),
            su == en ==> bs2[su]@ == s.subrange(su * l, count0).insert(rp, value),
            forall|m: int|
                su < m < en ==> (#[trigger] bs2[m])@ == s.subrange(m * l - 1, (m + 1) * l - 1),
            su < en ==> bs2[en]@ == s.subrange(en * l - 1, count0),
        ensures
            blocks_view(bs2) == s.insert(ix, value),
            forall|m: int| 0 <= m < n - 1 ==> (#[trigger] bs2[m])@.len() == l,
            bs2[n - 1]@.len() == count0 + 1 - (n - 1) * l,
    {
        let t = s.insert(ix, value);
        assert((su + 1) * l == su * l + l) by (nonlinear_arith);
        assert(n * l == (n - 1) * l + l) by (nonlinear_arith);
        lemma_mul_nonnegative(su, l);
        if su + 1 <= n - 1 {
            lemma_mul_inequality(su + 1, n - 1, l);
        }
        if su < en {
            s.subrange(su * l, su * l + l - 1).insert_ensures(rp, value);
        } else {
            s.subrange(su * l, count0).insert_ensures(rp, value);
        }
        assert forall|m: int| 0 <= m < n - 1 implies (#[trigger] bs2[m])@.len() == l by {
            assert((m + 1) * l == m * l + l) by (nonlinear_arith);
            lemma_mul_nonnegative(m, l);
            lemma_mul_inequality(m + 1, n - 1, l);
            if m >= 1 {
                assert(m * l >= l) by (nonlinear_arith)
                    requires
                        m >= 1,
                        l >= 0,
                ;
            }
        }
        assert(bs2[n - 1]@.len() == count0 + 1 - (n - 1) * l) by {
            if su < en {
                assert(en * l >= l) by (nonlinear_arith)
                    requires
                        en >= 1,
                        l >= 0,
                ;
            }
        }
        lemma_blocks_view_len(bs2, l);
        assert(bs2[n - 1] == bs2.last());
        assert(blocks_view(bs2).len() == count0 + 1);
        assert forall|p: int| 0 <= p < count0 + 1 implies blocks_view(bs2)[p] == t[p] by {
            let j = p / l;
            let o = p % l;
            lemma_fundamental_div_mod(p, l);
            lemma_mod_bound(p, l);
            assert(l * j == j * l) by (nonlinear_arith);
            assert(j >= 0) by (nonlinear_arith)
                requires
                    p >= 0,
                    l > 0,
                    j == p / l,
            ;
            if j >= n {
                lemma_mul_inequality(n, j, l);
                assert(false);
            }
            assert(o < bs2[j]@.len()) by {
                if j < n - 1 {
                } else {
                    assert(o == p - (n - 1) * l);
                }
            }
            lemma_blocks_view_index(bs2, l, j, o);
            assert(blocks_view(bs2)[p] == bs2[j]@[o]);
            if j < su {
                lemma_mul_inequality(j + 1, su, l);
                lemma_mul_inequality(j + 1, n - 1, l);
                lemma_mul_inequality(su, n - 1, l);
                assert((j + 1) * l == j * l + l) by (nonlinear_arith);
                assert(p < ix);
                assert(bs2[j]@ == s.subrange(j * l, j * l + l));
                assert(bs2[j]@[o] == s[p]);
            } else if j == su {
                if su < en {
                    assert(bs2[j]@ == s.subrange(su * l, su * l + l - 1).insert(rp, value));
                    s.subrange(su * l, su * l + l - 1).insert_ensures(rp, value);
                } else {
                    assert(bs2[j]@ == s.subrange(su * l, count0).insert(rp, value));
                    s.subrange(su * l, count0).insert_ensures(rp, value);
                }
                if o < rp {
                    assert(bs2[j]@[o] == s[p]);
                    assert(p < ix);
                } else if o == rp {
                    assert(bs2[j]@[o] == value);
                    assert(p == ix);
                } else {
                    assert(bs2[j]@[o] == s[p - 1]);
                    assert(p > ix);
                }
            } else {
                // j > su: only possible when a relay ran
                assert(su < en);
                lemma_mul_inequality(su + 1, j, l);
                assert(p >= j * l > ix);
                if j < en {
                    lemma_mul_inequality(j + 1, n - 1, l);
                    assert((j + 1) * l == j * l + l) by (nonlinear_arith);
                    assert(j * l >= l) by (nonlinear_arith)
                        requires
                            j >= 1,
                            l >= 0,
                    ;
                    assert(bs2[j]@ == s.subrange(j * l - 1, (j + 1) * l - 1));
                    assert(bs2[j]@[o] == s[p - 1]);
                } else {
                    assert(j * l >= l) by (nonlinear_arith)
                        requires
                            j >= 1,
                            l >= 0,
                    ;
                    assert(bs2[j]@ == s.subrange(en * l - 1, count0));
                    assert(bs2[j]@[o] == s[p - 1]);
                }
            }
        }
        assert(blocks_view(bs2) =~= t);
    }

    /// Inserts an element at position `index` within the vector,
    /// shifting some elements to the right as needed. Expands the
    /// blocks when the count has reached the upper threshold, and opens
    /// a one-element gap by relaying one displaced element per block
    /// from the target block toward the tail.
    #[verifier::rlimit(100)]
    pub fn insert(&mut self, index: usize, value: T)
        requires
            old(self).wf(),
            index <= old(self)@.len(),
            old(self)@.len() < usize::MAX / 4 || old(self)@.len() < old(self).spec_capacity(),
        ensures
            final(self).wf(),
            final(self)@ == old(self)@.insert(index as int, value),
            final(self).spec_block_width() == (if old(self)@.len() == old(self).spec_block_width()
                * old(self).spec_block_width() {
                2 * old(self).spec_block_width()
            } else {
                old(self).spec_block_width()
            }),
    {
        proof {
            self.lemma_counts();
        }
        if self.count >= self.upper_limit {
            proof {
                // a count at the threshold leaves spare capacity out of
                // the question, so the machine-size bound applies
                assert(self.upper_limit <= usize::MAX / 4);
            }
            self.expand();
        }
        proof {
            self.lemma_counts();
            self.lemma_width_min();
        }
        let cap = self.capacity();
        let ghost appended = self.count >= cap;
        if self.count >= cap {
            let width = self.l;
            let ghost pre = self.index@;
            let nb = CyclicArray::new(width);
            self.index.push(nb);
            proof {
                lemma_blocks_view_push(pre, nb);
                assert(self@ =~= blocks_view(pre));
                // the count filled the old capacity, so every block of
                // the old index was full
                let li = self.l as int;
                let np = pre.len() as int;
                assert(self.count == li * np);
                if np > 0 {
                    assert(pre[np - 1]@.len() == self.count - (np - 1) * li);
                    assert(li * np - (np - 1) * li == li) by (nonlinear_arith);
                }
                assert forall|m: int| 0 <= m < self.index@.len() - 1 implies (
                #[trigger] self.index@[m])@.len() == li by {
                    assert(self.index@[m] == pre[m]);
                }
                assert((self.index@.len() - 1) * li == self.count) by (nonlinear_arith)
                    requires
                        self.index@.len() - 1 == np,
                        self.count == li * np,
                ;
            }
        }
        let ghost mid = *self;
        proof {
            assert(mid.sizing_ok());
            assert(mid.k > 2 ==> mid.count + 1 >= mid.lower_limit);
            assert(mid.count < mid.upper_limit) by {
                self.lemma_width_min();
                assert(self.l * self.l >= 16) by (nonlinear_arith)
                    requires
                        self.l >= 4,
                ;
            }
        }
        let ghost s = self@;
        let ghost l = self.l as int;
        let ghost n = self.index@.len() as int;
        let ghost count0 = self.count as int;
        let ghost olds = self.index@;
        proof {
            // shape after the possible append: all blocks well formed
            // with capacity l, all but the last full, and the last one
            // holding the remainder (nothing at all right after a block
            // was appended)
            assert(forall|m: int|
                0 <= m < n ==> (#[trigger] olds[m]).wf() && olds[m].spec_capacity() == l);
            assert(forall|m: int| 0 <= m < n - 1 ==> (#[trigger] olds[m])@.len() == l);
            assert(n > 0);
            assert((n - 1) * l <= count0 < n * l) by {
                assert(n * l == (n - 1) * l + l) by (nonlinear_arith);
                if appended {
                    assert((n - 1) * l == count0);
                } else {
                    assert(self.spec_capacity() == l * n);
                    assert(l * n == n * l) by (nonlinear_arith);
                }
            }
            lemma_blocks_view_len(olds, l);
            assert(olds[n - 1] == olds.last());
            assert(s.len() == count0) by {
                if appended {
                    assert(olds[n - 1]@.len() == 0);
                } else {
                }
            }
            assert(olds[n - 1]@.len() == count0 - (n - 1) * l);
            crate::blocks::lemma_blocks_view_subranges(olds, l);
            self.lemma_shift_mask(index);
        }
        let sub = index >> self.k;
        let end = self.count >> self.k;
        let r_prime = index & self.k_mask;
        proof {
            self.lemma_shift_mask(self.count);
            lemma_fundamental_div_mod(index as int, l);
            lemma_mod_bound(index as int, l);
            assert(l * (index as int / l) == (index as int / l) * l) by (nonlinear_arith);
            lemma_fundamental_div_mod(count0, l);
            assert(n * l == (n - 1) * l + l) by (nonlinear_arith);
            vstd::arithmetic::div_mod::lemma_fundamental_div_mod_converse(
                count0,
                l,
                n - 1,
                count0 - (n - 1) * l,
            );
            assert(end == n - 1);
            vstd::arithmetic::div_mod::lemma_div_is_ordered(index as int, count0, l);
            assert(sub as int <= end as int);
            assert(index == sub as int * l + r_prime as int);
            // the target block has room for the local insertion
            if (sub as int) < end as int {
                assert(olds[sub as int]@.len() == l);
            }
        }
        if sub < end {
            let mut carried = self.index[sub].pop_back().unwrap();
            proof {
                lemma_mul_inequality(sub as int + 1, n - 1, l);
                assert((sub as int + 1) * l == sub as int * l + l) by (nonlinear_arith);
                assert(olds[sub as int]@ == s.subrange(sub as int * l, sub as int * l + l));
                assert(carried == s[(sub as int + 1) * l - 1]);
                assert(self.index@[sub as int]@ =~= s.subrange(
                    sub as int * l,
                    (sub as int + 1) * l - 1,
                ));
            }
            let mut i = sub + 1;
            while i < end
                invariant
                    sub < i <= end,
                    end == n - 1,
                    l == self.l as int,
                    l >= 4,
                    n == self.index@.len() as int,
                    olds.len() == n,
                    count0 == self.count as int,
                    s.len() == count0,
                    (n - 1) * l <= count0 < n * l,
                    forall|m: int|
                        0 <= m < n ==> (#[trigger] olds[m]).wf() && olds[m].spec_capacity() == l,
                    forall|m: int| 0 <= m < n - 1 ==> (#[trigger] olds[m])@.len() == l,
                    forall|m: int|
                        0 <= m < n ==> (#[trigger] olds[m])@ == s.subrange(
                            m * l,
                            m * l + olds[m]@.len(),
                        ),
                    self.k == mid.k,
                    self.k_mask == mid.k_mask,
                    self.l == mid.l,
                    self.upper_limit == mid.upper_limit,
                    self.lower_limit == mid.lower_limit,
                    self.count == mid.count,
                    self.index@.len() == n,
                    forall|m: int| 0 <= m < sub ==> #[trigger] self.index@[m] == olds[m],
                    self.index@[sub as int].wf(),
                    self.index@[sub as int].spec_capacity() == l,
                    self.index@[sub as int]@ == s.subrange(sub as int * l, (sub as int + 1) * l
                        - 1),
                    forall|m: int|
                        sub < m < i ==> {
                            let b = #[trigger] self.index@[m];
                            &&& b.wf()
                            &&& b.spec_capacity() == l
                            &&& b@ == s.subrange(m * l - 1, (m + 1) * l - 1)
                        },
                    forall|m: int| i <= m < n ==> #[trigger] self.index@[m] == olds[m],
                    carried == s[i as int * l - 1],
                decreases end - i,
            {
                let ghost pre = self.index@;
                let t = self.index[i].pop_back().unwrap();
                proof {
                    lemma_mul_inequality(i as int + 1, n - 1, l);
                    assert((i as int + 1) * l == i as int * l + l) by (nonlinear_arith);
                    assert(i as int * l >= l) by (nonlinear_arith)
                        requires
                            i >= 1,
                            l >= 0,
                    ;
                    assert(pre[i as int]@ == s.subrange(i as int * l, i as int * l + l));
                    assert(t == s[(i as int + 1) * l - 1]);
                    assert(self.index@[i as int]@ =~= s.subrange(
                        i as int * l,
                        (i as int + 1) * l - 1,
                    ));
                }
                self.index[i].push_front(carried);
                proof {
                    assert(self.index@[i as int]@ =~= s.subrange(
                        i as int * l - 1,
                        (i as int + 1) * l - 1,
                    ));
                }
                carried = t;
                i = i + 1;
            }
            self.index[end].push_front(carried);
            proof {
                assert(end as int * l >= l) by (nonlinear_arith)
                    requires
                        end >= 1,
                        l >= 0,
                ;
                assert(olds[end as int]@ == s.subrange(end as int * l, count0));
                assert(self.index@[end as int]@ =~= s.subrange(end as int * l - 1, count0));
            }
        }
        self.index[sub].insert(r_prime, value);
        self.count = self.count + 1;
        proof {
            let su = sub as int;
            let en = end as int;
            let ix = index as int;
            let bs2 = self.index@;
            assert((su + 1) * l == su * l + l) by (nonlinear_arith);
            if su < en {
                assert(bs2[su]@ =~= s.subrange(su * l, su * l + l - 1).insert(
                    r_prime as int,
                    value,
                ));
            } else {
                assert(bs2[su]@ =~= s.subrange(su * l, count0).insert(r_prime as int, value));
                assert(olds[su]@ == s.subrange(su * l, count0));
            }
            Self::lemma_insert_reassemble(
                bs2,
                s,
                l,
                n,
                count0,
                su,
                en,
                r_prime as int,
                ix,
                value,
            );
            // well-formedness is restored: the count moved one past the
            // full prefix
            assert(n * l == (n - 1) * l + l) by (nonlinear_arith);
            assert((n - 1) * l < count0 + 1 <= n * l);
            assert(self.count == count0 + 1 && self.lower_limit == mid.lower_limit);
            assert(self.k > 2 ==> self.count + 1 >= self.lower_limit) by {
                if self.k > 2 {
                    assert(mid.count + 1 >= mid.lower_limit);
                }
            }
            assert(self.count <= self.upper_limit);
        }
    }

    /// Appends an element to the back of the vector.
    pub fn push(&mut self, value: T)
        requires
            old(self).wf(),
            old(self)@.len() < usize::MAX / 4 || old(self)@.len() < old(self).spec_capacity(),
        ensures
            final(self).wf(),
            final(self)@ == old(self)@.push(value),
    {
        proof {
            self.lemma_counts();
        }
        let here = self.count;
        self.insert(here, value);
        proof {
            assert(old(self)@.insert(old(self)@.len() as int, value) =~= old(self)@.push(value));
        }
    }

    /// Halve the per-block capacity by splitting every block in half,
    /// doubling the block count. Runs exactly when a removal finds the
    /// count just under the lower threshold, at which point the last
    /// block holds one element less than a full block.
    fn compress(&mut self)
        requires
            old(self).wf(),
            old(self).count < old(self).lower_limit,
            old(self).k > 2,
        ensures
            final(self).wf(),
            final(self)@ == old(self)@,
            final(self).count == old(self).count,
            final(self).spec_block_width() == old(self).spec_block_width() / 2,
            final(self).count >= final(self).lower_limit,
    {
        let ghost s0 = self@;
        let ghost l = self.l as int;
        let ghost n0 = self.index@.len() as int;
        let ghost c0 = self.count as int;
        let ghost k0 = self.k;
        proof {
            self.lemma_counts();
            // the invariant keeps the count within one of the lower
            // threshold, so the threshold was crossed exactly
            assert(c0 == self.lower_limit - 1);
            lemma2_to64();
            if k0 > 3 {
                lemma_pow2_strictly_increases(3, k0 as nat);
            }
            assert(l >= 8);
            // the thresholds are powers of two around l = 2^k
            lemma_pow2_adds(k0 as nat, k0 as nat);
            assert(l * l == pow2(2 * k0 as nat));
            vstd::arithmetic::power2::lemma_pow2_subtracts(3, 2 * k0 as nat);
            assert(self.lower_limit == pow2((2 * k0 - 3) as nat) as int) by {
                vstd::arithmetic::div_mod::lemma_div_multiples_vanish(
                    pow2((2 * k0 - 3) as nat) as int,
                    8,
                );
                assert(pow2(2 * k0 as nat) == 8 * pow2((2 * k0 - 3) as nat)) by {
                    lemma_pow2_adds(3, (2 * k0 - 3) as nat);
                }
            }
            // the blocks: a stack of full blocks and a last block one
            // short of full
            assert(pow2((2 * k0 - 3) as nat) >= 8) by {
                if 2 * k0 - 3 > 3 {
                    lemma_pow2_strictly_increases(3, (2 * k0 - 3) as nat);
                }
            }
            assert(c0 >= 7);
            assert(n0 > 0);
            lemma_pow2_adds(k0 as nat, (k0 - 3) as nat);
            assert(c0 == l * pow2((k0 - 3) as nat) - 1);
            let q = pow2((k0 - 3) as nat) as int;
            vstd::arithmetic::power2::lemma_pow2_pos((k0 - 3) as nat);
            assert(n0 == q) by (nonlinear_arith)
                requires
                    (n0 - 1) * l < c0 <= n0 * l,
                    c0 == l * q - 1,
                    q >= 1,
                    l >= 8,
            ;
            assert((n0 - 1) * l == n0 * l - l) by (nonlinear_arith);
            assert(l * q == q * l) by (nonlinear_arith);
            assert(self.index@[n0 - 1]@.len() == l - 1);
        }
        let half = self.l / 2;
        proof {
            assert(pow2(1) == 2);
            assert(l == 2 * pow2((k0 - 1) as nat)) by {
                lemma_pow2_adds(1, (k0 - 1) as nat);
            }
            vstd::arithmetic::div_mod::lemma_div_multiples_vanish(pow2((k0 - 1) as nat) as int, 2);
            assert(half as int == pow2((k0 - 1) as nat));
            assert(half as int * 2 == l);
        }
        let mut old_index: Vec<CyclicArray<T>> = Vec::new();
        core::mem::swap(&mut old_index, &mut self.index);
        proof {
            assert(blocks_view(self.index@) + blocks_view(old_index@) =~= s0);
        }
        while old_index.len() > 0
            invariant
                half as int * 2 == l,
                l >= 8,
                self.k == k0,
                self.count == c0,
                blocks_view(self.index@) + blocks_view(old_index@) == s0,
                forall|j: int|
                    0 <= j < old_index@.len() ==> {
                        let b = #[trigger] old_index@[j];
                        b.wf() && b.spec_capacity() == l
                    },
                forall|j: int|
                    0 <= j < old_index@.len() - 1 ==> (#[trigger] old_index@[j])@.len() == l,
                old_index@.len() > 0 ==> old_index@.last()@.len() == l - 1,
                forall|j: int|
                    0 <= j < self.index@.len() ==> {
                        let b = #[trigger] self.index@[j];
                        b.wf() && b.spec_capacity() == half
                    },
                forall|j: int|
                    0 <= j < self.index@.len() - 1 ==> (#[trigger] self.index@[j])@.len()
                        == half as int,
                self.index@.len() > 0 && old_index@.len() > 0 ==> self.index@.last()@.len()
                    == half as int,
                old_index@.len() == 0 ==> self.index@.len() > 0 && self.index@.last()@.len()
                    == half - 1,
            decreases old_index@.len(),
        {
            let ghost pre_new = self.index@;
            let ghost pre_old = old_index@;
            let b = old_index.remove(0);
            let (x, y) = b.split();
            self.index.push(x);
            let ghost pre_mid = self.index@;
            self.index.push(y);
            proof {
                assert(pre_old.remove(0) =~= pre_old.skip(1));
                lemma_blocks_view_skip_unfold(pre_old, 0);
                assert(pre_old.skip(0) =~= pre_old);
                lemma_blocks_view_push(pre_new, x);
                lemma_blocks_view_push(pre_mid, y);
                assert(x@ + y@ == b@);
                assert(blocks_view(self.index@) + blocks_view(old_index@) =~= s0);
            }
        }
        proof {
            assert(half as int * half as int <= l * l) by (nonlinear_arith)
                requires
                    0 <= half as int * 2 == l,
            ;
        }
        self.k = self.k - 1;
        self.k_mask = half - 1;
        self.l = half;
        self.upper_limit = half * half;
        self.lower_limit = self.upper_limit / 8;
        proof {
            let lp = half as int;
            assert(blocks_view(old_index@) =~= Seq::<T>::empty());
            assert(self@ =~= s0);
            let n = self.index@.len() as int;
            lemma_blocks_view_len(self.index@, lp);
            assert(self@.len() == c0);
            assert(n > 0);
            assert(self.index@[n - 1] == self.index@.last());
            assert((n - 1) * lp + (lp - 1) == c0);
            assert(n * lp == (n - 1) * lp + lp) by (nonlinear_arith);
            assert((n - 1) * lp < c0 <= n * lp);
            // the new sizing fields are coherent powers of two
            assert(self.l == pow2(self.k as nat));
            assert(self.upper_limit == pow2((2 * k0 - 2) as nat)) by {
                lemma_pow2_adds((k0 - 1) as nat, (k0 - 1) as nat);
            }
            assert(self.lower_limit == pow2((2 * k0 - 5) as nat) as int) by {
                vstd::arithmetic::div_mod::lemma_div_multiples_vanish(
                    pow2((2 * k0 - 5) as nat) as int,
                    8,
                );
                assert(pow2((2 * k0 - 2) as nat) == 8 * pow2((2 * k0 - 5) as nat)) by {
                    lemma_pow2_adds(3, (2 * k0 - 5) as nat);
                }
            }
            // the count sits between the new thresholds
            assert(pow2((2 * k0 - 3) as nat) == 4 * pow2((2 * k0 - 5) as nat)) by {
                lemma_pow2_adds(2, (2 * k0 - 5) as nat);
            }
            vstd::arithmetic::power2::lemma_pow2_pos((2 * k0 - 5) as nat);
            assert(self.count >= self.lower_limit);
            lemma_pow2_strictly_increases((2 * k0 - 3) as nat, (2 * k0 - 2) as nat);
            assert(self.count <= self.upper_limit);
        }
    }

    /// Appends an element if there is spare capacity for it, otherwise
    /// hands the element back unconsumed without changing anything.
    pub fn push_within_capacity(&mut self, value: T) -> (r: Result<(), T>)
        requires
            old(self).wf(),
        ensures
            final(self).wf(),
            old(self)@.len() < old(self).spec_capacity() ==> r is Ok && final(self)@ == old(
                self,
            )@.push(value),
            old(self)@.len() >= old(self).spec_capacity() ==> r == Err::<(), T>(value)
                && *final(self) == *old(self),
    {
        proof {
            self.lemma_counts();
        }
        let cap = self.capacity();
        if cap <= self.count {
            Err(value)
        } else {
            self.push(value);
            Ok(())
        }
    }


    /// After a removal at offset `rp` of block `su`, with the gap closed
    /// by relaying one element per block from the last block `en` back
    /// toward block `su`, the concatenated view is the old view with the
    /// element at position `ix` removed.
    #[verifier::rlimit(100)]
    proof fn lemma_remove_reassemble(
        bs2: Seq<CyclicArray<T>>,
        s: Seq<T>,
        l: int,
        n: int,
        count0: int,
        su: int,
        en: int,
        rp: int,
        ix: int,
    )
        requires
            l >= 4,
            en == n - 1,
            0 <= su <= en,
            n == bs2.len(),
            (n - 1) * l < count0 <= n * l,
            s.len() == count0,
            0 <= rp < l,
            ix == su * l + rp,
            ix < count0,
            forall|m: int| 0 <= m < su ==> (#[trigger] bs2[m])@ == s.subrange(m * l, m * l + l),
            su < en ==> bs2[su]@ == s.subrange(su * l, su * l + l).remove(rp).push(s[su * l + l]),
            su == en ==> bs2[su]@ == s.subrange(su * l, count0).remove(rp),
            forall|m: int|
                su < m < en ==> (#[trigger] bs2[m])@ == s.subrange(m * l + 1, (m + 1) * l + 1),
            su < en ==> bs2[en]@ == s.subrange(en * l + 1, count0),
        ensures
            blocks_view(bs2) == s.remove(ix),
            forall|m: int| 0 <= m < n - 1 ==> (#[trigger] bs2[m])@.len() == l,
            bs2[n - 1]@.len() == count0 - 1 - (n - 1) * l,
    {
        let t = s.remove(ix);
        s.remove_ensures(ix);
        assert((su + 1) * l == su * l + l) by (nonlinear_arith);
        assert(n * l == (n - 1) * l + l) by (nonlinear_arith);
        lemma_mul_nonnegative(su, l);
        if su + 1 <= n - 1 {
            lemma_mul_inequality(su + 1, n - 1, l);
        }
        if su < en {
            s.subrange(su * l, su * l + l).remove_ensures(rp);
        } else {
            s.subrange(su * l, count0).remove_ensures(rp);
        }
        assert forall|m: int| 0 <= m < n - 1 implies (#[trigger] bs2[m])@.len() == l by {
            assert((m + 1) * l == m * l + l) by (nonlinear_arith);
            lemma_mul_nonnegative(m, l);
            lemma_mul_inequality(m + 1, n - 1, l);
        }
        assert(bs2[n - 1]@.len() == count0 - 1 - (n - 1) * l) by {
            if su < en {
                assert(en * l >= l) by (nonlinear_arith)
                    requires
                        en >= 1,
                        l >= 0,
                ;
            }
        }
        lemma_blocks_view_len(bs2, l);
        assert(bs2[n - 1] == bs2.last());
        assert(blocks_view(bs2).len() == count0 - 1);
        assert forall|p: int| 0 <= p < count0 - 1 implies blocks_view(bs2)[p] == t[p] by {
            let j = p / l;
            let o = p % l;
            lemma_fundamental_div_mod(p, l);
            lemma_mod_bound(p, l);
            assert(l * j == j * l) by (nonlinear_arith);
            assert(j >= 0) by (nonlinear_arith)
                requires
                    p >= 0,
                    l > 0,
                    j == p / l,
            ;
            if j >= n {
                lemma_mul_inequality(n, j, l);
                assert(false);
            }
            assert(o < bs2[j]@.len()) by {
                if j < n - 1 {
                } else {
                    assert(o == p - (n - 1) * l);
                }
            }
            lemma_blocks_view_index(bs2, l, j, o);
            assert(blocks_view(bs2)[p] == bs2[j]@[o]);
            if j < su {
                lemma_mul_inequality(j + 1, su, l);
                lemma_mul_inequality(j + 1, n - 1, l);
                lemma_mul_inequality(su, n - 1, l);
                assert((j + 1) * l == j * l + l) by (nonlinear_arith);
                assert(p < ix);
                assert(bs2[j]@ == s.subrange(j * l, j * l + l));
                assert(bs2[j]@[o] == s[p]);
            } else if j == su {
                if su < en {
                    let q = s.subrange(su * l, su * l + l);
                    assert(bs2[j]@ == q.remove(rp).push(s[su * l + l]));
                    if o < rp {
                        assert(bs2[j]@[o] == q[o]);
                        assert(p < ix);
                        assert(bs2[j]@[o] == s[p]);
                    } else if o < l - 1 {
                        assert(bs2[j]@[o] == q.remove(rp)[o]);
                        assert(q.remove(rp)[o] == q[o + 1]);
                        assert(p >= ix);
                        assert(bs2[j]@[o] == s[p + 1]);
                    } else {
                        assert(bs2[j]@[o] == s[su * l + l]);
                        assert(p == su * l + l - 1 >= ix);
                        assert(bs2[j]@[o] == s[p + 1]);
                    }
                } else {
                    let q = s.subrange(su * l, count0);
                    assert(bs2[j]@ == q.remove(rp));
                    if o < rp {
                        assert(bs2[j]@[o] == q[o]);
                        assert(p < ix);
                        assert(bs2[j]@[o] == s[p]);
                    } else {
                        assert(bs2[j]@[o] == q[o + 1]);
                        assert(p >= ix);
                        assert(bs2[j]@[o] == s[p + 1]);
                    }
                }
            } else {
                assert(su < en);
                lemma_mul_inequality(su + 1, j, l);
                assert(p >= j * l > ix);
                if j < en {
                    lemma_mul_inequality(j + 1, n - 1, l);
                    assert((j + 1) * l == j * l + l) by (nonlinear_arith);
                    assert(bs2[j]@ == s.subrange(j * l + 1, (j + 1) * l + 1));
                    assert(bs2[j]@[o] == s[p + 1]);
                } else {
                    assert(bs2[j]@ == s.subrange(en * l + 1, count0));
                    assert(bs2[j]@[o] == s[p + 1]);
                }
            }
        }
        assert(blocks_view(bs2) =~= t);
    }

    /// Removes and returns the element at position `index` within the
    /// vector, shifting some elements to the left to close the gap.
    /// Compresses the blocks when the count has fallen below the lower
    /// threshold, and closes the gap by relaying one element per block
    /// from the tail back toward the target block, pruning the last
    /// block once it empties.
    #[verifier::rlimit(100)]
    pub fn remove(&mut self, index: usize) -> (r: T)
        requires
            old(self).wf(),
            index < old(self)@.len(),
        ensures
            final(self).wf(),
            r == old(self)@[index as int],
            final(self)@ == old(self)@.remove(index as int),
            final(self).spec_block_width() == (if old(self).spec_block_width() >= 8 && old(
                self,
            )@.len() < old(self).spec_block_width() * old(self).spec_block_width() / 8 {
                old(self).spec_block_width() / 2
            } else {
                old(self).spec_block_width()
            }),
    {
        proof {
            self.lemma_counts();
            self.lemma_compress_trigger();
        }
        if self.count < self.lower_limit && self.k > 2 {
            self.compress();
        }
        proof {
            self.lemma_counts();
            self.lemma_width_min();
        }
        let ghost mid = *self;
        proof {
            assert(mid.k > 2 ==> mid.count >= mid.lower_limit) by {
                if mid.k > 2 && mid.count < mid.lower_limit {
                    assert(false);
                }
            }
        }
        let ghost s = self@;
        let ghost l = self.l as int;
        let ghost n = self.index@.len() as int;
        let ghost count0 = self.count as int;
        let ghost olds = self.index@;
        proof {
            self.lemma_remove_setup(index);
        }
        let sub = index >> self.k;
        let end = (self.count - 1) >> self.k;
        let r_prime = index & self.k_mask;
        proof {
            assert(end == n - 1);
            assert(sub as int <= end as int);
            assert(index == sub as int * l + r_prime as int);
            if (sub as int) < end as int {
                assert(olds[sub as int]@.len() == l);
            } else {
                assert(olds[sub as int]@.len() == count0 - (n - 1) * l);
            }
        }
        let ret = self.index[sub].remove(r_prime);
        proof {
            if (sub as int) < end as int {
                lemma_mul_inequality(sub as int + 1, n - 1, l);
                assert((sub as int + 1) * l == sub as int * l + l) by (nonlinear_arith);
                assert(olds[sub as int]@ == s.subrange(sub as int * l, sub as int * l + l));
            } else {
                assert(olds[sub as int]@ == s.subrange(sub as int * l, count0));
            }
            assert(ret == s[index as int]);
        }
        if sub < end {
            let mut carried = self.index[end].pop_front().unwrap();
            proof {
                assert(end as int * l >= l) by (nonlinear_arith)
                    requires
                        end >= 1,
                        l >= 0,
                ;
                assert(olds[end as int]@ == s.subrange(end as int * l, count0));
                assert(carried == s[end as int * l]);
                assert(self.index@[end as int]@ =~= s.subrange(end as int * l + 1, count0));
            }
            let mut i = end - 1;
            while i > sub
                invariant
                    sub <= i < end,
                    end == n - 1,
                    l == self.l as int,
                    l >= 4,
                    n == self.index@.len() as int,
                    olds.len() == n,
                    count0 == self.count as int,
                    s.len() == count0,
                    (n - 1) * l < count0 <= n * l,
                    sub as int * l + r_prime as int == index as int,
                    0 <= r_prime < l,
                    forall|m: int|
                        0 <= m < n ==> (#[trigger] olds[m]).wf() && olds[m].spec_capacity() == l,
                    forall|m: int| 0 <= m < n - 1 ==> (#[trigger] olds[m])@.len() == l,
                    forall|m: int|
                        0 <= m < n ==> (#[trigger] olds[m])@ == s.subrange(
                            m * l,
                            m * l + olds[m]@.len(),
                        ),
                    self.k == mid.k,
                    self.k_mask == mid.k_mask,
                    self.l == mid.l,
                    self.upper_limit == mid.upper_limit,
                    self.lower_limit == mid.lower_limit,
                    self.count == mid.count,
                    self.index@.len() == n,
                    forall|m: int| 0 <= m < sub ==> #[trigger] self.index@[m] == olds[m],
                    self.index@[sub as int].wf(),
                    self.index@[sub as int].spec_capacity() == l,
                    self.index@[sub as int]@ == s.subrange(sub as int * l, sub as int * l
                        + l).remove(r_prime as int),
                    forall|m: int|
                        sub < m <= i ==> #[trigger] self.index@[m] == olds[m],
                    forall|m: int|
                        i < m < end ==> {
                            let b = #[trigger] self.index@[m];
                            &&& b.wf()
                            &&& b.spec_capacity() == l
                            &&& b@ == s.subrange(m * l + 1, (m + 1) * l + 1)
                        },
                    self.index@[end as int].wf(),
                    self.index@[end as int].spec_capacity() == l,
                    self.index@[end as int]@ == s.subrange(end as int * l + 1, count0),
                    carried == s[(i as int + 1) * l],
                decreases i,
            {
                let ghost pre = self.index@;
                let head = self.index[i].pop_front().unwrap();
                proof {
                    lemma_mul_inequality(i as int + 1, n - 1, l);
                    assert((i as int + 1) * l == i as int * l + l) by (nonlinear_arith);
                    assert(i as int * l >= l) by (nonlinear_arith)
                        requires
                            i >= 1,
                            l >= 0,
                    ;
                    assert(pre[i as int]@ == s.subrange(i as int * l, i as int * l + l));
                    assert(head == s[i as int * l]);
                    assert(self.index@[i as int]@ =~= s.subrange(
                        i as int * l + 1,
                        i as int * l + l,
                    ));
                }
                self.index[i].push_back(carried);
                proof {
                    assert(self.index@[i as int]@ =~= s.subrange(
                        i as int * l + 1,
                        (i as int + 1) * l + 1,
                    ));
                }
                carried = head;
                i = i - 1;
            }
            self.index[sub].push_back(carried);
            proof {
                assert((sub as int + 1) * l == sub as int * l + l) by (nonlinear_arith);
                assert(carried == s[sub as int * l + l]);
                assert(self.index@[sub as int]@ == s.subrange(sub as int * l, sub as int * l
                    + l).remove(r_prime as int).push(s[sub as int * l + l]));
            }
        }
        proof {
            let su = sub as int;
            let en = end as int;
            let ix = index as int;
            let bs2 = self.index@;
            if su == en {
                assert(bs2[su]@ == s.subrange(su * l, count0).remove(r_prime as int));
            }
            Self::lemma_remove_reassemble(bs2, s, l, n, count0, su, en, r_prime as int, ix);
        }
        let ghost pre_prune = self.index@;
        if self.index[end].is_empty() {
            self.index.pop();
            proof {
                lemma_blocks_view_around(pre_prune, n - 1);
                assert(pre_prune.take(n - 1) =~= self.index@);
                assert(blocks_view(pre_prune.skip(n - 1 + 1)) =~= Seq::<T>::empty());
                assert(blocks_view(self.index@) =~= blocks_view(pre_prune));
            }
        }
        self.count = self.count - 1;
        proof {
            let nf = self.index@.len() as int;
            assert(self@ == s.remove(index as int));
            // restored shape: either the last block kept elements, or it
            // was pruned and the remaining blocks are all full
            assert(n * l == (n - 1) * l + l) by (nonlinear_arith);
            if pre_prune[n - 1]@.len() == 0 {
                assert(nf == n - 1);
                assert((nf - 1) * l == nf * l - l) by (nonlinear_arith);
            } else {
                assert(nf == n);
            }
            assert(self.k > 2 ==> self.count + 1 >= self.lower_limit) by {
                if self.k > 2 {
                    assert(mid.count >= mid.lower_limit);
                }
            }
        }
        ret
    }

    /// Removes the last element from the vector and returns it, or
    /// nothing if the vector is empty.
    pub fn pop(&mut self) -> (r: Option<T>)
        requires
            old(self).wf(),
        ensures
            final(self).wf(),
            old(self)@.len() == 0 ==> r is None && *final(self) == *old(self),
            old(self)@.len() > 0 ==> r == Some(old(self)@.last()) && final(self)@ == old(
                self,
            )@.drop_last(),
    {
        proof {
            self.lemma_counts();
        }
        if self.count > 0 {
            let here = self.count - 1;
            let v = self.remove(here);
            proof {
                assert(old(self)@.remove(old(self)@.len() - 1) =~= old(self)@.drop_last());
            }
            Some(v)
        } else {
            None
        }
    }

    /// Removes and returns the last element if the vector is nonempty
    /// and the predicate approves it; the predicate is invoked at most
    /// once and never on an empty vector.
    pub fn pop_if(&mut self, predicate: impl FnOnce(&T) -> bool) -> (r: Option<T>)
        requires
            old(self).wf(),
            old(self)@.len() > 0 ==> call_requires(predicate, (&old(self)@.last(),)),
        ensures
            final(self).wf(),
            old(self)@.len() == 0 ==> r is None && *final(self) == *old(self),
            r is Some ==> old(self)@.len() > 0 && r == Some(old(self)@.last()) && final(self)@
                == old(self)@.drop_last() && call_ensures(predicate, (&old(self)@.last(),), true),
            old(self)@.len() > 0 && r is None ==> final(self)@ == old(self)@ && call_ensures(
                predicate,
                (&old(self)@.last(),),
                false,
            ),
    {
        proof {
            self.lemma_counts();
        }
        if self.count == 0 {
            None
        } else {
            let here = self.count - 1;
            let last = self.get(here).unwrap();
            if predicate(last) {
                self.pop()
            } else {
                None
            }
        }
    }

    /// Returns a mutable reference to the element at the given offset,
    /// or nothing when the offset is at or past the length.
    pub fn get_mut(&mut self, index: usize) -> (r: Option<&mut T>)
        requires
            old(self).wf(),
        ensures
            final(self).wf(),
            final(self).spec_capacity() == old(self).spec_capacity(),
            match r {
                Some(v) => {
                    &&& index < old(self)@.len()
                    &&& *v == old(self)@[index as int]
                    &&& final(self)@ =~= old(self)@.update(index as int, *final(v))
                },
                None => index >= old(self)@.len() && final(self)@ == old(self)@,
            },
    {
        proof {
            self.lemma_counts();
        }
        if index >= self.count {
            None
        } else {
            proof {
                self.lemma_shift_mask(index);
                self.lemma_locate(index as int);
            }
            let sub = index >> self.k;
            let r_prime = index & self.k_mask;
            proof {
                let l = self.l as int;
                let bs = self.index@;
                assert forall|bnew: CyclicArray<T>|
                    bnew@ == bs[sub as int]@.update(r_prime as int, bnew@[r_prime as int]) implies {
                    blocks_view(#[trigger] bs.update(sub as int, bnew)) == blocks_view(bs).update(
                        index as int,
                        bnew@[r_prime as int],
                    )
                } by {
                    crate::blocks::lemma_blocks_view_update_elem(
                        bs,
                        l,
                        sub as int,
                        r_prime as int,
                        bnew,
                        bnew@[r_prime as int],
                    );
                }
            }
            self.index[sub].get_mut(r_prime)
        }
    }
    /// Returns a forward iterator over the vector, yielding references
    /// from the first element to the last.
    pub fn iter(&self) -> (r: VectorIter<'_, T>)
        requires
            self.wf(),
        ensures
            r.wf(),
            r.remaining() == self@,
    {
        VectorIter::new(self)
    }

    /// Turns the vector into an owning iterator over its elements,
    /// transferring ownership of the whole block list.
    pub fn into_iter(self) -> (r: VectorIntoIter<T>)
        requires
            self.wf(),
        ensures
            r.wf(),
            r@ == self@,
    {
        proof {
            self.lemma_counts();
            self.lemma_width_min();
            let n = self.index@.len() as int;
            let l = self.l as int;
            assert forall|j: int| 0 <= j < n implies (#[trigger] self.index@[j])@.len() > 0 by {
                if j < n - 1 {
                } else {
                    assert(self.index@[j]@.len() == self.count - (n - 1) * l);
                }
            }
        }
        VectorIntoIter::from_parts(self.count, self.index)
    }

    /// Bulk construction: builds a vector by pushing every element of
    /// the given list in order.
    pub fn from_vec(values: Vec<T>) -> (r: Vector<T>)
        requires
            values@.len() <= usize::MAX / 4,
        ensures
            r.wf(),
            r@ == values@,
    {
        let ghost orig = values@;
        let mut values = values;
        let mut r = Vector::new();
        while values.len() > 0
            invariant
                r.wf(),
                r@ + values@ == orig,
                orig.len() <= usize::MAX / 4,
            decreases values@.len(),
        {
            let v = values.remove(0);
            proof {
                assert(r@.len() < orig.len());
                r.lemma_counts();
            }
            r.push(v);
            proof {
                assert(r@ + values@ =~= orig);
            }
        }
        proof {
            assert(r@ =~= orig);
        }
        r
    }
}

impl<T> Default for Vector<T> {
    /// The default vector is the freshly created empty one.
    fn default() -> (r: Self)
        ensures
            r.wf(),
            r@ == Seq::<T>::empty(),
            r.spec_capacity() == 0,
    {
        Self::new()
    }
}

impl<T> vstd::std_specs::core::IndexSpecImpl<usize> for Vector<T> {
    /// Indexing demands a well-formed vector and an in-range position.
    open spec fn index_req(&self, i: &usize) -> bool {
        self.wf() && *i < self@.len()
    }
}

impl<T> core::ops::Index<usize> for Vector<T> {
    type Output = T;

    /// Panic-free indexing under the `index_req` precondition.
    fn index(&self, i: usize) -> (r: &T) {
        self.get(i).unwrap()
    }
}

} // verus!
