//! Spec-level view of an ordered sequence of blocks: the concatenation
//! of the block contents, together with the lemmas used to reason about
//! it segment by segment.

use vstd::prelude::*;

use crate::block::CyclicArray;

verus! {

/// The logical contents of a sequence of blocks: the concatenation of
/// each block's contents, in order.
pub open spec fn blocks_view<T>(bs: Seq<CyclicArray<T>>) -> Seq<T>
    decreases bs.len(),
{
    if bs.len() == 0 {
        Seq::empty()
    } else {
        bs[0]@ + blocks_view(bs.drop_first())
    }
}

/// The concatenated view splits at any block boundary.
pub proof fn lemma_blocks_view_split<T>(bs: Seq<CyclicArray<T>>, j: int)
    requires
        0 <= j <= bs.len(),
    ensures
        blocks_view(bs) == blocks_view(bs.take(j)) + blocks_view(bs.skip(j)),
    decreases j,
{
    if j == 0 {
        assert(bs.take(0) =~= Seq::empty());
        assert(bs.skip(0) =~= bs);
        assert(blocks_view(bs) =~= blocks_view(bs.take(0)) + blocks_view(bs.skip(0)));
    } else {
        lemma_blocks_view_split(bs.drop_first(), j - 1);
        assert(bs.drop_first().take(j - 1) =~= bs.take(j).drop_first());
        assert(bs.drop_first().skip(j - 1) =~= bs.skip(j));
        assert(bs.take(j)[0] == bs[0]);
        assert(blocks_view(bs) == bs[0]@ + blocks_view(bs.drop_first()));
        assert(blocks_view(bs.take(j)) == bs[0]@ + blocks_view(bs.take(j).drop_first()));
        assert(blocks_view(bs) =~= blocks_view(bs.take(j)) + blocks_view(bs.skip(j)));
    }
}

/// A suffix of the block sequence unfolds at its first block.
pub proof fn lemma_blocks_view_skip_unfold<T>(bs: Seq<CyclicArray<T>>, j: int)
    requires
        0 <= j < bs.len(),
    ensures
        blocks_view(bs.skip(j)) == bs[j]@ + blocks_view(bs.skip(j + 1)),
{
    assert(bs.skip(j).len() > 0);
    assert(bs.skip(j)[0] == bs[j]);
    assert(bs.skip(j).drop_first() =~= bs.skip(j + 1));
}

/// The concatenated view splits around any single block.
pub proof fn lemma_blocks_view_around<T>(bs: Seq<CyclicArray<T>>, j: int)
    requires
        0 <= j < bs.len(),
    ensures
        blocks_view(bs) == blocks_view(bs.take(j)) + bs[j]@ + blocks_view(bs.skip(j + 1)),
{
    lemma_blocks_view_split(bs, j);
    lemma_blocks_view_skip_unfold(bs, j);
    assert(blocks_view(bs) =~= blocks_view(bs.take(j)) + bs[j]@ + blocks_view(bs.skip(j + 1)));
}

/// Appending one block appends its contents to the view.
pub proof fn lemma_blocks_view_push<T>(bs: Seq<CyclicArray<T>>, b: CyclicArray<T>)
    ensures
        blocks_view(bs.push(b)) == blocks_view(bs) + b@,
{
    lemma_blocks_view_around(bs.push(b), bs.len() as int);
    assert(bs.push(b).take(bs.len() as int) =~= bs);
    assert(blocks_view(bs.push(b).skip(bs.len() as int + 1)) =~= Seq::<T>::empty());
    assert(blocks_view(bs.push(b)) =~= blocks_view(bs) + b@);
}

/// Where every block before block `j` holds exactly `l` elements,
/// element `o` of block `j` sits at overall position `j * l + o`.
pub proof fn lemma_blocks_view_index<T>(bs: Seq<CyclicArray<T>>, l: int, j: int, o: int)
    requires
        l >= 0,
        0 <= j < bs.len(),
        0 <= o < bs[j]@.len(),
        forall|m: int| 0 <= m < j ==> (#[trigger] bs[m])@.len() == l,
    ensures
        0 <= j * l + o < blocks_view(bs).len(),
        blocks_view(bs)[j * l + o] == bs[j]@[o],
    decreases j,
{
    vstd::arithmetic::mul::lemma_mul_nonnegative(j, l);
    if j == 0 {
        assert(j * l == 0) by (nonlinear_arith)
            requires
                j == 0,
        ;
        assert(blocks_view(bs) == bs[0]@ + blocks_view(bs.drop_first()));
        assert(blocks_view(bs)[o] == bs[0]@[o]);
    } else {
        let rest = bs.drop_first();
        assert(bs[0]@.len() == l);
        assert forall|m: int| 0 <= m < j - 1 implies (#[trigger] rest[m])@.len() == l by {
            assert(rest[m] == bs[m + 1]);
        }
        assert(rest[j - 1] == bs[j]);
        lemma_blocks_view_index(rest, l, j - 1, o);
        assert((j - 1) * l == j * l - l) by (nonlinear_arith);
        assert(blocks_view(bs) == bs[0]@ + blocks_view(rest));
        assert(blocks_view(bs).len() == l + blocks_view(rest).len());
        assert(blocks_view(bs)[j * l + o] == blocks_view(rest)[(j - 1) * l + o]);
    }
}

/// Where every block before block `j` holds exactly `l` elements, block
/// `j`'s contents are a subrange of the concatenated view.
pub proof fn lemma_blocks_view_subrange<T>(bs: Seq<CyclicArray<T>>, l: int, j: int)
    requires
        l > 0,
        0 <= j < bs.len(),
        forall|m: int| 0 <= m < j ==> (#[trigger] bs[m])@.len() == l,
    ensures
        j * l + bs[j]@.len() <= blocks_view(bs).len(),
        bs[j]@ == blocks_view(bs).subrange(j * l, j * l + bs[j]@.len()),
{
    vstd::arithmetic::mul::lemma_mul_nonnegative(j, l);
    if bs[j]@.len() == 0 {
        if j == 0 {
            assert(j * l == 0) by (nonlinear_arith)
                requires
                    j == 0,
            ;
            assert(blocks_view(bs) == bs[0]@ + blocks_view(bs.drop_first()));
        } else {
            lemma_blocks_view_index(bs, l, j - 1, l - 1);
            assert((j - 1) * l + (l - 1) == j * l - 1) by (nonlinear_arith);
        }
        assert(bs[j]@ =~= blocks_view(bs).subrange(j * l, j * l + bs[j]@.len()));
    } else {
        assert forall|o: int| 0 <= o < bs[j]@.len() implies blocks_view(bs)[j * l + o]
            == bs[j]@[o] by {
            lemma_blocks_view_index(bs, l, j, o);
        }
        lemma_blocks_view_index(bs, l, j, bs[j]@.len() - 1);
        assert(bs[j]@ =~= blocks_view(bs).subrange(j * l, j * l + bs[j]@.len()));
    }
}

/// Where every block but the last holds exactly `l` elements, every
/// block's contents are the matching subrange of the concatenated view.
pub proof fn lemma_blocks_view_subranges<T>(bs: Seq<CyclicArray<T>>, l: int)
    requires
        l > 0,
        forall|m: int| 0 <= m < bs.len() - 1 ==> (#[trigger] bs[m])@.len() == l,
    ensures
        forall|m: int|
            0 <= m < bs.len() ==> (#[trigger] bs[m])@ == blocks_view(bs).subrange(
                m * l,
                m * l + bs[m]@.len(),
            ),
{
    assert forall|m: int| 0 <= m < bs.len() implies (#[trigger] bs[m])@ == blocks_view(
        bs,
    ).subrange(m * l, m * l + bs[m]@.len()) by {
        lemma_blocks_view_subrange(bs, l, m);
    }
}

/// Replacing block `j` by a block whose contents differ in one element
/// updates the concatenated view at the matching overall position.
pub proof fn lemma_blocks_view_update_elem<T>(
    bs: Seq<CyclicArray<T>>,
    l: int,
    j: int,
    o: int,
    bnew: CyclicArray<T>,
    x: T,
)
    requires
        l >= 0,
        0 <= j < bs.len(),
        0 <= o < bs[j]@.len(),
        forall|m: int| 0 <= m < j ==> (#[trigger] bs[m])@.len() == l,
        bnew@ == bs[j]@.update(o, x),
    ensures
        blocks_view(bs.update(j, bnew)) == blocks_view(bs).update(j * l + o, x),
{
    let bs2 = bs.update(j, bnew);
    lemma_blocks_view_around(bs, j);
    lemma_blocks_view_around(bs2, j);
    assert(bs2.take(j) =~= bs.take(j));
    assert(bs2.skip(j + 1) =~= bs.skip(j + 1));
    lemma_blocks_view_index(bs, l, j, o);
    let front = blocks_view(bs.take(j));
    assert(front.len() == j * l) by {
        if j == 0 {
            assert(bs.take(0).len() == 0);
            assert(blocks_view(bs.take(0)).len() == 0);
            assert(j * l == 0) by (nonlinear_arith)
                requires
                    j == 0,
            ;
        } else {
            lemma_blocks_view_len(bs.take(j), l);
            assert(bs.take(j).last() == bs[j - 1]);
            assert(bs.take(j).last()@.len() == l);
            assert((j - 1) * l + l == j * l) by (nonlinear_arith);
        }
    }
    assert(blocks_view(bs2) =~= blocks_view(bs).update(j * l + o, x));
}

/// Where every block but the last holds exactly `l` elements, the view's
/// length is determined by the block count and the last block's fill.
pub proof fn lemma_blocks_view_len<T>(bs: Seq<CyclicArray<T>>, l: int)
    requires
        l >= 0,
        forall|m: int| 0 <= m < bs.len() - 1 ==> (#[trigger] bs[m])@.len() == l,
    ensures
        bs.len() == 0 ==> blocks_view(bs).len() == 0,
        bs.len() > 0 ==> blocks_view(bs).len() == (bs.len() - 1) * l + bs.last()@.len(),
    decreases bs.len(),
{
    if bs.len() > 0 {
        let rest = bs.drop_first();
        assert forall|m: int| 0 <= m < rest.len() - 1 implies (#[trigger] rest[m])@.len() == l by {
            assert(rest[m] == bs[m + 1]);
        }
        lemma_blocks_view_len(rest, l);
        assert(blocks_view(bs).len() == bs[0]@.len() + blocks_view(rest).len());
        if bs.len() == 1 {
            assert(blocks_view(rest).len() == 0);
            assert(blocks_view(bs).len() == bs.last()@.len());
            assert((bs.len() - 1) * l == 0) by (nonlinear_arith)
                requires
                    bs.len() == 1,
            ;
        } else {
            assert(rest.last() == bs.last());
            assert(bs[0]@.len() == l);
            assert(blocks_view(rest).len() == (rest.len() - 1) * l + rest.last()@.len());
            assert(l + (bs.len() - 2) * l == (bs.len() - 1) * l) by (nonlinear_arith);
            assert(rest.len() - 1 == bs.len() - 2);
        }
    }
}

} // verus!
