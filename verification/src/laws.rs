//! General laws of the tiered vector, stated over the sequence model
//! that the operation contracts speak in.

use vstd::prelude::*;
use vstd::seq_lib::lemma_multiset_commutative;

verus! {

broadcast use vstd::seq_lib::group_to_multiset_ensures, vstd::multiset::group_multiset_axioms;

/// The contents obtained by inserting the given values one after
/// another, each at position 0. By `Vector::insert`'s contract, a
/// vector built by such calls holds exactly this sequence.
pub open spec fn front_inserted<T>(values: Seq<T>) -> Seq<T>
    decreases values.len(),
{
    if values.len() == 0 {
        Seq::empty()
    } else {
        front_inserted(values.drop_last()).insert(0, values.last())
    }
}

/// Round trip: inserting a run of values at position 0, one after
/// another, yields the values in reverse insertion order — inserting a
/// descending run therefore reads back ascending.
pub proof fn lemma_front_insert_reverses<T>(values: Seq<T>)
    ensures
        front_inserted(values) == values.reverse(),
    decreases values.len(),
{
    if values.len() == 0 {
        assert(front_inserted(values) =~= values.reverse());
    } else {
        let front = values.drop_last();
        lemma_front_insert_reverses(front);
        front.reverse().insert_ensures(0, values.last());
        assert(front_inserted(values) =~= values.reverse());
    }
}

/// Inserting an element anywhere in a sequence adds exactly that
/// element to the multiset of its elements.
pub proof fn lemma_insert_to_multiset<T>(s: Seq<T>, j: int, x: T)
    requires
        0 <= j <= s.len(),
    ensures
        s.insert(j, x).to_multiset() == s.to_multiset().insert(x),
{
    let a = s.subrange(0, j);
    let b = s.subrange(j, s.len() as int);
    assert(s.insert(j, x) == a.push(x) + b);
    lemma_multiset_commutative(a.push(x), b);
    lemma_multiset_commutative(a, b);
    assert(a + b =~= s);
    assert(a.push(x).to_multiset() =~= a.to_multiset().insert(x));
    assert(a.to_multiset().insert(x).add(b.to_multiset()) =~= a.to_multiset().add(
        b.to_multiset(),
    ).insert(x));
}

/// Removing the element at one position and reinserting it at another
/// preserves the multiset of elements, and so the sorted contents: a
/// remove of a valid index followed by an insert of the removed value
/// at a valid index leaves the same collection of elements.
pub proof fn lemma_remove_insert_preserves_multiset<T>(s: Seq<T>, i: int, j: int)
    requires
        0 <= i < s.len(),
        0 <= j <= s.len() - 1,
    ensures
        s.remove(i).insert(j, s[i]).to_multiset() == s.to_multiset(),
{
    let r = s.remove(i);
    lemma_insert_to_multiset(r, j, s[i]);
    assert(r.to_multiset() =~= s.to_multiset().remove(s[i]));
    assert(s.contains(s[i]));
    assert(s.to_multiset().remove(s[i]).insert(s[i]) =~= s.to_multiset());
}

} // verus!
