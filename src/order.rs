//! The ordering predicate that both engines are driven by, and what it means
//! for a sequence to be sorted by it.
use vstd::prelude::*;

verus! {

/// `less(a, b)` answers true: `a` belongs strictly before `b`.
pub open spec fn before<T, F: Fn(&T, &T) -> bool>(less: F, a: T, b: T) -> bool {
    less.ensures((&a, &b), true)
}

/// The predicate can be called on any two elements, answers the same way each
/// time, and never puts two elements each before the other.
pub open spec fn is_order<T, F: Fn(&T, &T) -> bool>(less: F) -> bool {
    &&& forall|a: T, b: T| #[trigger] less.requires((&a, &b))
    &&& forall|a: T, b: T, r: bool| #[trigger] less.ensures((&a, &b), r) ==> r == before(less, a, b)
    &&& forall|a: T, b: T| #[trigger] before(less, a, b) ==> !before(less, b, a)
}

/// A strict weak ordering: an order whose "not before" is transitive too.
pub open spec fn is_weak_order<T, F: Fn(&T, &T) -> bool>(less: F) -> bool {
    &&& is_order(less)
    &&& forall|a: T, b: T, c: T|
        #![trigger before(less, a, b), before(less, b, c)]
        !before(less, a, b) && !before(less, b, c) ==> !before(less, a, c)
}

/// No element is before its predecessor.
pub open spec fn sorted_by<T, F: Fn(&T, &T) -> bool>(s: Seq<T>, less: F) -> bool {
    forall|i: int| 0 < i < s.len() ==> !#[trigger] before(less, s[i], s[i - 1])
}

/// No element is before any element that precedes it.
pub open spec fn ordered_by<T, F: Fn(&T, &T) -> bool>(s: Seq<T>, less: F) -> bool {
    forall|i: int, j: int| 0 <= i < j < s.len() ==> !#[trigger] before(less, s[j], s[i])
}

/// Under a strict weak ordering, a sequence in which no element is before its
/// predecessor has no element before any earlier one; so sorting it again
/// leaves it as it is.
pub proof fn lemma_sorted_is_ordered<T, F: Fn(&T, &T) -> bool>(s: Seq<T>, less: F)
    requires
        is_weak_order(less),
        sorted_by(s, less),
    ensures
        ordered_by(s, less),
{
    assert forall|i: int, j: int| 0 <= i < j < s.len() implies !#[trigger] before(less, s[j], s[i]) by {
        lemma_sorted_prefix_below(s, less, i, j);
    }
}

proof fn lemma_sorted_prefix_below<T, F: Fn(&T, &T) -> bool>(s: Seq<T>, less: F, i: int, j: int)
    requires
        is_weak_order(less),
        sorted_by(s, less),
        0 <= i < j < s.len(),
    ensures
        !before(less, s[j], s[i]),
    decreases j - i,
{
    assert(!before(less, s[j], s[j - 1]));
    if i < j - 1 {
        lemma_sorted_prefix_below(s, less, i, j - 1);
    }
}

/// Relies on `<[T]>::swap`: exchanges the elements at the two positions.
#[verifier::external_body]
pub(crate) fn swap_at<T>(data: &mut [T], i: usize, j: usize)
    requires
        i < old(data)@.len(),
        j < old(data)@.len(),
    ensures
        final(data)@ == old(data)@.update(i as int, old(data)@[j as int]).update(
            j as int,
            old(data)@[i as int],
        ),
{
    data.swap(i, j)
}

/// Exchanging two elements keeps the multiset of elements.
pub proof fn lemma_swap_keeps_multiset<T>(s: Seq<T>, i: int, j: int)
    requires
        0 <= i < s.len(),
        0 <= j < s.len(),
    ensures
        s.update(i, s[j]).update(j, s[i]).to_multiset() == s.to_multiset(),
{
    broadcast use vstd::seq_lib::to_multiset_update;
    broadcast use vstd::multiset::group_multiset_properties;
    broadcast use vstd::seq_lib::to_multiset_contains;

    let s1 = s.update(i, s[j]);
    assert(s1.to_multiset() == s.to_multiset().insert(s[j]).remove(s[i]));
    assert(s1.update(j, s[i]).to_multiset() == s1.to_multiset().insert(s[i]).remove(s1[j]));
    assert(s.to_multiset().insert(s[j]).remove(s[i]).insert(s[i]).remove(s[j]) =~= s.to_multiset());
}

/// Exchanges the elements at positions `i` and `j`.
pub(crate) fn exchange<T>(data: &mut [T], i: usize, j: usize)
    requires
        i < old(data)@.len(),
        j < old(data)@.len(),
    ensures
        final(data)@ == old(data)@.update(i as int, old(data)@[j as int]).update(
            j as int,
            old(data)@[i as int],
        ),
        final(data)@.to_multiset() == old(data)@.to_multiset(),
{
    proof {
        lemma_swap_keeps_multiset(data@, i as int, j as int);
    }
    swap_at(data, i, j);
}

} // verus!
