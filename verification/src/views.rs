//! Sequences of values seen through the views of their elements.
use vstd::prelude::*;

verus! {

/// The views of the elements of `s`, in order.
pub open spec fn views<T: View>(s: Seq<T>) -> Seq<T::V> {
    Seq::new(s.len(), |i: int| s[i]@)
}

/// The view of an optional value.
pub open spec fn option_view<T: View>(o: Option<T>) -> Option<T::V> {
    match o {
        Some(t) => Some(t@),
        None => None,
    }
}

/// Appending an element appends its view.
pub broadcast proof fn lemma_views_push<T: View>(s: Seq<T>, t: T)
    ensures
        #[trigger] views(s.push(t)) == views(s).push(t@),
{
    assert(views(s.push(t)) =~= views(s).push(t@));
}

/// The views of a concatenation are the views of its parts.
pub broadcast proof fn lemma_views_add<T: View>(s: Seq<T>, t: Seq<T>)
    ensures
        #[trigger] views(s + t) == views(s) + views(t),
{
    assert(views(s + t) =~= views(s) + views(t));
}

/// An empty sequence has no views.
pub broadcast proof fn lemma_views_empty<T: View>()
    ensures
        #[trigger] views(Seq::<T>::empty()) == Seq::<T::V>::empty(),
{
    assert(views(Seq::<T>::empty()) =~= Seq::<T::V>::empty());
}

pub broadcast group group_views {
    lemma_views_push,
    lemma_views_add,
    lemma_views_empty,
}

} // verus!
