//! The insertion-ordered set of `indexmap` that holds the favorites, and
//! the contracts of the methods the library calls on it.

use indexmap::IndexSet;
use vstd::prelude::*;

verus! {

/// `indexmap::IndexSet`, carried as an opaque value.
#[verifier::external_type_specification]
#[verifier::external_body]
#[verifier::reject_recursive_types(T)]
#[verifier::reject_recursive_types(S)]
pub struct ExIndexSet<T, S>(IndexSet<T, S>);

/// The items of an `IndexSet<String>`, in their order (the order in which
/// they were first inserted, less those removed).
pub uninterp spec fn index_set_items(s: IndexSet<String>) -> Seq<Seq<char>>;

/// `IndexSet::new`: the new set holds no item.
#[verifier::external_body]
pub(crate) fn index_set_new() -> (res: IndexSet<String>)
    ensures
        index_set_items(res) == Seq::<Seq<char>>::empty(),
{
    IndexSet::new()
}

/// `IndexSet::len`: the number of items.
#[verifier::external_body]
pub(crate) fn index_set_len(s: &IndexSet<String>) -> (res: usize)
    ensures
        res == index_set_items(*s).len(),
{
    s.len()
}

/// `IndexSet::contains`: whether an item equal to `value` is in the set.
#[verifier::external_body]
pub(crate) fn index_set_contains(s: &IndexSet<String>, value: &str) -> (res: bool)
    ensures
        res == index_set_items(*s).contains(value@),
{
    s.contains(value)
}

/// `IndexSet::insert`: a value not yet in the set is appended at the end
/// and `true` is returned; otherwise the set is left as it was and `false`
/// is returned. The set's length stays a `usize` (a set that would outgrow
/// it panics with a capacity overflow instead of returning).
#[verifier::external_body]
pub(crate) fn index_set_insert(s: &mut IndexSet<String>, value: String) -> (res: bool)
    ensures
        res == !index_set_items(*old(s)).contains(value@),
        res ==> index_set_items(*final(s)) == index_set_items(*old(s)).push(value@),
        index_set_items(*final(s)).len() <= usize::MAX,
        !res ==> index_set_items(*final(s)) == index_set_items(*old(s)),
{
    s.insert(value)
}

/// `IndexSet::shift_remove`: an item equal to `value` is removed, the items
/// after it shifting down one place, and `true` is returned; without such
/// an item the set is left as it was and `false` is returned.
#[verifier::external_body]
pub(crate) fn index_set_shift_remove(s: &mut IndexSet<String>, value: &str) -> (res: bool)
    ensures
        res == index_set_items(*old(s)).contains(value@),
        res ==> exists|i: int|
            0 <= i < index_set_items(*old(s)).len() && index_set_items(*old(s))[i] == value@
                && index_set_items(*final(s)) == index_set_items(*old(s)).remove(i),
        !res ==> index_set_items(*final(s)) == index_set_items(*old(s)),
{
    s.shift_remove(value)
}

/// `IndexSet::iter`, each item cloned: the items in their order.
#[verifier::external_body]
pub(crate) fn index_set_values(s: &IndexSet<String>) -> (res: Vec<String>)
    ensures
        res@.len() == index_set_items(*s).len(),
        forall|i: int| 0 <= i < res@.len() ==> #[trigger] res@[i]@ == index_set_items(*s)[i],
{
    s.iter().cloned().collect()
}

/// `IndexSet::clone`: a set with the same items in the same order.
#[verifier::external_body]
pub(crate) fn index_set_clone(s: &IndexSet<String>) -> (res: IndexSet<String>)
    ensures
        index_set_items(res) == index_set_items(*s),
{
    s.clone()
}

} // verus!
