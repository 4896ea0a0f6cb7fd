use linked_hash_set::LinkedHashSet;
use vstd::prelude::*;

verus! {

#[verifier::external_type_specification]
#[verifier::external_body]
#[verifier::reject_recursive_types(T)]
#[verifier::reject_recursive_types(S)]
pub struct ExLinkedHashSet<T, S>(LinkedHashSet<T, S>);

/// The identifiers held by an insertion-ordered set, oldest first.
pub uninterp spec fn ordered_ids(s: LinkedHashSet<Vec<u8>>) -> Seq<Seq<u8>>;

/// Relies on LinkedHashSet::new: the new set is empty.
#[verifier::external_body]
pub(crate) fn ids_new() -> (r: LinkedHashSet<Vec<u8>>)
    ensures
        ordered_ids(r) == Seq::<Seq<u8>>::empty(),
{
    LinkedHashSet::new()
}

/// Relies on LinkedHashSet::len: the number of elements held.
#[verifier::external_body]
pub(crate) fn ids_len(s: &LinkedHashSet<Vec<u8>>) -> (r: usize)
    ensures
        r == ordered_ids(*s).len(),
{
    s.len()
}

/// Relies on LinkedHashSet::front: the oldest element, if any.
#[verifier::external_body]
pub(crate) fn ids_front(s: &LinkedHashSet<Vec<u8>>) -> (r: Option<Vec<u8>>)
    ensures
        r.is_some() == (ordered_ids(*s).len() > 0),
        r.is_some() ==> r.unwrap()@ == ordered_ids(*s)[0],
{
    s.front().cloned()
}

/// Relies on LinkedHashSet::pop_front: takes out the oldest element, if any.
#[verifier::external_body]
pub(crate) fn ids_pop_front(s: &mut LinkedHashSet<Vec<u8>>) -> (r: Option<Vec<u8>>)
    ensures
        r.is_some() == (ordered_ids(*old(s)).len() > 0),
        r.is_some() ==> r.unwrap()@ == ordered_ids(*old(s))[0],
        ordered_ids(*final(s)) == if r.is_some() {
            ordered_ids(*old(s)).drop_first()
        } else {
            ordered_ids(*old(s))
        },
{
    s.pop_front()
}

/// Relies on LinkedHashSet::insert_if_absent: appends the element unless it is
/// already held, in which case the order is left as it was.
#[verifier::external_body]
pub(crate) fn ids_insert_if_absent(s: &mut LinkedHashSet<Vec<u8>>, v: Vec<u8>) -> (r: bool)
    ensures
        r == !ordered_ids(*old(s)).contains(v@),
        ordered_ids(*final(s)) == if r {
            ordered_ids(*old(s)).push(v@)
        } else {
            ordered_ids(*old(s))
        },
{
    s.insert_if_absent(v)
}

/// Relies on LinkedHashSet::remove: takes the element out, keeping the order of
/// the others; reports whether it was held.
#[verifier::external_body]
pub(crate) fn ids_remove(s: &mut LinkedHashSet<Vec<u8>>, v: &[u8]) -> (r: bool)
    ensures
        r == ordered_ids(*old(s)).contains(v@),
        ordered_ids(*final(s)) == ordered_ids(*old(s)).remove_value(v@),
{
    s.remove(v)
}

} // verus!
