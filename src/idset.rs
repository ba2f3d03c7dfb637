//! The ordered, duplicate-free set of agent identities that every agent set
//! is built on. It is an `indexmap::IndexSet` hashed with `fxhash`.
use vstd::prelude::*;

verus! {

#[verifier::external_type_specification]
#[verifier::external_body]
#[verifier::reject_recursive_types(H)]
pub struct ExBuildHasherDefault<H>(std::hash::BuildHasherDefault<H>);

#[verifier::external_type_specification]
#[verifier::external_body]
pub struct ExFxHasher(fxhash::FxHasher);

#[verifier::external_type_specification]
#[verifier::external_body]
#[verifier::reject_recursive_types(T)]
#[verifier::reject_recursive_types(S)]
pub struct ExIndexSet<T, S>(indexmap::IndexSet<T, S>);

/// The insertion-ordered identity set.
pub type IdSet = indexmap::IndexSet<usize, fxhash::FxBuildHasher>;

/// The identities held by an `IdSet`, in their storage order.
pub uninterp spec fn ids_of(s: IdSet) -> Seq<usize>;

/// Relies on `IndexSet::default`: an empty set.
#[verifier::external_body]
pub(crate) fn idset_new() -> (r: IdSet)
    ensures
        ids_of(r) == Seq::<usize>::empty(),
{
    IdSet::default()
}

/// Relies on `IndexSet::len`: the number of entries.
#[verifier::external_body]
pub(crate) fn idset_len(s: &IdSet) -> (r: usize)
    ensures
        r == ids_of(*s).len(),
{
    s.len()
}

/// Relies on `IndexSet::get_index`: the entry at a storage position.
#[verifier::external_body]
pub(crate) fn idset_get(s: &IdSet, i: usize) -> (r: usize)
    requires
        i < ids_of(*s).len(),
    ensures
        r == ids_of(*s)[i as int],
{
    *s.get_index(i).unwrap()
}

/// Relies on `IndexSet::contains`: membership.
#[verifier::external_body]
pub(crate) fn idset_contains(s: &IdSet, k: usize) -> (r: bool)
    ensures
        r == ids_of(*s).contains(k),
{
    s.contains(&k)
}

/// Relies on `IndexSet::insert`: an absent value is appended at the end, a
/// present one leaves the set as it was.
#[verifier::external_body]
pub(crate) fn idset_insert(s: &mut IdSet, k: usize) -> (r: bool)
    ensures
        r == !ids_of(*old(s)).contains(k),
        ids_of(*old(s)).contains(k) ==> ids_of(*final(s)) == ids_of(*old(s)),
        !ids_of(*old(s)).contains(k) ==> ids_of(*final(s)) == ids_of(*old(s)).push(k),
{
    s.insert(k)
}

/// Relies on `IndexSet::swap_remove`: the entry is replaced by the last one,
/// which is then popped; an absent value leaves the set as it was.
#[verifier::external_body]
pub(crate) fn idset_swap_remove(s: &mut IdSet, k: usize) -> (r: bool)
    ensures
        r == ids_of(*old(s)).contains(k),
        !ids_of(*old(s)).contains(k) ==> ids_of(*final(s)) == ids_of(*old(s)),
        forall|i: int|
            0 <= i < ids_of(*old(s)).len() && ids_of(*old(s))[i] == k ==> ids_of(*final(s))
                == ids_of(*old(s)).update(i, ids_of(*old(s)).last()).drop_last(),
{
    s.swap_remove(&k)
}

/// Relies on `IndexSet::clone`: the same entries in the same order.
#[verifier::external_body]
pub(crate) fn idset_clone(s: &IdSet) -> (r: IdSet)
    ensures
        ids_of(r) == ids_of(*s),
{
    s.clone()
}

} // verus!
