//! The fixed-capacity vectors that hold the literals of a clause and the
//! clause ids of an index entry. They live on the stack and never grow:
//! the capacities below are limits of the library.
//!
//! The vectors come from the `stackvector` crate. Nothing in this file is
//! proved: each function states what the crate's method does to the
//! contents of the vector, and the rest of the library builds on that.

use stackvector::StackVec;
use vstd::prelude::*;

verus! {

/// The largest number of literals in a clause.
pub const MAX_LITS_PER_CLAUSE: usize = 16;

/// The largest number of clauses that one variable may occur in.
pub const MAX_CLAUSES_PER_VAR: usize = 64;

/// The largest number of clauses that one literal may occur in.
pub const MAX_CLAUSES_PER_LIT: usize = 64;

/// `stackvector::StackVec`, a vector in an inline array of `N` slots.
#[verifier::external_type_specification]
#[verifier::external_body]
#[verifier::reject_recursive_types(T)]
pub struct ExStackVec<T, const N: usize>(StackVec<T, N>);

/// The literal codes that a clause's vector holds, first to last.
pub uninterp spec fn codes(store: StackVec<u32, MAX_LITS_PER_CLAUSE>) -> Seq<u32>;

/// The clause ids that an index entry holds, first to last.
pub uninterp spec fn ids(store: StackVec<usize, MAX_CLAUSES_PER_VAR>) -> Seq<usize>;

/// Ascending order, equal neighbours allowed.
pub open spec fn ascending(s: Seq<u32>) -> bool {
    forall|i: int, j: int| 0 <= i <= j < s.len() ==> s[i] <= s[j]
}

/// `s` with every entry dropped that equals the entry before it.
pub open spec fn without_repeats(s: Seq<u32>) -> Seq<u32>
    decreases s.len(),
{
    if s.len() <= 1 {
        s
    } else if s[s.len() - 1] == s[s.len() - 2] {
        without_repeats(s.drop_last())
    } else {
        without_repeats(s.drop_last()).push(s.last())
    }
}

/// `StackVec::new`: a vector that holds nothing.
#[verifier::external_body]
pub(crate) fn codes_new() -> (store: StackVec<u32, MAX_LITS_PER_CLAUSE>)
    ensures
        codes(store) == Seq::<u32>::empty(),
{
    StackVec::new()
}

/// `StackVec::len`: the number of entries, which never exceeds the capacity.
#[verifier::external_body]
pub(crate) fn codes_len(store: &StackVec<u32, MAX_LITS_PER_CLAUSE>) -> (n: usize)
    ensures
        n == codes(*store).len(),
        n <= MAX_LITS_PER_CLAUSE,
{
    store.len()
}

/// Indexing a `StackVec`: the entry at `i`, which must be below the length.
#[verifier::external_body]
pub(crate) fn codes_get(store: &StackVec<u32, MAX_LITS_PER_CLAUSE>, i: usize) -> (code: u32)
    requires
        i < codes(*store).len(),
    ensures
        code == codes(*store)[i as int],
{
    store[i]
}

/// `StackVec::push`: appends `code`. The vector must have a free slot.
#[verifier::external_body]
pub(crate) fn codes_push(store: &mut StackVec<u32, MAX_LITS_PER_CLAUSE>, code: u32)
    requires
        codes(*old(store)).len() < MAX_LITS_PER_CLAUSE,
    ensures
        codes(*final(store)) == codes(*old(store)).push(code),
{
    store.push(code)
}

/// `StackVec::clear`: removes every entry.
#[verifier::external_body]
pub(crate) fn codes_clear(store: &mut StackVec<u32, MAX_LITS_PER_CLAUSE>)
    ensures
        codes(*final(store)) == Seq::<u32>::empty(),
{
    store.clear()
}

/// `sort_unstable` of the slice of entries: the same entries, each as often
/// as before, in ascending order.
#[verifier::external_body]
pub(crate) fn codes_sort(store: &mut StackVec<u32, MAX_LITS_PER_CLAUSE>)
    ensures
        ascending(codes(*final(store))),
        codes(*final(store)).to_multiset() == codes(*old(store)).to_multiset(),
{
    store.as_mut_slice().sort_unstable()
}

/// `StackVec::dedup`: removes every entry that equals the entry before it.
#[verifier::external_body]
pub(crate) fn codes_dedup(store: &mut StackVec<u32, MAX_LITS_PER_CLAUSE>)
    ensures
        codes(*final(store)) == without_repeats(codes(*old(store))),
{
    store.dedup()
}

/// `Clone::clone` of a `StackVec`: a vector with the same entries.
#[verifier::external_body]
pub(crate) fn codes_clone(store: &StackVec<u32, MAX_LITS_PER_CLAUSE>) -> (copy: StackVec<
    u32,
    MAX_LITS_PER_CLAUSE,
>)
    ensures
        codes(copy) == codes(*store),
{
    store.clone()
}

/// `StackVec::new`: a vector that holds nothing.
#[verifier::external_body]
pub(crate) fn ids_new() -> (store: StackVec<usize, MAX_CLAUSES_PER_VAR>)
    ensures
        ids(store) == Seq::<usize>::empty(),
{
    StackVec::new()
}

/// `StackVec::len`: the number of entries, which never exceeds the capacity.
#[verifier::external_body]
pub(crate) fn ids_len(store: &StackVec<usize, MAX_CLAUSES_PER_VAR>) -> (n: usize)
    ensures
        n == ids(*store).len(),
        n <= MAX_CLAUSES_PER_VAR,
{
    store.len()
}

/// Indexing a `StackVec`: the entry at `i`, which must be below the length.
#[verifier::external_body]
pub(crate) fn ids_get(store: &StackVec<usize, MAX_CLAUSES_PER_VAR>, i: usize) -> (id: usize)
    requires
        i < ids(*store).len(),
    ensures
        id == ids(*store)[i as int],
{
    store[i]
}

/// `StackVec::push`: appends `id`. The vector must have a free slot.
#[verifier::external_body]
pub(crate) fn ids_push(store: &mut StackVec<usize, MAX_CLAUSES_PER_VAR>, id: usize)
    requires
        ids(*old(store)).len() < MAX_CLAUSES_PER_VAR,
    ensures
        ids(*final(store)) == ids(*old(store)).push(id),
{
    store.push(id)
}

} // verus!
