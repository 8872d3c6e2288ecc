//! Trusted boundary toward the outside crates: the insertion-ordered sets of
//! `indexmap` that hold the interned words and the starter indices, and the
//! uniform random draw of `rand` that drives sampling.

use indexmap::IndexSet;
use vstd::prelude::*;

verus! {

#[verifier::external_type_specification]
#[verifier::external_body]
#[verifier::reject_recursive_types(T)]
#[verifier::reject_recursive_types(S)]
pub struct ExIndexSet<T, S>(IndexSet<T, S>);

/// The words an interner set holds, as their character sequences, in
/// insertion order.
pub uninterp spec fn word_seq(s: IndexSet<String>) -> Seq<Seq<char>>;

/// The starter indices a set holds, in insertion order.
pub uninterp spec fn starter_seq(s: IndexSet<usize>) -> Seq<usize>;

/// Relies on indexmap::IndexSet::new: the new set is empty.
#[verifier::external_body]
pub(crate) fn word_set_new() -> (r: IndexSet<String>)
    ensures
        word_seq(r) == Seq::<Seq<char>>::empty(),
{
    IndexSet::new()
}

/// Relies on indexmap::IndexSet::insert_full: an absent value is appended
/// last and its new index returned with `true`; a present value leaves the
/// set and the insertion order unchanged and its index is returned with
/// `false`.
#[verifier::external_body]
pub(crate) fn word_set_insert_full(s: &mut IndexSet<String>, w: String) -> (r: (usize, bool))
    ensures
        r.1 ==> {
            &&& forall|i: int|
                0 <= i < word_seq(*old(s)).len() ==> word_seq(*old(s))[i] != w@
            &&& word_seq(*final(s)) == word_seq(*old(s)).push(w@)
            &&& r.0 == word_seq(*old(s)).len()
            &&& word_seq(*old(s)).len() < usize::MAX
        },
        !r.1 ==> {
            &&& word_seq(*final(s)) == word_seq(*old(s))
            &&& r.0 < word_seq(*old(s)).len()
            &&& word_seq(*old(s))[r.0 as int] == w@
        },
{
    s.insert_full(w)
}

/// Relies on indexmap::IndexSet::get_index_of: the index of an equivalent
/// item, or `None` when no item is equivalent.
#[verifier::external_body]
pub(crate) fn word_set_index_of(s: &IndexSet<String>, w: &str) -> (r: Option<usize>)
    ensures
        match r {
            Some(i) => i < word_seq(*s).len() && word_seq(*s)[i as int] == w@,
            None => forall|i: int| 0 <= i < word_seq(*s).len() ==> word_seq(*s)[i] != w@,
        },
{
    s.get_index_of(w)
}

/// Relies on indexmap::IndexSet::get_index: the item at an index below the
/// length, `None` past it.
#[verifier::external_body]
pub(crate) fn word_set_get_index(s: &IndexSet<String>, i: usize) -> (r: Option<String>)
    ensures
        match r {
            Some(w) => i < word_seq(*s).len() && w@ == word_seq(*s)[i as int],
            None => i >= word_seq(*s).len(),
        },
{
    s.get_index(i).cloned()
}

/// Relies on indexmap::IndexSet::len: the number of items held.
#[verifier::external_body]
pub(crate) fn word_set_len(s: &IndexSet<String>) -> (r: usize)
    ensures
        r == word_seq(*s).len(),
{
    s.len()
}

/// Relies on indexmap::IndexSet::new: the new set is empty.
#[verifier::external_body]
pub(crate) fn starter_set_new() -> (r: IndexSet<usize>)
    ensures
        starter_seq(r) == Seq::<usize>::empty(),
{
    IndexSet::new()
}

/// Relies on indexmap::IndexSet::insert: an absent value is appended last and
/// `true` returned; a present value leaves the set unchanged and `false` is
/// returned.
#[verifier::external_body]
pub(crate) fn starter_set_insert(s: &mut IndexSet<usize>, v: usize) -> (r: bool)
    ensures
        r ==> !starter_seq(*old(s)).contains(v) && starter_seq(*final(s)) == starter_seq(*old(s)).push(v),
        !r ==> starter_seq(*old(s)).contains(v) && starter_seq(*final(s)) == starter_seq(*old(s)),
{
    s.insert(v)
}

/// Relies on indexmap::IndexSet::get_index: the item at an index below the
/// length, `None` past it.
#[verifier::external_body]
pub(crate) fn starter_set_get_index(s: &IndexSet<usize>, i: usize) -> (r: Option<usize>)
    ensures
        match r {
            Some(v) => i < starter_seq(*s).len() && v == starter_seq(*s)[i as int],
            None => i >= starter_seq(*s).len(),
        },
{
    s.get_index(i).copied()
}

/// Relies on indexmap::IndexSet::len: the number of items held.
#[verifier::external_body]
pub(crate) fn starter_set_len(s: &IndexSet<usize>) -> (r: usize)
    ensures
        r == starter_seq(*s).len(),
{
    s.len()
}

/// Relies on indexmap::IndexSet::contains: whether an equivalent item is
/// held.
#[verifier::external_body]
pub(crate) fn starter_set_contains(s: &IndexSet<usize>, v: usize) -> (r: bool)
    ensures
        r == starter_seq(*s).contains(v),
{
    s.contains(&v)
}

/// Relies on char::from_u32: `Some` exactly for Unicode scalar values, and
/// the returned character has the given value.
pub assume_specification[ char::from_u32 ](v: u32) -> (r: Option<char>)
    ensures
        r is Some <==> vstd::utf8::is_scalar(v),
        r matches Some(c) ==> c as u32 == v,
;

/// Relies on String::push: appends the given character to the end.
pub assume_specification[ String::push ](s: &mut String, c: char)
    ensures
        final(s)@ == old(s)@.push(c),
;

/// Relies on rand::random_range over `0..n`: the draw lies below `n`; nothing
/// is assumed about which value comes back.
#[verifier::external_body]
pub(crate) fn random_below(n: usize) -> (r: usize)
    requires
        n > 0,
    ensures
        r < n,
{
    rand::random_range(0..n)
}

} // verus!
