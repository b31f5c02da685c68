//! The string interner that records which function names are defined.

use lasso::{Key, Rodeo, Spur};
use std::collections::hash_map::RandomState;
use vstd::prelude::*;

verus! {

/// `lasso::Rodeo`, the interner. Nothing is known of what is inside a value
/// of it but through [`interned`].
#[verifier::external_type_specification]
#[verifier::external_body]
#[verifier::reject_recursive_types(K)]
#[verifier::reject_recursive_types(S)]
pub struct ExRodeo<K, S>(Rodeo<K, S>);

/// `lasso::Spur`, the key that the interner gives to a string.
#[verifier::external_type_specification]
#[verifier::external_body]
pub struct ExSpur(Spur);

/// The strings an interner holds, in the order in which they were interned.
/// The key of a string is its position in this sequence.
pub uninterp spec fn interned(r: Rodeo<Spur, RandomState>) -> Seq<Seq<char>>;

/// `Rodeo::default`: an interner that holds no string. It allocates and
/// panics where that fails.
#[verifier::external_body]
pub(crate) fn interner_new() -> (r: Rodeo<Spur, RandomState>)
    ensures
        interned(r) == Seq::<Seq<char>>::empty(),
{
    Rodeo::default()
}

/// `Rodeo::len`: the number of strings held.
#[verifier::external_body]
pub(crate) fn interner_len(r: &Rodeo<Spur, RandomState>) -> (n: usize)
    ensures
        n == interned(*r).len(),
{
    r.len()
}

/// `Rodeo::contains`: whether the string has been interned.
#[verifier::external_body]
pub(crate) fn interner_contains(r: &Rodeo<Spur, RandomState>, s: &str) -> (b: bool)
    ensures
        b == interned(*r).contains(s@),
{
    r.contains(s)
}

/// `Rodeo::get`: the key of an interned string, as its position, or `None`
/// for a string that was never interned.
#[verifier::external_body]
pub(crate) fn interner_get(r: &Rodeo<Spur, RandomState>, s: &str) -> (k: Option<usize>)
    ensures
        match k {
            Some(i) => i < interned(*r).len() && interned(*r)[i as int] == s@,
            None => !interned(*r).contains(s@),
        },
{
    r.get(s).map(|k| k.into_usize())
}

/// `Rodeo::get_or_intern`: the key of the string, as its position. A string
/// that is already held keeps its key and nothing changes; a new one is
/// appended and gets the next position as its key. The call panics once the
/// key space of `Spur` is used up, which is after `u32::MAX` strings, so a
/// new string is only admitted below that bound. It also panics where the
/// interner cannot allocate.
#[verifier::external_body]
pub(crate) fn interner_get_or_intern(r: &mut Rodeo<Spur, RandomState>, s: &str) -> (k: usize)
    requires
        interned(*old(r)).contains(s@) || interned(*old(r)).len() < u32::MAX,
    ensures
        interned(*old(r)).contains(s@) ==> interned(*final(r)) == interned(*old(r)),
        !interned(*old(r)).contains(s@) ==> interned(*final(r)) == interned(*old(r)).push(s@),
        k < interned(*final(r)).len(),
        interned(*final(r))[k as int] == s@,
        !interned(*old(r)).contains(s@) ==> k == interned(*old(r)).len(),
{
    r.get_or_intern(s).into_usize()
}

} // verus!
