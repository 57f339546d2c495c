//! The hash collections of `rustc_hash` that the dictionary, the layout and the
//! code registry are built on, with the contracts that the library relies on.
use rustc_hash::FxBuildHasher;
use std::collections::{HashMap, HashSet};
use vstd::prelude::*;

verus! {

/// The deterministic hash builder of `rustc_hash`.
#[verifier::external_type_specification]
#[verifier::external_body]
pub struct ExFxBuildHasher(FxBuildHasher);

/// A map keyed by characters, hashed with `FxBuildHasher`.
pub type FxCharMap<V> = HashMap<char, V, FxBuildHasher>;

/// A map keyed by packed key pairs, hashed with `FxBuildHasher`.
pub type FxPairMap<V> = HashMap<u64, V, FxBuildHasher>;

/// A set of strings, hashed with `FxBuildHasher`.
pub type FxStringSet = HashSet<String, FxBuildHasher>;

/// What an `FxStringSet` holds: the characters of each string in it.
pub uninterp spec fn string_set_contents(s: HashSet<String, FxBuildHasher>) -> Set<Seq<char>>;

/// Trusted: `HashMap::get` on a map built with `FxBuildHasher` finds the value
/// stored under `k`, and nothing where none is (std's documented map behaviour;
/// `FxBuildHasher` is deterministic and unseeded).
#[verifier::external_body]
pub(crate) fn fx_get<V: Copy>(m: &FxCharMap<V>, k: char) -> (r: Option<V>)
    ensures
        r == (if m@.contains_key(k) {
            Some(m@[k])
        } else {
            None
        }),
{
    m.get(&k).copied()
}

/// Trusted: `HashMap::get` on a map keyed by `u64` built with
/// `FxBuildHasher` finds the value stored under `k`, and nothing where none is.
#[verifier::external_body]
pub(crate) fn fx_pair_get<V: Copy>(m: &FxPairMap<V>, k: u64) -> (r: Option<V>)
    ensures
        r == (if m@.contains_key(k) {
            Some(m@[k])
        } else {
            None
        }),
{
    m.get(&k).copied()
}

/// Trusted: `HashMap::insert` stores `v` under `k` and hands back the value that
/// was there before, if any.
#[verifier::external_body]
pub(crate) fn fx_insert<V>(m: &mut FxCharMap<V>, k: char, v: V) -> (r: Option<V>)
    ensures
        final(m)@ == old(m)@.insert(k, v),
        r == (if old(m)@.contains_key(k) {
            Some(old(m)@[k])
        } else {
            None
        }),
{
    m.insert(k, v)
}

/// Trusted: `HashMap::is_empty` says whether no key is stored.
#[verifier::external_body]
pub(crate) fn fx_is_empty<V>(m: &FxCharMap<V>) -> (r: bool)
    ensures
        r <==> m@.dom() =~= Set::<char>::empty(),
{
    m.is_empty()
}

/// Trusted: `FxHashSet::default()` makes an empty set.
#[verifier::external_body]
pub(crate) fn fx_set_new() -> (s: FxStringSet)
    ensures
        string_set_contents(s) == Set::<Seq<char>>::empty(),
{
    HashSet::default()
}

/// Trusted: `HashSet::contains`, looked up by a `&str`, tells whether a string
/// with the same characters is in the set.
#[verifier::external_body]
pub(crate) fn fx_set_contains(s: &FxStringSet, q: &str) -> (r: bool)
    ensures
        r == string_set_contents(*s).contains(q@),
{
    s.contains(q)
}

/// Trusted: `HashSet::insert` adds the string and tells whether it was absent.
#[verifier::external_body]
pub(crate) fn fx_set_insert(s: &mut FxStringSet, v: String) -> (r: bool)
    ensures
        string_set_contents(*final(s)) == string_set_contents(*old(s)).insert(v@),
        r == !string_set_contents(*old(s)).contains(v@),
{
    s.insert(v)
}

} // verus!
