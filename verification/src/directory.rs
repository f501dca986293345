//! The allocation directory: key (byte offset) to the token and width of
//! the value that lives there, kept in a `hashbrown::HashMap`.

use vstd::prelude::*;

verus! {

/// The directory of live allocations. The map inside is opaque to the
/// verifier; what it holds is named by [`directory_entries`].
#[verifier::external_body]
pub struct Directory {
    map: hashbrown::HashMap<usize, (u64, usize)>,
}

/// What a directory holds: for each live key, the token of the stored
/// type and the number of bytes it occupies.
pub uninterp spec fn directory_entries(d: Directory) -> Map<usize, (u64, usize)>;

/// The contents of a directory without entries.
pub open spec fn nothing() -> Map<usize, (u64, usize)> {
    Map::empty()
}

/// `hashbrown::HashMap::default`: a map that holds nothing.
#[verifier::external_body]
pub(crate) fn directory_new() -> (d: Directory)
    ensures
        directory_entries(d) == nothing(),
{
    Directory { map: hashbrown::HashMap::default() }
}

/// `hashbrown::HashMap::len`: the number of entries.
#[verifier::external_body]
pub(crate) fn directory_len(d: &Directory) -> (n: usize)
    ensures
        n == directory_entries(*d).len(),
{
    d.map.len()
}

/// `hashbrown::HashMap::clear`: removes every entry.
#[verifier::external_body]
pub(crate) fn directory_clear(d: &mut Directory)
    ensures
        directory_entries(*final(d)) == nothing(),
{
    d.map.clear();
}

/// `hashbrown::HashMap::get`: the value under `key`, if the map has one.
#[verifier::external_body]
pub(crate) fn directory_get(d: &Directory, key: usize) -> (found: Option<(u64, usize)>)
    ensures
        found == (if directory_entries(*d).contains_key(key) {
            Some(directory_entries(*d)[key])
        } else {
            None
        }),
{
    d.map.get(&key).copied()
}

/// `hashbrown::HashMap::insert`: afterwards `key` maps to `value`, and
/// every other key is as before. It returns what `key` mapped to before.
#[verifier::external_body]
pub(crate) fn directory_insert(d: &mut Directory, key: usize, value: (u64, usize)) -> (previous:
    Option<(u64, usize)>)
    ensures
        directory_entries(*final(d)) == directory_entries(*old(d)).insert(key, value),
        previous == (if directory_entries(*old(d)).contains_key(key) {
            Some(directory_entries(*old(d))[key])
        } else {
            None
        }),
{
    d.map.insert(key, value)
}

/// `hashbrown::HashMap::remove`: afterwards `key` is absent, and every
/// other key is as before. It returns what `key` mapped to before.
#[verifier::external_body]
pub(crate) fn directory_remove(d: &mut Directory, key: usize) -> (previous: Option<(u64, usize)>)
    ensures
        directory_entries(*final(d)) == directory_entries(*old(d)).remove(key),
        previous == (if directory_entries(*old(d)).contains_key(key) {
            Some(directory_entries(*old(d))[key])
        } else {
            None
        }),
{
    d.map.remove(&key)
}

/// `hashbrown::HashMap::iter`: every entry exactly once, in an order that
/// is not specified.
#[verifier::external_body]
pub(crate) fn directory_pairs(d: &Directory) -> (pairs: Vec<(usize, (u64, usize))>)
    ensures
        forall|i: int|
            0 <= i < pairs@.len() ==> directory_entries(*d).contains_key((#[trigger] pairs@[i]).0)
                && directory_entries(*d)[pairs@[i].0] == pairs@[i].1,
        forall|k: usize| #[trigger]
            directory_entries(*d).contains_key(k) ==> exists|i: int|
                0 <= i < pairs@.len() && (#[trigger] pairs@[i]).0 == k,
        forall|i: int, j: int|
            0 <= i < j < pairs@.len() ==> (#[trigger] pairs@[i]).0 != (#[trigger] pairs@[j]).0,
{
    d.map.iter().map(|(k, v)| (*k, *v)).collect()
}

} // verus!
