//! The longest-prefix structure of the index: a patricia-tree map from the
//! `patricia_tree` crate, declared for Verus and wrapped in functions whose
//! contracts speak over the mathematical map it represents.

use vstd::prelude::*;

verus! {

/// `patricia_tree::map::GenericPatriciaMap`, declared so that it can stand
/// in fields and signatures; the index uses its byte-keyed form
/// `PatriciaMap<usize>`.
#[verifier::external_type_specification]
#[verifier::external_body]
#[verifier::reject_recursive_types(K)]
#[verifier::reject_recursive_types(V)]
pub struct ExGenericPatriciaMap<K, V>(patricia_tree::map::GenericPatriciaMap<K, V>);

/// The byte-keyed patricia map that both indexes use: each alias key is
/// bound to the position of its entry in the index's entry table.
pub type PrefixTrie = patricia_tree::map::PatriciaMap<usize>;

/// The contents of a byte-keyed patricia map: the finite map from key bytes
/// to the stored value.
pub uninterp spec fn trie_map(t: PrefixTrie) -> Map<Seq<u8>, usize>;

/// `k` is a leading substring of `q`.
pub open spec fn is_prefix_of(k: Seq<u8>, q: Seq<u8>) -> bool {
    k.len() <= q.len() && k == q.take(k.len() as int)
}

/// The contents of a trie with no entries.
pub open spec fn empty_trie_map() -> Map<Seq<u8>, usize> {
    Map::empty()
}

/// Relies on `GenericPatriciaMap::new`: the fresh map has no entries.
#[verifier::external_body]
pub(crate) fn trie_new() -> (r: PrefixTrie)
    ensures
        trie_map(r) == empty_trie_map(),
{
    patricia_tree::map::PatriciaMap::new()
}

/// Relies on `GenericPatriciaMap::insert`: the value is bound to the key,
/// and a later binding of the same key replaces an earlier one.
#[verifier::external_body]
pub(crate) fn trie_insert(t: &mut PrefixTrie, key: &Vec<u8>, val: usize)
    ensures
        trie_map(*final(t)) == trie_map(*old(t)).insert(key@, val),
{
    t.insert(key.as_slice(), val);
}

/// Relies on `GenericPatriciaMap::get`: the value bound to exactly this
/// key, or `None` when the key has no binding.
#[verifier::external_body]
pub(crate) fn trie_get(t: &PrefixTrie, key: &Vec<u8>) -> (r: Option<usize>)
    ensures
        r == (if trie_map(*t).dom().contains(key@) {
            Some(trie_map(*t)[key@])
        } else {
            None::<usize>
        }),
{
    t.get(key.as_slice()).copied()
}

/// Relies on `GenericPatriciaMap::get_longest_common_prefix`: among the
/// keys of the map that are leading substrings of the query, the longest,
/// returned as its length together with its value; `None` when no key is a
/// leading substring of the query.
#[verifier::external_body]
pub(crate) fn trie_get_longest_prefix(t: &PrefixTrie, key: &Vec<u8>) -> (r: Option<(usize, usize)>)
    ensures
        (match r {
            Some(pv) => {
                &&& pv.0 <= key@.len()
                &&& trie_map(*t).dom().contains(key@.take(pv.0 as int))
                &&& trie_map(*t)[key@.take(pv.0 as int)] == pv.1
                &&& forall|k: Seq<u8>|
                    trie_map(*t).dom().contains(k) && is_prefix_of(k, key@) ==> k.len() <= pv.0
            },
            None => forall|k: Seq<u8>|
                trie_map(*t).dom().contains(k) ==> !is_prefix_of(k, key@),
        }),
{
    t.get_longest_common_prefix(key.as_slice()).map(|(p, v)| (p.len(), *v))
}

} // verus!
