//! The double-array trie of `lexime_trie`, as a map from byte keys to their
//! places in the list that it was built from.

use lexime_trie::{DoubleArray, TrieError, TrieSearch};
use vstd::prelude::*;

use crate::bytes;

verus! {

/// A `lexime_trie::DoubleArray` of byte strings, an immutable trie.
#[verifier::external_body]
pub struct ByteTrie {
    inner: DoubleArray<u8>,
}

/// The keys that a trie was built from; the place of a key is its value id.
pub uninterp spec fn trie_keys(t: ByteTrie) -> Seq<Seq<u8>>;

/// Whether a trie is one that `build` makes of its keys. A trie that was read
/// from arbitrary bytes need not be.
pub uninterp spec fn trie_sound(t: ByteTrie) -> bool;

/// The bytes of the trie that `build` makes of `keys`.
pub uninterp spec fn trie_image(keys: Seq<Seq<u8>>) -> Seq<u8>;

/// The places of the keys that start with `prefix`, in the order in which the
/// trie of `keys` walks them.
pub uninterp spec fn trie_walk(keys: Seq<Seq<u8>>, prefix: Seq<u8>) -> Seq<u32>;

/// What stops `bytes` from being read as a trie, if anything does.
pub uninterp spec fn trie_fault(bytes: Seq<u8>) -> Option<TrieFault>;

/// The largest number of keys.
pub const MAX_KEYS: usize = 3_000_000;

/// The largest weight of a list of keys. A node has 31 bits for an index, and
/// a node with several children takes at most one new block of 512 indices: up
/// to this number and weight of keys the indices cannot run out.
pub const MAX_WEIGHT: usize = 0x1000_0000;

/// The bytes of all keys, and one more for each key.
pub open spec fn weight(keys: Seq<Seq<u8>>) -> nat
    decreases keys.len(),
{
    if keys.len() == 0 {
        0
    } else {
        weight(keys.drop_last()) + keys.last().len() + 1
    }
}

/// Why bytes cannot be read as a trie.
#[derive(Debug, PartialEq, Eq, Structural)]
pub enum TrieFault {
    InvalidMagic,
    InvalidVersion(u8),
    Truncated,
    Misaligned,
    InvalidStructure,
}

/// Keys in strictly ascending order, few and short enough for a trie.
pub open spec fn buildable(keys: Seq<Seq<u8>>) -> bool {
    &&& keys.len() <= MAX_KEYS
    &&& weight(keys) <= MAX_WEIGHT
    &&& forall|i: int, j: int|
        0 <= i < j < keys.len() ==> bytes::bytes_less(#[trigger] keys[i], #[trigger] keys[j])
}

pub open spec fn byte_views(s: Seq<Vec<u8>>) -> Seq<Seq<u8>> {
    Seq::new(s.len(), |i: int| s[i]@)
}

/// `DoubleArray::build` makes a trie of keys in strictly ascending order and
/// gives each key its place as value id. It panics on keys that are not in
/// order, and when it runs out of node indices.
#[verifier::external_body]
pub(crate) fn trie_build(keys: &Vec<Vec<u8>>) -> (r: ByteTrie)
    requires
        buildable(byte_views(keys@)),
    ensures
        trie_sound(r),
        trie_keys(r) == byte_views(keys@),
{
    ByteTrie { inner: DoubleArray::<u8>::build(keys) }
}

/// The answer of an exact search among `keys`.
pub open spec fn found_at(keys: Seq<Seq<u8>>, key: Seq<u8>, r: Option<u32>) -> bool {
    match r {
        Some(id) => id < keys.len() && keys[id as int] == key,
        None => !keys.contains(key),
    }
}

/// The keys that are prefixes of `query`, each with its length, shortest first.
pub open spec fn prefixes_found(
    keys: Seq<Seq<u8>>,
    query: Seq<u8>,
    r: Seq<(usize, u32)>,
) -> bool {
    &&& forall|i: int|
        0 <= i < r.len() ==> (#[trigger] r[i]).0 <= query.len() && r[i].1 < keys.len()
            && keys[r[i].1 as int] == query.take(r[i].0 as int)
    &&& forall|i: int, j: int| 0 <= i < j < r.len() ==> (#[trigger] r[i]).0 < (#[trigger] r[j]).0
    &&& forall|n: int|
        0 <= n <= query.len() && keys.contains(#[trigger] query.take(n)) ==> exists|i: int|
            0 <= i < r.len() && (#[trigger] r[i]).0 == n
}

/// A walk visits exactly the keys that start with `prefix`, each once.
pub open spec fn visits_all(keys: Seq<Seq<u8>>, prefix: Seq<u8>, walk: Seq<u32>) -> bool {
    &&& forall|i: int|
        0 <= i < walk.len() ==> (#[trigger] walk[i]) < keys.len() && prefix.is_prefix_of(
            keys[walk[i] as int],
        )
    &&& walk.no_duplicates()
    &&& walk.len() <= keys.len()
    &&& forall|k: int|
        0 <= k < keys.len() && prefix.is_prefix_of(#[trigger] keys[k]) ==> walk.contains(k as u32)
}

/// The first `limit` keys of a walk, each with its place.
pub open spec fn walked(
    keys: Seq<Seq<u8>>,
    prefix: Seq<u8>,
    walk: Seq<u32>,
    limit: nat,
    r: Seq<(Vec<u8>, u32)>,
) -> bool {
    &&& r.len() == if walk.len() <= limit {
        walk.len()
    } else {
        limit
    }
    &&& forall|i: int|
        0 <= i < r.len() ==> (#[trigger] r[i]).1 == walk[i] && r[i].0@ == keys[walk[i] as int]
    &&& visits_all(keys, prefix, walk)
}

/// `TrieSearch::exact_match` finds the place of a key. On a trie that `build`
/// made it answers exactly for the keys; on others it answers something, and
/// does not panic.
#[verifier::external_body]
pub(crate) fn trie_find(t: &ByteTrie, key: &[u8]) -> (r: Option<u32>)
    ensures
        trie_sound(*t) ==> found_at(trie_keys(*t), key@, r),
{
    t.inner.exact_match(key)
}

/// `TrieSearch::common_prefix_search` finds the keys that are prefixes of
/// `query`, with their lengths, shortest first. On a trie that `build` did not
/// make it finds something, and does not panic.
#[verifier::external_body]
pub(crate) fn trie_prefixes(t: &ByteTrie, query: &[u8]) -> (r: Vec<(usize, u32)>)
    ensures
        trie_sound(*t) ==> prefixes_found(trie_keys(*t), query@, r@),
{
    t.inner.common_prefix_search(query).map(|m| (m.len, m.value_id)).collect()
}

/// `TrieSearch::predictive_search` walks the keys that start with `prefix`,
/// each once, in an order that depends on the keys alone; the first `limit` of
/// them are taken. On a trie that `build` did not make it finds something, and
/// neither panics nor runs on for ever.
#[verifier::external_body]
pub(crate) fn trie_complete(
    t: &ByteTrie,
    prefix: &[u8],
    limit: usize,
) -> (r: Vec<(Vec<u8>, u32)>)
    ensures
        trie_sound(*t) ==> walked(
            trie_keys(*t),
            prefix@,
            trie_walk(trie_keys(*t), prefix@),
            limit as nat,
            r@,
        ),
{
    t.inner.predictive_search(prefix).take(limit).map(|m| (m.key, m.value_id)).collect()
}

/// `DoubleArray::as_bytes` writes a trie out whole: a trie with the bytes of one
/// that `build` made is that one.
#[verifier::external_body]
pub(crate) fn trie_to_bytes(t: &ByteTrie) -> (r: Vec<u8>)
    ensures
        trie_sound(*t) ==> r@ == trie_image(trie_keys(*t)),
        forall|keys: Seq<Seq<u8>>|
            buildable(keys) && r@ == #[trigger] trie_image(keys) ==> trie_sound(*t) && trie_keys(*t)
                == keys,
{
    t.inner.as_bytes()
}

/// `DoubleArray::from_bytes` reads a trie back: the bytes of a trie that `build`
/// made give a trie of the same keys. Bytes too short for the header are
/// truncated; a wrong magic number or version is reported as such.
#[verifier::external_body]
pub(crate) fn trie_from_bytes(bytes: &[u8]) -> (r: Result<ByteTrie, TrieFault>)
    ensures
        r is Ok <==> trie_fault(bytes@) is None,
        r is Err ==> trie_fault(bytes@) == Some(r->Err_0),
        forall|keys: Seq<Seq<u8>>|
            buildable(keys) && bytes@ == #[trigger] trie_image(keys) ==> r is Ok && trie_sound(
                r->Ok_0,
            ) && trie_keys(r->Ok_0) == keys,
        bytes@.len() < 24 ==> r is Err && r->Err_0 is Truncated,
{
    match DoubleArray::<u8>::from_bytes(bytes) {
        Ok(inner) => Ok(ByteTrie { inner }),
        Err(TrieError::InvalidMagic) => Err(TrieFault::InvalidMagic),
        Err(TrieError::InvalidVersion(v)) => Err(TrieFault::InvalidVersion(v)),
        Err(TrieError::TruncatedData) => Err(TrieFault::Truncated),
        Err(TrieError::MisalignedData) => Err(TrieFault::Misaligned),
        Err(_) => Err(TrieFault::InvalidStructure),
    }
}

} // verus!
