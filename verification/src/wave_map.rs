//! The ordered map from load-wave number to the modules of that wave, an
//! `indexmap::IndexMap`. Its entries, in order, are named by `wave_entries`; each
//! method used stands behind a trusted wrapper below.

use vstd::prelude::*;
use indexmap::IndexMap;

verus! {

#[verifier::external_type_specification]
#[verifier::external_body]
#[verifier::reject_recursive_types(K)]
#[verifier::reject_recursive_types(V)]
#[verifier::reject_recursive_types(S)]
pub struct ExIndexMap<K, V, S>(IndexMap<K, V, S>);

/// The entries of a wave map, in the map's own (insertion or sorted) order.
pub uninterp spec fn wave_entries(m: IndexMap<usize, Vec<usize>>) -> Seq<(usize, Seq<usize>)>;

/// No key occurs twice among `s`'s entries.
pub open spec fn keys_distinct(s: Seq<(usize, Seq<usize>)>) -> bool {
    forall|i: int, j: int| 0 <= i < j < s.len() ==> s[i].0 != s[j].0
}

/// The position of the entry with key `key` among `s`, or -1.
pub open spec fn key_position(s: Seq<(usize, Seq<usize>)>, key: usize) -> int
    decreases s.len(),
{
    if s.len() == 0 {
        -1
    } else if s.last().0 == key {
        s.len() - 1
    } else {
        key_position(s.drop_last(), key)
    }
}

pub proof fn lemma_key_position(s: Seq<(usize, Seq<usize>)>, key: usize)
    ensures
        -1 <= key_position(s, key) < s.len(),
        key_position(s, key) >= 0 ==> s[key_position(s, key)].0 == key,
        key_position(s, key) < 0 ==> forall|i: int| 0 <= i < s.len() ==> s[i].0 != key,
    decreases s.len(),
{
    if s.len() > 0 {
        lemma_key_position(s.drop_last(), key);
        if key_position(s, key) < 0 {
            assert forall|i: int| 0 <= i < s.len() implies s[i].0 != key by {
                if i < s.len() - 1 {
                    assert(s[i] == s.drop_last()[i]);
                }
            }
        }
    }
}

/// `IndexMap::new`: a map with no entries.
#[verifier::external_body]
pub(crate) fn new_wave_map() -> (m: IndexMap<usize, Vec<usize>>)
    ensures
        wave_entries(m) == Seq::<(usize, Seq<usize>)>::empty(),
{
    IndexMap::new()
}

/// `IndexMap::entry(key).or_insert_with(Vec::new).push(v)`: an existing entry for
/// `key` gets `v` appended to its vector in place; otherwise a new entry `(key, [v])`
/// is appended at the end of the map's order.
#[verifier::external_body]
pub(crate) fn wave_map_push(m: &mut IndexMap<usize, Vec<usize>>, key: usize, v: usize)
    requires
        keys_distinct(wave_entries(*old(m))),
    ensures
        ({
            let s = wave_entries(*old(m));
            let p = key_position(s, key);
            &&& p >= 0 ==> wave_entries(*final(m)) == s.update(p, (key, s[p].1.push(v)))
            &&& p < 0 ==> wave_entries(*final(m)) == s.push((key, seq![v]))
        }),
{
    m.entry(key).or_insert_with(Vec::new).push(v);
}

/// `IndexMap::sort_keys`: the same entries, reordered so that keys ascend.
#[verifier::external_body]
pub(crate) fn wave_map_sort_keys(m: &mut IndexMap<usize, Vec<usize>>)
    ensures
        wave_entries(*final(m)).to_multiset() == wave_entries(*old(m)).to_multiset(),
        forall|i: int, j: int|
            0 <= i < j < wave_entries(*final(m)).len() ==> wave_entries(*final(m))[i].0
                <= wave_entries(*final(m))[j].0,
{
    m.sort_keys();
}

/// `IndexMap::into_iter`, collected: the entries as a vector, in the map's order.
#[verifier::external_body]
pub(crate) fn wave_map_into_entries(m: IndexMap<usize, Vec<usize>>) -> (r: Vec<(usize, Vec<usize>)>)
    ensures
        r@.len() == wave_entries(m).len(),
        forall|i: int|
            0 <= i < r@.len() ==> r@[i].0 == wave_entries(m)[i].0 && r@[i].1@ == wave_entries(
                m,
            )[i].1,
{
    m.into_iter().collect()
}

} // verus!
