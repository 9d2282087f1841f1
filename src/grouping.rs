//! Grouping positions by key in order of first appearance, kept in an
//! insertion-ordered map.

use indexmap::IndexMap;
use vstd::prelude::*;

verus! {

#[verifier::external_type_specification]
#[verifier::external_body]
#[verifier::reject_recursive_types(K)]
#[verifier::reject_recursive_types(V)]
#[verifier::reject_recursive_types(S)]
pub struct ExIndexMap<K, V, S>(IndexMap<K, V, S>);

pub type Key = (Seq<char>, Seq<char>);

pub type Groups = Seq<(Key, Seq<int>)>;

/// The entries of a map from key to positions, in insertion order.
pub uninterp spec fn map_groups(m: IndexMap<(String, String), Vec<usize>>) -> Groups;

pub open spec fn keys_distinct(g: Groups) -> bool {
    forall|i: int, j: int| 0 <= i < g.len() && 0 <= j < g.len() && i != j ==> g[i].0 != g[j].0
}

pub open spec fn has_key(g: Groups, k: Key) -> bool {
    exists|j: int| 0 <= j < g.len() && g[j].0 == k
}

pub open spec fn key_slot(g: Groups, k: Key) -> int {
    choose|j: int| 0 <= j < g.len() && g[j].0 == k
}

/// `g` with position `p` added under key `k`: at the end of that key's
/// positions where the key is there, else as a new last entry.
pub open spec fn add_member(g: Groups, k: Key, p: int) -> Groups {
    if has_key(g, k) {
        let j = key_slot(g, k);
        g.update(j, (k, g[j].1.push(p)))
    } else {
        g.push((k, seq![p]))
    }
}

/// The positions of `keys` grouped by key: groups in order of each key's
/// first appearance, positions ascending within each group.
pub open spec fn grouping(keys: Seq<Key>) -> Groups
    decreases keys.len(),
{
    if keys.len() == 0 {
        Seq::empty()
    } else {
        add_member(grouping(keys.drop_last()), keys.last(), keys.len() - 1)
    }
}

/// Relies on `IndexMap::new`: a map with no entries.
#[verifier::external_body]
pub(crate) fn new_groups() -> (m: IndexMap<(String, String), Vec<usize>>)
    ensures
        map_groups(m) == Seq::<(Key, Seq<int>)>::empty(),
{
    IndexMap::new()
}

/// Relies on `IndexMap::entry` and `Entry::or_default`: an existing key
/// keeps its place and its vector gets `item` at the end; a new key comes
/// last with the vector `[item]`. Keys stay distinct.
#[verifier::external_body]
pub(crate) fn add_to_group(m: &mut IndexMap<(String, String), Vec<usize>>, key: (String, String), item: usize)
    ensures
        map_groups(*final(m)) == add_member(map_groups(*old(m)), (key.0@, key.1@), item as int),
        keys_distinct(map_groups(*final(m))),
{
    m.entry(key).or_default().push(item);
}

/// Relies on `IndexMap`'s `IntoIterator`: the entries in insertion order.
#[verifier::external_body]
pub(crate) fn group_entries(m: IndexMap<(String, String), Vec<usize>>) -> (r: Vec<((String, String), Vec<usize>)>)
    ensures
        r@.len() == map_groups(m).len(),
        forall|i: int|
            0 <= i < r@.len() ==> (#[trigger] r@[i]).0.0@ == map_groups(m)[i].0.0 && r@[i].0.1@
                == map_groups(m)[i].0.1 && r@[i].1@.map_values(|p: usize| p as int)
                == map_groups(m)[i].1,
{
    m.into_iter().collect()
}

/// What holds of `grouping(keys)` at every length.
pub open spec fn grouping_inv(keys: Seq<Key>, g: Groups) -> bool {
    &&& keys_distinct(g)
    &&& forall|j: int, m: int|
        0 <= j < g.len() && 0 <= m < g[j].1.len() ==> 0 <= #[trigger] g[j].1[m] < keys.len()
            && keys[g[j].1[m]] == g[j].0
    &&& forall|j: int, a: int, b: int|
        0 <= j < g.len() && 0 <= a < b < g[j].1.len() ==> #[trigger] g[j].1[a] < #[trigger] g[j].1[b]
    &&& forall|j: int| 0 <= j < g.len() ==> (#[trigger] g[j]).1.len() > 0
    &&& forall|i: int, j: int|
        0 <= i < j < g.len() ==> (#[trigger] g[i]).1[0] < (#[trigger] g[j]).1[0]
    &&& forall|p: int|
        0 <= p < keys.len() ==> has_key(g, #[trigger] keys[p]) && g[key_slot(g, keys[p])].1.contains(p)
}

pub proof fn lemma_grouping_inv(keys: Seq<Key>)
    ensures
        grouping_inv(keys, grouping(keys)),
    decreases keys.len(),
{
    if keys.len() > 0 {
        let prev_keys = keys.drop_last();
        lemma_grouping_inv(prev_keys);
        let g = grouping(prev_keys);
        let k = keys.last();
        let p = keys.len() - 1;
        let h = grouping(keys);
        assert(h == add_member(g, k, p));
        assert forall|q: int| 0 <= q < prev_keys.len() implies #[trigger] keys[q] == prev_keys[q] by {}
        if has_key(g, k) {
            let j = key_slot(g, k);
            assert(h[j].1 == g[j].1.push(p));
            assert forall|q: int| 0 <= q < keys.len() implies has_key(h, #[trigger] keys[q]) && h[key_slot(h, keys[q])].1.contains(q) by {
                if q < p {
                    let s = key_slot(g, keys[q]);
                    assert(h[s].0 == keys[q]);
                    assert(h[s].1.contains(q)) by {
                        let m = choose|m: int| 0 <= m < g[s].1.len() && g[s].1[m] == q;
                        assert(h[s].1[m] == q);
                    }
                    assert(key_slot(h, keys[q]) == s);
                } else {
                    assert(h[j].0 == k);
                    assert(key_slot(h, keys[q]) == j);
                    assert(h[j].1[g[j].1.len() as int] == p);
                }
            }
            assert forall|a: int, b: int| 0 <= a < b < h.len() implies (#[trigger] h[a]).1[0] < (#[trigger] h[b]).1[0] by {
                assert(h[a].1[0] == g[a].1[0]);
                assert(h[b].1[0] == g[b].1[0]);
            }
            assert forall|jj: int, a: int, b: int|
                0 <= jj < h.len() && 0 <= a < b < h[jj].1.len() implies #[trigger] h[jj].1[a] < #[trigger] h[jj].1[b] by {
                if jj == j && b == g[j].1.len() {
                    assert(g[j].1[a] < keys.len() - 1);
                }
            }
        } else {
            assert forall|q: int| 0 <= q < keys.len() implies has_key(h, #[trigger] keys[q]) && h[key_slot(h, keys[q])].1.contains(q) by {
                if q < p {
                    let s = key_slot(g, keys[q]);
                    assert(h[s] == g[s]);
                    assert(key_slot(h, keys[q]) == s);
                } else {
                    let last = g.len() as int;
                    assert(h[last].0 == k);
                    assert(key_slot(h, keys[q]) == last);
                    assert(h[last].1[0] == p);
                }
            }
            assert forall|a: int, b: int| 0 <= a < b < h.len() implies (#[trigger] h[a]).1[0] < (#[trigger] h[b]).1[0] by {
                if b == g.len() {
                    assert(g[a].1[0] < keys.len() - 1);
                }
            }
        }
    }
}

/// Two positions with the same key land in the same group, and groups come
/// in the order in which their keys first appear.
pub proof fn lemma_grouping_by_key(keys: Seq<Key>, p: int, q: int)
    requires
        0 <= p < keys.len(),
        0 <= q < keys.len(),
        keys[p] == keys[q],
    ensures
        exists|j: int|
            0 <= j < grouping(keys).len() && grouping(keys)[j].0 == keys[p] && grouping(
                keys,
            )[j].1.contains(p) && grouping(keys)[j].1.contains(q),
        forall|i: int, j: int|
            0 <= i < j < grouping(keys).len() ==> (#[trigger] grouping(keys)[i]).1[0] < (
            #[trigger] grouping(keys)[j]).1[0],
{
    lemma_grouping_inv(keys);
    let g = grouping(keys);
    let j = key_slot(g, keys[p]);
    assert(g[j].1.contains(q));
}

} // verus!
