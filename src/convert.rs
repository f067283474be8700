//! Building lookup maps and groups from batches of records.

use vstd::prelude::*;
use crate::block::{BlockResult, BlockView};
use crate::keyed::KeyedMap;
use std::collections::HashMap;
use std::hash::Hash;

verus! {

broadcast use vstd::std_specs::hash::group_hash_axioms;

/// The map that inserting `items[i]` under `keys[i]`, for each `i` in order,
/// builds: a later item overwrites an earlier one under the same key.
pub open spec fn map_by_key<T>(items: Seq<T>, keys: Seq<Seq<char>>) -> Map<Seq<char>, T>
    decreases items.len(),
{
    if items.len() == 0 || keys.len() != items.len() {
        Map::empty()
    } else {
        map_by_key(items.drop_last(), keys.drop_last()).insert(keys.last(), items.last())
    }
}

/// The identifiers of a batch of records.
pub open spec fn ids_of(rs: Seq<BlockResult>) -> Seq<Seq<char>> {
    rs.map_values(|r: BlockResult| r.id@)
}

/// The keys of a batch of strings, as plain values.
pub open spec fn key_views(ks: Seq<String>) -> Seq<Seq<char>> {
    ks.map_values(|k: String| k@)
}

/// Keys each record by its identifier; a later record replaces an earlier
/// one with the same identifier.
pub fn convert_results_to_map(results: Vec<BlockResult>) -> (r: KeyedMap<BlockResult>)
    ensures
        r@ == map_by_key(results@, ids_of(results@)),
{
    let mut map: KeyedMap<BlockResult> = KeyedMap::with_capacity(results.len());
    let ghost all = results@;
    for result in it: results
        invariant
            all == it.seq(),
            map@ == map_by_key(all.take(it.index() as int), ids_of(all.take(it.index() as int))),
    {
        proof {
            let t = all.take(it.index() + 1);
            assert(t.drop_last() =~= all.take(it.index() as int));
            assert(ids_of(t).drop_last() =~= ids_of(all.take(it.index() as int)));
        }
        let key = result.id.clone();
        map.insert(key, result);
    }
    assert(all.take(all.len() as int) =~= all);
    map
}


/// Keys each item by what `key_fn` returns for it; a later item replaces an
/// earlier one under the same key.
pub fn convert_to_map<T, F>(items: Vec<T>, key_fn: F) -> (r: KeyedMap<T>) where
    F: Fn(&T) -> String,

    requires
        forall|i: int| 0 <= i < items.len() ==> key_fn.requires((&items@[i],)),
    ensures
        exists|ks: Seq<String>|
            {
                &&& ks.len() == items.len()
                &&& forall|i: int|
                    0 <= i < items.len() ==> key_fn.ensures((&items@[i],), #[trigger] ks[i])
                &&& r@ == map_by_key(items@, key_views(ks))
            },
{
    let mut map: KeyedMap<T> = KeyedMap::with_capacity(items.len());
    let ghost all = items@;
    let ghost mut keys: Seq<String> = Seq::empty();
    for item in it: items
        invariant
            all == it.seq(),
            forall|i: int| 0 <= i < all.len() ==> key_fn.requires((&all[i],)),
            keys.len() == it.index(),
            forall|i: int| 0 <= i < keys.len() ==> key_fn.ensures((&all[i],), #[trigger] keys[i]),
            map@ == map_by_key(all.take(it.index() as int), key_views(keys)),
    {
        let ghost n = it.index();
        let key = key_fn(&item);
        proof {
            let t = all.take(n + 1);
            assert(t.drop_last() =~= all.take(n as int));
            assert(key_views(keys.push(key)).drop_last() =~= key_views(keys));
            keys = keys.push(key);
        }
        map.insert(key, item);
    }
    assert(all.take(all.len() as int) =~= all);
    map
}

/// The records of `outs` whose flag in `keep` is set, in order.
pub open spec fn kept(outs: Seq<BlockResult>, keep: Seq<bool>) -> Seq<BlockResult>
    decreases outs.len(),
{
    if outs.len() == 0 || keep.len() != outs.len() {
        Seq::empty()
    } else if keep.last() {
        kept(outs.drop_last(), keep.drop_last()).push(outs.last())
    } else {
        kept(outs.drop_last(), keep.drop_last())
    }
}

/// `keep[i]` is what the validator (if any) said of `rs[i]`, and for a kept
/// record `outs[i]` is what the transformer (if any) made of it.
pub open spec fn option_outcome<F, T>(
    rs: Seq<BlockResult>,
    validator: Option<F>,
    transformer: Option<T>,
    keep: Seq<bool>,
    outs: Seq<BlockResult>,
) -> bool where F: Fn(&BlockResult) -> bool, T: Fn(BlockResult) -> BlockResult {
    &&& keep.len() == rs.len()
    &&& outs.len() == rs.len()
    &&& forall|i: int|
        0 <= i < rs.len() ==> match validator {
            Some(v) => v.ensures((&rs[i],), #[trigger] keep[i]),
            None => keep[i],
        }
    &&& forall|i: int|
        0 <= i < rs.len() && #[trigger] keep[i] ==> match transformer {
            Some(t) => t.ensures((rs[i],), outs[i]),
            None => outs[i] == rs[i],
        }
}

/// Keys records by identifier, leaving out those the validator rejects and
/// storing what the transformer makes of the others; a later record replaces
/// an earlier one with the same identifier.
pub fn convert_results_to_map_with_options<F, T>(
    results: Vec<BlockResult>,
    validator: Option<F>,
    transformer: Option<T>,
) -> (r: KeyedMap<BlockResult>) where
    F: Fn(&BlockResult) -> bool,
    T: Fn(BlockResult) -> BlockResult,

    requires
        match validator {
            Some(v) => forall|i: int|
                0 <= i < results.len() ==> v.requires((&(#[trigger] results@[i]),)),
            None => true,
        },
        match transformer {
            Some(t) => forall|i: int|
                0 <= i < results.len() ==> t.requires(((#[trigger] results@[i]),)),
            None => true,
        },
    ensures
        exists|keep: Seq<bool>, outs: Seq<BlockResult>|
            {
                &&& option_outcome(results@, validator, transformer, keep, outs)
                &&& r@ == map_by_key(kept(outs, keep), ids_of(kept(outs, keep)))
            },
{
    let mut map: KeyedMap<BlockResult> = KeyedMap::with_capacity(results.len());
    let ghost all = results@;
    let ghost mut keep: Seq<bool> = Seq::empty();
    let ghost mut outs: Seq<BlockResult> = Seq::empty();
    for result in it: results
        invariant
            all == it.seq(),
            match validator {
                Some(v) => forall|i: int|
                    0 <= i < all.len() ==> v.requires((&(#[trigger] all[i]),)),
                None => true,
            },
            match transformer {
                Some(t) => forall|i: int|
                    0 <= i < all.len() ==> t.requires(((#[trigger] all[i]),)),
                None => true,
            },
            option_outcome(all.take(it.index() as int), validator, transformer, keep, outs),
            map@ == map_by_key(kept(outs, keep), ids_of(kept(outs, keep))),
    {
        let ghost n = it.index();
        let ghost orig = result;
        let pass = match &validator {
            Some(validate) => validate(&result),
            None => true,
        };
        proof {
            assert(all.take(n + 1).drop_last() =~= all.take(n as int));
        }
        if pass {
            let result = match &transformer {
                Some(transform) => transform(result),
                None => result,
            };
            proof {
                let k2 = keep.push(true);
                let o2 = outs.push(result);
                assert(k2.drop_last() =~= keep && o2.drop_last() =~= outs);
                assert(ids_of(kept(o2, k2)).drop_last() =~= ids_of(kept(outs, keep)));
                assert(kept(o2, k2).drop_last() =~= kept(outs, keep));
                keep = k2;
                outs = o2;
            }
            let key = result.id.clone();
            map.insert(key, result);
        } else {
            proof {
                let k2 = keep.push(false);
                let o2 = outs.push(orig);
                assert(k2.drop_last() =~= keep && o2.drop_last() =~= outs);
                keep = k2;
                outs = o2;
            }
        }
        proof {
            assert(option_outcome(all.take(n + 1), validator, transformer, keep, outs)) by {
                assert forall|i: int| 0 <= i < n + 1 implies match validator {
                    Some(v) => v.ensures((&all.take(n + 1)[i],), #[trigger] keep[i]),
                    None => keep[i],
                } by {
                    if i < n {
                        assert(all.take(n + 1)[i] == all.take(n as int)[i]);
                    }
                }
                assert forall|i: int| 0 <= i < n + 1 && #[trigger] keep[i] implies match transformer {
                    Some(t) => t.ensures((all.take(n + 1)[i],), outs[i]),
                    None => outs[i] == all.take(n + 1)[i],
                } by {
                    if i < n {
                        assert(all.take(n + 1)[i] == all.take(n as int)[i]);
                    }
                }
            }
        }
    }
    assert(all.take(all.len() as int) =~= all);
    map
}

/// The groups that filing `rs[i]` under `ks[i]`, for each `i` in order,
/// builds: each key's records in batch order.
pub open spec fn grouped<K>(rs: Seq<BlockResult>, ks: Seq<K>) -> Map<K, Seq<BlockView>>
    decreases rs.len(),
{
    if rs.len() == 0 || ks.len() != rs.len() {
        Map::empty()
    } else {
        let g = grouped(rs.drop_last(), ks.drop_last());
        let k = ks.last();
        g.insert(k, (if g.contains_key(k) { g[k] } else { Seq::empty() }).push(rs.last()@))
    }
}

/// What a map of record lists holds, as plain values.
pub open spec fn group_views<K>(m: Map<K, Vec<BlockResult>>) -> Map<K, Seq<BlockView>> {
    Map::new(|k: K| m.contains_key(k), |k: K| m[k]@.map_values(|b: BlockResult| b@))
}

/// Groups copies of the records by what `key_fn` returns for each, keeping
/// batch order within a group.
pub fn group_results_by<F, K>(results: &[BlockResult], key_fn: F) -> (groups: HashMap<
    K,
    Vec<BlockResult>,
>) where F: Fn(&BlockResult) -> K, K: Hash + Eq,

    requires
        forall|i: int| 0 <= i < results@.len() ==> key_fn.requires((&results@[i],)),
    ensures
        exists|ks: Seq<K>|
            {
                &&& ks.len() == results@.len()
                &&& forall|i: int|
                    0 <= i < results@.len() ==> key_fn.ensures((&results@[i],), #[trigger] ks[i])
                &&& vstd::std_specs::hash::obeys_key_model::<K>() ==> group_views(groups@)
                    == grouped(results@, ks)
            },
{
    let mut groups: HashMap<K, Vec<BlockResult>> = HashMap::new();
    let ghost mut keys: Seq<K> = Seq::empty();
    let mut i: usize = 0;
    while i < results.len()
        invariant
            i <= results@.len(),
            forall|j: int| 0 <= j < results@.len() ==> key_fn.requires((&results@[j],)),
            keys.len() == i,
            forall|j: int| 0 <= j < i ==> key_fn.ensures((&results@[j],), #[trigger] keys[j]),
            vstd::std_specs::hash::obeys_key_model::<K>() ==> group_views(groups@) == grouped(
                results@.take(i as int),
                keys,
            ),
        decreases results@.len() - i,
    {
        let key = key_fn(&results[i]);
        let ghost g0 = groups@;
        let mut bucket = match groups.remove(&key) {
            Some(b) => b,
            None => Vec::new(),
        };
        let ghost b0 = bucket@;
        bucket.push(results[i].duplicate());
        proof {
            let t = results@.take(i + 1);
            assert(t.drop_last() =~= results@.take(i as int));
            let k2 = keys.push(key);
            assert(k2.drop_last() =~= keys);
            keys = k2;
        }
        groups.insert(key, bucket);
        proof {
            if vstd::std_specs::hash::obeys_key_model::<K>() {
                let gv = grouped(results@.take(i as int), keys.drop_last());
                assert(bucket@.map_values(|b: BlockResult| b@) =~= b0.map_values(
                    |b: BlockResult| b@,
                ).push(results@[i as int]@));
                if g0.contains_key(key) {
                    assert(b0 == g0[key]@);
                } else {
                    assert(b0.map_values(|b: BlockResult| b@) =~= Seq::empty());
                }
                assert(group_views(groups@) =~= grouped(results@.take(i + 1), keys));
            }
        }
        i += 1;
    }
    assert(results@.take(results@.len() as int) =~= results@);
    groups
}

} // verus!
