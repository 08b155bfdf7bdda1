//! The version store: for every row, its chain of versions.
//!
//! The chains live in a skip list from `crossbeam_skiplist`, keyed by the
//! pair of table ID and row number. The skip list orders the keys, which is
//! what the scans over a table need.
//!
//! The skip list is not verified. What this module takes for granted of it
//! is written down in the contracts of the functions whose names begin with
//! `skip_`, one for each method of the skip list that is called. Each of
//! them does nothing but make that call.

use crate::row::{RowID, RowVersion};
use crossbeam_skiplist::SkipMap;
use vstd::prelude::*;

verus! {

/// `crossbeam_skiplist::SkipMap`, a map that keeps its entries in the order
/// of their keys. Nothing is known of what is inside a value of this type
/// but what [`chains`] names.
#[verifier::external_type_specification]
#[verifier::external_body]
#[verifier::reject_recursive_types(K)]
#[verifier::reject_recursive_types(V)]
pub struct ExSkipMap<K, V>(SkipMap<K, V>);

/// The entries of a skip list: the chain that it holds under each key.
/// What the methods of the skip list do to its entries is said below, in
/// terms of this name.
pub uninterp spec fn chains(map: SkipMap<(u64, u64), Vec<RowVersion>>) -> Map<
    (u64, u64),
    Seq<RowVersion>,
>;

/// The order of the skip list's keys: by the first number, then by the second.
pub open spec fn key_lt(a: (u64, u64), b: (u64, u64)) -> bool {
    a.0 < b.0 || (a.0 == b.0 && a.1 < b.1)
}

/// `SkipMap::new`: the new skip list has no entry.
#[verifier::external_body]
fn skip_new() -> (list: SkipMap<(u64, u64), Vec<RowVersion>>)
    ensures
        forall|key: (u64, u64)| !chains(list).contains_key(key),
{
    SkipMap::new()
}

/// `SkipMap::get`, and a clone of the value of the entry it finds: a copy
/// of the chain stored under `key`, if the skip list has an entry for it.
#[verifier::external_body]
fn skip_get(map: &SkipMap<(u64, u64), Vec<RowVersion>>, key: (u64, u64)) -> (found: Option<
    Vec<RowVersion>,
>)
    ensures
        match found {
            Some(chain) => chains(*map).contains_key(key) && chain@ == chains(*map)[key],
            None => !chains(*map).contains_key(key),
        },
{
    map.get(&key).map(|entry| entry.value().clone())
}

/// `SkipMap::get_or_insert`: stores `chain` under `key` unless the skip
/// list has an entry for the key already, and leaves every other entry as
/// it is. Returns a copy of what is then stored under `key`.
#[verifier::external_body]
fn skip_get_or_insert(
    map: &mut SkipMap<(u64, u64), Vec<RowVersion>>,
    key: (u64, u64),
    chain: Vec<RowVersion>,
) -> (found: Vec<RowVersion>)
    ensures
        chains(*final(map)) == (if chains(*old(map)).contains_key(key) {
            chains(*old(map))
        } else {
            chains(*old(map)).insert(key, chain@)
        }),
        found@ == chains(*final(map))[key],
{
    map.get_or_insert(key, chain).value().clone()
}

/// `SkipMap::insert`: stores `chain` under `key`, in place of what was
/// stored under it before, and leaves every other entry as it is.
#[verifier::external_body]
fn skip_insert(
    map: &mut SkipMap<(u64, u64), Vec<RowVersion>>,
    key: (u64, u64),
    chain: Vec<RowVersion>,
)
    ensures
        chains(*final(map)) == chains(*old(map)).insert(key, chain@),
{
    map.insert(key, chain);
}

/// `SkipMap::remove`: drops the entry of `key`, if there is one, and
/// leaves every other entry as it is.
#[verifier::external_body]
fn skip_remove(map: &mut SkipMap<(u64, u64), Vec<RowVersion>>, key: (u64, u64))
    ensures
        chains(*final(map)) == chains(*old(map)).remove(key),
{
    map.remove(&key);
}

/// `SkipMap::iter`: the key of every entry of the skip list, each once, in
/// ascending order.
#[verifier::external_body]
fn skip_keys(map: &SkipMap<(u64, u64), Vec<RowVersion>>) -> (keys: Vec<(u64, u64)>)
    ensures
        forall|i: int, j: int| 0 <= i < j < keys@.len() ==> key_lt(keys@[i], keys@[j]),
        forall|key: (u64, u64)| keys@.contains(key) <==> chains(*map).contains_key(key),
{
    map.iter().map(|entry| *entry.key()).collect()
}

/// `SkipMap::range`: the keys of the entries from `low` to `high`, both
/// included, each once, in ascending order.
#[verifier::external_body]
fn skip_range(
    map: &SkipMap<(u64, u64), Vec<RowVersion>>,
    low: (u64, u64),
    high: (u64, u64),
) -> (keys: Vec<(u64, u64)>)
    ensures
        forall|i: int, j: int| 0 <= i < j < keys@.len() ==> key_lt(keys@[i], keys@[j]),
        forall|key: (u64, u64)|
            keys@.contains(key) <==> (chains(*map).contains_key(key) && !key_lt(key, low)
                && !key_lt(high, key)),
{
    map.range(low..=high).map(|entry| *entry.key()).collect()
}

/// The version chains of all rows, by row ID.
#[derive(Debug)]
pub struct VersionStore {
    map: SkipMap<(u64, u64), Vec<RowVersion>>,
}

impl View for VersionStore {
    type V = Map<RowID, Seq<RowVersion>>;

    closed spec fn view(&self) -> Map<RowID, Seq<RowVersion>> {
        Map::new(
            |id: RowID| chains(self.map).contains_key((id.table_id, id.row_id)),
            |id: RowID| chains(self.map)[(id.table_id, id.row_id)],
        )
    }
}

/// Whether `ids` holds its row IDs in ascending order, none of them twice.
pub open spec fn ascending(ids: Seq<RowID>) -> bool {
    forall|i: int, j: int| 0 <= i < j < ids.len() ==> ids[i].lt(ids[j])
}

/// A list of row IDs in ascending order holds none of them twice.
pub proof fn lemma_ascending_no_duplicates(ids: Seq<RowID>)
    requires
        ascending(ids),
    ensures
        ids.no_duplicates(),
{
    assert forall|i: int, j: int| 0 <= i < ids.len() && 0 <= j < ids.len() && i != j implies ids[i]
        != ids[j] by {
        if i < j {
            assert(ids[i].lt(ids[j]));
        } else {
            assert(ids[j].lt(ids[i]));
        }
    }
}

impl VersionStore {
    /// A store without rows.
    pub fn new() -> (store: VersionStore)
        ensures
            store@ == Map::<RowID, Seq<RowVersion>>::empty(),
    {
        let store = VersionStore { map: skip_new() };
        assert(store@ =~= Map::<RowID, Seq<RowVersion>>::empty());
        store
    }

    /// A copy of the chain of row `id`, if the row has one.
    pub fn get(&self, id: RowID) -> (found: Option<Vec<RowVersion>>)
        ensures
            match found {
                Some(chain) => self@.contains_key(id) && chain@ == self@[id],
                None => !self@.contains_key(id),
            },
    {
        skip_get(&self.map, (id.table_id, id.row_id))
    }

    /// A copy of the chain of row `id`; a row without a chain gets an empty
    /// one first.
    pub fn get_or_create(&mut self, id: RowID) -> (chain: Vec<RowVersion>)
        ensures
            final(self)@ == (if old(self)@.contains_key(id) {
                old(self)@
            } else {
                old(self)@.insert(id, Seq::<RowVersion>::empty())
            }),
            chain@ == final(self)@[id],
    {
        let chain = skip_get_or_insert(&mut self.map, (id.table_id, id.row_id), Vec::new());
        assert(self@ =~= (if old(self)@.contains_key(id) {
            old(self)@
        } else {
            old(self)@.insert(id, Seq::<RowVersion>::empty())
        }));
        chain
    }

    /// Makes `chain` the chain of row `id`.
    pub fn put(&mut self, id: RowID, chain: Vec<RowVersion>)
        ensures
            final(self)@ == old(self)@.insert(id, chain@),
    {
        skip_insert(&mut self.map, (id.table_id, id.row_id), chain);
        assert(self@ =~= old(self)@.insert(id, chain@));
    }

    /// Drops the chain of row `id`.
    pub fn remove(&mut self, id: RowID)
        ensures
            final(self)@ == old(self)@.remove(id),
    {
        skip_remove(&mut self.map, (id.table_id, id.row_id));
        assert(self@ =~= old(self)@.remove(id));
    }

    /// The IDs of all rows that have a chain, in ascending order.
    pub fn row_ids(&self) -> (ids: Vec<RowID>)
        ensures
            ascending(ids@),
            forall|id: RowID| ids@.contains(id) <==> self@.contains_key(id),
    {
        let keys = skip_keys(&self.map);
        let ids = to_row_ids(&keys);
        assert forall|id: RowID| ids@.contains(id) <==> self@.contains_key(id) by {
            lemma_contains_key(keys@, ids@, id);
        }
        ids
    }

    /// The IDs of the rows of table `table_id` that have a chain, in
    /// ascending order.
    pub fn row_ids_for_table(&self, table_id: u64) -> (ids: Vec<RowID>)
        ensures
            ascending(ids@),
            forall|id: RowID|
                ids@.contains(id) <==> self@.contains_key(id) && id.table_id == table_id,
    {
        let keys = skip_range(&self.map, (table_id, 0), (table_id, u64::MAX));
        let ids = to_row_ids(&keys);
        assert forall|id: RowID|
            ids@.contains(id) <==> self@.contains_key(id) && id.table_id == table_id by {
            lemma_contains_key(keys@, ids@, id);
            let key = (id.table_id, id.row_id);
            assert(id.table_id == table_id <==> !key_lt(key, (table_id, 0)) && !key_lt(
                (table_id, u64::MAX),
                key,
            ));
        }
        ids
    }
}

/// Whether `ids` holds the row IDs that the pairs of `keys` stand for, in
/// the same order.
pub open spec fn same_ids(keys: Seq<(u64, u64)>, ids: Seq<RowID>) -> bool {
    &&& ids.len() == keys.len()
    &&& forall|i: int|
        0 <= i < keys.len() ==> #[trigger] ids[i] == (RowID {
            table_id: keys[i].0,
            row_id: keys[i].1,
        })
}

proof fn lemma_contains_key(keys: Seq<(u64, u64)>, ids: Seq<RowID>, id: RowID)
    requires
        same_ids(keys, ids),
    ensures
        ids.contains(id) <==> keys.contains((id.table_id, id.row_id)),
{
    if ids.contains(id) {
        let i = choose|i: int| 0 <= i < ids.len() && ids[i] == id;
        assert(keys[i] == (id.table_id, id.row_id));
    }
    if keys.contains((id.table_id, id.row_id)) {
        let i = choose|i: int| 0 <= i < keys.len() && keys[i] == (id.table_id, id.row_id);
        assert(ids[i] == id);
    }
}

/// Turns the keys of the skip list into row IDs, keeping their order.
fn to_row_ids(keys: &Vec<(u64, u64)>) -> (ids: Vec<RowID>)
    ensures
        same_ids(keys@, ids@),
        (forall|i: int, j: int| 0 <= i < j < keys@.len() ==> key_lt(keys@[i], keys@[j]))
            ==> ascending(ids@),
{
    let mut ids: Vec<RowID> = Vec::new();
    let mut i: usize = 0;
    while i < keys.len()
        invariant
            i <= keys.len(),
            same_ids(keys@.take(i as int), ids@),
        decreases keys.len() - i,
    {
        let key = keys[i];
        ids.push(RowID { table_id: key.0, row_id: key.1 });
        i += 1;
    }
    assert(keys@.take(i as int) =~= keys@);
    proof {
        if forall|i: int, j: int| 0 <= i < j < keys@.len() ==> key_lt(keys@[i], keys@[j]) {
            assert forall|i: int, j: int| 0 <= i < j < ids@.len() implies ids@[i].lt(ids@[j]) by {
                assert(key_lt(keys@[i], keys@[j]));
            }
        }
    }
    ids
}

} // verus!
