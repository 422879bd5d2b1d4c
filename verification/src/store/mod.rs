//! The key/value store: its engine interface, the engine, and the parts the
//! engine is built from.
pub mod engine;
pub mod order;
pub mod table;
pub mod text;

use vstd::prelude::*;

use self::order::{key_lt, lemma_key_lt_irreflexive};
use self::table::{entries_map, keys_increasing, lemma_entries_map_at, range_of};

verus! {

/// A key of the store.
pub type Key = String;

/// A value of the store.
pub type Value = String;

/// The operations of a key/value storage engine.
///
/// An engine stands for a map from keys to values; each operation either
/// succeeds as stated or fails with `Err(())`, leaving the map unchanged.
pub trait Engine {
    /// The engine's internal invariant holds.
    spec fn well_formed(&self) -> bool;

    /// The map from keys to values that the engine holds.
    spec fn contents(&self) -> Map<Seq<char>, Seq<char>>;

    /// The value stored under `key`, if any.
    fn get(&self, key: &Key) -> (r: Result<Option<Value>, ()>)
        requires
            self.well_formed(),
        ensures
            match r {
                Ok(Some(v)) => self.contents().contains_key(key@) && v@ == self.contents()[key@],
                Ok(None) => !self.contents().contains_key(key@),
                Err(_) => true,
            },
    ;

    /// Stores `value` under `key`; gives back the value that was stored there before, if any.
    fn put(&mut self, key: &Key, value: &Value) -> (r: Result<Option<Value>, ()>)
        requires
            old(self).well_formed(),
        ensures
            final(self).well_formed(),
            match r {
                Ok(prev) => {
                    &&& final(self).contents() == old(self).contents().insert(key@, value@)
                    &&& match prev {
                        Some(v) => old(self).contents().contains_key(key@) && v@ == old(
                            self,
                        ).contents()[key@],
                        None => !old(self).contents().contains_key(key@),
                    }
                },
                Err(_) => final(self).contents() == old(self).contents(),
            },
    ;

    /// Removes `key`; gives back the value that was stored under it, if any.
    fn delete(&mut self, key: &Key) -> (r: Result<Option<Value>, ()>)
        requires
            old(self).well_formed(),
        ensures
            final(self).well_formed(),
            match r {
                Ok(prev) => {
                    &&& final(self).contents() == old(self).contents().remove(key@)
                    &&& match prev {
                        Some(v) => old(self).contents().contains_key(key@) && v@ == old(
                            self,
                        ).contents()[key@],
                        None => !old(self).contents().contains_key(key@),
                    }
                },
                Err(_) => final(self).contents() == old(self).contents(),
            },
    ;

    /// The pairs whose keys lie in `[key_start, key_end)`, in key order;
    /// `None` when the engine holds no key at all.
    fn scan(&self, key_start: &Key, key_end: &Key) -> (r: Result<Option<Vec<(Key, Value)>>, ()>)
        requires
            self.well_formed(),
            !key_lt(key_end@, key_start@),
        ensures
            match r {
                Ok(None) => self.contents() == Map::<Seq<char>, Seq<char>>::empty(),
                Ok(Some(kvs)) => {
                    &&& self.contents() != Map::<Seq<char>, Seq<char>>::empty()
                    &&& keys_increasing(kvs@)
                    &&& entries_map(kvs@) == range_of(self.contents(), key_start@, key_end@)
                },
                Err(_) => true,
            },
    ;
}

/// A read gives back the last write: after `key` is stored with `value`, the
/// engine holds `value` under `key` and every other key as before.
pub proof fn law_get_after_put(
    before: Map<Seq<char>, Seq<char>>,
    after: Map<Seq<char>, Seq<char>>,
    key: Seq<char>,
    value: Seq<char>,
)
    requires
        after == before.insert(key, value),
    ensures
        after.contains_key(key),
        after[key] == value,
        forall|k: Seq<char>| k != key ==> (#[trigger] after.contains_key(k) <==> before.contains_key(k)),
        forall|k: Seq<char>| k != key && before.contains_key(k) ==> #[trigger] after[k] == before[k],
{
}

/// A deleted key is gone, and every other key is as before.
pub proof fn law_get_after_delete(
    before: Map<Seq<char>, Seq<char>>,
    after: Map<Seq<char>, Seq<char>>,
    key: Seq<char>,
)
    requires
        after == before.remove(key),
    ensures
        !after.contains_key(key),
        forall|k: Seq<char>| k != key ==> (#[trigger] after.contains_key(k) <==> before.contains_key(k)),
        forall|k: Seq<char>| k != key && before.contains_key(k) ==> #[trigger] after[k] == before[k],
{
}

/// A scan lists exactly the stored pairs whose keys lie in its range, each
/// key once, in increasing order; no key outside the range comes out.
pub proof fn law_scan_lists_range(
    m: Map<Seq<char>, Seq<char>>,
    kvs: Seq<(String, String)>,
    start: Seq<char>,
    end: Seq<char>,
)
    requires
        keys_increasing(kvs),
        entries_map(kvs) == range_of(m, start, end),
    ensures
        forall|i: int|
            0 <= i < kvs.len() ==> {
                &&& !key_lt(#[trigger] kvs[i].0@, start)
                &&& key_lt(kvs[i].0@, end)
                &&& m.contains_key(kvs[i].0@)
                &&& m[kvs[i].0@] == kvs[i].1@
            },
        forall|k: Seq<char>|
            m.contains_key(k) && !key_lt(k, start) && key_lt(k, end) ==> #[trigger] entries_map(
                kvs,
            ).contains_key(k),
        forall|i: int, j: int| 0 <= i < j < kvs.len() ==> kvs[i].0@ != kvs[j].0@,
{
    assert forall|i: int| 0 <= i < kvs.len() implies {
        &&& !key_lt(#[trigger] kvs[i].0@, start)
        &&& key_lt(kvs[i].0@, end)
        &&& m.contains_key(kvs[i].0@)
        &&& m[kvs[i].0@] == kvs[i].1@
    } by {
        lemma_entries_map_at(kvs, i);
        assert(range_of(m, start, end).contains_key(kvs[i].0@));
    }
    assert forall|k: Seq<char>| m.contains_key(k) && !key_lt(k, start) && key_lt(k, end) implies
        #[trigger] entries_map(kvs).contains_key(k) by {
        assert(range_of(m, start, end).contains_key(k));
    }
    assert forall|i: int, j: int| 0 <= i < j < kvs.len() implies kvs[i].0@ != kvs[j].0@ by {
        assert(key_lt(kvs[i].0@, kvs[j].0@));
        lemma_key_lt_irreflexive(kvs[i].0@);
    }
}

} // verus!
