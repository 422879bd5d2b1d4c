//! An ordered table of key/value pairs: the in-memory index of the store.
//!
//! The entries are kept in a vector sorted strictly by key, so that no key
//! occurs twice and a range of keys is a contiguous run of entries.
use vstd::prelude::*;

use super::order::{
    compare_keys, key_lt, lemma_key_lt_asymmetric, lemma_key_lt_irreflexive, lemma_key_lt_total,
    lemma_key_lt_transitive, KeyOrder,
};

verus! {

/// The entries are strictly increasing in key order.
pub open spec fn keys_increasing(s: Seq<(String, String)>) -> bool {
    forall|i: int, j: int| 0 <= i < j < s.len() ==> key_lt(#[trigger] s[i].0@, #[trigger] s[j].0@)
}

/// Some entry of `s` has key `k`.
pub open spec fn has_key(s: Seq<(String, String)>, k: Seq<char>) -> bool {
    exists|i: int| 0 <= i < s.len() && #[trigger] s[i].0@ == k
}

/// The map from keys to values that a sequence of entries stands for.
pub open spec fn entries_map(s: Seq<(String, String)>) -> Map<Seq<char>, Seq<char>> {
    Map::new(
        |k: Seq<char>| has_key(s, k),
        |k: Seq<char>| s[key_index(s, k)].1@,
    )
}

/// The position of an entry of `s` with key `k`, where there is one.
pub open spec fn key_index(s: Seq<(String, String)>, k: Seq<char>) -> int {
    choose|i: int| 0 <= i < s.len() && #[trigger] s[i].0@ == k
}

/// Key `k` lies in the half-open range `[start, end)`.
pub open spec fn in_range(k: Seq<char>, start: Seq<char>, end: Seq<char>) -> bool {
    !key_lt(k, start) && key_lt(k, end)
}

/// The part of map `m` whose keys lie in `[start, end)`.
pub open spec fn range_of(
    m: Map<Seq<char>, Seq<char>>,
    start: Seq<char>,
    end: Seq<char>,
) -> Map<Seq<char>, Seq<char>> {
    m.restrict(Set::new(|k: Seq<char>| in_range(k, start, end)))
}

/// In increasing entries, the map gives each entry's key its entry's value.
pub proof fn lemma_entries_map_at(s: Seq<(String, String)>, i: int)
    requires
        keys_increasing(s),
        0 <= i < s.len(),
    ensures
        entries_map(s).contains_key(s[i].0@),
        entries_map(s)[s[i].0@] == s[i].1@,
{
    let k = s[i].0@;
    assert(has_key(s, k));
    let j = key_index(s, k);
    if j < i {
        assert(key_lt(s[j].0@, s[i].0@));
        lemma_key_lt_irreflexive(k);
    } else if i < j {
        assert(key_lt(s[i].0@, s[j].0@));
        lemma_key_lt_irreflexive(k);
    }
    assert(j == i);
}

/// The ordered table behind a store.
pub struct SortedTable {
    entries: Vec<(String, String)>,
}

impl View for SortedTable {
    type V = Map<Seq<char>, Seq<char>>;

    closed spec fn view(&self) -> Map<Seq<char>, Seq<char>> {
        entries_map(self.entries@)
    }
}

impl SortedTable {
    /// The table keeps its entries strictly increasing by key.
    pub closed spec fn wf(&self) -> bool {
        keys_increasing(self.entries@)
    }

    /// The table holds finitely many keys.
    pub proof fn lemma_finite(&self)
        requires
            self.wf(),
        ensures
            self@.dom().finite(),
    {
        lemma_increasing_len(self.entries@);
    }

    pub fn new() -> (t: SortedTable)
        ensures
            t.wf(),
            t@ == Map::<Seq<char>, Seq<char>>::empty(),
    {
        let t = SortedTable { entries: Vec::new() };
        assert(t@ =~= Map::<Seq<char>, Seq<char>>::empty());
        t
    }

    /// The number of keys in the table.
    pub fn len(&self) -> (n: usize)
        requires
            self.wf(),
        ensures
            n == self@.len(),
            self@.dom().finite(),
            n == 0 <==> self@ == Map::<Seq<char>, Seq<char>>::empty(),
    {
        proof {
            lemma_increasing_len(self.entries@);
            if self.entries@.len() == 0 {
                assert(self@ =~= Map::<Seq<char>, Seq<char>>::empty());
            } else {
                lemma_entries_map_at(self.entries@, 0);
            }
        }
        self.entries.len()
    }

    /// The position of the first entry whose key is not before `key`.
    fn lower_bound(&self, key: &str) -> (pos: usize)
        requires
            self.wf(),
        ensures
            pos <= self.entries@.len(),
            forall|j: int| 0 <= j < pos ==> key_lt(#[trigger] self.entries@[j].0@, key@),
            forall|j: int|
                pos <= j < self.entries@.len() ==> !key_lt(#[trigger] self.entries@[j].0@, key@),
    {
        let mut lo: usize = 0;
        let mut hi: usize = self.entries.len();
        while lo < hi
            invariant
                self.wf(),
                lo <= hi <= self.entries@.len(),
                forall|j: int| 0 <= j < lo ==> key_lt(#[trigger] self.entries@[j].0@, key@),
                forall|j: int|
                    hi <= j < self.entries@.len() ==> !key_lt(#[trigger] self.entries@[j].0@, key@),
            decreases hi - lo,
        {
            let mid = lo + (hi - lo) / 2;
            let c = compare_keys(self.entries[mid].0.as_str(), key);
            if c == KeyOrder::Less {
                assert forall|j: int| 0 <= j < mid + 1 implies key_lt(
                    #[trigger] self.entries@[j].0@,
                    key@,
                ) by {
                    if j < mid {
                        lemma_key_lt_transitive(
                            self.entries@[j].0@,
                            self.entries@[mid as int].0@,
                            key@,
                        );
                    }
                }
                lo = mid + 1;
            } else {
                assert forall|j: int| mid <= j < self.entries@.len() implies !key_lt(
                    #[trigger] self.entries@[j].0@,
                    key@,
                ) by {
                    if mid < j && key_lt(self.entries@[j].0@, key@) {
                        lemma_key_lt_transitive(
                            self.entries@[mid as int].0@,
                            self.entries@[j].0@,
                            key@,
                        );
                    }
                }
                hi = mid;
            }
        }
        lo
    }

    /// The position of the entry with key `key`, if there is one.
    fn find(&self, key: &str) -> (r: Option<usize>)
        requires
            self.wf(),
        ensures
            match r {
                Some(i) => i < self.entries@.len() && self.entries@[i as int].0@ == key@,
                None => !has_key(self.entries@, key@),
            },
    {
        let pos = self.lower_bound(key);
        if pos < self.entries.len() {
            let c = compare_keys(self.entries[pos].0.as_str(), key);
            if c == KeyOrder::Equal {
                return Some(pos);
            }
            proof {
                lemma_key_lt_total(self.entries@[pos as int].0@, key@);
            }
        }
        proof {
            if has_key(self.entries@, key@) {
                let j = choose|j: int|
                    0 <= j < self.entries@.len() && #[trigger] self.entries@[j].0@ == key@;
                lemma_key_lt_irreflexive(key@);
                if pos < j {
                    assert(key_lt(self.entries@[pos as int].0@, self.entries@[j].0@));
                }
            }
        }
        None
    }

    /// The value stored under `key`.
    pub fn get(&self, key: &str) -> (r: Option<String>)
        requires
            self.wf(),
        ensures
            match r {
                Some(v) => self@.contains_key(key@) && v@ == self@[key@],
                None => !self@.contains_key(key@),
            },
    {
        match self.find(key) {
            Some(i) => {
                proof {
                    lemma_entries_map_at(self.entries@, i as int);
                }
                Some(self.entries[i].1.clone())
            },
            None => None,
        }
    }

    /// Stores `value` under `key`, and gives back the value that was stored there before.
    pub fn insert(&mut self, key: String, value: String) -> (r: Option<String>)
        requires
            old(self).wf(),
        ensures
            final(self).wf(),
            final(self)@ == old(self)@.insert(key@, value@),
            match r {
                Some(v) => old(self)@.contains_key(key@) && v@ == old(self)@[key@],
                None => !old(self)@.contains_key(key@),
            },
    {
        let ghost s = self.entries@;
        let pos = self.lower_bound(key.as_str());
        if pos < self.entries.len() {
            let c = compare_keys(self.entries[pos].0.as_str(), key.as_str());
            if c == KeyOrder::Equal {
                proof {
                    lemma_entries_map_at(s, pos as int);
                }
                let old_value = self.entries[pos].1.clone();
                self.entries.set(pos, (key, value));
                proof {
                    let t = self.entries@;
                    assert forall|i: int, j: int| 0 <= i < j < t.len() implies key_lt(
                        #[trigger] t[i].0@,
                        #[trigger] t[j].0@,
                    ) by {
                        assert(key_lt(s[i].0@, s[j].0@));
                    }
                    lemma_update_map(s, t, pos as int);
                }
                return Some(old_value);
            }
            proof {
                lemma_key_lt_total(s[pos as int].0@, key@);
            }
        }
        let ghost k = key@;
        let ghost v = value@;
        self.entries.insert(pos, (key, value));
        proof {
            lemma_insert_map(s, pos as int, self.entries@, k, v);
        }
        None
    }

    /// Removes `key`, and gives back the value that was stored under it.
    pub fn remove(&mut self, key: &str) -> (r: Option<String>)
        requires
            old(self).wf(),
        ensures
            final(self).wf(),
            final(self)@ == old(self)@.remove(key@),
            match r {
                Some(v) => old(self)@.contains_key(key@) && v@ == old(self)@[key@],
                None => !old(self)@.contains_key(key@),
            },
    {
        let ghost s = self.entries@;
        match self.find(key) {
            Some(i) => {
                proof {
                    lemma_entries_map_at(s, i as int);
                }
                let (_, v) = self.entries.remove(i);
                proof {
                    lemma_remove_map(s, i as int, self.entries@);
                }
                Some(v)
            },
            None => {
                assert(self@ =~= old(self)@.remove(key@));
                None
            },
        }
    }

    /// The entries whose keys lie in `[start, end)`, in key order.
    pub fn range(&self, start: &str, end: &str) -> (r: Vec<(String, String)>)
        requires
            self.wf(),
        ensures
            keys_increasing(r@),
            entries_map(r@) == range_of(self@, start@, end@),
    {
        let ghost s = self.entries@;
        let lo = self.lower_bound(start);
        let mut out: Vec<(String, String)> = Vec::new();
        let mut i = lo;
        while i < self.entries.len() && compare_keys(self.entries[i].0.as_str(), end)
            == KeyOrder::Less
            invariant
                self.wf(),
                s == self.entries@,
                lo <= i <= s.len(),
                forall|j: int| 0 <= j < lo ==> key_lt(#[trigger] s[j].0@, start@),
                forall|j: int| lo <= j < s.len() ==> !key_lt(#[trigger] s[j].0@, start@),
                forall|j: int| lo <= j < i ==> key_lt(#[trigger] s[j].0@, end@),
                out@ =~= s.subrange(lo as int, i as int),
            decreases s.len() - i,
        {
            let k = self.entries[i].0.clone();
            let v = self.entries[i].1.clone();
            out.push((k, v));
            i = i + 1;
        }
        proof {
            if i < s.len() {
                assert forall|j: int| i <= j < s.len() implies !key_lt(#[trigger] s[j].0@, end@) by {
                    lemma_key_lt_total(s[i as int].0@, end@);
                    if i < j && key_lt(s[j].0@, end@) {
                        lemma_key_lt_transitive(s[i as int].0@, s[j].0@, end@);
                    }
                    if s[i as int].0@ == end@ {
                        lemma_key_lt_irreflexive(end@);
                    }
                }
            }
            lemma_subrange_map(s, lo as int, i as int, start@, end@);
        }
        out
    }
}

proof fn lemma_increasing_len(s: Seq<(String, String)>)
    requires
        keys_increasing(s),
    ensures
        entries_map(s).dom().finite(),
        entries_map(s).len() == s.len(),
    decreases s.len(),
{
    if s.len() == 0 {
        assert(entries_map(s).dom() =~= Set::<Seq<char>>::empty());
    } else {
        let t = s.drop_last();
        lemma_increasing_len(t);
        let last = s[s.len() - 1].0@;
        assert(!has_key(t, last)) by {
            if has_key(t, last) {
                let j = choose|j: int| 0 <= j < t.len() && #[trigger] t[j].0@ == last;
                assert(key_lt(s[j].0@, s[s.len() - 1].0@));
                lemma_key_lt_irreflexive(last);
            }
        }
        assert(entries_map(s).dom() =~= entries_map(t).dom().insert(last)) by {
            assert forall|k: Seq<char>| has_key(s, k) implies has_key(t, k) || k == last by {
                let j = choose|j: int| 0 <= j < s.len() && #[trigger] s[j].0@ == k;
                if j < s.len() - 1 {
                    assert(t[j].0@ == k);
                }
            }
            assert forall|k: Seq<char>| has_key(t, k) implies has_key(s, k) by {
                let j = choose|j: int| 0 <= j < t.len() && #[trigger] t[j].0@ == k;
                assert(s[j].0@ == k);
            }
            assert(s[s.len() - 1].0@ == last);
        }
    }
}

/// Replacing the value of an entry, keeping its key, updates the map at that key.
proof fn lemma_update_map(s: Seq<(String, String)>, t: Seq<(String, String)>, p: int)
    requires
        keys_increasing(s),
        keys_increasing(t),
        0 <= p < s.len(),
        t.len() == s.len(),
        t[p].0@ == s[p].0@,
        forall|i: int| 0 <= i < s.len() && i != p ==> t[i] == s[i],
    ensures
        entries_map(t) == entries_map(s).insert(t[p].0@, t[p].1@),
{
    let k = t[p].0@;
    assert forall|x: Seq<char>| has_key(t, x) <==> has_key(s, x) by {
        if has_key(t, x) {
            let j = choose|j: int| 0 <= j < t.len() && #[trigger] t[j].0@ == x;
            assert(s[j].0@ == x);
        }
        if has_key(s, x) {
            let j = choose|j: int| 0 <= j < s.len() && #[trigger] s[j].0@ == x;
            assert(t[j].0@ == x);
        }
    }
    assert forall|x: Seq<char>| #[trigger] entries_map(t).contains_key(x) implies entries_map(t)[x]
        == entries_map(s).insert(k, t[p].1@)[x] by {
        let j = choose|j: int| 0 <= j < t.len() && #[trigger] t[j].0@ == x;
        lemma_entries_map_at(t, j);
        lemma_entries_map_at(s, j);
        if j == p {
            assert(x == k);
        } else {
            if x == k {
                lemma_entries_map_at(t, p);
            }
        }
    }
    assert(entries_map(t) =~= entries_map(s).insert(k, t[p].1@));
}

/// Inserting an entry at its place in key order adds its key to the map.
proof fn lemma_insert_map(
    s: Seq<(String, String)>,
    p: int,
    t: Seq<(String, String)>,
    k: Seq<char>,
    v: Seq<char>,
)
    requires
        keys_increasing(s),
        0 <= p <= s.len(),
        t.len() == s.len() + 1,
        forall|i: int| 0 <= i < p ==> t[i] == s[i],
        forall|i: int| p < i < t.len() ==> t[i] == s[i - 1],
        t[p].0@ == k,
        t[p].1@ == v,
        forall|j: int| 0 <= j < p ==> key_lt(#[trigger] s[j].0@, k),
        p < s.len() ==> key_lt(k, s[p].0@),
    ensures
        keys_increasing(t),
        entries_map(t) == entries_map(s).insert(k, v),
        !entries_map(s).contains_key(k),
{
    assert forall|i: int, j: int| 0 <= i < j < t.len() implies key_lt(
        #[trigger] t[i].0@,
        #[trigger] t[j].0@,
    ) by {
        if j < p {
            assert(key_lt(s[i].0@, s[j].0@));
        } else if j == p {
        } else if i < p {
            // t[i] = s[i] < k < s[p] <= s[j - 1] = t[j]
            lemma_key_lt_transitive(s[i].0@, k, s[p].0@);
            if p < j - 1 {
                lemma_key_lt_transitive(s[i].0@, s[p].0@, s[j - 1].0@);
            }
        } else if i == p {
            if p < j - 1 {
                lemma_key_lt_transitive(k, s[p].0@, s[j - 1].0@);
            }
        } else {
            assert(key_lt(s[i - 1].0@, s[j - 1].0@));
        }
    }
    assert(!has_key(s, k)) by {
        if has_key(s, k) {
            let j = choose|j: int| 0 <= j < s.len() && #[trigger] s[j].0@ == k;
            lemma_key_lt_irreflexive(k);
            if p < j {
                assert(key_lt(s[p].0@, s[j].0@));
                lemma_key_lt_asymmetric(k, s[p].0@);
            }
        }
    }
    assert forall|x: Seq<char>| has_key(t, x) <==> (has_key(s, x) || x == k) by {
        if has_key(t, x) {
            let j = choose|j: int| 0 <= j < t.len() && #[trigger] t[j].0@ == x;
            if j < p {
                assert(s[j].0@ == x);
            } else if j > p {
                assert(s[j - 1].0@ == x);
            }
        }
        if has_key(s, x) {
            let j = choose|j: int| 0 <= j < s.len() && #[trigger] s[j].0@ == x;
            if j < p {
                assert(t[j].0@ == x);
            } else {
                assert(t[j + 1].0@ == x);
            }
        }
        if x == k {
            assert(t[p].0@ == x);
        }
    }
    assert forall|x: Seq<char>| #[trigger] entries_map(t).contains_key(x) implies entries_map(t)[x]
        == entries_map(s).insert(k, v)[x] by {
        let j = choose|j: int| 0 <= j < t.len() && #[trigger] t[j].0@ == x;
        lemma_entries_map_at(t, j);
        if j < p {
            lemma_entries_map_at(s, j);
        } else if j > p {
            lemma_entries_map_at(s, j - 1);
        }
    }
    assert(entries_map(t) =~= entries_map(s).insert(k, v));
}

/// Removing an entry drops its key from the map.
proof fn lemma_remove_map(s: Seq<(String, String)>, p: int, t: Seq<(String, String)>)
    requires
        keys_increasing(s),
        0 <= p < s.len(),
        t == s.remove(p),
    ensures
        keys_increasing(t),
        entries_map(t) == entries_map(s).remove(s[p].0@),
{
    let k = s[p].0@;
    s.remove_ensures(p);
    assert forall|i: int, j: int| 0 <= i < j < t.len() implies key_lt(
        #[trigger] t[i].0@,
        #[trigger] t[j].0@,
    ) by {
        let i2 = if i < p { i } else { i + 1 };
        let j2 = if j < p { j } else { j + 1 };
        assert(key_lt(s[i2].0@, s[j2].0@));
    }
    assert forall|x: Seq<char>| has_key(t, x) <==> (has_key(s, x) && x != k) by {
        if has_key(t, x) {
            let j = choose|j: int| 0 <= j < t.len() && #[trigger] t[j].0@ == x;
            let j2 = if j < p { j } else { j + 1 };
            assert(s[j2].0@ == x);
            lemma_key_lt_irreflexive(x);
            if j2 < p {
                assert(key_lt(s[j2].0@, s[p].0@));
            } else {
                assert(key_lt(s[p].0@, s[j2].0@));
            }
        }
        if has_key(s, x) && x != k {
            let j = choose|j: int| 0 <= j < s.len() && #[trigger] s[j].0@ == x;
            if j < p {
                assert(t[j].0@ == x);
            } else {
                assert(t[j - 1].0@ == x);
            }
        }
    }
    assert forall|x: Seq<char>| #[trigger] entries_map(t).contains_key(x) implies entries_map(t)[x]
        == entries_map(s)[x] by {
        let j = choose|j: int| 0 <= j < t.len() && #[trigger] t[j].0@ == x;
        lemma_entries_map_at(t, j);
        let j2 = if j < p { j } else { j + 1 };
        lemma_entries_map_at(s, j2);
    }
    assert(entries_map(t) =~= entries_map(s).remove(k));
}

/// A contiguous run of increasing entries covering exactly the keys of a range
/// stands for that range of the whole map.
proof fn lemma_subrange_map(
    s: Seq<(String, String)>,
    lo: int,
    hi: int,
    start: Seq<char>,
    end: Seq<char>,
)
    requires
        keys_increasing(s),
        0 <= lo <= hi <= s.len(),
        forall|j: int| 0 <= j < lo ==> key_lt(#[trigger] s[j].0@, start),
        forall|j: int| lo <= j < s.len() ==> !key_lt(#[trigger] s[j].0@, start),
        forall|j: int| lo <= j < hi ==> key_lt(#[trigger] s[j].0@, end),
        forall|j: int| hi <= j < s.len() ==> !key_lt(#[trigger] s[j].0@, end),
    ensures
        keys_increasing(s.subrange(lo, hi)),
        entries_map(s.subrange(lo, hi)) == range_of(entries_map(s), start, end),
{
    let r = s.subrange(lo, hi);
    assert forall|i: int, j: int| 0 <= i < j < r.len() implies key_lt(
        #[trigger] r[i].0@,
        #[trigger] r[j].0@,
    ) by {
        assert(key_lt(s[lo + i].0@, s[lo + j].0@));
    }
    let m = range_of(entries_map(s), start, end);
    assert forall|x: Seq<char>| has_key(r, x) <==> m.contains_key(x) by {
        if has_key(r, x) {
            let j = choose|j: int| 0 <= j < r.len() && #[trigger] r[j].0@ == x;
            assert(s[lo + j].0@ == x);
            lemma_entries_map_at(s, lo + j);
        }
        if m.contains_key(x) {
            let j = choose|j: int| 0 <= j < s.len() && #[trigger] s[j].0@ == x;
            assert(in_range(x, start, end));
            if j < lo {
                lemma_key_lt_asymmetric(x, start);
            }
            assert(r[j - lo].0@ == x);
        }
    }
    assert forall|x: Seq<char>| #[trigger] entries_map(r).contains_key(x) implies entries_map(r)[x]
        == m[x] by {
        let j = choose|j: int| 0 <= j < r.len() && #[trigger] r[j].0@ == x;
        lemma_entries_map_at(r, j);
        lemma_entries_map_at(s, lo + j);
    }
    assert(entries_map(r) =~= m);
}

} // verus!
