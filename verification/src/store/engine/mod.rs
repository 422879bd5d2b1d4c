//! The storage engine: an ordered in-memory table, with every change
//! recorded in a log from which the table is rebuilt on start.
pub mod log;

use vstd::prelude::*;

use self::log::{
    apply_entry, ends_a_line, entry_text, law_record_replays, law_replay_concat, log_well_formed,
    replay, replay_line, replay_lines, Log, LogType,
};
use super::order::{compare_keys, key_lt, KeyOrder};
use super::table::{entries_map, keys_increasing, range_of, SortedTable};
use super::text::{is_word, lines, split_lines, split_words, words};
use super::{Engine, Key, Value};

verus! {

/// The file the log is written to.
pub const LOG_PATH: &'static str = "kv.log";

/// The store: the table of keys and values, and the log of its changes.
pub struct Kvdb {
    db: SortedTable,
    log: Log,
    origin: Ghost<Map<Seq<char>, Seq<char>>>,
}

impl View for Kvdb {
    type V = Map<Seq<char>, Seq<char>>;

    closed spec fn view(&self) -> Map<Seq<char>, Seq<char>> {
        self.db@
    }
}

impl Kvdb {
    pub closed spec fn wf(&self) -> bool {
        &&& self.db.wf()
        &&& self.log.wf()
    }

    /// All the text of the store's log so far.
    pub closed spec fn log_text(&self) -> Seq<char> {
        self.log.log_text()
    }

    /// The log text flushed and not yet handed over.
    pub closed spec fn log_output(&self) -> Seq<char> {
        self.log.output()
    }

    /// The path of the log file.
    pub closed spec fn log_path(&self) -> Seq<char> {
        self.log.log_path()
    }

    /// The contents the store had when its log text began.
    pub closed spec fn origin(&self) -> Map<Seq<char>, Seq<char>> {
        self.origin@
    }

    /// The store holds finitely many keys.
    pub proof fn lemma_finite(&self)
        requires
            self.wf(),
        ensures
            self@.dom().finite(),
    {
        self.db.lemma_finite();
    }

    /// The log text is well formed, ends at a line end, and replayed onto the
    /// store's origin gives what the store holds.
    pub open spec fn journal_consistent(&self) -> bool {
        &&& log_well_formed(self.log_text())
        &&& ends_a_line(self.log_text())
        &&& replay(self.origin(), self.log_text()) == self@
    }

    /// An empty store whose log goes to `kv.log`.
    pub fn new() -> (kvdb: Kvdb)
        ensures
            kvdb.wf(),
            kvdb@ == Map::<Seq<char>, Seq<char>>::empty(),
            kvdb.log_text().len() == 0,
            kvdb.log_output().len() == 0,
            kvdb.log_path() == LOG_PATH@,
            kvdb.origin() == Map::<Seq<char>, Seq<char>>::empty(),
            kvdb.journal_consistent(),
    {
        let kvdb = Kvdb { db: SortedTable::new(), log: Log::new(LOG_PATH), origin: Ghost(Map::empty()) };
        proof {
            assert(lines(Seq::<char>::empty()) =~= Seq::<Seq<char>>::empty());
            assert(kvdb.log_text() =~= Seq::<char>::empty());
        }
        kvdb
    }

    /// Replays the text of a log file onto the store: each line `0 K V` stores
    /// `V` under `K`, each line `1 K V` removes `K`, other lines are skipped.
    pub fn recover(&mut self, log_text: &str)
        requires
            old(self).wf(),
            log_well_formed(log_text@),
        ensures
            final(self).wf(),
            final(self)@ == replay(old(self)@, log_text@),
            final(self).log_text() == old(self).log_text(),
            final(self).log_output() == old(self).log_output(),
            final(self).log_path() == old(self).log_path(),
            final(self).origin() == final(self)@,
            old(self).log_text().len() == 0 ==> final(self).journal_consistent(),
    {
        let ghost m0 = self.db@;
        let ls = split_lines(log_text);
        let ghost ls_view = lines(log_text@);
        let mut i: usize = 0;
        while i < ls.len()
            invariant
                self.wf(),
                self.log == old(self).log,
                i <= ls@.len(),
                ls@.len() == ls_view.len(),
                forall|j: int| 0 <= j < ls@.len() ==> #[trigger] ls@[j]@ == ls_view[j],
                forall|j: int| 0 <= j < ls_view.len() ==> #[trigger] words(ls_view[j]).len() >= 3,
                self.db@ == replay_lines(m0, ls_view.take(i as int)),
            decreases ls@.len() - i,
        {
            proof {
                reveal_strlit("0");
                reveal_strlit("1");
                assert("0"@ =~= seq!['0']);
                assert("1"@ =~= seq!['1']);
            }
            let line: &str = ls[i];
            let w = split_words(line);
            assert(words(ls_view[i as int]).len() >= 3);
            let ghost prev = self.db@;
            let ghost wl = words(ls_view[i as int]);
            let log_type: &str = w[0];
            let key: &str = w[1];
            assert(log_type@ == wl[0]);
            assert(key@ == wl[1]);
            if compare_keys(log_type, "0") == KeyOrder::Equal {
                let value: &str = w[2];
                assert(value@ == wl[2]);
                self.db.insert(key.to_owned(), value.to_owned());
            } else if compare_keys(log_type, "1") == KeyOrder::Equal {
                self.db.remove(key);
            }
            assert(self.db@ == replay_line(prev, ls_view[i as int]));
            proof {
                assert(ls_view.take(i + 1 as int).drop_last() =~= ls_view.take(i as int));
                assert(ls_view.take(i + 1 as int).last() == ls_view[i as int]);
            }
            i = i + 1;
        }
        proof {
            assert(ls_view.take(i as int) =~= ls_view);
            self.origin = Ghost(self.db@);
            if old(self).log_text().len() == 0 {
                assert(lines(Seq::<char>::empty()) =~= Seq::<Seq<char>>::empty());
            }
        }
    }

    /// Hands over the log text flushed so far, for the caller to append to
    /// the log file.
    pub fn take_log_output(&mut self) -> (text: String)
        requires
            old(self).wf(),
        ensures
            text@ == old(self).log_output(),
            final(self).wf(),
            final(self)@ == old(self)@,
            final(self).log_output().len() == 0,
            final(self).log_text() == old(self).log_text(),
            final(self).log_path() == old(self).log_path(),
            final(self).origin() == old(self).origin(),
    {
        self.log.take_output()
    }

    /// The path of the log file.
    pub fn log_file(&self) -> (path: &str)
        ensures
            path@ == self.log_path(),
    {
        self.log.file_path()
    }
}

impl Engine for Kvdb {
    open spec fn well_formed(&self) -> bool {
        self.wf()
    }

    open spec fn contents(&self) -> Map<Seq<char>, Seq<char>> {
        self@
    }

    fn get(&self, key: &Key) -> (r: Result<Option<Value>, ()>)
        ensures
            r is Ok,
    {
        Ok(self.db.get(key.as_str()))
    }

    fn put(&mut self, key: &Key, value: &Value) -> (r: Result<Option<Value>, ()>)
        ensures
            r is Ok,
            final(self).log_text() == old(self).log_text() + entry_text(LogType::Put, key@, value@),
            final(self).log_output() == old(self).log_output() + entry_text(
                LogType::Put,
                key@,
                value@,
            ),
            final(self).log_path() == old(self).log_path(),
            final(self).origin() == old(self).origin(),
            old(self).journal_consistent() && is_word(key@) && is_word(value@)
                ==> final(self).journal_consistent(),
    {
        let prev = self.db.insert(key.clone(), value.clone());
        self.log.record(LogType::Put, key.as_str(), value.as_str());
        proof {
            old(self).log.lemma_batch_empty();
            if old(self).journal_consistent() && is_word(key@) && is_word(value@) {
                let t0 = old(self).log_text();
                let e = entry_text(LogType::Put, key@, value@);
                law_replay_concat(self.origin@, t0, e);
                law_record_replays(old(self)@, LogType::Put, key@, value@);
            }
        }
        Ok(prev)
    }

    fn delete(&mut self, key: &Key) -> (r: Result<Option<Value>, ()>)
        ensures
            r is Ok,
            old(self)@.contains_key(key@) ==> {
                &&& final(self).log_text() == old(self).log_text() + entry_text(
                    LogType::Delete,
                    key@,
                    old(self)@[key@],
                )
                &&& final(self).log_output() == old(self).log_output() + entry_text(
                    LogType::Delete,
                    key@,
                    old(self)@[key@],
                )
            },
            !old(self)@.contains_key(key@) ==> {
                &&& final(self).log_text() == old(self).log_text()
                &&& final(self).log_output() == old(self).log_output()
            },
            final(self).log_path() == old(self).log_path(),
            final(self).origin() == old(self).origin(),
            old(self).journal_consistent() && is_word(key@) && (old(self)@.contains_key(key@)
                ==> is_word(old(self)@[key@])) ==> final(self).journal_consistent(),
    {
        match self.db.remove(key.as_str()) {
            Some(v) => {
                proof {
                    old(self).log.lemma_batch_empty();
                }
                self.log.record(LogType::Delete, key.as_str(), v.as_str());
                proof {
                    if old(self).journal_consistent() && is_word(key@) && is_word(v@) {
                        let t0 = old(self).log_text();
                        let e = entry_text(LogType::Delete, key@, v@);
                        law_replay_concat(self.origin@, t0, e);
                        law_record_replays(old(self)@, LogType::Delete, key@, v@);
                    }
                }
                Ok(Some(v))
            },
            None => {
                assert(self@ =~= old(self)@);
                Ok(None)
            },
        }
    }

    fn scan(&self, key_start: &Key, key_end: &Key) -> (r: Result<Option<Vec<(Key, Value)>>, ()>)
        ensures
            r is Ok,
    {
        let kvs = self.db.range(key_start.as_str(), key_end.as_str());
        if self.db.len() != 0 {
            Ok(Some(kvs))
        } else {
            Ok(None)
        }
    }
}

/// A store reopened from its log file holds what the store held: when the
/// store's log began on the contents recovered from a file `file`, the file
/// with the store's log text appended replays, from nothing, to the store's
/// contents, and is again a well-formed log.
pub proof fn law_reopen_restores(file: Seq<char>, kvdb: &Kvdb)
    requires
        log_well_formed(file),
        ends_a_line(file),
        kvdb.origin() == replay(Map::empty(), file),
        kvdb.journal_consistent(),
    ensures
        replay(Map::empty(), file + kvdb.log_text()) == kvdb@,
        log_well_formed(file + kvdb.log_text()),
        ends_a_line(file + kvdb.log_text()),
{
    law_replay_concat(Map::empty(), file, kvdb.log_text());
}

} // verus!
