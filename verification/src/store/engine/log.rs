//! The write-ahead log of the store.
//!
//! Each change to the store is recorded as one line of text, `T K V`: the
//! type `T` (`0` for a put, `1` for a delete), the key and the value,
//! separated by single spaces. Records are batched; a full batch is flushed
//! to the log's output, the text that the caller appends to the file at
//! `path`. Replaying the lines of that file rebuilds the store.
use vstd::prelude::*;

use crate::store::text::{
    is_space, is_word, lemma_lines_final_line_feed, lemma_lines_line, lemma_words_of_three,
    lemma_words_strip_cr, line_len, lines, split_lines,
    split_words, strip_cr, words,
};

verus! {

/// The number of records that make a full batch.
pub const BATCH_SIZE: u8 = 1;

/// What a record of the log does.
#[derive(PartialEq, Eq, Structural, Clone, Copy, Debug)]
pub enum LogType {
    Put,
    Delete,
}

/// A batch of records: type, key and value.
pub type LogFmt = Vec<(LogType, String, String)>;

/// The code that stands for a record's type in the log.
pub open spec fn type_code(t: LogType) -> Seq<char> {
    match t {
        LogType::Put => seq!['0'],
        LogType::Delete => seq!['1'],
    }
}

/// The line of a record, without its line feed.
pub open spec fn entry_line(t: LogType, key: Seq<char>, value: Seq<char>) -> Seq<char> {
    type_code(t) + seq![' '] + key + seq![' '] + value
}

/// The text of a record: its line and a line feed.
pub open spec fn entry_text(t: LogType, key: Seq<char>, value: Seq<char>) -> Seq<char> {
    entry_line(t, key, value) + seq!['\n']
}

/// The text of a batch of records, one line each, in order.
pub open spec fn render(batch: Seq<(LogType, String, String)>) -> Seq<char>
    decreases batch.len(),
{
    if batch.len() == 0 {
        Seq::empty()
    } else {
        let e = batch.last();
        render(batch.drop_last()) + entry_text(e.0, e.1@, e.2@)
    }
}

/// What one line of the log does to the store's map: a put line stores its
/// value under its key, a delete line removes its key, any other line does nothing.
pub open spec fn replay_line(m: Map<Seq<char>, Seq<char>>, line: Seq<char>) -> Map<
    Seq<char>,
    Seq<char>,
> {
    let w = words(line);
    if w.len() < 3 {
        m
    } else if w[0] == seq!['0'] {
        m.insert(w[1], w[2])
    } else if w[0] == seq!['1'] {
        m.remove(w[1])
    } else {
        m
    }
}

/// The map after replaying `ls`, line by line, onto `m`.
pub open spec fn replay_lines(m: Map<Seq<char>, Seq<char>>, ls: Seq<Seq<char>>) -> Map<
    Seq<char>,
    Seq<char>,
>
    decreases ls.len(),
{
    if ls.len() == 0 {
        m
    } else {
        replay_line(replay_lines(m, ls.drop_last()), ls.last())
    }
}

/// The map after replaying the log text `text` onto `m`.
pub open spec fn replay(m: Map<Seq<char>, Seq<char>>, text: Seq<char>) -> Map<Seq<char>, Seq<char>> {
    replay_lines(m, lines(text))
}

/// Every line of the log text has at least the three words of a record.
pub open spec fn log_well_formed(text: Seq<char>) -> bool {
    forall|i: int| 0 <= i < lines(text).len() ==> #[trigger] words(lines(text)[i]).len() >= 3
}

/// The log text ends at a line end, or is empty: more records can follow it.
pub open spec fn ends_a_line(text: Seq<char>) -> bool {
    text.len() == 0 || text.last() == '\n'
}

/// What a record does to the store's map.
pub open spec fn apply_entry(m: Map<Seq<char>, Seq<char>>, t: LogType, key: Seq<char>, value: Seq<char>) -> Map<
    Seq<char>,
    Seq<char>,
> {
    match t {
        LogType::Put => m.insert(key, value),
        LogType::Delete => m.remove(key),
    }
}

/// The map after applying `batch`, record by record, onto `m`.
pub open spec fn apply_entries(m: Map<Seq<char>, Seq<char>>, batch: Seq<(LogType, String, String)>) -> Map<
    Seq<char>,
    Seq<char>,
>
    decreases batch.len(),
{
    if batch.len() == 0 {
        m
    } else {
        let e = batch.last();
        apply_entry(apply_entries(m, batch.drop_last()), e.0, e.1@, e.2@)
    }
}

/// Every record of `batch` has a word for key and a word for value.
pub open spec fn records_of_words(batch: Seq<(LogType, String, String)>) -> bool {
    forall|i: int| 0 <= i < batch.len() ==> is_word(#[trigger] batch[i].1@) && is_word(batch[i].2@)
}

impl LogType {
    /// The code of the type in the log: `0` for a put, `1` for a delete.
    pub fn to_string(&self) -> (s: String)
        ensures
            s@ == type_code(*self),
    {
        match self {
            LogType::Put => {
                proof {
                    reveal_strlit("0");
                }
                "0".to_owned()
            },
            LogType::Delete => {
                proof {
                    reveal_strlit("1");
                }
                "1".to_owned()
            },
        }
    }
}

/// The text of one record.
fn entry_string(t: LogType, key: &str, value: &str) -> (s: String)
    ensures
        s@ == entry_text(t, key@, value@),
{
    let mut s = t.to_string();
    s.append(" ");
    s.append(key);
    s.append(" ");
    s.append(value);
    s.append("\n");
    proof {
        reveal_strlit(" ");
        reveal_strlit("\n");
    }
    assert(s@ =~= entry_text(t, key@, value@));
    s
}

/// The log: a batch of records not yet flushed, and the text flushed from
/// earlier batches that the caller has still to append to the file at `path`.
pub struct Log {
    pub path: String,
    batch: LogFmt,
    output: String,
    taken: Ghost<Seq<char>>,
}

impl Log {
    /// A batch never holds a full batch's worth of records between calls.
    pub closed spec fn wf(&self) -> bool {
        self.batch@.len() < BATCH_SIZE
    }

    /// The path of the file the log is written to.
    pub closed spec fn log_path(&self) -> Seq<char> {
        self.path@
    }

    /// The records not yet flushed.
    pub closed spec fn batch(&self) -> Seq<(LogType, String, String)> {
        self.batch@
    }

    /// The flushed text not yet taken by the caller.
    pub closed spec fn output(&self) -> Seq<char> {
        self.output@
    }

    /// All the text of this log so far: what the caller has taken, what waits
    /// to be taken, and the records still in the batch.
    pub closed spec fn log_text(&self) -> Seq<char> {
        self.taken@ + self.output@ + render(self.batch@)
    }

    /// Between calls the batch is empty: each record fills it.
    pub proof fn lemma_batch_empty(&self)
        requires
            self.wf(),
        ensures
            self.batch().len() == 0,
            render(self.batch()) == Seq::<char>::empty(),
    {
    }

    /// An empty log, to be written to the file at `path`.
    pub fn new(path: &str) -> (log: Log)
        ensures
            log.wf(),
            log.log_path() == path@,
            log.batch().len() == 0,
            log.output().len() == 0,
            log.log_text().len() == 0,
    {
        let log = Log { path: path.to_owned(), batch: Vec::new(), output: String::new(), taken: Ghost(Seq::empty()) };
        assert(log.log_text() =~= Seq::<char>::empty());
        log
    }

    /// The path of the file the log is written to.
    pub fn file_path(&self) -> (p: &str)
        ensures
            p@ == self.log_path(),
    {
        self.path.as_str()
    }

    /// Records a change, and flushes the batch if it is full.
    pub fn record(&mut self, log_type: LogType, key: &str, value: &str)
        requires
            old(self).wf(),
        ensures
            final(self).wf(),
            final(self).log_path() == old(self).log_path(),
            final(self).log_text() == old(self).log_text() + entry_text(log_type, key@, value@),
            old(self).batch().len() + 1 >= BATCH_SIZE ==> {
                &&& final(self).batch().len() == 0
                &&& final(self).output() == old(self).output() + render(old(self).batch())
                    + entry_text(log_type, key@, value@)
            },
            old(self).batch().len() + 1 < BATCH_SIZE ==> {
                &&& final(self).output() == old(self).output()
                &&& render(final(self).batch()) == render(old(self).batch()) + entry_text(
                    log_type,
                    key@,
                    value@,
                )
            },
    {
        let ghost b = self.batch@;
        self.batch.push((log_type, key.to_owned(), value.to_owned()));
        assert(self.batch@.drop_last() =~= b);
        assert(render(self.batch@) == render(b) + entry_text(log_type, key@, value@));
        assert(self.log_text() =~= old(self).log_text() + entry_text(log_type, key@, value@));
        self.flush_if_full();
    }

    /// Moves the records of the batch, as text, to the output.
    pub fn flush(&mut self)
        ensures
            final(self).wf(),
            final(self).log_path() == old(self).log_path(),
            final(self).batch().len() == 0,
            final(self).output() == old(self).output() + render(old(self).batch()),
            final(self).log_text() == old(self).log_text(),
    {
        let ghost b = self.batch@;
        let ghost out0 = self.output@;
        let mut i: usize = 0;
        while i < self.batch.len()
            invariant
                b == self.batch@,
                self.path == old(self).path,
                self.taken == old(self).taken,
                out0 == old(self).output@,
                i <= b.len(),
                self.output@ == out0 + render(b.take(i as int)),
            decreases b.len() - i,
        {
            let line = entry_string(self.batch[i].0, self.batch[i].1.as_str(), self.batch[i].2.as_str());
            self.output.append(line.as_str());
            assert(b.take(i + 1 as int).drop_last() =~= b.take(i as int));
            i = i + 1;
            assert(self.output@ =~= out0 + render(b.take(i as int)));
        }
        assert(b.take(i as int) =~= b);
        self.batch.clear();
        assert(render(self.batch@) =~= Seq::<char>::empty());
        assert(self.log_text() =~= old(self).log_text());
    }

    /// Flushes the batch once it holds `BATCH_SIZE` records.
    fn flush_if_full(&mut self)
        requires
            old(self).batch().len() <= u8::MAX,
        ensures
            final(self).wf(),
            final(self).log_path() == old(self).log_path(),
            final(self).log_text() == old(self).log_text(),
            old(self).batch().len() >= BATCH_SIZE ==> {
                &&& final(self).batch().len() == 0
                &&& final(self).output() == old(self).output() + render(old(self).batch())
            },
            old(self).batch().len() < BATCH_SIZE ==> *final(self) == *old(self),
    {
        if self.batch.len() as u8 >= BATCH_SIZE {
            self.flush();
        }
    }

    /// Hands over the flushed text, for the caller to append to the file at `path`.
    pub fn take_output(&mut self) -> (text: String)
        requires
            old(self).wf(),
        ensures
            text@ == old(self).output(),
            final(self).wf(),
            final(self).log_path() == old(self).log_path(),
            final(self).output().len() == 0,
            final(self).batch() == old(self).batch(),
            final(self).log_text() == old(self).log_text(),
    {
        let mut text = String::new();
        std::mem::swap(&mut text, &mut self.output);
        proof {
            self.taken = Ghost(self.taken@ + text@);
        }
        assert(self.log_text() =~= old(self).log_text());
        text
    }
}


/// Whether every line of `text` has the three words of a record, as
/// replaying it needs.
pub fn check_log(text: &str) -> (ok: bool)
    ensures
        ok == log_well_formed(text@),
{
    let ls = split_lines(text);
    let ghost lv = lines(text@);
    let mut i: usize = 0;
    while i < ls.len()
        invariant
            i <= ls@.len(),
            lv == lines(text@),
            ls@.len() == lv.len(),
            forall|j: int| 0 <= j < ls@.len() ==> #[trigger] ls@[j]@ == lv[j],
            forall|j: int| 0 <= j < i ==> #[trigger] words(lv[j]).len() >= 3,
        decreases ls@.len() - i,
    {
        let w = split_words(ls[i]);
        if w.len() < 3 {
            assert(words(lv[i as int]).len() < 3);
            return false;
        }
        i = i + 1;
    }
    true
}

/// The line of a record holds no line feed, and does not end in a carriage return.
proof fn lemma_entry_line_one_line(t: LogType, key: Seq<char>, value: Seq<char>)
    requires
        is_word(key),
        is_word(value),
    ensures
        !entry_line(t, key, value).contains('\n'),
        strip_cr(entry_line(t, key, value)) == entry_line(t, key, value),
{
    let l = entry_line(t, key, value);
    let c = type_code(t);
    assert forall|i: int| 0 <= i < l.len() implies l[i] != '\n' by {
        if i < 1 {
            assert(l[i] == c[i]);
        } else if i == 1 {
            assert(l[i] == ' ');
        } else if i < 2 + key.len() {
            assert(l[i] == key[i - 2]);
            assert(!is_space(key[i - 2]));
        } else if i == 2 + key.len() {
            assert(l[i] == ' ');
        } else {
            assert(l[i] == value[i - 3 - key.len()]);
            assert(!is_space(value[i - 3 - key.len()]));
        }
    }
    assert(l.last() == value.last());
    assert(!is_space(value[value.len() - 1]));
}

proof fn lemma_line_len_bound(x: Seq<char>)
    ensures
        line_len(x) <= x.len(),
        x.len() > 0 && x.last() == '\n' ==> line_len(x) < x.len(),
    decreases x.len(),
{
    if x.len() > 0 && x[0] != '\n' {
        lemma_line_len_bound(x.drop_first());
        if x.len() > 1 {
            assert(x.drop_first().last() == x.last());
        }
    }
}

proof fn lemma_line_len_prefix(x: Seq<char>, y: Seq<char>)
    requires
        line_len(x) < x.len(),
    ensures
        line_len(x + y) == line_len(x),
    decreases x.len(),
{
    if x[0] != '\n' {
        assert((x + y).drop_first() =~= x.drop_first() + y);
        lemma_line_len_prefix(x.drop_first(), y);
    }
}

/// Text that ends at a line end keeps its lines when more text follows it.
proof fn lemma_lines_append(x: Seq<char>, y: Seq<char>)
    requires
        ends_a_line(x),
    ensures
        lines(x + y) == lines(x) + lines(y),
    decreases x.len(),
{
    if x.len() == 0 {
        assert(x + y =~= y);
        assert(lines(x) =~= Seq::<Seq<char>>::empty());
        assert(lines(x) + lines(y) =~= lines(y));
    } else {
        lemma_line_len_bound(x);
        let n = line_len(x);
        lemma_line_len_prefix(x, y);
        let s = x + y;
        assert(s.take(n as int) =~= x.take(n as int));
        let rest = x.skip(n + 1 as int);
        assert(s.skip(n + 1 as int) =~= rest + y);
        if rest.len() > 0 {
            assert(rest.last() == x.last());
        }
        lemma_lines_append(rest, y);
        assert(lines(s) =~= lines(x) + lines(y));
    }
}

proof fn lemma_replay_lines_append(m: Map<Seq<char>, Seq<char>>, a: Seq<Seq<char>>, b: Seq<Seq<char>>)
    ensures
        replay_lines(m, a + b) == replay_lines(replay_lines(m, a), b),
    decreases b.len(),
{
    if b.len() == 0 {
        assert(a + b =~= a);
    } else {
        assert((a + b).drop_last() =~= a + b.drop_last());
        assert((a + b).last() == b.last());
        lemma_replay_lines_append(m, a, b.drop_last());
    }
}

/// Replaying the text of one record, with a word for key and a word for
/// value, does what the record stands for; that text is one well-formed line.
pub proof fn law_record_replays(m: Map<Seq<char>, Seq<char>>, t: LogType, key: Seq<char>, value: Seq<char>)
    requires
        is_word(key),
        is_word(value),
    ensures
        replay(m, entry_text(t, key, value)) == apply_entry(m, t, key, value),
        log_well_formed(entry_text(t, key, value)),
        ends_a_line(entry_text(t, key, value)),
{
    let l = entry_line(t, key, value);
    lemma_entry_line_one_line(t, key, value);
    lemma_lines_line(l, Seq::empty());
    assert(l + seq!['\n'] + Seq::<char>::empty() =~= entry_text(t, key, value));
    assert(lines(Seq::<char>::empty()) =~= Seq::<Seq<char>>::empty());
    assert(lines(entry_text(t, key, value)) =~= seq![l]);
    assert(seq![l].drop_last() =~= Seq::<Seq<char>>::empty());
    let c = type_code(t);
    assert(is_word(c)) by {
        assert(c.len() == 1);
        assert(!is_space(c[0]));
    }
    lemma_words_of_three(c, key, value);
    assert(words(l) == seq![c, key, value]);
    assert(seq![l].last() == l);
    assert(replay_lines(m, Seq::<Seq<char>>::empty()) == m);
    assert(replay_lines(m, seq![l]) == replay_line(m, l));
    if t == LogType::Delete {
        assert(seq!['1'][0] != seq!['0'][0]);
        assert(c != seq!['0']);
    }
    assert(entry_text(t, key, value).last() == '\n');
}

/// Replaying two pieces of log text, the first ending at a line end, is
/// replaying the first and then the second; together they are well formed
/// exactly when each is.
pub proof fn law_replay_concat(m: Map<Seq<char>, Seq<char>>, x: Seq<char>, y: Seq<char>)
    requires
        ends_a_line(x),
    ensures
        replay(m, x + y) == replay(replay(m, x), y),
        log_well_formed(x + y) <==> (log_well_formed(x) && log_well_formed(y)),
        ends_a_line(y) ==> ends_a_line(x + y),
{
    lemma_lines_append(x, y);
    lemma_replay_lines_append(m, lines(x), lines(y));
    let lx = lines(x);
    let ly = lines(y);
    if log_well_formed(x) && log_well_formed(y) {
        assert forall|i: int| 0 <= i < lines(x + y).len() implies #[trigger] words(lines(x + y)[i]).len()
            >= 3 by {
            if i < lx.len() {
                assert(lines(x + y)[i] == lx[i]);
            } else {
                assert(lines(x + y)[i] == ly[i - lx.len()]);
            }
        }
    }
    if log_well_formed(x + y) {
        assert forall|i: int| 0 <= i < lx.len() implies #[trigger] words(lx[i]).len() >= 3 by {
            assert(lines(x + y)[i] == lx[i]);
        }
        assert forall|i: int| 0 <= i < ly.len() implies #[trigger] words(ly[i]).len() >= 3 by {
            assert(lines(x + y)[i + lx.len()] == ly[i]);
        }
    }
    if ends_a_line(y) && y.len() > 0 {
        assert((x + y).last() == y.last());
    }
}

/// The text of a sequence of records grows by one record's text with each
/// record added: so the log text of a new `Log` after records `batch`, made
/// by `record` one by one, is `render(batch)`.
pub proof fn law_render_push(batch: Seq<(LogType, String, String)>, e: (LogType, String, String))
    ensures
        render(batch.push(e)) == render(batch) + entry_text(e.0, e.1@, e.2@),
{
    assert(batch.push(e).drop_last() =~= batch);
}

/// Replaying the text of a sequence of records, each with a word for key and
/// a word for value, onto `m` applies the records to `m` in order; that text
/// is a well-formed log that ends at a line end.
pub proof fn law_replay_records(m: Map<Seq<char>, Seq<char>>, batch: Seq<(LogType, String, String)>)
    requires
        records_of_words(batch),
    ensures
        replay(m, render(batch)) == apply_entries(m, batch),
        log_well_formed(render(batch)),
        ends_a_line(render(batch)),
    decreases batch.len(),
{
    if batch.len() == 0 {
        assert(lines(Seq::<char>::empty()) =~= Seq::<Seq<char>>::empty());
    } else {
        let b = batch.drop_last();
        let e = batch.last();
        assert(records_of_words(b)) by {
            assert forall|i: int| 0 <= i < b.len() implies is_word(#[trigger] b[i].1@) && is_word(
                b[i].2@,
            ) by {
                assert(b[i] == batch[i]);
            }
        }
        assert(is_word(batch[batch.len() - 1].1@));
        law_replay_records(m, b);
        let t = entry_text(e.0, e.1@, e.2@);
        law_replay_concat(m, render(b), t);
        law_record_replays(replay(m, render(b)), e.0, e.1@, e.2@);
    }
}

proof fn lemma_replay_lines_same_words(m: Map<Seq<char>, Seq<char>>, a: Seq<Seq<char>>, b: Seq<Seq<char>>)
    requires
        a.len() == b.len(),
        forall|i: int| 0 <= i < a.len() ==> words(#[trigger] a[i]) == words(b[i]),
    ensures
        replay_lines(m, a) == replay_lines(m, b),
    decreases a.len(),
{
    if a.len() > 0 {
        let a1 = a.drop_last();
        let b1 = b.drop_last();
        assert forall|i: int| 0 <= i < a1.len() implies words(#[trigger] a1[i]) == words(b1[i]) by {
            assert(a1[i] == a[i] && b1[i] == b[i]);
        }
        lemma_replay_lines_same_words(m, a1, b1);
        assert(words(a.last()) == words(b.last()));
    }
}

/// A line feed after the last line changes nothing: a log text whose last
/// line has no line feed passes the check exactly when it does with one, and
/// replays the same.
pub proof fn law_final_line_feed_changes_nothing(m: Map<Seq<char>, Seq<char>>, x: Seq<char>)
    requires
        x.len() > 0,
        x.last() != '\n',
    ensures
        log_well_formed(x + seq!['\n']) == log_well_formed(x),
        replay(m, x + seq!['\n']) == replay(m, x),
{
    let y = x + seq!['\n'];
    lemma_lines_final_line_feed(x);
    let lx = lines(x);
    let ly = lines(y);
    let last = lx.len() - 1;
    lemma_words_strip_cr(lx[last]);
    assert forall|i: int| 0 <= i < ly.len() implies words(#[trigger] ly[i]) == words(lx[i]) by {
        if i == last {
            assert(ly[i] == strip_cr(lx[i]));
        } else {
            assert(ly[i] == lx[i]);
        }
    }
    lemma_replay_lines_same_words(m, ly, lx);
    if log_well_formed(x) {
        assert forall|i: int| 0 <= i < ly.len() implies #[trigger] words(ly[i]).len() >= 3 by {
            assert(words(ly[i]) == words(lx[i]));
        }
    }
    if log_well_formed(y) {
        assert forall|i: int| 0 <= i < lx.len() implies #[trigger] words(lx[i]).len() >= 3 by {
            assert(words(ly[i]) == words(lx[i]));
        }
    }
}

} // verus!
