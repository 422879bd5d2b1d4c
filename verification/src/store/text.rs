//! Lines and words of text, as `str::lines` and `str::split_whitespace` cut them.
use vstd::prelude::*;

verus! {

/// The characters of Unicode's `White_Space` property, as `char::is_whitespace` has them.
pub open spec fn is_space(c: char) -> bool {
    ||| '\u{9}' <= c <= '\u{d}'
    ||| c == ' '
    ||| c == '\u{85}'
    ||| c == '\u{a0}'
    ||| c == '\u{1680}'
    ||| '\u{2000}' <= c <= '\u{200a}'
    ||| c == '\u{2028}'
    ||| c == '\u{2029}'
    ||| c == '\u{202f}'
    ||| c == '\u{205f}'
    ||| c == '\u{3000}'
}

/// No character of `s` is white space.
pub open spec fn no_space(s: Seq<char>) -> bool {
    forall|i: int| 0 <= i < s.len() ==> !is_space(#[trigger] s[i])
}

/// A word: a non-empty run of characters none of which is white space.
pub open spec fn is_word(s: Seq<char>) -> bool {
    s.len() > 0 && no_space(s)
}

/// The length of the run of non-space characters that starts `s`.
pub open spec fn word_len(s: Seq<char>) -> nat
    decreases s.len(),
{
    if s.len() == 0 || is_space(s[0]) {
        0
    } else {
        1 + word_len(s.drop_first())
    }
}

/// The words of `s`, in order: the maximal runs of non-space characters.
pub open spec fn words(s: Seq<char>) -> Seq<Seq<char>>
    decreases s.len(),
{
    if s.len() == 0 {
        Seq::empty()
    } else if is_space(s[0]) {
        words(s.drop_first())
    } else {
        let n = word_len(s);
        proof {
            lemma_word_len_bound(s);
        }
        seq![s.take(n as int)] + words(s.skip(n as int))
    }
}

/// A run of non-space characters fits in the text, and is not empty when the
/// text starts with a non-space character.
pub proof fn lemma_word_len_bound(s: Seq<char>)
    ensures
        word_len(s) <= s.len(),
        s.len() > 0 && !is_space(s[0]) ==> word_len(s) >= 1,
    decreases s.len(),
{
    if s.len() > 0 && !is_space(s[0]) {
        lemma_word_len_bound(s.drop_first());
    }
}

/// The length of the part of `s` before its first line feed (all of `s` if it has none).
pub open spec fn line_len(s: Seq<char>) -> nat
    decreases s.len(),
{
    if s.len() == 0 || s[0] == '\n' {
        0
    } else {
        1 + line_len(s.drop_first())
    }
}

/// A line without the carriage return that ends it, if one does.
pub open spec fn strip_cr(l: Seq<char>) -> Seq<char> {
    if l.len() > 0 && l.last() == '\r' {
        l.drop_last()
    } else {
        l
    }
}

/// The lines of `s`: split at each `\n` or `\r\n`, line ends left out,
/// and no empty last line after a final line end.
pub open spec fn lines(s: Seq<char>) -> Seq<Seq<char>>
    decreases s.len(),
{
    if s.len() == 0 {
        Seq::empty()
    } else {
        let n = line_len(s);
        if n < s.len() {
            seq![strip_cr(s.take(n as int))] + lines(s.skip(n + 1 as int))
        } else {
            seq![s]
        }
    }
}

/// Cuts `s` into lines with `str::lines`.
///
/// Trusted: std documents `lines` as splitting at `\n` and at `\r\n`, without
/// the line ends, and with no empty line after a final line end; `lines`
/// above states that.
#[verifier::external_body]
pub(crate) fn split_lines<'a>(s: &'a str) -> (r: Vec<&'a str>)
    ensures
        r@.len() == lines(s@).len(),
        forall|i: int| 0 <= i < r@.len() ==> #[trigger] r@[i]@ == lines(s@)[i],
{
    s.lines().collect()
}

/// Cuts `s` into words with `str::split_whitespace`.
///
/// Trusted: std documents `split_whitespace` as giving the non-empty
/// sub-slices of `s` separated by runs of Unicode `White_Space`; `words`
/// above states that.
#[verifier::external_body]
pub(crate) fn split_words<'a>(s: &'a str) -> (r: Vec<&'a str>)
    ensures
        r@.len() == words(s@).len(),
        forall|i: int| 0 <= i < r@.len() ==> #[trigger] r@[i]@ == words(s@)[i],
{
    s.split_whitespace().collect()
}

/// A word ends where white space or the text ends.
pub proof fn lemma_word_len(w: Seq<char>, rest: Seq<char>)
    requires
        no_space(w),
        rest.len() == 0 || is_space(rest[0]),
    ensures
        word_len(w + rest) == w.len(),
    decreases w.len(),
{
    if w.len() == 0 {
        assert(w + rest =~= rest);
    } else {
        assert((w + rest).drop_first() =~= w.drop_first() + rest);
        lemma_word_len(w.drop_first(), rest);
    }
}

/// A word followed by white space or by nothing comes out whole, first.
pub proof fn lemma_words_word(w: Seq<char>, rest: Seq<char>)
    requires
        is_word(w),
        rest.len() == 0 || is_space(rest[0]),
    ensures
        words(w + rest) == seq![w] + words(rest),
{
    lemma_word_len(w, rest);
    let s = w + rest;
    assert(s[0] == w[0]);
    assert(s.take(w.len() as int) =~= w);
    assert(s.skip(w.len() as int) =~= rest);
}

/// Leading white space is skipped.
pub proof fn lemma_words_space(c: char, rest: Seq<char>)
    requires
        is_space(c),
    ensures
        words(seq![c] + rest) == words(rest),
{
    assert((seq![c] + rest).drop_first() =~= rest);
}

/// The words of `a b c`, for words `a`, `b` and `c`, separated by single spaces.
pub proof fn lemma_words_of_three(a: Seq<char>, b: Seq<char>, c: Seq<char>)
    requires
        is_word(a),
        is_word(b),
        is_word(c),
    ensures
        words(a + seq![' '] + b + seq![' '] + c) == seq![a, b, c],
{
    let sp = seq![' '];
    let t3 = sp + c;
    let t2 = b + t3;
    let t1 = sp + t2;
    assert(a + sp + b + sp + c =~= a + t1);
    lemma_words_word(a, t1);
    lemma_words_space(' ', t2);
    assert(t1 =~= seq![' '] + t2);
    lemma_words_word(b, t3);
    lemma_words_space(' ', c);
    assert(t3 =~= seq![' '] + c);
    assert(c =~= c + Seq::<char>::empty());
    lemma_words_word(c, Seq::<char>::empty());
    assert(words(Seq::<char>::empty()) =~= Seq::<Seq<char>>::empty());
    assert(seq![a] + (seq![b] + (seq![c] + Seq::<Seq<char>>::empty())) =~= seq![a, b, c]);
}

/// A line ends at its first line feed.
pub proof fn lemma_line_len(l: Seq<char>, rest: Seq<char>)
    requires
        !l.contains('\n'),
    ensures
        line_len(l + seq!['\n'] + rest) == l.len(),
    decreases l.len(),
{
    let s = l + seq!['\n'] + rest;
    if l.len() == 0 {
        assert(s[0] == '\n');
    } else {
        assert(l[0] != '\n') by {
            if l[0] == '\n' {
                assert(l.contains('\n'));
            }
        }
        assert(s.drop_first() =~= l.drop_first() + seq!['\n'] + rest);
        assert(!l.drop_first().contains('\n')) by {
            if l.drop_first().contains('\n') {
                let i = choose|i: int| 0 <= i < l.drop_first().len() && l.drop_first()[i] == '\n';
                assert(l[i + 1] == '\n');
            }
        }
        lemma_line_len(l.drop_first(), rest);
    }
}

/// A line and its line feed, put in front of more text, come out as that line first.
pub proof fn lemma_lines_line(l: Seq<char>, rest: Seq<char>)
    requires
        !l.contains('\n'),
    ensures
        lines(l + seq!['\n'] + rest) == seq![strip_cr(l)] + lines(rest),
{
    let s = l + seq!['\n'] + rest;
    lemma_line_len(l, rest);
    assert(s.take(l.len() as int) =~= l);
    assert(s.skip(l.len() + 1 as int) =~= rest);
}

/// The run of non-space characters that starts `s` holds no white space, and
/// stops at white space if it stops before the end.
pub proof fn lemma_word_len_facts(s: Seq<char>)
    ensures
        word_len(s) <= s.len(),
        forall|j: int| 0 <= j < word_len(s) ==> !is_space(#[trigger] s[j]),
        word_len(s) < s.len() ==> is_space(s[word_len(s) as int]),
    decreases s.len(),
{
    if s.len() > 0 && !is_space(s[0]) {
        let s1 = s.drop_first();
        lemma_word_len_facts(s1);
        assert forall|j: int| 0 <= j < word_len(s) implies !is_space(#[trigger] s[j]) by {
            if j > 0 {
                assert(s[j] == s1[j - 1]);
            }
        }
        if word_len(s) < s.len() {
            assert(s[word_len(s) as int] == s1[word_len(s1) as int]);
        }
    }
}

/// White space at the end of a text adds no word.
pub proof fn lemma_words_trailing_space(s: Seq<char>, c: char)
    requires
        is_space(c),
    ensures
        words(s + seq![c]) == words(s),
    decreases s.len(),
{
    let t = s + seq![c];
    if s.len() == 0 {
        assert(t =~= seq![c]);
        assert(t.drop_first() =~= Seq::<char>::empty());
        assert(words(t) == words(t.drop_first()));
        assert(words(s) =~= Seq::<Seq<char>>::empty());
    } else if is_space(s[0]) {
        assert(t[0] == s[0]);
        assert(t.drop_first() =~= s.drop_first() + seq![c]);
        lemma_words_trailing_space(s.drop_first(), c);
    } else {
        lemma_word_len_facts(s);
        lemma_word_len_bound(s);
        let n = word_len(s);
        let w = s.take(n as int);
        let rest = s.skip(n as int) + seq![c];
        assert(t =~= w + rest);
        assert(rest[0] == if n < s.len() { s[n as int] } else { c });
        assert(no_space(w)) by {
            assert forall|j: int| 0 <= j < w.len() implies !is_space(#[trigger] w[j]) by {
                assert(w[j] == s[j]);
            }
        }
        lemma_word_len(w, rest);
        assert(t[0] == s[0]);
        assert(t.take(n as int) =~= w);
        assert(t.skip(n as int) =~= s.skip(n as int) + seq![c]);
        lemma_words_trailing_space(s.skip(n as int), c);
        assert(word_len(t) == n);
        assert(words(t) == seq![t.take(n as int)] + words(t.skip(n as int)));
        assert(words(s) == seq![s.take(n as int)] + words(s.skip(n as int)));
    }
}

/// A line stripped of a final carriage return has the same words.
pub proof fn lemma_words_strip_cr(l: Seq<char>)
    ensures
        words(strip_cr(l)) == words(l),
{
    if l.len() > 0 && l.last() == '\r' {
        assert(l =~= l.drop_last() + seq!['\r']);
        lemma_words_trailing_space(l.drop_last(), '\r');
    }
}

/// Before its first line feed a text holds none, and that line feed ends
/// the first line if there is one.
pub proof fn lemma_line_len_facts(s: Seq<char>)
    ensures
        line_len(s) <= s.len(),
        forall|j: int| 0 <= j < line_len(s) ==> #[trigger] s[j] != '\n',
        line_len(s) < s.len() ==> s[line_len(s) as int] == '\n',
    decreases s.len(),
{
    if s.len() > 0 && s[0] != '\n' {
        let s1 = s.drop_first();
        lemma_line_len_facts(s1);
        assert forall|j: int| 0 <= j < line_len(s) implies #[trigger] s[j] != '\n' by {
            if j > 0 {
                assert(s[j] == s1[j - 1]);
            }
        }
        if line_len(s) < s.len() {
            assert(s[line_len(s) as int] == s1[line_len(s1) as int]);
        }
    }
}

proof fn lemma_line_len_extend(x: Seq<char>, y: Seq<char>)
    requires
        line_len(x) < x.len(),
    ensures
        line_len(x + y) == line_len(x),
    decreases x.len(),
{
    if x[0] != '\n' {
        assert((x + y).drop_first() =~= x.drop_first() + y);
        lemma_line_len_extend(x.drop_first(), y);
    }
}

/// A line feed put after text that does not already end in one closes its
/// last line: the lines stay the same, but for a carriage return that now
/// ends the last line and is dropped from it.
pub proof fn lemma_lines_final_line_feed(x: Seq<char>)
    requires
        x.len() > 0,
        x.last() != '\n',
    ensures
        lines(x).len() > 0,
        lines(x + seq!['\n']) == lines(x).update(
            lines(x).len() - 1,
            strip_cr(lines(x)[lines(x).len() - 1]),
        ),
    decreases x.len(),
{
    let nl = seq!['\n'];
    lemma_line_len_facts(x);
    let n = line_len(x);
    if n < x.len() {
        let rest = x.skip(n + 1 as int);
        assert(rest.len() > 0) by {
            if n + 1 == x.len() {
                assert(x.last() == x[n as int]);
            }
        }
        assert(rest.last() == x.last());
        lemma_line_len_extend(x, nl);
        let s = x + nl;
        assert(s.take(n as int) =~= x.take(n as int));
        assert(s.skip(n + 1 as int) =~= rest + nl);
        lemma_lines_final_line_feed(rest);
        assert(lines(s) =~= lines(x).update(
            lines(x).len() - 1,
            strip_cr(lines(x)[lines(x).len() - 1]),
        ));
    } else {
        assert(!x.contains('\n'));
        lemma_lines_line(x, Seq::empty());
        assert(x + nl + Seq::<char>::empty() =~= x + nl);
        assert(lines(Seq::<char>::empty()) =~= Seq::<Seq<char>>::empty());
        assert(lines(x + nl) =~= seq![strip_cr(x)]);
        assert(lines(x) =~= seq![x]);
    }
}

} // verus!
