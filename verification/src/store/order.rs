//! The order of keys.
//!
//! Keys are strings, ordered as Rust orders `String`s: lexicographically by
//! the bytes of their UTF-8 encoding.
use vstd::prelude::*;
use vstd::utf8::{encode_scalar, encode_utf8, has_width_1_encoding, leading_byte_width_1};

verus! {

/// Byte-wise lexicographic order on byte sequences: `a` comes strictly before `b`.
pub open spec fn bytes_lt(a: Seq<u8>, b: Seq<u8>) -> bool
    decreases a.len(),
{
    if a.len() == 0 {
        b.len() > 0
    } else if b.len() == 0 {
        false
    } else if a[0] != b[0] {
        a[0] < b[0]
    } else {
        bytes_lt(a.drop_first(), b.drop_first())
    }
}

/// Key `a` comes strictly before key `b`: the UTF-8 bytes of `a` precede those of `b`.
pub open spec fn key_lt(a: Seq<char>, b: Seq<char>) -> bool {
    bytes_lt(encode_utf8(a), encode_utf8(b))
}

/// The result of comparing two keys.
#[derive(PartialEq, Eq, Structural, Clone, Copy, Debug)]
pub enum KeyOrder {
    Less,
    Equal,
    Greater,
}

pub proof fn lemma_bytes_lt_irreflexive(a: Seq<u8>)
    ensures
        !bytes_lt(a, a),
    decreases a.len(),
{
    if a.len() > 0 {
        lemma_bytes_lt_irreflexive(a.drop_first());
    }
}

pub proof fn lemma_bytes_lt_asymmetric(a: Seq<u8>, b: Seq<u8>)
    ensures
        !(bytes_lt(a, b) && bytes_lt(b, a)),
    decreases a.len(),
{
    if a.len() > 0 && b.len() > 0 && a[0] == b[0] {
        lemma_bytes_lt_asymmetric(a.drop_first(), b.drop_first());
    }
}

pub proof fn lemma_bytes_lt_transitive(a: Seq<u8>, b: Seq<u8>, c: Seq<u8>)
    requires
        bytes_lt(a, b),
        bytes_lt(b, c),
    ensures
        bytes_lt(a, c),
    decreases a.len(),
{
    if a.len() > 0 && b.len() > 0 && c.len() > 0 && a[0] == b[0] && b[0] == c[0] {
        lemma_bytes_lt_transitive(a.drop_first(), b.drop_first(), c.drop_first());
    }
}

pub proof fn lemma_bytes_lt_total(a: Seq<u8>, b: Seq<u8>)
    ensures
        a == b || bytes_lt(a, b) || bytes_lt(b, a),
    decreases a.len(),
{
    if a.len() > 0 && b.len() > 0 && a[0] == b[0] {
        lemma_bytes_lt_total(a.drop_first(), b.drop_first());
        if a.drop_first() == b.drop_first() {
            assert(a =~= seq![a[0]] + a.drop_first());
            assert(b =~= seq![b[0]] + b.drop_first());
        }
    } else if a.len() == 0 && b.len() == 0 {
        assert(a =~= b);
    }
}

/// Keys are strictly ordered: no key precedes itself.
pub proof fn lemma_key_lt_irreflexive(a: Seq<char>)
    ensures
        !key_lt(a, a),
{
    lemma_bytes_lt_irreflexive(encode_utf8(a));
}

/// Of two keys, at most one precedes the other.
pub proof fn lemma_key_lt_asymmetric(a: Seq<char>, b: Seq<char>)
    ensures
        !(key_lt(a, b) && key_lt(b, a)),
{
    lemma_bytes_lt_asymmetric(encode_utf8(a), encode_utf8(b));
}

/// The order of keys is transitive.
pub proof fn lemma_key_lt_transitive(a: Seq<char>, b: Seq<char>, c: Seq<char>)
    requires
        key_lt(a, b),
        key_lt(b, c),
    ensures
        key_lt(a, c),
{
    lemma_bytes_lt_transitive(encode_utf8(a), encode_utf8(b), encode_utf8(c));
}

/// Two different keys are always ordered one way or the other.
pub proof fn lemma_key_lt_total(a: Seq<char>, b: Seq<char>)
    ensures
        a == b || key_lt(a, b) || key_lt(b, a),
{
    lemma_bytes_lt_total(encode_utf8(a), encode_utf8(b));
    if encode_utf8(a) == encode_utf8(b) {
        vstd::utf8::encode_utf8_decode_utf8(a);
        vstd::utf8::encode_utf8_decode_utf8(b);
    }
}

proof fn lemma_bytes_lt_step(a: Seq<u8>, b: Seq<u8>, i: int)
    requires
        0 <= i < a.len(),
        i < b.len(),
        a[i] == b[i],
    ensures
        bytes_lt(a.skip(i), b.skip(i)) == bytes_lt(a.skip(i + 1), b.skip(i + 1)),
{
    assert(a.skip(i).drop_first() =~= a.skip(i + 1));
    assert(b.skip(i).drop_first() =~= b.skip(i + 1));
}

/// Compares two byte slices lexicographically.
pub fn compare_bytes(a: &[u8], b: &[u8]) -> (r: KeyOrder)
    ensures
        r == KeyOrder::Less <==> bytes_lt(a@, b@),
        r == KeyOrder::Equal <==> a@ == b@,
        r == KeyOrder::Greater <==> bytes_lt(b@, a@),
{
    let mut i: usize = 0;
    assert(a@.skip(0) =~= a@);
    assert(b@.skip(0) =~= b@);
    while i < a.len() && i < b.len()
        invariant
            i <= a.len(),
            i <= b.len(),
            forall|j: int| 0 <= j < i ==> a@[j] == b@[j],
            bytes_lt(a@, b@) == bytes_lt(a@.skip(i as int), b@.skip(i as int)),
            bytes_lt(b@, a@) == bytes_lt(b@.skip(i as int), a@.skip(i as int)),
        decreases a.len() - i,
    {
        if a[i] < b[i] {
            proof {
                lemma_bytes_lt_asymmetric(a@, b@);
            }
            return KeyOrder::Less;
        }
        if b[i] < a[i] {
            proof {
                lemma_bytes_lt_asymmetric(a@, b@);
            }
            return KeyOrder::Greater;
        }
        proof {
            lemma_bytes_lt_step(a@, b@, i as int);
            lemma_bytes_lt_step(b@, a@, i as int);
        }
        i = i + 1;
    }
    if i == a.len() && i == b.len() {
        assert(a@ =~= b@);
        proof {
            lemma_bytes_lt_irreflexive(a@);
        }
        KeyOrder::Equal
    } else if i == a.len() {
        assert(a@ != b@);
        KeyOrder::Less
    } else {
        assert(a@ != b@);
        KeyOrder::Greater
    }
}

/// Compares two keys in the order of `String`s.
pub fn compare_keys(a: &str, b: &str) -> (r: KeyOrder)
    ensures
        r == KeyOrder::Less <==> key_lt(a@, b@),
        r == KeyOrder::Equal <==> a@ == b@,
        r == KeyOrder::Greater <==> key_lt(b@, a@),
{
    let ab = a.as_bytes();
    let bb = b.as_bytes();
    let r = compare_bytes(ab, bb);
    proof {
        if encode_utf8(a@) == encode_utf8(b@) {
            vstd::utf8::encode_utf8_decode_utf8(a@);
            vstd::utf8::encode_utf8_decode_utf8(b@);
        }
    }
    r
}

/// Byte sequences `a` and `b` agree on their first `i` bytes, and at `i`
/// either `a` has ended while `b` goes on, or `a`'s byte is the smaller.
pub open spec fn first_difference_favours(a: Seq<u8>, b: Seq<u8>, i: int) -> bool {
    &&& 0 <= i <= a.len()
    &&& i <= b.len()
    &&& forall|j: int| 0 <= j < i ==> #[trigger] a[j] == b[j]
    &&& (i == a.len() && i < b.len()) || (i < a.len() && i < b.len() && a[i] < b[i])
}

/// The order of bytes is plain lexicographic order: `a` comes before `b`
/// exactly when, at the first place where they differ, `a` has ended or has
/// the smaller byte, whatever the lengths.
pub proof fn law_bytes_lt_lexicographic(a: Seq<u8>, b: Seq<u8>)
    ensures
        bytes_lt(a, b) <==> exists|i: int| first_difference_favours(a, b, i),
    decreases a.len(),
{
    if a.len() > 0 && b.len() > 0 && a[0] == b[0] {
        let a1 = a.drop_first();
        let b1 = b.drop_first();
        law_bytes_lt_lexicographic(a1, b1);
        if bytes_lt(a, b) {
            let i = choose|i: int| first_difference_favours(a1, b1, i);
            assert(first_difference_favours(a, b, i + 1)) by {
                assert forall|j: int| 0 <= j < i + 1 implies #[trigger] a[j] == b[j] by {
                    if j > 0 {
                        assert(a[j] == a1[j - 1] && b[j] == b1[j - 1]);
                    }
                }
            }
        }
        if exists|i: int| first_difference_favours(a, b, i) {
            let i = choose|i: int| first_difference_favours(a, b, i);
            if i == 0 {
                assert(a[0] < b[0]);
            }
            assert(first_difference_favours(a1, b1, i - 1)) by {
                assert forall|j: int| 0 <= j < i - 1 implies #[trigger] a1[j] == b1[j] by {
                    assert(a[j + 1] == b[j + 1]);
                }
            }
        }
    } else {
        if bytes_lt(a, b) {
            assert(first_difference_favours(a, b, 0));
        }
        if exists|i: int| first_difference_favours(a, b, i) {
            let i = choose|i: int| first_difference_favours(a, b, i);
            if a.len() > 0 && b.len() > 0 {
                if i > 0 {
                    assert(a[0] == b[0]);
                }
            }
        }
    }
}

/// Bytes that first differ decide the order, whatever follows them: when `x`
/// and `y` agree up to `i` and `x[i] < y[i]`, `x` followed by anything comes
/// before `y` followed by anything.
pub proof fn law_bytes_first_difference_decides(x: Seq<u8>, y: Seq<u8>, p: Seq<u8>, q: Seq<u8>, i: int)
    requires
        0 <= i < x.len(),
        i < y.len(),
        forall|j: int| 0 <= j < i ==> #[trigger] x[j] == y[j],
        x[i] < y[i],
    ensures
        bytes_lt(x + p, y + q),
{
    let a = x + p;
    let b = y + q;
    assert(first_difference_favours(a, b, i)) by {
        assert forall|j: int| 0 <= j < i implies #[trigger] a[j] == b[j] by {
            assert(a[j] == x[j] && b[j] == y[j]);
        }
    }
    law_bytes_lt_lexicographic(a, b);
}

/// A proper prefix comes before every longer sequence that extends it.
pub proof fn law_bytes_prefix_first(x: Seq<u8>, r: Seq<u8>)
    requires
        r.len() > 0,
    ensures
        bytes_lt(x, x + r),
{
    let b = x + r;
    assert(first_difference_favours(x, b, x.len() as int)) by {
        assert forall|j: int| 0 <= j < x.len() implies #[trigger] x[j] == b[j] by {}
    }
    law_bytes_lt_lexicographic(x, b);
}

proof fn lemma_encode_utf8_concat(a: Seq<char>, b: Seq<char>)
    ensures
        encode_utf8(a + b) == encode_utf8(a) + encode_utf8(b),
    decreases a.len(),
{
    if a.len() == 0 {
        assert(a + b =~= b);
        assert(encode_utf8(a) =~= Seq::<u8>::empty());
        assert(encode_utf8(a) + encode_utf8(b) =~= encode_utf8(b));
    } else {
        assert((a + b).drop_first() =~= a.drop_first() + b);
        assert((a + b)[0] == a[0]);
        lemma_encode_utf8_concat(a.drop_first(), b);
        assert(encode_utf8(a + b) =~= encode_utf8(a) + encode_utf8(b));
    }
}

proof fn lemma_encode_utf8_nonempty(a: Seq<char>)
    requires
        a.len() > 0,
    ensures
        encode_utf8(a).len() > 0,
{
    assert(encode_scalar(a[0] as u32).len() > 0);
}

proof fn lemma_encode_ascii(c: char)
    requires
        (c as u32) < 0x80,
    ensures
        encode_utf8(seq![c]) == seq![(c as u32) as u8],
{
    let s = c as u32;
    assert(has_width_1_encoding(s));
    assert(leading_byte_width_1(s) == s as u8) by (bit_vector)
        requires
            s < 0x80,
    ;
    assert(seq![c].drop_first() =~= Seq::<char>::empty());
    assert(encode_utf8(Seq::<char>::empty()) =~= Seq::<u8>::empty());
    assert(seq![c][0] as u32 == s);
    assert(encode_scalar(s) =~= seq![s as u8]);
    assert(encode_utf8(seq![c]) == encode_scalar(s) + encode_utf8(Seq::<char>::empty()));
    assert(encode_utf8(seq![c]) =~= seq![s as u8]);
}

/// A key comes before every longer key that extends it.
pub proof fn law_key_prefix_first(a: Seq<char>, r: Seq<char>)
    requires
        r.len() > 0,
    ensures
        key_lt(a, a + r),
{
    lemma_encode_utf8_concat(a, r);
    lemma_encode_utf8_nonempty(r);
    law_bytes_prefix_first(encode_utf8(a), encode_utf8(r));
}

/// Keys that share a start and then differ in an ASCII character are ordered
/// by that character, whatever follows it and whatever the lengths: so
/// `"apple"` comes before `"b"`.
pub proof fn law_key_first_difference_decides(
    c: Seq<char>,
    x: char,
    y: char,
    p: Seq<char>,
    q: Seq<char>,
)
    requires
        (x as u32) < (y as u32) < 0x80,
    ensures
        key_lt(c + seq![x] + p, c + seq![y] + q),
{
    lemma_encode_ascii(x);
    lemma_encode_ascii(y);
    lemma_encode_utf8_concat(c + seq![x], p);
    lemma_encode_utf8_concat(c, seq![x]);
    lemma_encode_utf8_concat(c + seq![y], q);
    lemma_encode_utf8_concat(c, seq![y]);
    let ec = encode_utf8(c);
    let xs = x as u32;
    let ys = y as u32;
    let ex = ec + seq![xs as u8];
    let ey = ec + seq![ys as u8];
    assert((xs as u8) < (ys as u8)) by (bit_vector)
        requires
            xs < ys < 0x80,
    ;
    law_bytes_first_difference_decides(ex, ey, encode_utf8(p), encode_utf8(q), ec.len() as int);
}

/// A scan of `[x, y)`, for ASCII characters `x < y`, takes in every key that
/// starts with `x`: such a key is neither before `x` nor at or after `y`.
pub proof fn law_keys_starting_with_in_range(x: char, y: char, r: Seq<char>)
    requires
        (x as u32) < (y as u32) < 0x80,
    ensures
        !key_lt(seq![x] + r, seq![x]),
        key_lt(seq![x] + r, seq![y]),
{
    if r.len() > 0 {
        law_key_prefix_first(seq![x], r);
        lemma_key_lt_asymmetric(seq![x], seq![x] + r);
    } else {
        assert(seq![x] + r =~= seq![x]);
        lemma_key_lt_irreflexive(seq![x]);
    }
    law_key_first_difference_decides(Seq::empty(), x, y, r, Seq::empty());
    assert(Seq::<char>::empty() + seq![x] + r =~= seq![x] + r);
    assert(Seq::<char>::empty() + seq![y] + Seq::<char>::empty() =~= seq![y]);
}

} // verus!
