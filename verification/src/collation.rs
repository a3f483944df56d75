//! The order of texts: lexicographic on their UTF-8 bytes.

use vstd::prelude::*;
use vstd::relations::total_ordering;
use vstd::utf8::encode_utf8;

verus! {

/// How a text stands to another one in the order of texts.
#[derive(Clone, Copy, Debug)]
pub enum Rank {
    Before,
    Same,
    After,
}

/// Byte string `a` comes strictly before byte string `b`.
pub open spec fn bytes_before(a: Seq<u8>, b: Seq<u8>) -> bool
    decreases a.len(),
{
    if b.len() == 0 {
        false
    } else if a.len() == 0 {
        true
    } else if a[0] != b[0] {
        a[0] < b[0]
    } else {
        bytes_before(a.drop_first(), b.drop_first())
    }
}

/// Text `a` comes strictly before text `b`.
pub open spec fn text_before(a: Seq<char>, b: Seq<char>) -> bool {
    bytes_before(encode_utf8(a), encode_utf8(b))
}

/// Text `a` comes before text `b`, or is the same text.
pub open spec fn text_up_to(a: Seq<char>, b: Seq<char>) -> bool {
    a == b || text_before(a, b)
}

/// Each text of the sequence comes strictly before every later one.
pub open spec fn ascending(texts: Seq<Seq<char>>) -> bool {
    forall|i: int, j: int| 0 <= i < j < texts.len() ==> text_before(texts[i], texts[j])
}

/// The texts of a finite set, in ascending order.
pub open spec fn in_order(texts: Set<Seq<char>>) -> Seq<Seq<char>> {
    texts.to_seq().sort_by(|a: Seq<char>, b: Seq<char>| text_up_to(a, b))
}

proof fn lemma_bytes_irreflexive(a: Seq<u8>)
    ensures
        !bytes_before(a, a),
    decreases a.len(),
{
    if a.len() > 0 {
        lemma_bytes_irreflexive(a.drop_first());
    }
}

proof fn lemma_bytes_transitive(a: Seq<u8>, b: Seq<u8>, c: Seq<u8>)
    requires
        bytes_before(a, b),
        bytes_before(b, c),
    ensures
        bytes_before(a, c),
    decreases a.len(),
{
    if a.len() > 0 && b.len() > 0 && c.len() > 0 && a[0] == b[0] && b[0] == c[0] {
        lemma_bytes_transitive(a.drop_first(), b.drop_first(), c.drop_first());
    }
}

proof fn lemma_bytes_total(a: Seq<u8>, b: Seq<u8>)
    ensures
        bytes_before(a, b) || bytes_before(b, a) || a == b,
    decreases a.len(),
{
    if a.len() > 0 && b.len() > 0 && a[0] == b[0] {
        lemma_bytes_total(a.drop_first(), b.drop_first());
        if a.drop_first() == b.drop_first() {
            assert(a =~= seq![a[0]] + a.drop_first());
            assert(b =~= seq![b[0]] + b.drop_first());
        }
    } else if a.len() == 0 && b.len() == 0 {
        assert(a =~= b);
    }
}

/// A common prefix does not affect the order of two byte strings.
proof fn lemma_bytes_skip(a: Seq<u8>, b: Seq<u8>, n: int)
    requires
        0 <= n <= a.len(),
        n <= b.len(),
        a.take(n) == b.take(n),
    ensures
        bytes_before(a, b) == bytes_before(a.skip(n), b.skip(n)),
    decreases n,
{
    if n == 0 {
        assert(a.skip(0) =~= a);
        assert(b.skip(0) =~= b);
    } else {
        assert(a[0] == a.take(n)[0]);
        assert(b[0] == b.take(n)[0]);
        assert(a.drop_first().take(n - 1) =~= a.take(n).drop_first());
        assert(b.drop_first().take(n - 1) =~= b.take(n).drop_first());
        lemma_bytes_skip(a.drop_first(), b.drop_first(), n - 1);
        assert(a.drop_first().skip(n - 1) =~= a.skip(n));
        assert(b.drop_first().skip(n - 1) =~= b.skip(n));
    }
}

proof fn lemma_bytes_differ(a: Seq<u8>, b: Seq<u8>)
    ensures
        bytes_before(a, b) <==> exists|n: int|
            0 <= n <= a.len() && n < b.len() && #[trigger] a.take(n) == b.take(n) && (n == a.len()
                || a[n] < b[n]),
    decreases a.len(),
{
    if exists|n: int|
        0 <= n <= a.len() && n < b.len() && #[trigger] a.take(n) == b.take(n) && (n == a.len()
            || a[n] < b[n]) {
        let n = choose|n: int|
            0 <= n <= a.len() && n < b.len() && #[trigger] a.take(n) == b.take(n) && (n == a.len()
                || a[n] < b[n]);
        lemma_bytes_skip(a, b, n);
        assert(b.skip(n)[0] == b[n]);
        if n < a.len() {
            assert(a.skip(n)[0] == a[n]);
        }
    }
    if bytes_before(a, b) {
        if a.len() == 0 || a[0] != b[0] {
            assert(a.take(0) =~= b.take(0));
        } else {
            let c = a.drop_first();
            let d = b.drop_first();
            lemma_bytes_differ(c, d);
            let n = choose|n: int|
                0 <= n <= c.len() && n < d.len() && #[trigger] c.take(n) == d.take(n) && (n
                    == c.len() || c[n] < d[n]);
            assert(a.take(n + 1) =~= seq![a[0]] + c.take(n));
            assert(b.take(n + 1) =~= seq![b[0]] + d.take(n));
            assert(a.take(n + 1) == b.take(n + 1));
        }
    }
}

/// A text comes before another where, at the first byte in which they differ,
/// it has the smaller one or has ended.
pub proof fn law_order_is_by_bytes(a: Seq<char>, b: Seq<char>)
    ensures
        text_before(a, b) <==> exists|n: int|
            0 <= n <= encode_utf8(a).len() && n < encode_utf8(b).len()
                && #[trigger] encode_utf8(a).take(n) == encode_utf8(b).take(n) && (n
                == encode_utf8(a).len() || encode_utf8(a)[n] < encode_utf8(b)[n]),
{
    lemma_bytes_differ(encode_utf8(a), encode_utf8(b));
}

/// No text comes before itself.
pub proof fn law_order_irreflexive(a: Seq<char>)
    ensures
        !text_before(a, a),
{
    lemma_bytes_irreflexive(encode_utf8(a));
}

/// The order of texts is transitive.
pub proof fn law_order_transitive(a: Seq<char>, b: Seq<char>, c: Seq<char>)
    requires
        text_before(a, b),
        text_before(b, c),
    ensures
        text_before(a, c),
{
    lemma_bytes_transitive(encode_utf8(a), encode_utf8(b), encode_utf8(c));
}

/// Of two different texts, one comes before the other.
pub proof fn law_order_total(a: Seq<char>, b: Seq<char>)
    ensures
        text_before(a, b) || text_before(b, a) || a == b,
{
    lemma_bytes_total(encode_utf8(a), encode_utf8(b));
    lemma_encoding_injective(a, b);
}

/// Different texts have different encodings.
pub proof fn lemma_encoding_injective(a: Seq<char>, b: Seq<char>)
    ensures
        encode_utf8(a) == encode_utf8(b) ==> a == b,
{
    vstd::utf8::encode_utf8_decode_utf8(a);
    vstd::utf8::encode_utf8_decode_utf8(b);
}

pub proof fn lemma_text_up_to_is_total_ordering()
    ensures
        total_ordering(|a: Seq<char>, b: Seq<char>| text_up_to(a, b)),
{
    let leq = |a: Seq<char>, b: Seq<char>| text_up_to(a, b);
    assert forall|a: Seq<char>, b: Seq<char>| #[trigger] leq(a, b) && #[trigger] leq(b, a) implies a
        == b by {
        if a != b {
            law_order_transitive(a, b, a);
            law_order_irreflexive(a);
        }
    }
    assert forall|a: Seq<char>, b: Seq<char>, c: Seq<char>| #[trigger]
        leq(a, b) && #[trigger] leq(b, c) implies leq(a, c) by {
        if a != b && b != c {
            law_order_transitive(a, b, c);
        }
    }
    assert forall|a: Seq<char>, b: Seq<char>| #[trigger] leq(a, b) || #[trigger] leq(b, a) by {
        law_order_total(a, b);
    }
}

/// An ascending sequence lists nothing twice.
pub proof fn lemma_ascending_no_duplicates(s: Seq<Seq<char>>)
    requires
        ascending(s),
    ensures
        s.no_duplicates(),
{
    assert forall|i: int, j: int| 0 <= i < s.len() && 0 <= j < s.len() && i != j implies s[i]
        != s[j] by {
        if i < j {
            assert(text_before(s[i], s[j]));
        } else {
            assert(text_before(s[j], s[i]));
        }
        law_order_irreflexive(s[i]);
    }
}

/// Two ascending sequences of the same texts are the same sequence.
pub proof fn lemma_ascending_unique(a: Seq<Seq<char>>, b: Seq<Seq<char>>)
    requires
        ascending(a),
        ascending(b),
        forall|t: Seq<char>| a.contains(t) <==> b.contains(t),
    ensures
        a == b,
    decreases a.len(),
{
    if a.len() == 0 {
        if b.len() > 0 {
            assert(b.contains(b[0]));
        }
        assert(a =~= b);
    } else {
        let x = a.last();
        assert(a.contains(x));
        assert(b.contains(x));
        let y = b.last();
        assert(b.contains(y));
        assert(a.contains(y));
        let i = choose|i: int| 0 <= i < b.len() && b[i] == x;
        let j = choose|j: int| 0 <= j < a.len() && a[j] == y;
        if x != y {
            assert(text_before(b[i], b[b.len() - 1]));
            assert(text_before(a[j], a[a.len() - 1]));
            law_order_transitive(x, y, x);
            law_order_irreflexive(x);
        }
        lemma_ascending_no_duplicates(a);
        lemma_ascending_no_duplicates(b);
        let a1 = a.drop_last();
        let b1 = b.drop_last();
        assert forall|t: Seq<char>| a1.contains(t) <==> b1.contains(t) by {
            if a1.contains(t) {
                let k = choose|k: int| 0 <= k < a1.len() && a1[k] == t;
                assert(a[k] == t);
                assert(t != x);
                assert(b.contains(t));
                let l = choose|l: int| 0 <= l < b.len() && b[l] == t;
                assert(b1[l] == t);
            }
            if b1.contains(t) {
                let k = choose|k: int| 0 <= k < b1.len() && b1[k] == t;
                assert(b[k] == t);
                assert(t != y);
                assert(a.contains(t));
                let l = choose|l: int| 0 <= l < a.len() && a[l] == t;
                assert(a1[l] == t);
            }
        }
        lemma_ascending_unique(a1, b1);
        assert(a =~= a1.push(x));
        assert(b =~= b1.push(y));
    }
}

proof fn lemma_listing_no_duplicates(texts: Set<Seq<char>>)
    requires
        texts.finite(),
    ensures
        texts.to_seq().no_duplicates(),
        texts.to_seq().len() == texts.len(),
    decreases texts.len(),
{
    if texts.len() > 0 {
        let x = texts.choose();
        let rest = texts.remove(x);
        lemma_listing_no_duplicates(rest);
        rest.lemma_to_seq_to_set_id();
        assert(!rest.to_seq().contains(x)) by {
            assert(!rest.to_seq().to_set().contains(x));
        }
    }
}

/// `in_order` lists the texts of the set, each once, in ascending order.
pub proof fn lemma_in_order(texts: Set<Seq<char>>)
    requires
        texts.finite(),
    ensures
        ascending(in_order(texts)),
        in_order(texts).len() == texts.len(),
        forall|t: Seq<char>| in_order(texts).contains(t) <==> texts.contains(t),
{
    broadcast use vstd::seq_lib::group_to_multiset_ensures;

    let leq = |a: Seq<char>, b: Seq<char>| text_up_to(a, b);
    let plain = texts.to_seq();
    let sorted = in_order(texts);
    lemma_text_up_to_is_total_ordering();
    plain.lemma_sort_by_ensures(leq);
    lemma_listing_no_duplicates(texts);
    texts.lemma_to_seq_to_set_id();
    plain.lemma_multiset_has_no_duplicates();
    sorted.lemma_multiset_has_no_duplicates_conv();
    assert(sorted.len() == sorted.to_multiset().len());
    assert(plain.len() == plain.to_multiset().len());
    assert forall|t: Seq<char>| sorted.contains(t) <==> texts.contains(t) by {
        assert(sorted.contains(t) <==> sorted.to_multiset().count(t) > 0);
        assert(plain.contains(t) <==> plain.to_multiset().count(t) > 0);
        assert(plain.to_set().contains(t) <==> plain.contains(t));
    }
    assert forall|i: int, j: int| 0 <= i < j < sorted.len() implies text_before(
        sorted[i],
        sorted[j],
    ) by {
        assert(leq(sorted[i], sorted[j]));
    }
}

/// The ascending sequence that lists exactly the texts of a set is `in_order` of it.
pub proof fn lemma_in_order_unique(texts: Set<Seq<char>>, s: Seq<Seq<char>>)
    requires
        ascending(s),
        forall|t: Seq<char>| s.contains(t) <==> texts.contains(t),
    ensures
        texts.finite(),
        s == in_order(texts),
{
    assert(texts =~= s.to_set());
    vstd::seq_lib::seq_to_set_is_finite(s);
    lemma_in_order(texts);
    lemma_ascending_unique(s, in_order(texts));
}

/// Compares two texts by their bytes.
pub fn rank(a: &str, b: &str) -> (r: Rank)
    ensures
        match r {
            Rank::Before => text_before(a@, b@),
            Rank::Same => a@ == b@,
            Rank::After => text_before(b@, a@),
        },
{
    let x = a.as_bytes();
    let y = b.as_bytes();
    let mut i: usize = 0;
    while i < x.len() && i < y.len()
        invariant
            x@ == encode_utf8(a@),
            y@ == encode_utf8(b@),
            i <= x.len(),
            i <= y.len(),
            x@.take(i as int) == y@.take(i as int),
        decreases x.len() - i,
    {
        proof {
            lemma_bytes_skip(x@, y@, i as int);
            lemma_bytes_skip(y@, x@, i as int);
        }
        if x[i] < y[i] {
            return Rank::Before;
        }
        if y[i] < x[i] {
            return Rank::After;
        }
        assert(x@.take(i + 1) =~= x@.take(i as int).push(x@[i as int]));
        assert(y@.take(i + 1) =~= y@.take(i as int).push(y@[i as int]));
        i += 1;
    }
    proof {
        lemma_bytes_skip(x@, y@, i as int);
        lemma_bytes_skip(y@, x@, i as int);
    }
    if i < y.len() {
        Rank::Before
    } else if i < x.len() {
        Rank::After
    } else {
        assert(x@ =~= x@.take(i as int));
        assert(y@ =~= y@.take(i as int));
        proof {
            lemma_encoding_injective(a@, b@);
        }
        Rank::Same
    }
}

} // verus!
