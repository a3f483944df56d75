//! Cutting texts into pieces.

use vstd::prelude::*;
use vstd::std_specs::iter::IteratorSpec;
use vstd::string::StringSliceAdditionalSpecFns;
use vstd::utf8::{
    char_is_scalar, encode_scalar, encode_utf8, encode_utf8_first_scalar, encode_utf8_valid_utf8,
    is_char_boundary, is_char_boundary_start_end_of_seq, pop_first_scalar,
};
use crate::collation::lemma_encoding_injective;

verus! {

/// The bytes of a text are the bytes of its pieces, one after the other.
pub proof fn lemma_encode_concat(a: Seq<char>, b: Seq<char>)
    ensures
        encode_utf8(a + b) == encode_utf8(a) + encode_utf8(b),
    decreases a.len(),
{
    if a.len() == 0 {
        assert(a + b =~= b);
        assert(encode_utf8(a) + encode_utf8(b) =~= encode_utf8(b));
    } else {
        lemma_encode_concat(a.drop_first(), b);
        assert((a + b).drop_first() =~= a.drop_first() + b);
        assert(encode_utf8(a + b) =~= encode_utf8(a) + encode_utf8(b));
    }
}

/// Between two characters the bytes can be cut.
proof fn lemma_boundary(s: Seq<char>, k: int)
    requires
        0 <= k <= s.len(),
    ensures
        is_char_boundary(encode_utf8(s), encode_utf8(s.take(k)).len() as int),
    decreases k,
{
    encode_utf8_valid_utf8(s);
    let bytes = encode_utf8(s);
    if k == 0 {
        is_char_boundary_start_end_of_seq(bytes);
    } else {
        encode_utf8_first_scalar(s);
        let rest = s.drop_first();
        assert(pop_first_scalar(bytes) =~= encode_utf8(rest));
        lemma_boundary(rest, k - 1);
        assert(s.take(k).drop_first() =~= rest.take(k - 1));
        assert(s.take(k)[0] == s[0]);
        lemma_encode_concat(s.take(k), s.skip(k));
        assert(s.take(k) + s.skip(k) =~= s);
    }
}

/// The number of bytes of a character.
fn width(c: char) -> (n: usize)
    ensures
        n == encode_scalar(c as u32).len(),
{
    proof {
        char_is_scalar(c);
    }
    let v: u32 = c as u32;
    if v < 0x80 {
        1
    } else if v < 0x800 {
        2
    } else if v < 0x10000 {
        3
    } else {
        4
    }
}

/// Cuts a text behind its first `k` characters.
pub fn cut(s: &str, k: usize) -> (r: (&str, &str))
    requires
        k <= s@.len(),
    ensures
        r.0@ == s@.take(k as int),
        r.1@ == s@.skip(k as int),
{
    let total: usize = s.as_bytes().len();
    let mut chars = s.chars();
    assert(chars.remaining() =~= s@.skip(0));
    let mut i: usize = 0;
    let mut offset: usize = 0;
    while i < k
        invariant
            i <= k,
            k <= s@.len(),
            total == encode_utf8(s@).len(),
            chars.remaining() == s@.skip(i as int),
            offset == encode_utf8(s@.take(i as int)).len(),
        decreases k - i,
    {
        let c: char = chars.next().unwrap();
        proof {
            let head = s@.take(i as int);
            assert(c == s@[i as int]);
            assert(s@.skip(i as int).drop_first() =~= s@.skip(i + 1));
            assert(s@.take(i + 1) =~= head + seq![c]);
            lemma_encode_concat(head, seq![c]);
            assert(encode_utf8(seq![c]) =~= encode_scalar(c as u32)) by {
                assert(seq![c].drop_first() =~= Seq::empty());
                assert(encode_utf8(Seq::<char>::empty()) =~= Seq::empty());
            }
            lemma_encode_concat(s@.take(i + 1), s@.skip(i + 1));
            assert(s@.take(i + 1) + s@.skip(i + 1) =~= s@);
        }
        offset = offset + width(c);
        i += 1;
    }
    let ghost head = s@.take(k as int);
    let ghost tail = s@.skip(k as int);
    proof {
        lemma_boundary(s@, k as int);
        lemma_encode_concat(head, tail);
        assert(head + tail =~= s@);
    }
    let parts = s.split_at(offset);
    proof {
        assert(encode_utf8(parts.0@) =~= encode_utf8(head));
        assert(encode_utf8(parts.1@) =~= encode_utf8(tail));
        lemma_encoding_injective(parts.0@, head);
        lemma_encoding_injective(parts.1@, tail);
    }
    parts
}

/// The pattern stands in the text at a position.
pub open spec fn occurs_at(s: Seq<char>, pattern: Seq<char>, p: int) -> bool {
    &&& 0 <= p
    &&& p + pattern.len() <= s.len()
    &&& s.subrange(p, p + pattern.len()) == pattern
}

/// The pattern stands somewhere in the text.
pub open spec fn contains_text(s: Seq<char>, pattern: Seq<char>) -> bool {
    exists|p: int| occurs_at(s, pattern, p)
}

/// The first position, from `from` on, at which the pattern stands.
pub open spec fn position_from(s: Seq<char>, pattern: Seq<char>, from: int) -> Option<int>
    decreases s.len() + 1 - from,
{
    if from + pattern.len() > s.len() {
        None
    } else if occurs_at(s, pattern, from) {
        Some(from)
    } else {
        position_from(s, pattern, from + 1)
    }
}

/// The first position at which the pattern stands.
pub open spec fn position(s: Seq<char>, pattern: Seq<char>) -> Option<int> {
    position_from(s, pattern, 0)
}

/// The pieces of a text between the places where the pattern stands, from left
/// to right.
pub open spec fn split(s: Seq<char>, pattern: Seq<char>) -> Seq<Seq<char>>
    decreases s.len(),
    when pattern.len() > 0
{
    proof {
        lemma_position_from(s, pattern, 0);
    }
    match position(s, pattern) {
        Some(p) => seq![s.take(p)] + split(s.skip(p + pattern.len()), pattern),
        None => seq![s],
    }
}

/// The characters that count as white space.
pub open spec fn is_space(c: char) -> bool {
    let v = c as u32;
    ||| 0x09 <= v <= 0x0d
    ||| v == 0x20
    ||| v == 0x85
    ||| v == 0xa0
    ||| v == 0x1680
    ||| 0x2000 <= v <= 0x200a
    ||| v == 0x2028
    ||| v == 0x2029
    ||| v == 0x202f
    ||| v == 0x205f
    ||| v == 0x3000
}

/// The text without white space at its start.
pub open spec fn trimmed_start(s: Seq<char>) -> Seq<char>
    decreases s.len(),
{
    if s.len() > 0 && is_space(s[0]) {
        trimmed_start(s.drop_first())
    } else {
        s
    }
}

/// The text without white space at its end.
pub open spec fn trimmed_end(s: Seq<char>) -> Seq<char>
    decreases s.len(),
{
    if s.len() > 0 && is_space(s.last()) {
        trimmed_end(s.drop_last())
    } else {
        s
    }
}

/// The text without white space at either end.
pub open spec fn trimmed(s: Seq<char>) -> Seq<char> {
    trimmed_end(trimmed_start(s))
}

/// A found position is the first at which the pattern stands; where none is
/// found, the pattern stands nowhere.
pub proof fn lemma_position_from(s: Seq<char>, pattern: Seq<char>, from: int)
    requires
        0 <= from,
    ensures
        match position_from(s, pattern, from) {
            Some(p) => {
                &&& from <= p
                &&& occurs_at(s, pattern, p)
                &&& forall|q: int| from <= q < p ==> !#[trigger] occurs_at(s, pattern, q)
            },
            None => forall|q: int| from <= q ==> !#[trigger] occurs_at(s, pattern, q),
        },
    decreases s.len() + 1 - from,
{
    if from + pattern.len() <= s.len() && !occurs_at(s, pattern, from) {
        lemma_position_from(s, pattern, from + 1);
    }
}

/// A pattern has its first position where it stands and does not stand before.
pub proof fn lemma_position_is(s: Seq<char>, pattern: Seq<char>, from: int, p: int)
    requires
        0 <= from <= p,
        occurs_at(s, pattern, p),
        forall|q: int| from <= q < p ==> !#[trigger] occurs_at(s, pattern, q),
    ensures
        position_from(s, pattern, from) == Some(p),
{
    lemma_position_from(s, pattern, from);
    match position_from(s, pattern, from) {
        Some(q) => {
            if q < p {
                assert(!occurs_at(s, pattern, q));
            }
            if p < q {
                assert(!occurs_at(s, pattern, p));
            }
        },
        None => {
            assert(!occurs_at(s, pattern, p));
        },
    }
}

/// A text contains a pattern exactly if the pattern has a first position in it.
pub proof fn lemma_contains_text(s: Seq<char>, pattern: Seq<char>)
    ensures
        contains_text(s, pattern) <==> position(s, pattern) is Some,
{
    lemma_position_from(s, pattern, 0);
    if contains_text(s, pattern) {
        let p = choose|p: int| occurs_at(s, pattern, p);
        assert(occurs_at(s, pattern, p));
    }
}

/// The characters of a text.
pub fn chars_of(s: &str) -> (chars: Vec<char>)
    ensures
        chars@ == s@,
{
    let mut chars: Vec<char> = Vec::new();
    for c in it: s.chars()
        invariant
            chars@ == s@.take(it.index()),
            it.seq() == s@,
    {
        assert(s@.take(it.index() + 1) =~= s@.take(it.index()).push(c));
        chars.push(c);
    }
    assert(s@.take(s@.len() as int) =~= s@);
    chars
}

/// Whether the pattern stands at a position.
fn stands_at(s: &Vec<char>, pattern: &Vec<char>, p: usize) -> (b: bool)
    requires
        p + pattern.len() <= s.len(),
    ensures
        b == occurs_at(s@, pattern@, p as int),
{
    let mut k: usize = 0;
    while k < pattern.len()
        invariant
            k <= pattern.len(),
            p + pattern.len() <= s.len(),
            forall|j: int| 0 <= j < k ==> s[p + j] == #[trigger] pattern[j],
        decreases pattern.len() - k,
    {
        if s[p + k] != pattern[k] {
            assert(s@.subrange(p as int, p + pattern.len())[k as int] != pattern@[k as int]);
            return false;
        }
        k += 1;
    }
    assert(s@.subrange(p as int, p + pattern.len()) =~= pattern@);
    true
}

/// The first position of a pattern in a text.
pub fn find(s: &Vec<char>, pattern: &Vec<char>) -> (r: Option<usize>)
    ensures
        match r {
            Some(p) => position(s@, pattern@) == Some(p as int) && p + pattern.len() <= s.len(),
            None => position(s@, pattern@) is None,
        },
{
    if pattern.len() > s.len() {
        return None;
    }
    let last: usize = s.len() - pattern.len();
    let mut p: usize = 0;
    while p < last
        invariant
            last + pattern.len() == s.len(),
            p <= last,
            forall|q: int| 0 <= q < p ==> !#[trigger] occurs_at(s@, pattern@, q),
        decreases last - p,
    {
        if stands_at(s, pattern, p) {
            proof {
                lemma_position_is(s@, pattern@, 0, p as int);
            }
            return Some(p);
        }
        p += 1;
    }
    if stands_at(s, pattern, last) {
        proof {
            lemma_position_is(s@, pattern@, 0, last as int);
        }
        return Some(last);
    }
    proof {
        lemma_position_from(s@, pattern@, 0);
    }
    None
}

/// Cuts a text at the first place where the pattern stands; the pattern itself
/// falls away.
pub fn split_once<'a>(s: &'a str, pattern: &str) -> (r: Option<(&'a str, &'a str)>)
    ensures
        match r {
            Some(parts) => position(s@, pattern@) matches Some(p) && parts.0@ == s@.take(p)
                && parts.1@ == s@.skip(p + pattern@.len()),
            None => position(s@, pattern@) is None,
        },
{
    let chars = chars_of(s);
    let sought = chars_of(pattern);
    match find(&chars, &sought) {
        Some(p) => {
            let (head, from_pattern) = cut(s, p);
            let (_, tail) = cut(from_pattern, sought.len());
            assert(s@.skip(p as int).skip(pattern@.len() as int) =~= s@.skip(p + pattern@.len()));
            Some((head, tail))
        },
        None => None,
    }
}

/// Whether a character counts as white space.
fn is_blank(c: char) -> (b: bool)
    ensures
        b == is_space(c),
{
    let v: u32 = c as u32;
    (0x09 <= v && v <= 0x0d) || v == 0x20 || v == 0x85 || v == 0xa0 || v == 0x1680 || (0x2000 <= v
        && v <= 0x200a) || v == 0x2028 || v == 0x2029 || v == 0x202f || v == 0x205f || v == 0x3000
}

pub proof fn lemma_trimmed_start(s: Seq<char>, i: int)
    requires
        0 <= i <= s.len(),
        forall|k: int| 0 <= k < i ==> is_space(#[trigger] s[k]),
        i < s.len() ==> !is_space(s[i]),
    ensures
        trimmed_start(s) == s.skip(i),
    decreases i,
{
    if i == 0 {
        assert(s.skip(0) =~= s);
    } else {
        let rest = s.drop_first();
        assert(is_space(s[0]));
        assert forall|k: int| 0 <= k < i - 1 implies is_space(#[trigger] rest[k]) by {
            assert(is_space(s[k + 1]));
        }
        lemma_trimmed_start(rest, i - 1);
        assert(rest.skip(i - 1) =~= s.skip(i));
    }
}

pub proof fn lemma_trimmed_end(s: Seq<char>, j: int)
    requires
        0 <= j <= s.len(),
        forall|k: int| j <= k < s.len() ==> is_space(#[trigger] s[k]),
        j > 0 ==> !is_space(s[j - 1]),
    ensures
        trimmed_end(s) == s.take(j),
    decreases s.len() - j,
{
    if j == s.len() {
        assert(s.take(j) =~= s);
    } else {
        let rest = s.drop_last();
        assert(is_space(s[s.len() - 1]));
        assert forall|k: int| j <= k < rest.len() implies is_space(#[trigger] rest[k]) by {
            assert(is_space(s[k]));
        }
        lemma_trimmed_end(rest, j);
        assert(rest.take(j) =~= s.take(j));
    }
}

/// The text without white space at either end.
pub fn trim(s: &str) -> (r: &str)
    ensures
        r@ == trimmed(s@),
{
    let chars = chars_of(s);
    let n: usize = chars.len();
    let mut i: usize = 0;
    while i < n && is_blank(chars[i])
        invariant
            n == chars.len(),
            i <= n,
            forall|k: int| 0 <= k < i ==> is_space(#[trigger] chars@[k]),
        decreases n - i,
    {
        i += 1;
    }
    let mut j: usize = n;
    while j > i && is_blank(chars[j - 1])
        invariant
            n == chars.len(),
            i <= j <= n,
            forall|k: int| j <= k < n ==> is_space(#[trigger] chars@[k]),
        decreases j,
    {
        j -= 1;
    }
    let (head, _) = cut(s, j);
    let (_, middle) = cut(head, i);
    proof {
        lemma_trimmed_start(s@, i as int);
        let rest = s@.skip(i as int);
        assert forall|k: int| j - i <= k < rest.len() implies is_space(#[trigger] rest[k]) by {
            assert(is_space(s@[k + i]));
        }
        lemma_trimmed_end(rest, j - i);
        assert(rest.take(j - i) =~= s@.take(j as int).skip(i as int));
    }
    middle
}

/// The mark that ends a line.
pub open spec fn newline() -> Seq<char> {
    seq!['\n']
}

/// The lines of a text.
pub open spec fn lines(s: Seq<char>) -> Seq<Seq<char>> {
    split(s, newline())
}

/// The first line of a text, and what follows it, if it is ended.
fn first_line(s: &str) -> (r: (&str, Option<&str>))
    ensures
        match r.1 {
            Some(rest) => position(s@, newline()) matches Some(p) && r.0@ == s@.take(p) && rest@
                == s@.skip(p + 1),
            None => position(s@, newline()) is None && r.0@ == s@,
        },
{
    let mut chars = s.chars();
    assert(chars.remaining() =~= s@.skip(0));
    let mut p: usize = 0;
    let total: usize = s.as_bytes().len();
    proof {
        lemma_at_most_bytes(s@);
    }
    loop
        invariant
            p <= s@.len() <= total,
            chars.remaining() == s@.skip(p as int),
            IteratorSpec::decrease(&chars) is Some,
            forall|q: int| 0 <= q < p ==> !#[trigger] occurs_at(s@, newline(), q),
        decreases s@.len() - p,
    {
        match chars.next() {
            Some(c) => {
                proof {
                    assert(c == s@[p as int]);
                    assert(s@.skip(p as int).drop_first() =~= s@.skip(p + 1));
                    assert(s@.subrange(p as int, p + 1) =~= seq![c]);
                    assert(seq![c][0] == c);
                    assert(newline()[0] == '\n');
                }
                if c == '\n' {
                    proof {
                        lemma_position_is(s@, newline(), 0, p as int);
                    }
                    let (line, from_end) = cut(s, p);
                    let (_, rest) = cut(from_end, 1);
                    assert(s@.skip(p as int).skip(1) =~= s@.skip(p + 1));
                    return (line, Some(rest));
                }
                p += 1;
            },
            None => {
                proof {
                    lemma_position_from(s@, newline(), 0);
                }
                return (s, None);
            },
        }
    }
}

/// A text has at least as many bytes as characters.
proof fn lemma_at_most_bytes(s: Seq<char>)
    ensures
        s.len() <= encode_utf8(s).len(),
    decreases s.len(),
{
    if s.len() > 0 {
        lemma_at_most_bytes(s.drop_first());
    }
}

/// The texts of slices.
pub open spec fn slices(strs: Seq<&str>) -> Seq<Seq<char>> {
    strs.map_values(|s: &str| s@)
}

/// The lines of a text.
pub fn lines_of(s: &str) -> (ls: Vec<&str>)
    ensures
        slices(ls@) == lines(s@),
{
    let mut ls: Vec<&str> = Vec::new();
    let mut rest: &str = s;
    assert(slices(ls@) + lines(rest@) =~= lines(s@));
    loop
        invariant
            slices(ls@) + lines(rest@) == lines(s@),
        decreases rest@.len(),
    {
        let (line, behind) = first_line(rest);
        let ghost so_far = slices(ls@);
        ls.push(line);
        assert(slices(ls@) =~= so_far.push(line@));
        match behind {
            Some(following) => {
                proof {
                    lemma_position_from(rest@, newline(), 0);
                    assert(slices(ls@) + lines(following@) =~= so_far + lines(rest@));
                }
                rest = following;
            },
            None => {
                assert(slices(ls@) =~= so_far + lines(rest@));
                return ls;
            },
        }
    }
}

} // verus!
