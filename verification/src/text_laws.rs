//! Searching, trimming and splitting, in terms of the texts alone.

use vstd::prelude::*;
use crate::casing::{ascii_lowercase, ascii_lowered};
use crate::cutting::{
    contains_text, is_space, lemma_contains_text, lemma_position_from, lemma_position_is, lemma_trimmed_end,
    lemma_trimmed_start, lines, occurs_at, position, slices, split, trimmed,
};
use crate::document_laws::lemma_lines_joined;
use crate::text::decimal;

verus! {

/// A text contains a pattern where it is the pattern with something before and
/// something behind it.
pub proof fn law_contained_text_has_two_sides(s: Seq<char>, pattern: Seq<char>)
    ensures
        contains_text(s, pattern) <==> exists|a: Seq<char>, b: Seq<char>|
            s == #[trigger] (a + pattern + b),
{
    if contains_text(s, pattern) {
        let p = choose|p: int| occurs_at(s, pattern, p);
        let a = s.take(p);
        let b = s.skip(p + pattern.len());
        assert(s.subrange(p, p + pattern.len()) == pattern);
        assert(s =~= a + pattern + b) by {
            assert forall|i: int| 0 <= i < s.len() implies s[i] == (a + pattern + b)[i] by {
                if p <= i < p + pattern.len() {
                    assert(s.subrange(p, p + pattern.len())[i - p] == s[i]);
                }
            }
        }
    }
    if exists|a: Seq<char>, b: Seq<char>| s == #[trigger] (a + pattern + b) {
        let (a, b) = choose|a: Seq<char>, b: Seq<char>| s == #[trigger] (a + pattern + b);
        let p = a.len() as int;
        assert(s.subrange(p, p + pattern.len()) =~= pattern);
        assert(occurs_at(s, pattern, p));
    }
}

/// The position of a pattern is the first at which it can be cut out.
pub proof fn law_position_is_the_first(before: Seq<char>, pattern: Seq<char>, behind: Seq<char>)
    requires
        forall|p: int|
            0 <= p < before.len() ==> #[trigger] (before + pattern).subrange(p, p + pattern.len())
                != pattern,
    ensures
        position(before + pattern + behind, pattern) == Some(before.len() as int),
{
    let all = before + pattern + behind;
    let n = before.len() as int;
    assert(all.subrange(n, n + pattern.len()) =~= pattern);
    assert forall|q: int| 0 <= q < n implies !#[trigger] occurs_at(all, pattern, q) by {
        assert(all.subrange(q, q + pattern.len()) =~= (before + pattern).subrange(
            q,
            q + pattern.len(),
        ));
    }
    lemma_position_is(all, pattern, 0, n);
}

/// A pattern has a position where the text contains it.
pub proof fn law_position_of_what_is_contained(s: Seq<char>, pattern: Seq<char>)
    ensures
        position(s, pattern) is Some <==> exists|a: Seq<char>, b: Seq<char>|
            s == #[trigger] (a + pattern + b),
{
    lemma_contains_text(s, pattern);
    law_contained_text_has_two_sides(s, pattern);
}

/// Lists of slices are seen item by item.
pub proof fn law_slices_are_seen_whole(strs: Seq<&str>, k: int)
    ensures
        slices(strs).len() == strs.len(),
        0 <= k < strs.len() ==> slices(strs)[k] == strs[k]@,
{
}

/// The characters that count as white space.
pub proof fn law_white_space(c: char)
    ensures
        is_space(c) <==> (c == '\t' || c == '\n' || c == '\u{b}' || c == '\u{c}' || c == '\r' || c
            == ' ' || c == '\u{85}' || c == '\u{a0}' || c == '\u{1680}' || ('\u{2000}' <= c
            <= '\u{200a}') || c == '\u{2028}' || c == '\u{2029}' || c == '\u{202f}' || c
            == '\u{205f}' || c == '\u{3000}'),
{
}

/// Trimming takes white space off both ends, all of it, and nothing else.
pub proof fn law_trimming_takes_white_space_off(
    before: Seq<char>,
    core: Seq<char>,
    behind: Seq<char>,
)
    requires
        forall|i: int| 0 <= i < before.len() ==> is_space(#[trigger] before[i]),
        forall|i: int| 0 <= i < behind.len() ==> is_space(#[trigger] behind[i]),
        core.len() > 0 ==> !is_space(core[0]) && !is_space(core.last()),
    ensures
        trimmed(before + core + behind) == core,
{
    let all = before + core + behind;
    if core.len() > 0 {
        let i = before.len() as int;
        assert forall|k: int| 0 <= k < i implies is_space(#[trigger] all[k]) by {
            assert(all[k] == before[k]);
        }
        assert(all[i] == core[0]);
        lemma_trimmed_start(all, i);
        let rest = all.skip(i);
        assert(rest =~= core + behind);
        let j = core.len() as int;
        assert forall|k: int| j <= k < rest.len() implies is_space(#[trigger] rest[k]) by {
            assert(rest[k] == behind[k - j]);
        }
        assert(rest[j - 1] == core.last());
        lemma_trimmed_end(rest, j);
        assert(rest.take(j) =~= core);
    } else {
        assert forall|k: int| 0 <= k < all.len() implies is_space(#[trigger] all[k]) by {
            if k < before.len() {
                assert(all[k] == before[k]);
            } else {
                assert(all[k] == behind[k - before.len()]);
            }
        }
        lemma_trimmed_start(all, all.len() as int);
        assert(all.skip(all.len() as int) =~= Seq::empty());
        assert(core =~= Seq::empty());
        lemma_trimmed_end(core, 0);
        assert(core.take(0) =~= core);
    }
}

/// Every text has a core that trimming leaves, between white space.
pub proof fn law_trimmed_text_is_a_core(s: Seq<char>)
    ensures
        exists|a: Seq<char>, b: Seq<char>|
            s == #[trigger] (a + trimmed(s) + b) && (forall|i: int|
                0 <= i < a.len() ==> is_space(#[trigger] a[i])) && (forall|i: int|
                0 <= i < b.len() ==> is_space(#[trigger] b[i])),
        trimmed(s).len() > 0 ==> !is_space(trimmed(s)[0]) && !is_space(trimmed(s).last()),
{
    let i = lemma_leading(s, 0);
    lemma_trimmed_start(s, i);
    let rest = s.skip(i);
    let j = lemma_trailing(rest, rest.len() as int);
    lemma_trimmed_end(rest, j);
    let a = s.take(i);
    let b = rest.skip(j);
    assert(s =~= a + trimmed(s) + b);
    assert forall|k: int| 0 <= k < b.len() implies is_space(#[trigger] b[k]) by {
        assert(is_space(rest[j + k]));
    }
    if trimmed(s).len() > 0 {
        assert(trimmed(s)[0] == s[i]);
        assert(trimmed(s).last() == rest[j - 1]);
    }
}

proof fn lemma_leading(s: Seq<char>, from: int) -> (i: int)
    requires
        0 <= from <= s.len(),
        forall|k: int| 0 <= k < from ==> is_space(#[trigger] s[k]),
    ensures
        from <= i <= s.len(),
        forall|k: int| 0 <= k < i ==> is_space(#[trigger] s[k]),
        i < s.len() ==> !is_space(s[i]),
    decreases s.len() - from,
{
    if from < s.len() && is_space(s[from]) {
        lemma_leading(s, from + 1)
    } else {
        from
    }
}

proof fn lemma_trailing(s: Seq<char>, to: int) -> (j: int)
    requires
        0 <= to <= s.len(),
        forall|k: int| to <= k < s.len() ==> is_space(#[trigger] s[k]),
    ensures
        0 <= j <= to,
        forall|k: int| j <= k < s.len() ==> is_space(#[trigger] s[k]),
        j > 0 ==> !is_space(s[j - 1]),
    decreases to,
{
    if to > 0 && is_space(s[to - 1]) {
        lemma_trailing(s, to - 1)
    } else {
        to
    }
}

/// Splitting cuts at the first place where the pattern stands, and goes on
/// behind it; a text without the pattern is one piece.
pub proof fn law_splitting_cuts_at_the_first(
    before: Seq<char>,
    pattern: Seq<char>,
    behind: Seq<char>,
)
    requires
        pattern.len() > 0,
    ensures
        (forall|p: int|
            0 <= p < before.len() ==> #[trigger] (before + pattern).subrange(p, p + pattern.len())
                != pattern) ==> split(before + pattern + behind, pattern) == seq![before] + split(
            behind,
            pattern,
        ),
        !(exists|a: Seq<char>, b: Seq<char>| before == #[trigger] (a + pattern + b)) ==> split(
            before,
            pattern,
        ) == seq![before],
{
    if forall|p: int|
        0 <= p < before.len() ==> #[trigger] (before + pattern).subrange(p, p + pattern.len())
            != pattern {
        let all = before + pattern + behind;
        law_position_is_the_first(before, pattern, behind);
        assert(all.take(before.len() as int) =~= before);
        assert(all.skip((before.len() + pattern.len()) as int) =~= behind);
    }
    law_contained_text_has_two_sides(before, pattern);
    lemma_position_from(before, pattern, 0);
}

/// A text without newlines is one line, and a newline ends a line.
pub proof fn law_lines_end_with_newlines(s: Seq<char>, t: Seq<char>)
    ensures
        !s.contains('\n') ==> lines(s) == seq![s],
        lines(s + seq!['\n'] + t) == lines(s) + lines(t),
{
    lemma_lines_joined(s, t);
    lemma_position_from(s, seq!['\n'], 0);
    if !s.contains('\n') {
        if let Some(p) = position(s, seq!['\n']) {
            assert(s.subrange(p, p + 1)[0] == '\n');
            assert(s[p] == '\n');
        }
    }
}

/// A number in decimal: one digit, or the digits of its tenth and one more.
pub proof fn law_decimal_digit_by_digit(tens: nat, d: nat)
    requires
        d < 10,
    ensures
        decimal(d) == seq![(('0' as u32 + d) as u32) as char],
        tens > 0 ==> decimal((10 * tens + d) as nat) == decimal(tens).push(
            (('0' as u32 + d) as u32) as char,
        ),
{
    assert((10 * tens + d) / 10 == tens);
    assert((10 * tens + d) % 10 == d);
}

/// The lower case of an ASCII text, letter by letter.
pub proof fn law_ascii_lower_case(s: Seq<char>, i: int)
    requires
        0 <= i < s.len(),
    ensures
        ascii_lowered(s).len() == s.len(),
        'A' <= s[i] <= 'Z' ==> ascii_lowered(s)[i] as u32 == s[i] as u32 + 32,
        !('A' <= s[i] <= 'Z') ==> ascii_lowered(s)[i] == s[i],
{
    assert(ascii_lowered(s)[i] == ascii_lowercase(s[i]));
}

} // verus!
