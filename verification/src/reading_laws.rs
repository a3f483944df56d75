//! What reading a line recovers of what was written.

use vstd::prelude::*;
use crate::cutting::{
    is_space, lemma_position_from, lines, occurs_at, position, split, trimmed,
};
use crate::document::{
    parentheses, parts, readable, readable_line, statement, statements, StatementView,
};
use crate::model::GraphView;
use crate::text_laws::{
    law_lines_end_with_newlines, law_position_is_the_first,
    law_splitting_cuts_at_the_first, law_trimming_takes_white_space_off,
};

verus! {

/// The first position of a character is behind what does not hold it.
proof fn lemma_char_position(before: Seq<char>, c: char, behind: Seq<char>)
    requires
        !before.contains(c),
    ensures
        position(before + seq![c] + behind, seq![c]) == Some(before.len() as int),
{
    let pattern = seq![c];
    assert forall|p: int| 0 <= p < before.len() implies #[trigger] (before + pattern).subrange(
        p,
        p + pattern.len(),
    ) != pattern by {
        assert((before + pattern).subrange(p, p + 1)[0] == before[p]);
        assert(before.contains(before[p]));
        assert(pattern[0] == c);
    }
    law_position_is_the_first(before, pattern, behind);
}

proof fn lemma_char_nowhere(s: Seq<char>, c: char)
    ensures
        s.contains(c) <==> position(s, seq![c]) is Some,
{
    lemma_position_from(s, seq![c], 0);
    if s.contains(c) {
        let p = choose|p: int| 0 <= p < s.len() && s[p] == c;
        assert(s.subrange(p, p + 1) =~= seq![c]);
        assert(occurs_at(s, seq![c], p));
    }
    if let Some(p) = position(s, seq![c]) {
        assert(s.subrange(p, p + 1)[0] == s[p]);
        assert(seq![c][0] == c);
        assert(s[p] == c);
    }
}

proof fn lemma_parts(
    line: Seq<char>,
    first: Seq<char>,
    second: Seq<char>,
    third: Seq<char>,
    behind: Seq<char>,
)
    requires
        trimmed(line) == first + " -- "@ + (second + " -- "@ + behind),
        forall|p: int|
            0 <= p < first.len() ==> #[trigger] (first + " -- "@).subrange(p, p + 4) != " -- "@,
        forall|p: int|
            0 <= p < second.len() ==> #[trigger] (second + " -- "@).subrange(p, p + 4) != " -- "@,
        split(behind, " -- "@).len() > 0,
        split(behind, " -- "@)[0] == third,
    ensures
        parts(line).len() >= 3,
        parts(line)[0] == first,
        parts(line)[1] == second,
        parts(line)[2] == third,
{
    reveal_strlit(" -- ");
    let sep = " -- "@;
    assert forall|p: int| 0 <= p < first.len() implies #[trigger] (first + sep).subrange(
        p,
        p + sep.len(),
    ) != sep by {
        assert((first + sep).subrange(p, p + 4) != sep);
    }
    assert forall|p: int| 0 <= p < second.len() implies #[trigger] (second + sep).subrange(
        p,
        p + sep.len(),
    ) != sep by {
        assert((second + sep).subrange(p, p + 4) != sep);
    }
    law_splitting_cuts_at_the_first(first, sep, second + sep + behind);
    law_splitting_cuts_at_the_first(second, sep, behind);
}

/// A line of three parts or more is read into its first three. The source and
/// the relation are the first two, trimmed; what stands in parentheses at the
/// end of the third, trimmed, describes what stands before them. Without a pair
/// of parentheses the third part is the target as a whole.
pub proof fn law_line_is_read_part_by_part(
    line: Seq<char>,
    first: Seq<char>,
    second: Seq<char>,
    third: Seq<char>,
    tail: Seq<char>,
    more: bool,
)
    requires
        more ==> trimmed(line) == first + " -- "@ + (second + " -- "@ + (third + " -- "@ + tail)),
        more ==> forall|p: int|
            0 <= p < third.len() ==> #[trigger] (third + " -- "@).subrange(p, p + 4) != " -- "@,
        !more ==> trimmed(line) == first + " -- "@ + (second + " -- "@ + third),
        !more ==> !exists|a: Seq<char>, b: Seq<char>| third == #[trigger] (a + " -- "@ + b),
        forall|p: int|
            0 <= p < first.len() ==> #[trigger] (first + " -- "@).subrange(p, p + 4) != " -- "@,
        forall|p: int|
            0 <= p < second.len() ==> #[trigger] (second + " -- "@).subrange(p, p + 4) != " -- "@,
    ensures
        statement(line) is Some,
        statement(line)->0.source == trimmed(first),
        statement(line)->0.relation == trimmed(second),
        !trimmed(third).contains('(') || !trimmed(third).contains(')') ==> {
            &&& readable_line(line)
            &&& statement(line)->0.target == trimmed(third)
            &&& statement(line)->0.description == trimmed(third) + " related to "@ + trimmed(first)
        },
        forall|t: Seq<char>, d: Seq<char>, rest: Seq<char>|
            trimmed(third) == #[trigger] (t + seq!['('] + d + seq![')'] + rest) && !t.contains('(')
                && !t.contains(')') && !d.contains(')') ==> {
                &&& readable_line(line)
                &&& statement(line)->0.target == trimmed(t)
                &&& statement(line)->0.description == trimmed(d)
            },
        forall|t: Seq<char>, rest: Seq<char>|
            trimmed(third) == #[trigger] (t + seq![')'] + rest) && !t.contains('(')
                && rest.contains('(') ==> !readable_line(line),
{
    reveal_strlit(" -- ");
    let sep = " -- "@;
    let behind = if more {
        third + sep + tail
    } else {
        third
    };
    if more {
        assert forall|p: int| 0 <= p < third.len() implies #[trigger] (third + sep).subrange(
            p,
            p + sep.len(),
        ) != sep by {
            assert((third + sep).subrange(p, p + 4) != sep);
        }
        law_splitting_cuts_at_the_first(third, sep, tail);
    } else {
        law_splitting_cuts_at_the_first(third, sep, tail);
    }
    lemma_parts(line, first, second, third, behind);
    let r = trimmed(third);
    lemma_char_nowhere(r, '(');
    lemma_char_nowhere(r, ')');
    assert forall|t: Seq<char>, d: Seq<char>, rest: Seq<char>|
        r == #[trigger] (t + seq!['('] + d + seq![')'] + rest) && !t.contains('(') && !t.contains(
            ')',
        ) && !d.contains(')') implies {
        &&& readable_line(line)
        &&& statement(line)->0.target == trimmed(t)
        &&& statement(line)->0.description == trimmed(d)
    } by {
        let a = t.len() as int;
        let b = a + 1 + d.len();
        let head = t + seq!['('] + d;
        lemma_char_position(t, '(', d + seq![')'] + rest);
        assert(t + seq!['('] + (d + seq![')'] + rest) =~= r);
        assert(!head.contains(')')) by {
            if head.contains(')') {
                let k = choose|k: int| 0 <= k < head.len() && head[k] == ')';
                if k < a {
                    assert(t[k] == ')');
                } else if k > a {
                    assert(d[k - a - 1] == ')');
                }
            }
        }
        lemma_char_position(head, ')', rest);
        assert(parentheses(r) == Some((a, b)));
        assert(r.take(a) =~= t);
        assert(r.subrange(a + 1, b) =~= d);
    }
    assert forall|t: Seq<char>, rest: Seq<char>|
        r == #[trigger] (t + seq![')'] + rest) && !t.contains('(') && rest.contains(
            '(',
        ) implies !readable_line(line) by {
        let n = t.len() as int;
        lemma_position_from(r, seq![')'], 0);
        lemma_position_from(r, seq!['('], 0);
        assert(r.subrange(n, n + 1) =~= seq![')']);
        assert(occurs_at(r, seq![')'], n));
        let k = choose|k: int| 0 <= k < rest.len() && rest[k] == '(';
        assert(r[n + 1 + k] == '(');
        assert(r.contains('('));
        let a = position(r, seq!['('])->0;
        let b = position(r, seq![')'])->0;
        assert(b <= n);
        assert(r.subrange(a, a + 1)[0] == '(');
        assert(r[a] == '(');
        if a < n {
            assert(t[a] == '(');
            assert(t.contains(t[a]));
        }
        assert(r[n] == ')');
        assert(a > n);
    }
}

/// A line makes a statement where, trimmed, it has two separators in it. One
/// that makes none can be read.
pub proof fn law_statement_needs_two_separators(line: Seq<char>)
    ensures
        statement(line) is None ==> readable_line(line),
        statement(line) is Some <==> exists|a: Seq<char>, b: Seq<char>, c: Seq<char>|
            trimmed(line) == #[trigger] (a + " -- "@ + (b + " -- "@ + c)),
{
    reveal_strlit(" -- ");
    let sep = " -- "@;
    let s = trimmed(line);
    reveal_with_fuel(split, 3);
    lemma_position_from(s, sep, 0);
    if statement(line) is Some {
        let p = position(s, sep)->0;
        let rest = s.skip(p + sep.len());
        lemma_position_from(rest, sep, 0);
        assert(position(s, sep) is Some);
        assert(position(rest, sep) is Some) by {
            if position(rest, sep) is None {
                assert(split(s, sep) =~= seq![s.take(p), rest]);
            }
        }
        let q = position(rest, sep)->0;
        let a = s.take(p);
        let b = rest.take(q);
        let c = rest.skip(q + sep.len());
        lemma_cut_out(rest, sep, q);
        lemma_cut_out(s, sep, p);
        assert(s == a + sep + (b + sep + c));
    }
    if exists|a: Seq<char>, b: Seq<char>, c: Seq<char>| s == #[trigger] (a + sep + (b + sep + c)) {
        let (a, b, c) = choose|a: Seq<char>, b: Seq<char>, c: Seq<char>|
            s == #[trigger] (a + sep + (b + sep + c));
        let n = a.len() as int;
        assert(s.subrange(n, n + sep.len()) =~= sep);
        assert(occurs_at(s, sep, n));
        let p = position(s, sep)->0;
        assert(p <= n);
        let rest = s.skip(p + sep.len());
        lemma_position_from(rest, sep, 0);
        let m = n - p + b.len();
        assert(rest.subrange(m, m + sep.len()) =~= sep);
        assert(occurs_at(rest, sep, m));
        let q = position(rest, sep)->0;
        let last = rest.skip(q + sep.len());
        assert(split(last, sep).len() >= 1) by {
            lemma_position_from(last, sep, 0);
        }
        assert(split(rest, sep) == seq![rest.take(q)] + split(last, sep));
        assert(split(s, sep) == seq![s.take(p)] + split(rest, sep));
    }
}

proof fn lemma_cut_out(s: Seq<char>, pattern: Seq<char>, p: int)
    requires
        occurs_at(s, pattern, p),
    ensures
        s == s.take(p) + pattern + s.skip(p + pattern.len()),
{
    let t = s.take(p) + pattern + s.skip(p + pattern.len());
    assert forall|i: int| 0 <= i < s.len() implies s[i] == t[i] by {
        if p <= i < p + pattern.len() {
            assert(s.subrange(p, p + pattern.len())[i - p] == s[i]);
        }
    }
    assert(s =~= t);
}

/// A text without white space at its ends.
pub open spec fn is_clean(s: Seq<char>) -> bool {
    s.len() > 0 ==> !is_space(s[0]) && !is_space(s.last())
}

proof fn lemma_clean_is_trimmed(s: Seq<char>)
    requires
        is_clean(s),
    ensures
        trimmed(s) == s,
{
    let none = Seq::<char>::empty();
    law_trimming_takes_white_space_off(none, s, none);
    assert(none + s + none =~= s);
}

/// What the separator does not stand in is cut off as a whole by the first
/// separator behind it.
proof fn lemma_whole_part(part: Seq<char>)
    requires
        !exists|a: Seq<char>, b: Seq<char>| part + seq![' '] == #[trigger] (a + " -- "@ + b),
    ensures
        forall|p: int|
            0 <= p < part.len() ==> #[trigger] (part + " -- "@).subrange(p, p + 4) != " -- "@,
{
    reveal_strlit(" -- ");
    let sep = " -- "@;
    let all = part + sep;
    let short = part + seq![' '];
    let n = part.len();
    assert forall|p: int| 0 <= p < n implies #[trigger] all.subrange(p, p + 4) != sep by {
        if all.subrange(p, p + 4) == sep {
            assert(all.subrange(p, p + 4)[1] == all[p + 1]);
            assert(all.subrange(p, p + 4)[2] == all[p + 2]);
            assert(all[n as int] == ' ');
            assert(p + 4 <= n + 1);
            assert(short.subrange(p, p + 4) =~= all.subrange(p, p + 4));
            lemma_cut_out(short, sep, p);
        }
    }
}

/// A statement that is written down is read back as it was written: source,
/// relation, target and description, whatever words they are made of. The
/// texts have no white space at their ends, the separator does not stand in
/// them, nor in one with a space behind it, and neither the target nor the
/// description has a parenthesis that could be taken for one of the statement's.
pub proof fn law_written_statement_is_read_back(
    source: Seq<char>,
    relation: Seq<char>,
    target: Seq<char>,
    description: Seq<char>,
    before: Seq<char>,
    behind: Seq<char>,
)
    requires
        forall|i: int| 0 <= i < before.len() ==> is_space(#[trigger] before[i]),
        forall|i: int| 0 <= i < behind.len() ==> is_space(#[trigger] behind[i]),
        source.len() > 0 && target.len() > 0,
        is_clean(source) && is_clean(relation) && is_clean(target) && is_clean(description),
        !exists|a: Seq<char>, b: Seq<char>| source + seq![' '] == #[trigger] (a + " -- "@ + b),
        !exists|a: Seq<char>, b: Seq<char>| relation + seq![' '] == #[trigger] (a + " -- "@ + b),
        !exists|a: Seq<char>, b: Seq<char>| target + seq![' '] == #[trigger] (a + " -- "@ + b),
        !exists|a: Seq<char>, b: Seq<char>| description == #[trigger] (a + " -- "@ + b),
        !target.contains('(') && !target.contains(')') && !description.contains(')'),
    ensures
        ({
            let line = before + (source + " -- "@ + relation + " -- "@ + target + " ("@
                + description + ")"@) + behind;
            &&& readable_line(line)
            &&& statement(line) == Some(StatementView { source, relation, target, description })
        }),
{
    reveal_strlit(" -- ");
    reveal_strlit(" (");
    reveal_strlit(")");
    let sep = " -- "@;
    let third = target + " ("@ + description + ")"@;
    let body = source + sep + relation + sep + target + " ("@ + description + ")"@;
    let line = before + body + behind;
    let t = target + seq![' '];
    lemma_whole_part(source);
    lemma_whole_part(relation);
    assert forall|a: Seq<char>, b: Seq<char>| third != #[trigger] (a + sep + b) by {
        if third == a + sep + b {
            let p = a.len() as int;
            let n = t.len() as int;
            assert(third[n] == '(');
            assert(third.last() == ')');
            assert((a + sep + b)[p + 3] == ' ');
            assert(third.subrange(p, p + 4) =~= sep);
            if p <= n {
                assert((a + sep + b)[p + (n - p)] == '(');
                assert(p + 4 <= n);
                assert(t.subrange(p, p + 4) =~= third.subrange(p, p + 4));
                lemma_cut_out(t, sep, p);
            } else {
                assert(p + 4 < third.len());
                let q = p - n - 1;
                assert(description.subrange(q, q + 4) =~= third.subrange(p, p + 4));
                lemma_cut_out(description, sep, q);
            }
        }
    }
    assert(body =~= source + sep + (relation + sep + third));
    assert(body[0] == source[0]);
    assert(")"@[0] == ')');
    assert(body.last() == ')');
    law_trimming_takes_white_space_off(before, body, behind);
    assert(third[0] == target[0]);
    assert(third.last() == ')');
    lemma_clean_is_trimmed(third);
    lemma_clean_is_trimmed(source);
    lemma_clean_is_trimmed(relation);
    lemma_clean_is_trimmed(description);
    law_line_is_read_part_by_part(line, source, relation, third, Seq::empty(), false);
    assert(third =~= t + seq!['('] + description + seq![')'] + Seq::<char>::empty());
    assert(!t.contains('(') && !t.contains(')')) by {
        assert forall|k: int| 0 <= k < t.len() implies t[k] != '(' && t[k] != ')' by {
            if k < target.len() {
                assert(target.contains(target[k]));
                assert(t[k] == target[k]);
            }
        }
    }
    assert(trimmed(t) == target) by {
        let none = Seq::<char>::empty();
        law_trimming_takes_white_space_off(none, target, seq![' ']);
        assert(none + target + seq![' '] =~= t);
    }
    let read = statement(line)->0;
    assert(read.target == target);
    assert(read.description == description);
}

/// A statement without a description says what its target is related to.
pub proof fn law_written_statement_without_description(
    source: Seq<char>,
    relation: Seq<char>,
    target: Seq<char>,
    before: Seq<char>,
    behind: Seq<char>,
)
    requires
        forall|i: int| 0 <= i < before.len() ==> is_space(#[trigger] before[i]),
        forall|i: int| 0 <= i < behind.len() ==> is_space(#[trigger] behind[i]),
        source.len() > 0 && target.len() > 0,
        is_clean(source) && is_clean(relation) && is_clean(target),
        !exists|a: Seq<char>, b: Seq<char>| source + seq![' '] == #[trigger] (a + " -- "@ + b),
        !exists|a: Seq<char>, b: Seq<char>| relation + seq![' '] == #[trigger] (a + " -- "@ + b),
        !exists|a: Seq<char>, b: Seq<char>| target == #[trigger] (a + " -- "@ + b),
        !target.contains('(') || !target.contains(')'),
    ensures
        ({
            let line = before + (source + " -- "@ + relation + " -- "@ + target) + behind;
            let read = statement(line)->0;
            &&& readable_line(line)
            &&& statement(line) is Some
            &&& read.source == source
            &&& read.relation == relation
            &&& read.target == target
            &&& read.description == target + " related to "@ + source
        }),
{
    reveal_strlit(" -- ");
    let sep = " -- "@;
    let body = source + sep + relation + sep + target;
    let line = before + body + behind;
    lemma_whole_part(source);
    lemma_whole_part(relation);
    assert(body =~= source + sep + (relation + sep + target));
    assert(body[0] == source[0]);
    assert(body.last() == target.last());
    law_trimming_takes_white_space_off(before, body, behind);
    lemma_clean_is_trimmed(target);
    lemma_clean_is_trimmed(source);
    lemma_clean_is_trimmed(relation);
    law_line_is_read_part_by_part(line, source, relation, target, Seq::empty(), false);
}

/// Statements are read line by line.
pub proof fn law_statements_are_read_line_by_line(ls: Seq<Seq<char>>, line: Seq<char>)
    ensures
        statements(Seq::empty()).len() == 0,
        statement(line) is Some ==> statements(ls.push(line)) == statements(ls).push(
            statement(line)->0,
        ),
        statement(line) is None ==> statements(ls.push(line)) == statements(ls),
{
    assert(ls.push(line).drop_last() =~= ls);
    assert(ls.push(line).last() == line);
}

/// A document can be read where each of its lines can.
pub proof fn law_document_is_readable_line_by_line(first: Seq<char>, second: Seq<char>)
    ensures
        !first.contains('\n') ==> readable(first) == readable_line(first),
        readable(first + seq!['\n'] + second) == (readable(first) && readable(second)),
{
    law_lines_end_with_newlines(first, second);
    let a = lines(first);
    let b = lines(second);
    if !first.contains('\n') {
        assert(a[0] == first);
    }
    let all = lines(first + seq!['\n'] + second);
    if readable(first + seq!['\n'] + second) {
        assert forall|i: int| 0 <= i < a.len() implies readable_line(#[trigger] a[i]) by {
            assert(all[i] == a[i]);
        }
        assert forall|i: int| 0 <= i < b.len() implies readable_line(#[trigger] b[i]) by {
            assert(all[a.len() + i] == b[i]);
        }
    }
    if readable(first) && readable(second) {
        assert forall|i: int| 0 <= i < all.len() implies readable_line(#[trigger] all[i]) by {
            if i < a.len() {
                assert(all[i] == a[i]);
            } else {
                assert(all[i] == b[i - a.len()]);
            }
        }
    }
}

/// A document of one line takes in the statement of that line, and then finds
/// the communities within a hundred sweeps.
pub proof fn law_document_of_one_line(g: GraphView, doc: Seq<char>)
    requires
        !doc.contains('\n'),
    ensures
        statement(doc) is Some ==> g.ingested(doc) == g.told(statement(doc)->0).detected(100),
        statement(doc) is None ==> g.ingested(doc) == g.detected(100),
{
    law_lines_end_with_newlines(doc, Seq::empty());
    let none = Seq::<Seq<char>>::empty();
    law_statements_are_read_line_by_line(none, doc);
    assert(none.push(doc) =~= seq![doc]);
    assert(statements(none) =~= Seq::empty());
    if statement(doc) is Some {
        let sts = Seq::<StatementView>::empty().push(statement(doc)->0);
        assert(statements(lines(doc)) =~= sts);
        assert(sts.drop_last() =~= Seq::empty());
        assert(g.told_all(sts.drop_last()) == g);
    }
}

/// Statements are taken in one after the other.
pub proof fn law_statements_are_taken_in_order(
    g: GraphView,
    sts: Seq<StatementView>,
    st: StatementView,
)
    ensures
        g.told_all(Seq::empty()) == g,
        g.told_all(sts.push(st)) == g.told_all(sts).told(st),
{
    assert(sts.push(st).drop_last() =~= sts);
}

/// A statement stores its source, unless it is known, and its target, with the
/// texts that describe them, and a relationship of weight one between them.
pub proof fn law_statement_is_stored(g: GraphView, st: StatementView, other: Seq<char>)
    requires
        g.finite(),
    ensures
        ({
            let h = g.told(st);
            let edge = h.adj[st.source].last();
            &&& h.entities.contains_key(st.source)
            &&& h.entities.contains_key(st.target)
            &&& h.entities[st.target].id == st.target
            &&& h.entities[st.target].name == st.target
            &&& h.entities[st.target].entity_type == "Target"@
            &&& h.entities[st.target].description == st.description
            &&& h.entities[st.target].community_id == g.entities.len() + (if g.entities.contains_key(
                st.source,
            ) {
                0int
            } else {
                1
            })
            &&& st.source != st.target && g.entities.contains_key(st.source)
                ==> h.entities[st.source] == g.entities[st.source]
            &&& st.source != st.target && !g.entities.contains_key(st.source) ==> {
                &&& h.entities[st.source].id == st.source
                &&& h.entities[st.source].name == st.source
                &&& h.entities[st.source].entity_type == "Entity"@
                &&& h.entities[st.source].description == "Concept: "@ + st.source
                &&& h.entities[st.source].community_id == g.entities.len()
            }
            &&& other != st.source && other != st.target ==> h.entities.contains_key(other)
                == g.entities.contains_key(other) && (g.entities.contains_key(other)
                ==> h.entities[other] == g.entities[other])
            &&& h.adj.contains_key(st.source)
            &&& h.adj[st.source].len() > 0
            &&& edge.source == st.source
            &&& edge.target == st.target
            &&& edge.relation == st.relation
            &&& edge.weight == 0x1_0000_0000
            &&& g.adj.contains_key(st.source) ==> h.adj[st.source].drop_last()
                == g.adj[st.source]
            &&& !g.adj.contains_key(st.source) ==> h.adj[st.source].len() == 1
            &&& other != st.source ==> h.adj.contains_key(other) == g.adj.contains_key(other) && (
            g.adj.contains_key(other) ==> h.adj[other] == g.adj[other])
        }),
{
    let h = g.told(st);
    if g.adj.contains_key(st.source) {
        assert(h.adj[st.source].drop_last() =~= g.adj[st.source]);
    }
}

} // verus!
