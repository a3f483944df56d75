//! Documents of statements, one to a line:
//! `Source -- Relation -- Target (Description)`.

use vstd::prelude::*;
use vstd::string::StringExecFns;
use crate::cutting::{
    chars_of, cut, find, lemma_position_from, lines, lines_of, position, slices, split, split_once,
    trim, trimmed,
};

verus! {

/// A statement: a relationship, and what is said of its target.
#[verifier::ext_equal]
pub struct StatementView {
    pub source: Seq<char>,
    pub relation: Seq<char>,
    pub target: Seq<char>,
    pub description: Seq<char>,
}

/// The parts of a line.
pub open spec fn parts(line: Seq<char>) -> Seq<Seq<char>> {
    split(trimmed(line), " -- "@)
}

/// The first opening and the first closing parenthesis of a text that has both.
pub open spec fn parentheses(s: Seq<char>) -> Option<(int, int)> {
    match (position(s, seq!['(']), position(s, seq![')'])) {
        (Some(a), Some(b)) => Some((a, b)),
        _ => None,
    }
}

/// The statement that a line makes; a line of fewer than three parts makes none.
pub open spec fn statement(line: Seq<char>) -> Option<StatementView> {
    if parts(line).len() < 3 {
        None
    } else {
        let source = trimmed(parts(line)[0]);
        let relation = trimmed(parts(line)[1]);
        let rest = trimmed(parts(line)[2]);
        Some(
            match parentheses(rest) {
                Some((a, b)) => StatementView {
                    source,
                    relation,
                    target: trimmed(rest.take(a)),
                    description: trimmed(rest.subrange(a + 1, b)),
                },
                None => StatementView {
                    source,
                    relation,
                    target: rest,
                    description: rest + " related to "@ + source,
                },
            },
        )
    }
}

/// A line that can be read: it makes no statement, or the parentheses of its
/// target, if there are any, open before they close.
pub open spec fn readable_line(line: Seq<char>) -> bool {
    parts(line).len() < 3 || match parentheses(trimmed(parts(line)[2])) {
        Some((a, b)) => a < b,
        None => true,
    }
}

/// A document of lines that can be read.
pub open spec fn readable(doc: Seq<char>) -> bool {
    forall|i: int| 0 <= i < lines(doc).len() ==> readable_line(#[trigger] lines(doc)[i])
}

/// The statements of some lines, in order.
pub open spec fn statements(ls: Seq<Seq<char>>) -> Seq<StatementView>
    decreases ls.len(),
{
    if ls.len() == 0 {
        Seq::empty()
    } else {
        match statement(ls.last()) {
            Some(st) => statements(ls.drop_last()).push(st),
            None => statements(ls.drop_last()),
        }
    }
}

/// A statement that was read.
pub struct Statement {
    pub source: String,
    pub relation: String,
    pub target: String,
    pub description: String,
}

impl View for Statement {
    type V = StatementView;

    open spec fn view(&self) -> StatementView {
        StatementView {
            source: self.source@,
            relation: self.relation@,
            target: self.target@,
            description: self.description@,
        }
    }
}

/// What reading a line gave.
pub enum Reading {
    /// The line makes no statement.
    Nothing,
    /// The line makes a statement.
    Told(Statement),
    /// The line closes a parenthesis before it opens one.
    Unreadable,
}

/// The first three parts of a line, if it has as many.
fn three_parts(line: &str) -> (r: Option<(&str, &str, &str)>)
    ensures
        match r {
            Some(p) => parts(line@).len() >= 3 && p.0@ == parts(line@)[0] && p.1@ == parts(
                line@,
            )[1] && p.2@ == parts(line@)[2],
            None => parts(line@).len() < 3,
        },
{
    let line = trim(line);
    proof {
        reveal_strlit(" -- ");
        reveal_with_fuel(split, 4);
    }
    match split_once(line, " -- ") {
        None => None,
        Some((first, behind)) => match split_once(behind, " -- ") {
            None => None,
            Some((second, rest)) => {
                let third = match split_once(rest, " -- ") {
                    Some((third, _)) => third,
                    None => rest,
                };
                Some((first, second, third))
            },
        },
    }
}

/// Reads a line.
pub fn read_line(line: &str) -> (r: Reading)
    ensures
        match r {
            Reading::Nothing => statement(line@) is None,
            Reading::Told(st) => readable_line(line@) && statement(line@) == Some(st@),
            Reading::Unreadable => !readable_line(line@),
        },
{
    match three_parts(line) {
        None => Reading::Nothing,
        Some((first, second, third)) => {
            let source = trim(first);
            let relation = trim(second);
            let rest = trim(third);
            let chars = chars_of(rest);
            let opening: Vec<char> = vec!['('];
            let closing: Vec<char> = vec![')'];
            proof {
                assert(opening@ =~= seq!['(']);
                assert(closing@ =~= seq![')']);
                lemma_position_from(rest@, seq!['('], 0);
                lemma_position_from(rest@, seq![')'], 0);
            }
            match (find(&chars, &opening), find(&chars, &closing)) {
                (Some(a), Some(b)) => {
                    if b < a {
                        return Reading::Unreadable;
                    }
                    proof {
                        if a == b {
                            assert(rest@.subrange(a as int, a + 1)[0] == '(');
                            assert(rest@.subrange(b as int, b + 1)[0] == ')');
                        }
                    }
                    let (target, _) = cut(rest, a);
                    let (head, _) = cut(rest, b);
                    let (_, description) = cut(head, a + 1);
                    assert(rest@.take(b as int).skip(a + 1) =~= rest@.subrange(a + 1, b as int));
                    Reading::Told(
                        Statement {
                            source: source.to_owned(),
                            relation: relation.to_owned(),
                            target: trim(target).to_owned(),
                            description: trim(description).to_owned(),
                        },
                    )
                },
                _ => {
                    let mut description = rest.to_owned();
                    description.append(" related to ");
                    description.append(source);
                    Reading::Told(
                        Statement {
                            source: source.to_owned(),
                            relation: relation.to_owned(),
                            target: rest.to_owned(),
                            description,
                        },
                    )
                },
            }
        },
    }
}

/// Whether every line of a document can be read.
pub fn is_readable(doc: &str) -> (b: bool)
    ensures
        b == readable(doc@),
{
    let ls = lines_of(doc);
    let mut i: usize = 0;
    while i < ls.len()
        invariant
            i <= ls.len(),
            slices(ls@) == lines(doc@),
            forall|k: int| 0 <= k < i ==> readable_line(#[trigger] lines(doc@)[k]),
        decreases ls.len() - i,
    {
        assert(slices(ls@)[i as int] == ls[i as int]@);
        match read_line(ls[i]) {
            Reading::Unreadable => {
                return false;
            },
            _ => {},
        }
        i += 1;
    }
    assert(slices(ls@).len() == ls@.len());
    true
}

} // verus!
