//! From a written statement to what the graph tells of it.

use vstd::prelude::*;
use crate::document::{readable, StatementView};
use crate::graph_laws::law_detection_keeps_the_rest;
use crate::model::GraphView;
use crate::reading_laws::{
    is_clean, law_document_is_readable_line_by_line, law_document_of_one_line,
    law_statement_is_stored, law_written_statement_is_read_back,
};
use crate::walk_laws::{
    law_hop_follows_relationships, law_walk_begins_at_its_start, law_walk_tells_of_entity,
    law_walk_tells_of_relationship,
};

verus! {

/// A document of one written statement makes its target known under the name
/// and with the description that were written, stores the relationship that was
/// written, and a walk from the source tells of both, word for word.
pub proof fn law_written_statement_is_told(
    g: GraphView,
    source: Seq<char>,
    relation: Seq<char>,
    target: Seq<char>,
    description: Seq<char>,
)
    requires
        g.finite(),
        source.len() > 0 && target.len() > 0,
        is_clean(source) && is_clean(relation) && is_clean(target) && is_clean(description),
        !exists|a: Seq<char>, b: Seq<char>| source + seq![' '] == #[trigger] (a + " -- "@ + b),
        !exists|a: Seq<char>, b: Seq<char>| relation + seq![' '] == #[trigger] (a + " -- "@ + b),
        !exists|a: Seq<char>, b: Seq<char>| target + seq![' '] == #[trigger] (a + " -- "@ + b),
        !exists|a: Seq<char>, b: Seq<char>| description == #[trigger] (a + " -- "@ + b),
        !target.contains('(') && !target.contains(')') && !description.contains(')'),
        !source.contains('\n') && !relation.contains('\n') && !target.contains('\n')
            && !description.contains('\n'),
    ensures
        ({
            let doc = source + " -- "@ + relation + " -- "@ + target + " ("@ + description + ")"@;
            let h = g.ingested(doc);
            &&& readable(doc)
            &&& h.entities.contains_key(source)
            &&& h.entities.contains_key(target)
            &&& h.entities[target].name == target
            &&& h.entities[target].description == description
            &&& h.adj.contains_key(source)
            &&& h.adj[source].len() > 0
            &&& h.adj[source].last().source == source
            &&& h.adj[source].last().target == target
            &&& h.adj[source].last().relation == relation
            &&& h.walk_context(source, 1).contains(
                "Relation: "@ + source + " --["@ + relation + "]--> "@ + target,
            )
            &&& h.walk_context(source, 1).contains(
                "Entity: "@ + target + " (Target) - "@ + description,
            )
        }),
{
    reveal_strlit(" -- ");
    reveal_strlit(" (");
    reveal_strlit(")");
    let none = Seq::<char>::empty();
    let doc = source + " -- "@ + relation + " -- "@ + target + " ("@ + description + ")"@;
    let st = StatementView { source, relation, target, description };
    let told = g.told(st);
    let h = g.ingested(doc);
    law_written_statement_is_read_back(source, relation, target, description, none, none);
    assert(none + doc + none =~= doc);
    assert(!doc.contains('\n')) by {
        if doc.contains('\n') {
            let k = choose|k: int| 0 <= k < doc.len() && doc[k] == '\n';
            lemma_no_newline(source, relation, target, description, k);
        }
    }
    law_document_is_readable_line_by_line(doc, none);
    law_document_of_one_line(g, doc);
    law_statement_is_stored(g, st, source);
    law_detection_keeps_the_rest(told, 100, source);
    law_detection_keeps_the_rest(told, 100, target);
    assert(h == told.detected(100));
    assert(told.entities.dom().contains(source) && told.entities.dom().contains(target));
    assert(h.entities.dom().contains(source) && h.entities.dom().contains(target));
    let last = h.adj[source].len() - 1;
    law_walk_begins_at_its_start(h, source);
    assert(seq![source][0] == source);
    assert(h.reachable(source, 0).contains(source));
    law_walk_tells_of_relationship(h, source, 0, source, last);
    law_hop_follows_relationships(h, source, 0, target);
    assert(h.adj[source][last].target == target);
    law_walk_tells_of_entity(h, source, 1, target);
    reveal_strlit("Target");
    reveal_strlit(") - ");
    reveal_strlit(" (Target) - ");
    assert("Entity: "@ + target + " ("@ + "Target"@ + ") - "@ + description =~= "Entity: "@ + target
        + " (Target) - "@ + description);
}

proof fn lemma_no_newline(
    source: Seq<char>,
    relation: Seq<char>,
    target: Seq<char>,
    description: Seq<char>,
    k: int,
)
    requires
        !source.contains('\n') && !relation.contains('\n') && !target.contains('\n')
            && !description.contains('\n'),
        0 <= k < (source + " -- "@ + relation + " -- "@ + target + " ("@ + description
            + ")"@).len(),
    ensures
        (source + " -- "@ + relation + " -- "@ + target + " ("@ + description + ")"@)[k] != '\n',
{
    reveal_strlit(" -- ");
    reveal_strlit(" (");
    reveal_strlit(")");
    let a = source.len() as int;
    let b = a + 4 + relation.len();
    let c = b + 4 + target.len();
    let d = c + 2 + description.len();
    if 0 <= k < a {
        assert(source.contains(source[k]));
    } else if a + 4 <= k < b {
        assert(relation.contains(relation[k - a - 4]));
    } else if b + 4 <= k < c {
        assert(target.contains(target[k - b - 4]));
    } else if c + 2 <= k < d {
        assert(description.contains(description[k - c - 2]));
    }
}

} // verus!
