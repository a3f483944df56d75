# graph_rag_engine

A deterministic knowledge-graph substrate: entity storage, community detection by
label propagation, bounded multi-hop retrieval, and an indexer for documents of
statements. Every item of the library is verified with Verus.

## Layout

| Modules | What they hold |
| --- | --- |
| `graph`, `retrieval`, `partition`, `scoring` | `KnowledgeGraph` and its methods |
| `indexer`, `document`, `context` | `GraphRagIndexer`: documents in, contexts out |
| `model`, `traversal`, `network`, `modularity` | the mathematical models that the contracts speak of |
| `propagation`, `adjacency`, `sweep`, `hash` | label propagation on numbered nodes |
| `string_map`, `collation`, `text`, `cutting`, `casing` | ordered text keys and plain text |
| `sums` and the modules named `.._laws` | lemmas, and the laws of the library |

## Weights

A weight is a fixed-point number with 32 fractional bits; `WEIGHT_ONE` stands for
one. Modularity is given in exact integers. `app/` converts from and to floating
point, and holds the forms of a graph that can be written out with serde. A weight
that is no multiple of 2^-32 is rounded to one, so reading back is exact for
multiples of 2^-32 up to 2^21.

## Trust

One function of the standard library is taken on trust: `str::to_lowercase`, in
`casing`. Its result is named, and for ASCII texts stated.
