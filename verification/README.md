# ruvector

Approximate nearest-neighbour indexes in Rust, with contracts that Verus proves.

| module | what it does |
| --- | --- |
| `rknn_verified` | keeps the candidates of a search whose own neighbourhood the query lies in |
| `roargraph` | proximity graphs that are built from queries, and their baselines |
| `rpq` | product, residual product and scalar quantization |
| `rvq` | residual vector quantization |
| `segment_rangehnsw` | range-filtered search over a segment tree of graphs |
| `serf` | range-filtered search by scan, by graph, and by a tree of graphs |
| `simhash_prefilter` | candidate reduction by binary sketches |
| `soar_ivf` | inverted files with spilled postings |

The other modules hold what these share: heaps and stable selection (`heap`,
`sorting`), beam search over adjacency lists and its laws (`beam`, `beam_laws`,
`reach`), vector arithmetic (`linalg`, `metric`, `cluster`), and summaries of
measurements (`report`).

## Components and order keys

Every algorithm is written over a component type, the trait `scalar::Scalar`.
`scalar::Fixed` is a fixed-point component whose arithmetic is verified;
`app/number.rs` brings single and double precision. Values are compared by order
keys, 64-bit numbers that are smaller for smaller values; `order` computes those
of single-precision numbers.

Where two candidates are at the same distance, the earlier one or the one with
the smaller number comes first, unless a function says otherwise.

## Layout

- `src/`: the verified library
- `tests/`: its tests
- `app/`: a program that measures the indexes
