# vector_segment

Dense vector fields of a search segment, verified with [Verus](https://github.com/verus-lang/verus).

A segment keeps the vectors of a field as 4-bit codes (sign flips, a Walsh-Hadamard
transform, per-component calibration, sixteen levels, a corrected length per row) beside
a layered graph of nearest neighbours. A query walks the graph and scores rows straight
from their codes.

- `src/` is the library. Every function that computes has a contract; laws that tie several functions
  together stand in the modules whose names end in `_laws`.
- `app/` gives the library floating point arithmetic, graph building, JSON options and
  files.
- `tests/` runs the library with floating point arithmetic.

| Module | Contents |
| --- | --- |
| `bytes`, `file`, `graph` | little-endian integers, the `.vec` file, the packed graph |
| `floatbits`, `arith`, `wide` | bit patterns, the caller's operations on 32 and 64 bits |
| `exact`, `exact_model` | operations without rounding, for the laws that need them |
| `ieee`, `ieee_model`, `rounding` | what IEEE arithmetic rounds results to, and how far that takes sums and products, for laws on how far results can be off |
| `doubling_laws`, `direction_sizes` | doubling without rounding, and how large numbers become while rows are coded, for the law that codes depend on the direction only |
| `rotation`, `codebook`, `turboquant`, `scoring` | rotation, levels, 4-bit codes, distances to coded rows |
| `bbq` | 1-bit codes and their distances |
| `metric` | unit length, Euclidean and dot product distance, scores |
| `visited`, `hits`, `search` | the search and its collections |
| `hnsw` | plans for building a graph, and packing what was built |
| `options`, `error` | field options and errors |
| `writer`, `reader`, `knn_query` | filling, opening and querying a segment |

Vector components, distances and scores are bit patterns of IEEE numbers. A
function that computes takes the operations as an argument, and its contract names the
operations and their order, so that a result is pinned down to the last bit.
