# lumberjack

A compiler for random-forest classifiers, verified with Verus. It reads a
forest given as CSV rows, lowers it to an intermediate representation, places
each tree's branches so that a branch at the start of a 16-byte line is
followed by one of its children, partitions the trees into cache cells, and
lays everything out in a compact binary model that an embedded target walks
to predict.

## Layout

- `src/` — the verified library.
  - `model` — the binary model: 8-byte nodes (tree headers, branches,
    padding), the header chain, prediction by majority vote, layout and
    acyclicity checks, serialization.
  - `compiler` — the intermediate representation and its prediction, tree
    placement strategies (execution-aware, random, breadth-first,
    depth-first), cell partitioning (equal, depth-sorted, greedy), and the
    proofs that a compiled forest votes as the forest does.
  - `forest_model` — forests compiled with the pairing placement (a branch
    at the start of a line followed by a child), and the even split of a
    compiled model into cells.
  - `csv_forest` — the CSV rows of a forest, lowered to trees.
  - `embedded` — the forest format of the embedded runtime (an 8-byte
    header, then 8-byte nodes): decoding and writing its bytes, the
    forward-pointer check, the tree-header walk and prediction by vote.
  - `analysis` — per-tree and per-cell metrics of a compiled model.
  - `feature_vectors`, `problem`, `bytes`, `split` — feature vectors, feature
    and target names, little-endian helpers, and the bf16 split comparison.
- `tests/` — tests of the library on concrete forests.
- `app/` — the command-line program: reading CSV files, writing models and
  reports.
