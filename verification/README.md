# rusanta

Labelled arrays, data frames and learning utilities whose behaviour is stated
in `requires` / `ensures` contracts and proved with Verus.

- `src/base` — numeric traits, the read-only `Dataset` abstraction with its
  iterator, sum / min / max over datasets, model marker traits.
- `src/array` — n-dimensional arrays over shared buffers: shapes and strides,
  slicing, broadcasting, element-wise arithmetic, matrix products, integer
  random arrays; `laws.rs` states the algebraic laws.
- `src/frame` — `Index`, `Series`, `DataFrame`, statistics, joins, grouping,
  the TSV, spreadsheet and TOON formats (with their round-trip laws), data
  loaders, pipelines, metrics and the training loop.
  A `DataFrame` keeps the invariant that its columns have distinct names and
  all share the frame's index. Columns are read through `column` and replaced
  through `insert`; no `&mut` to a column is handed out, since through it a
  caller could change that column's index and break the invariant (Verus
  refuses such a borrow of a field of a type with an invariant).
- `src/ml` — in-memory supervised datasets, confusion counts, pipelines,
  train/test splitting and hierarchical clustering.
- `app/` — file input and output, and everything that computes in floating
  point (float statistics and metrics, normal random arrays, feature
  scaling, the learning models). It is ordinary Rust built on the library.
- `tests/` — tests of the library on concrete values.
