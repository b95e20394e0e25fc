# minarrow

Column-major n-dimensional containers with machine-checked contracts.

- `src/` is the library, verified with Verus: `NdArray` and its strided
  views (`NdArrayV`), per-axis and row selection, lane application and axis
  permutation, chunked arrays (`SuperNdArray`, `SuperNdArrayV`) with
  rechunking and consolidation, windowed matrices (`Matrix`, `MatrixV`),
  labelled arrays (`XArray`) with coordinate lookup, dictionary-encoded
  strings (`CategoricalArray`), the ISO 8601 timestamp parser, and the
  bit packing of the lock-free buffer's validity tail.
- `tests/` exercises the library on concrete values.
- `app/` holds what sits around the library: floating-point constructors
  and NaN scans, rayon-parallel iteration, copy-on-write mutable access,
  and the lock-free append buffer itself.

An `NdArrayV` holds its parent behind an `Arc`. Slicing a view, taking an
observation of it, permuting its axes or cloning it shares that parent and
copies no element. `NdArrayV::from_ndarray` moves an owned array into a
view without copying; a view taken from a borrowed `NdArray`
(`as_view`, `slice`, `obs`, `r`) or from a borrowed `SuperNdArray` is built
over one copy of the array or of each batch, which every view derived from
it then shares.

Every public function states what it returns or changes in its `ensures`
clause; the public `law_*` proof functions state properties that relate
several operations.
