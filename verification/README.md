# rmp

Matching pursuit over a block-structured dictionary of FOF and Gaussian atoms, verified with Verus.

- `src/` is the library: the dictionary, the frame tables and their lazy refresh, refinement, the
  pursuit and its windows, the analysis of the residual, and the statistics, maps and reports made of
  a book. Floating-point numbers are carried as their bits; the formulas are written out over the
  elementary operations of `reals`, which the caller supplies.
- `tests/` runs it.
- `app/` is the command line: `rmp` decomposes a sound and `rmpstat` reports on a book. It supplies
  the arithmetic, the transforms, the files and the drawing. It has no FOF synthesiser and no
  local-support validation, and refuses settings that need either.
