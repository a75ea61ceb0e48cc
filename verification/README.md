# ternary_language_evolution

A verified library modelling how communication protocols evolve over balanced
ternary values {-1, 0, +1}: signal pools, meaning negotiation, competing
grammars, signal drift, creolization of dialects and minimal proto-languages.

- `src/` is the library, proved with Verus. Maps keyed by strings are held as
  association lists without repeated keys (`src/assoc.rs`) and read as finite
  maps in the contracts. `src/laws.rs` states and proves properties that span
  several functions.
- A grammar's fitness is held as an order key (`u64`) whose order is that of the
  floating-point fitness it stands for.
- `app/` converts between that key and `f64`.
- `tests/` runs the library on concrete values.
