# specmut

Specification mutation testing: a specification is read as the set of
finite models it accepts, nearby mutants of it are generated
(strengthening, weakening, replacement), and the fraction of mutants that
some implementation model tells apart from the specification measures how
tight the specification is.

## Layout

- `src/` — the library, verified with Verus: signatures and formulas,
  finite models and their enumeration, the specification lattice,
  mutation generation, tightness evaluation (exhaustive and CEGIS), the
  Lean IR translator and slicer, the model-file parser, witnesses, and
  the integer parts of the per-slice analysis.  `src/laws.rs` holds the
  properties proved of the library as a whole.
- `tests/` — tests of the library.
- `app/` — the command-line program: argument and configuration
  handling, running the Lean exporter, reading files, and the
  floating-point parts of the report (distances, scores, rates).
