# dp_library

Survey data processing for CfMC-style survey systems, written in Verus:
RFL record layouts, CFMC skip logic, crosstab and banner specifications,
UNCLE qualifications and `.E` weight specifications. The library's
functions carry `requires`/`ensures` contracts that Verus proves.

## Layout

- `src/` — the verified library.
  - `rfl.rs` — RFL layouts: questions, their columns and response slots.
  - `cfmc/` — CFMC logic: the expression tree, its parser, its canonical
    text, and the punch-code and value-list matching used by evaluation.
  - `crosstabs/` — crosstab/banner spec logic, its rewriting and parsing,
    its UNCLE syntax, crosstab and banner tables, and banner tables read
    from spreadsheet rows with their UNCLE output.
  - `weight/` — UNCLE qualifications (parser and evaluator), the `.E`
    reader (table blocks, `X IF`, `X SET QUAL`, `X WEIGHT` directives and
    the `R` rows of weight tables, with numbers kept as checked text), and
    the records and weights of weighting passes.
  - `tools.rs` — small computations of the command-line tools.
  - `text_map.rs` — maps keyed by text (response codes, questions by
    label): entries in first-key order, a later value replacing an earlier.
  - `text.rs`, `regex_calls.rs`, `question_table.rs` — text helpers and
    the contracts given to `regex` and `ahash`.
- `tests/` — tests run against the compiled library.
- `app/` — the command-line tools `freq`, `chkcounts`, `banners` and
  `weight` (one binary, the tool chosen by name or first argument): file
  and Excel input, CFMC evaluation (which computes on `f64`), and raking
  with `ipf_survey`.

Laws of the library are public proof functions named `law_*`.
