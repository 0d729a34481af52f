# frequenz-microgrid-formula-engine

A library to create formulas over streamed data, verified with Verus.

A formula such as `MIN(0.0, COALESCE(#4 + #3, #2)) - #1` combines numeric
literals, component placeholders (`#` followed by a component id), the
operators `+ - * /`, unary minus, parentheses and the functions `COALESCE`,
`MIN` and `MAX`. A `FormulaEngine` parses the formula, asks a
`MetricStreamFetcher` for the stream of values of each placeholder, and then
calculates the formula from the next value of each stream (for streams that
follow vstd's laws of iterators the contracts say so exactly). A missing value
(`None`) makes arithmetic missing; `COALESCE` takes the first present value
and `MIN` / `MAX` ignore missing ones.

## Layout

- `src/traits.rs`: `NumberLike` (the number type's arithmetic, comparisons
  and literal reading) and `MetricStreamFetcher`.
- `src/grammar.rs`: the grammar of formulas as spec functions over
  characters, and `parse_chars`, which is proved to agree with it exactly.
- `src/parser.rs`: from syntax trees to expressions: literals are read,
  streams fetched, and each error is tied to the leaf that caused it.
- `src/expression.rs`: `Expr`, its mathematical model `Formula`, the
  semantics of `Op` and `Function`, evaluation and `calculate`.
- `src/formula_engine.rs`: `FormulaEngine`, whose reported components are
  always those of its formula.
- `src/render.rs`: printing syntax trees, and the proof that a printed tree
  parses back to itself.
- `src/laws.rs`: properties of missing values, `COALESCE`, `MIN`, `MAX` and
  of the components of a parsed formula.
- `app/`: number types over `f32` / `f64` and an error type with `Display`.
