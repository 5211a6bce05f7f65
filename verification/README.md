# lib

A query-filter language: `name:elmer,age>=18,category=(a|b|c),app.tag='x y'`.

- `src/lexer.rs` — characters to tokens (literals, quoted strings, operators,
  parentheses); `lex` is the token sequence as a mathematical function of the text.
- `src/parser.rs` — tokens to predicates `field operator value`, with list values
  in parentheses separated by `,` (and) or `|` (or); `parse` is the result as a
  function of the text.
- `src/filter.rs` — looking predicates up by field name and by resource
  (`resource.name`), ignoring case.
- `src/report.rs` — text renderings of values.
- `src/text.rs` — string conversions and the few standard-library text
  operations that the rest relies on.
- `app/main.rs` — prints the predicates of an example query.
