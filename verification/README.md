# lalr1

An LALR(1) parser generator and the runtime pieces that generated parsers
use, written in Verus: each function of the library carries a contract that
Verus proves.

## Layout

- `src/` — the verified library
  - `location`, `text`, `order`, `name_map`, `ordered_set`: locations in a
    text, decimal text, byte order of names, maps kept in name order.
  - `lexicon`, `literal_matcher`, `regex_matcher`, `analyzer`,
    `token_stream`: the lexical analyser (literal lexemes, regular
    expression lexemes, skip rules, injected texts).
  - `symbol`, `terminal`, `tag`, `non_terminal`, `symbol_table`: the symbols
    of a grammar specification.
  - `production`, `firsts`, `item_set`, `state`, `grammar`, `reductions`:
    productions, first sets, the closure of item sets, the construction of
    the LALR(1) states and the resolution of their conflicts.
  - `alapgen`, `semantics`: the tables of the grammar specification
    language and the meaning of each of its productions, which build a
    specification while it is read.
  - `description`, `code`: the states as text and the generated parser as
    Rust code.
  - `generator`: the parser generator, which builds the parser of a
    specification and gives the code of the generated parser.
  - `parser`: the parser runtime's actions and stack, and the decisions of
    the parse loop.
  - `laws`: properties that relate several operations.
- `tests/` — tests of the library on concrete specifications.
- `app/` — the command line program: it reads a specification file, reports
  its errors and warnings, and writes the generated parser.
