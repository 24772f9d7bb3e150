# ron_parse

A verified pull parser for the tokens of a readable object notation: blanks and comments,
identifiers, booleans, characters, strings, numbers, and the `#![enable(..)]` attributes at
the head of a document.

- `src/parse.rs` holds the parser, `Bytes`. Every method says over the grammar what it reads
  and answers, and over a cursor where it stands afterwards.
- `src/grammar.rs` is the grammar: what each token is, how many bytes it takes, and which
  error comes where.
- `src/cursor.rs`, `src/position.rs` and `src/error.rs` say where the parser stands and how it
  fails; `src/num.rs`, `src/extensions.rs` and `src/text.rs` cover integers, extensions and
  UTF-8.
- `src/laws.rs` and the files below it prove what holds across functions: what was written is
  read back, errors point to where they showed, lines and columns count what was read.
- `app/` adds what the standard library's traits `FromStr` and `Display` bring.

What is taken from the standard library without proof stands in `src/text.rs`, two UTF-8
conversions and `char::from_u32`, and in `src/extensions.rs`, the formatter of `Debug`, of
which nothing is claimed.
