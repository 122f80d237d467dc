# minic

A small front end for a C-like teaching language, written in Verus: every
stage states what it computes in `requires` / `ensures` contracts over
mathematical models (`Seq<char>` for text, views of tokens and syntax trees,
a `Map` for the symbol table), and Verus proves the code against them.

## Layout

- `src/text.rs` – character-level building blocks: the models of `str::trim`,
  `str::lines`, UTF-8 widths, decimal rendering, search and splitting.
- `src/cleaning.rs` – comment removal (through the `regex` crate, with the
  result of each replacement stated) and blank-line removal, with the laws
  that cleaning never lengthens a text, leaves every line non-empty and
  trimmed, and leaves no `//`.
- `src/pointer.rs` – line, byte column and line text of a position, for
  error messages that point at a character.
- `src/cleaner.rs` – the first stage: diagnostics on raw source, cleaning with
  blank runs squeezed, and a line check of the cleaned code.
- `src/lexer.rs` – the second stage: a hand-written lexer that reports errors
  and goes on.
- `src/syntax/` – the third stage: tokens found by one regular expression, a
  recursive-descent parser and the tree drawing.
- `src/compiler/` – the full pipeline: a typed syntax tree, semantic checks,
  a symbol table and triads.
- `app/` – the command-line driver: `minic <lab1|lab2|lab3|lab4> [path]`
  reads a file, runs a stage and prints what it found.
- `tests/` – scenarios for each stage.
