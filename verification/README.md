# alv

A small interpreted scripting language in the Lox family, with two front
ends: a tree-walking one (lexer, recursive-descent parser, resolver,
interpreter) and the start of a bytecode one (scanner, chunks, machine).

The library (`src/`) is verified with Verus:

- `token`, `lexer`: token kinds and the character lexer, specified by a
  mathematical model of scanning (`lex`, and `lex_errors` for what it
  reports: unterminated strings and characters that start no token).
- `ast`, `grammar`, `parser`: the syntax tree, the grammar as recursive
  specification functions, and the parser, each rule of which is proved to
  produce exactly what the grammar says (trees, errors, error recovery).
- `numbering`: the parser gives every variable use an id of its own.
- `resolution`, `resolver`: which scope each variable use refers to, and
  the static errors; the resolver is proved to compute exactly that.
- `environment`: the interpreter's variable store, with its laws (a read
  after a write, nested environments inheriting). Each frame keeps its
  bindings as a list of name and value pairs rather than a hash map: the
  names are strings and the values are of any type, and the contracts state
  lookups over a map model of that list.
- `scanner`, `chunk`: the bytecode scanner (its keyword trie agrees with
  the keyword table), opcodes, chunks, decoding and the machine's step.

`app/` is the command-line program: it reads a file, runs the verified
front end and interprets the program (numbers are floating point, which
stays outside the verified library).
