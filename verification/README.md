# bencode reader and writer, verified with Verus

`parse` reads one bencode value from a byte string; `BNode::marshal` writes a
value back. Errors carry the position of the byte at which reading stopped.

Layout of `src/`:

- `term.rs`: the mathematical model of a value (`Term`) and its encoding.
- `grammar.rs`: what reading a byte string gives, as spec functions
  (`parse_spec` and the functions it is built from).
- `lexer.rs`: the lexer (`Lexer`, `Token`, `Error`) and its state as a
  mathematical value (`LexerView`), with a contract for each step.
- `parser.rs`: the reading functions, each proved against `grammar.rs`;
  `parse_checked` reads any input and reports out-of-range numbers and
  non-UTF-8 dictionary keys as errors.
- `node.rs`: values in memory (`BNode`, `BDict`) and `marshal`.
- `text.rs`: decimal notation for encodings and error messages.
- `laws.rs`: reading gives back what writing wrote, and writing gives back
  every input whose dictionaries list their keys in order; what reading gives
  is well-formed; a value read is exactly the one prefix of the input that is
  a complete encoding, and bytes after it are rejected; error positions lie
  within the input; the first byte decides the kind of value; a dictionary
  holds exactly its listed keys, each with the value of its last occurrence;
  looking ahead does not consume.
