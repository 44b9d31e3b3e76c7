# rzozowski_fuzz

Input generators and a reference oracle for fuzzing regular-expression engines, with their
behaviour proved in Verus.

- `src/bytes.rs`: `Bytes`, a reader of fuzzer bytes that reads zeros past the end, and
  `Bytes::text`, a short text over a small alphabet.
- `src/pattern.rs`: `pattern`, a generator of pattern syntax (literals, escapes, classes,
  groups, alternation, counts) together with a text in the pattern's language; the proof
  shows the text is accepted by the expression the pattern text reads as.
- `src/tree.rs`: `tree`, a generator of expression trees, including constants and
  unsimplified shapes, with a text in the tree's language exactly when the language is not
  empty.
- `src/regex.rs`: the expression trees (`Regex`, `Count`, `CharRange`), their language
  (`accepts`), and lemmas about repetition, among them that `AtLeast(min)` never needs more
  than `min` plus the text length pieces.
- `src/oracle.rs`: `reference_matches`, a memoised matcher proved to decide `accepts`.
- `src/positions.rs`: `boundaries`, the byte offsets of the characters of a text.
- `src/syntax.rs`: how pattern text is read as an expression (groups, alternation,
  classes, escapes, counts); the proof shows that each generated pattern reads as the
  expression whose language holds its text.
- `app/lib.rs`: the fuzz targets, which compare the `rzozowski` and `regex` crates with
  each other and with the oracle on generated inputs, behind one libFuzzer entry point
  whose first input byte picks the target.
