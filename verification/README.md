# goose_db

The tokenizer of a small hand-written SQL database, verified with Verus.

- `src/lexer/scanner.rs`: the `Scanner`, which walks the input character by
  character and cuts it into `Segment`s (words, numbers, quoted strings,
  symbols), skipping whitespace and tracking byte offset, line and column.
  The scanning rules are spec functions over the input's characters
  (`scan`, `skip_whitespace`, `word_end`, ...); `next_segment` is proved to
  follow them, and the laws of scanning (whitespace is never emitted, the
  shape of segments, whitespace between segments changes nothing, ...) are
  proof functions beside them.
- `src/lexer/mapper.rs`: `token_mapper` classifies a segment into an
  `SQLToken` (keywords case-insensitively, punctuation, identifiers,
  literals), and `tokenize` drives the scanner over a whole input; both are
  proved against `classify` and `tokenize_from`.
- `src/lexer/text.rs`: UTF-8 facts used to keep byte offsets and character
  indices in step, the Unicode `White_Space` rule, and the calls into
  `char::is_alphabetic` / `char::is_alphanumeric`.
- `src/errors/errors.rs`: `ScanError` and its message.
- `app/main.rs`: a small program that tokenizes a sample query.
