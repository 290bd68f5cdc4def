# soroban_forge

Structural checks for Rust source that may not compile: each reads the source
as text and reports where its structure diverges.

- `brace_depth` — closing braces with nothing to close, and the outermost
  opening brace left unclosed with the final depth.
- `duplicate_fn` — functions defined more than once within one block.
- `enum_discriminants` — variants of one enum resolving to the same
  discriminant, implicit values included. `fits` says beforehand whether
  `analyze` can read a source: no discriminant may be `i64::MAX`, whose
  implicit successor does not exist.
- `orphan_modules` — files that no `mod` declaration names.

Every check is a verified function whose contract equates its result with a
spec function over the characters of the input; `lex` and `text` hold the
shared scanners for comments, literals and identifiers, each proved against
its own spec. Laws such as "an empty report means the source is balanced"
are public proof functions beside the checks they speak of.

Character classes (`char::is_alphabetic`, `is_alphanumeric`,
`is_whitespace`) are spelled out for ASCII and named beyond it: the contracts
speak of the rest through `text::char_is_*`.
