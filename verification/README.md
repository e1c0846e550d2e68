# sudachi

Verified parts of a morphological analyzer for Japanese.

- `trie`: common prefix search in a double-array trie.
- `u16str`: the strings of the dictionary, length prefixed UTF-16.
- `default_input_text`: normalization of the input text. It builds on
  - `rewrite_lists`: the rewrite definition,
  - `checker`: the search for the keys of the replacement rules,
  - `trivial_chars`: the table of characters that need no normalization,
  - `rewrite`: what rewriting does to text, and the laws of it,
  - `input_text`: the edits.
- `text`: facts about UTF-8. `unicode`: Unicode properties.

`src/` is verified with Verus. Calls into other crates are wrapped in `unicode`, `checker`
and `u16str`; the comments there say what is taken for granted. `app/` reads files and
settings and adapts the library to the traits of other crates.
