# cn_input_encode

Finds the cheapest way to type a Chinese text with a given input method: the
dictionary maps words to key codes, a table gives the cost of typing one key
after another, and dynamic programming over the positions of the text picks
the typing of least total cost. The text is read in chunks, and what every
typing agrees on is written out as soon as it is settled. A report of key
usage per finger, row, repeated key and hand alternation follows.

## Layout

- `src/` — the verified library (Verus):
  - `cost.rs` — key pairs packed into integers, the lines of the cost table,
    and the `CostModel` trait through which the encoder adds and compares
    costs;
  - `text.rs` — characters, white space and trimming;
  - `chunk.rs` — what to do with the bytes of a file read so far, so that
    each chunk of text ends on a character boundary;
  - `fx.rs` — the `rustc_hash` collections the library is built on, with
    their trusted contracts;
  - `layout.rs` — the keyboard layout (finger and row of each key);
  - `usage.rs` — key usage statistics of an encoded text;
  - `trie.rs` — a character trie in one node pool;
  - `order.rs` — the order in which dictionary entries are taken (by
    weight, stable);
  - `dict.rs` — the dictionary text format, the registration that keeps codes
    distinct, and the tries of words and codes;
  - `encoder.rs` — the dynamic programming encoder.
- `tests/` — tests of the library.
- `app/` — the program: configuration, files, floating-point costs and
  weights, and the report.
