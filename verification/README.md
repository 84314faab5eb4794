# Neander assembler

An assembler for Neander, the minimal educational computer of INF-UFRGS,
written in Verus: each pass over the program text states what it computes
over sequences of characters, and Verus proves that the code meets it.

- `src/text.rs` — lines, whitespace-separated words, joining, trimming,
  decimal numbers and byte parsing, stated over `Seq<char>`.
- `src/text_laws.rs` — laws of those functions (joined lines and words
  read back as written, trimming, comment cutting).
- `src/metadata/` — the passes: comments and case, the `.code` / `.data`
  segments, label definitions, immediates (`$value`), label operands; and
  the memory image (`memlayout.rs`).
- `src/encoder.rs` — mnemonics, decoding a line into an instruction, and
  writing the prepared program into the image.
- `src/program.rs` — all passes in order, with the error for a program that
  cannot be assembled, and laws over the whole assembler.
- `src/utils/` — comment cutting, and `Pipeline`, a runner of passes whose
  contract says what running them in order can give.
- `app/` — the command line: reads the source, writes the `.mem` file.
