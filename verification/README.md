# wall_e1

The text and data side of a small Transformer language model, with its
behaviour stated in `requires`/`ensures` contracts and proved by Verus.

## Layout

- `src/` — the verified library.
  - `text`, `decimal`, `assoc`, `counting`: models of strings, decimal
    numbers, association lists and word counts that the rest builds on.
  - `vocab`: the token/ID vocabulary, its file format (`to_lines`,
    `from_lines`) and the proof that reading back what was written gives the
    same vocabulary, for a vocabulary whose two maps agree, whose special
    tokens all have IDs and whose tokens hold no tab (`new`, `add_token` and
    `add_special_token` keep the first two; see `well_built`).
  - `tokenizer`, `basic_tokenizer`, `bpe_core`, `bpe`, `word_bpe`: the
    tokenizers (white space and punctuation, BPE, WordPiece-style BPE with
    word boundaries) and the learning of merge rules.
  - `processor`, `stream`: text normalisation and reading a file in batches.
  - `split`, `batching`, `masks`: dataset splits and k-fold cross-validation,
    training batches and validation windows, attention masks.
  - `cache`, `checkpoint`: cache sizes and batch sizing, gradient
    checkpointing decisions and memory accounting.
  - `csv_table`: the texts of a CSV dataset, read from its bytes with the
    `csv` crate and picked by column name.
  - `model_check`: the checks that saved model parameters must pass.
- `tests/` — tests of the library.
- `app/` — the program around it: file input and output, floating-point
  tensors, attention layers and embeddings, and a demonstration `main`.
