# EasyEnglish

An English/Chinese pop-up dictionary. This crate holds its logic as a Verus
library, with every function's behaviour stated in `requires`/`ensures` and
proved; `app/` holds the program around it (files, SQLite, threads, JSON).

## Library modules (`src/`)

- `text`, `distance`, `sort`: character sequences, edit distance, and a
  stable merge sort by composite keys.
- `algo`, `dict`: candidate ranking (prefix and fuzzy suggestions) and the
  offline dictionary's lookup, seeding and suggestion rules.
- `notes`, `history`, `lookup`, `state`, `config`: user notes, the bounded
  lookup history, the notes/dictionary lookup policy, the application state
  and its configuration.
- `record`: the stored record models.
- `lexicon`, `dataset`, `cn_dataset`: reading the source dictionary's fields,
  choosing and ranking the English headwords of the dataset, and building the
  inverted Chinese-to-English index.
- `hub`: the order and outcome of a lookup over several record providers.
- `ui`, `flyout`, `focus`, `hotkey`, `versions`: the search overlay's
  decisions (query planning, result layout, focus movement, wake and hide,
  the wake gesture, the web-search address) and the choice of the newest
  dataset files.

## Program (`app/`)

`app/main.rs` offers `generate [source.db]` (builds the datasets in `Dict/`),
`lookup <word>` and `query <text>`.
