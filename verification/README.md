# Lexime

The engine of a Japanese input method: kana in, kanji out.

`src/` is the engine. Every function in it carries a contract that Verus proves:

- `romaji` turns Latin letters into kana.
- `dict` holds dictionaries and connection costs, their file formats, and what
  builds, merges and compares them; `dict::source` reads Mozc and SudachiDict.
- `converter` builds the lattice of a reading, finds its cheapest paths, and ranks,
  groups, rewrites and explains them.
- `user_history` counts what the user chose and forgets it again; `candidates` puts conversions,
  predictions and lookups together.
- `session` is the state machine behind the keyboard. `session::model` says what
  each key does, `session::laws` what holds of every key.
- `neural` holds the prompts and the steps of speculative decoding.
- `api` is what frontends see: events, flat answers, the ledger of what is not yet
  durable, and the decisions behind learning, clearing and compaction.

Calls into `lexime_trie`, `bincode` and `serde_json`, and a few of the standard
library, stand behind functions whose contracts are taken as given; each says in
its comment what it claims.

`tests/` runs the engine on values. `app/` is the program around it: the command
line, files, downloads, threads, the C interface, and the scores of the language
model.
