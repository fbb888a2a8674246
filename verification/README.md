# thapthim

Thai text processing — TCC, syllable and word segmentation, normalization, part-of-speech
tagging and spelling correction — with its logic verified by Verus.

## Layout

- `src/` — the verified library.
  - `text.rs`, `fields.rs`, `table.rs` — UTF-8 geometry, line/field parsing, keyed tables.
  - `tcc.rs` — the Thai Character Cluster grid (the `regex` crate runs the cluster pattern).
  - `lattice/` — the segmentation engine: dictionary candidates (`daachorse`), the generic grid
    Viterbi, OOV coalescing, the branching-entropy merge, packed token streams, and the interned
    language-model layers.
  - `lm_format.rs` — interning of the language-model count tables, and their text parsers.
  - `normalize.rs` — the standard normalizer (its rewrite steps run on `fancy-regex`).
  - `pos.rs`, `pos_decode.rs` — the tag set, surface canonicalization, shape rules and the tag
    decode.
  - `spell/` — the dictionary trie with its bounded edit-distance search, count tables, the
    spelling engine and the sentence-level choice.
  - `token_list.rs` — whitespace-token filtering and byte ranges of packed tokens.
- `tests/` — tests of the library.
- `app/` — what the library leaves to its host: loading the data assets, the floating-point
  scoring models (Kneser-Ney bigrams, branching entropy, HMM probabilities, spelling ranks), the
  serde forms of the model files, and the C ABI.

The scoring models reach the library through traits (`PathScore`, `LatticeModel`,
`SentenceScorer`, `TagScorer`) whose methods each agree with a spec counterpart. The decoders
— the grid Viterbi, the segmenters built on it, the sentence choice and the tag decode — are
proved to return a best-scoring result whenever the model obeys the stated laws
(`lattice_laws`, `sentence_laws`, `tag_laws`): every score the model gives is valid, sums of
valid scores are valid, and "better" orders valid scores (`score_laws`). The laws speak only
of valid scores; for the log-probabilities of `app/` a score is valid when it is not NaN and
at most 0.

The data assets (vocabularies, language model, entropy table, spelling tables, tagger model)
are read at run time from the directory named by `THAPTHIM_ASSETS`.
