# entropy_tokenizer

A lossless byte-level tokenizer: training by repeated pair merges chosen by a
pluggable score, and encoding by dynamic programming over a trie of the
vocabulary. The library is written in Verus and its behaviour is proved.

## Layout

- `src/` — the verified library.
  - `trie.rs`: byte trie; its contents are a map from byte strings to ids.
  - `vocab.rs`: the vocabulary (256 single bytes, then merged tokens).
  - `encoder.rs`: dense (fewest tokens), greedy and scored encodings, all
    proved to decode back to their input; decoding and token offsets.
  - `trainer.rs`: pre-tokenization into words, incremental pair/token counts,
    merge selection and the training loop.
  - `stats.rs`: unigram, bigram and trigram counts.
  - `filters.rs`: optional byte filters and a pipeline running them in order.
  - `micromodel.rs`: integer parts of the experimental micro-model.
  - `text.rs`: lossy UTF-8 decoding.
- `tests/` — tests of the library.
- `app/` — the `eot` command-line tool, model files (JSON), the Python module,
  and everything floating point: entropies, log-probabilities, the merge and
  segmentation scores, and the micro-model's weights.
