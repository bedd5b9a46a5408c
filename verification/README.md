# dedup-core

The verified core of a safety-first duplicate file finder.

- `src/` is the library, written in Verus. Every public function carries a contract over
  mathematical models (sequences, sets, spec functions), and the laws the engine promises
  (Hamming distance is a metric, hash and signature texts read back unchanged, groups are
  the connected components of their links, results are ordered as stated) are public proof
  functions.
  - `hash`: the three-stage funnel for exact duplicates (size, partial hash, BLAKE3 digest).
  - `fuzzy`: word-based file name similarity and its clustering.
  - `bits`, `bktree`, `images`: Hamming distance, a BK-tree, image thumbnails and
    similar-image clustering.
  - `videos`, `music`, `tags`: frame-signature and tag-based similarity, and reading tags.
  - `folders`: which folders of a scanned tree are reported as empty.
  - `grouping`, `union_find`, `order`: grouping by key, components, keep strategies.
  - `scan`, `tools`, `action`, `cache`, `hex`, `text`, `progress`, `models`: filters,
    cleanup tools, checks before file operations, cache record texts and shared types.
- `tests/` runs the library on concrete values.
- `app/` is the plain Rust around it: walking folders, reading files, the SQLite cache,
  the perceptual hashes (floating point), ffmpeg, file
  operations, progress messages and the JSON-facing copies of the types.
