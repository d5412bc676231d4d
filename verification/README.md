# aspen

The core of Aspen, a photo studio for culling portrait shoots and finishing
them in Lightroom Classic, written in Verus: each function states what it does
in `requires`/`ensures` and the proofs are checked by the verifier.

## Layout

- `src/` — the verified library.
  - `dedupe.rs`, `union_find.rs`, `dedupe_laws.rs`: duplicate clustering
    (identical bytes first, then perceptual near-duplicates merged nearest
    first under complete linkage) and the properties every result has.
  - `pipeline.rs`, `placement_laws.rs`, `vision.rs`: the decisions of a
    Deduplicate run — unique files, the placement plan and its tallies,
    reading a vision model's answer, the vision request.
  - `cache.rs`, `assoc.rs`: the content-hash cache (BLAKE3 through the
    `blake3` crate).
  - `image_edit.rs`: the deterministic Lightroom edit plan, AI strength
    adjustments, output folder versioning, chat trimming.
  - `settings.rs`, `discover.rs`, `fs_action.rs`, `path_text.rs`,
    `text.rs`, `text_trim.rs`: settings and their defaults, which files take
    part, non-overwriting names, path and string helpers.
  - `benchmark.rs`, `run_files.rs`, `logging.rs`: benchmark records and CSV,
    pruning of old runs, log rotation and the bounded event buffer.
  - `hashing.rs`, `preview.rs`, `quality.rs`, `paths.rs`, `tags.rs`: the
    integer parts of hashing and preview extraction, subject-box geometry,
    helper discovery and Finder tags.
- `tests/` — tests of the library on concrete values.
- `app/` — file, network and process I/O, serde shapes, floating-point
  quality scoring, and the command layer the desktop shell calls.
