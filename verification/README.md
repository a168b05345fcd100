# zed_benchmark

A verified library for processing the edits that a language server sends
back to an editor, and for making such edits out of the history of a git
repository.

- `src/snippet.rs`: parser for LSP snippets (tab stops, placeholders,
  choices, escapes), specified by a grammar over characters.
- `src/edit.rs`, `src/edit_set.rs`: the edit types, and hash sets of edits
  (with `rustc_hash`'s hasher) behind specified wrappers.
- `src/lib.rs`: collecting a batch of edits with vectors or with hash sets,
  and the proof that both give the same edits.
- `src/benchmark_utils.rs`: selecting changed (non-executable) files, splitting lines, diffing
  two revisions (with `imara_diff`), and making an edit of each hunk.
- `app/lib.rs`: cloning the repository and reading its objects with `gix`.
