# git-range-diff-better, verified

Compares the `git diff` of a commit range before a rebase with the one after
it, and prints the diff of the two diffs, keeping only the files whose diff
changed. The library under `src/` is verified with Verus:

- `text`: UTF-8 aware line splitting and byte-level string helpers.
- `normalize`: keys under which diff lines compare (hunk headers and blob
  hashes are ignored, file modes are kept).
- `diff`: longest-common-subsequence line diff; `diff_laws` proves that both
  texts can be read back from it and that it keeps a longest common
  subsequence.
- `sections`: keeps the per-file sections that hold a change.
- `render`: coloured and compact rendering.
- `report`: the whole pipeline; `cli`: arguments, usage and error messages.

`app/main.rs` runs `git diff` for both ranges and prints the report.
