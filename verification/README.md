# ugit

A small content-addressed version store in the style of git, written in
Verus. The library (`src/`) holds the logic with its specifications and
proofs; the program (`app/`) reads the working tree and the `.ugit`
directory from disk, calls the library, and writes back what it returns.

## Layout

- `src/object.rs`: objects (type header, NUL, content) stored under the hex
  SHA-1 of their bytes.
- `src/refs.rs`: references, links between them (`ref: <name>`), and the
  tags under `refs/tags/`.
- `src/commit.rs`, `src/tree.rs`: the commit and tree formats, reading them
  back, walking trees, and the steps that restore a tree.
- `src/worktree.rs`: the working tree as values, writing its tree, ignore
  files, and the plan that clears the working directory.
- `src/repo.rs`: committing, checking out, tagging and the log.
- `src/restore.rs`, `src/chain.rs`: the proofs that restoring a written tree
  gives it back, and that chains of links or parents that end stay short.
- `src/table.rs`, `src/text.rs`: tables of named bytes, and text handling.

The repository directory holds `objects/` (one file per object) and
references by path, such as `HEAD` (initially `ref: refs/heads/master`),
`refs/heads/<branch>` and `refs/tags/<tag>`.
