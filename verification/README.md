# embd

`embd` embeds the sources of one git repository into another, as an
alternative to `git subtree` and `git submodule`. Each embedded folder holds a
`.embd` file with the pinned remote, commit, include/exclude patterns and a
manifest of every file with its SHA-256 hash (text files hashed with CRLF
folded to LF).

- `src/` is the verified library: path keys and their order, glob filtering,
  repository links, path resolution, content hashing, the per-directory
  decisions of walks, drift detection (`status`) and the plan of file
  operations of `update`. Its contracts are checked by Verus.
- `app/` is the command-line program around it: argument parsing, git,
  reading and writing files, and the TOML form of `.embd` files.
