# git-toprepo

git-toprepo combines a top repository and its submodules into one monorepo
history, where each submodule pointer is replaced by the content of the
submodule commit, and splits monorepo commits back into commits of the top
repository and of each submodule for pushing.

## Layout

- `src/` is the library, verified with Verus: the commit message combining
  and splitting, the `.gitmodules` parsing and import, the configuration
  model, the fast-export reader, the thin commit graphs, the monorepo graph
  and the search for where a submodule commit stands in it, the reference
  planning of a recombine, the push splitting, and the ordering of changes
  submitted together.
- `tests/` runs the library on concrete values.
- `app/` is the command line program: argument handling, running `git`,
  reading and writing files, and the loops that alternate between those and
  the library's decisions.

## Outside crates

- `encoding_rs` decodes commit messages in the encoding that the commit names.
- `sha2` and `hex` compute the checksum of a configuration.
- `gix-validate` checks full reference names. It is the reference name
  validation that `gix` itself uses when a `FullName` is built; the library
  calls it directly instead of depending on all of `gix`.
- `clap`, `anyhow`, `serde` and `toml` serve `app/` only: the command line,
  its errors, and reading and writing the configuration file.

## Caches

The expansion looks up the submodule content of monorepo commits and the
commits that last changed a submodule many times. The library computes each
lookup from the monorepo graph by a walk that is verified against its
specification. A cache of these results changes no result, only the time it
takes, so none is kept in the library; the `lru` crate is not used.
