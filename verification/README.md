# fsman

A small, readable manifest format for selecting files and directories, with
its parser, resolver and views proved correct with Verus.

```fsman
.config {
  fish {
    config.fish
    functions {
      *
      !legacy.fish
    }
  }
}
.hidden
```

A line names a path, opens a block (`path {` ... `}`), selects the children
of the current directory (`*`), selects its contents recursively (`**`, or
`***`, which short output may collapse), or excludes a path and everything
below it (`!path`). `**` leaves out `.git` and what the rules of the global
git ignore file and of the `.gitignore` files it meets ignore; `***` leaves
out nothing. Those rules are read as a subset of git's syntax: comments,
`!`, a trailing `/`, anchoring by `/`, `*`, `?` (one byte) and `**`;
brackets and backslashes stand for themselves, and the rules apply whether
or not the directory is in a repository. Missing literal paths select
nothing.

## Layout

- `src/` is the verified library.
  - `manifest.rs`, `text.rs`, `parser.rs`: the manifest model and a parser
    whose result is proved equal to a specification of the grammar.
  - `paths.rs`, `fs.rs`, `resolver.rs`: resolution against a snapshot of a
    filesystem. When the snapshot lacks a fact, resolution names it; the
    caller records it and resolves again.
  - `ignore.rs`: git ignore rules, their parsing and matching.
  - `output.rs`: the terminal and short output paths of a resolved tree;
    both are proved to be cuts of the tree.
  - `diagnostics.rs`: where editors show parse errors, in UTF-16 columns.
  - `cli.rs`: command-line arguments and the tree views.
  - `guarantees.rs`: properties of every resolution, such as that absolute
    and `..` paths never resolve, that only directories are entered, that
    each entry's path is its parent's joined with its name, that `**` never
    selects `.git`, that neither the order nor the repetition of directives
    changes the result, and that the resolver only asks for facts it does
    not know yet.
- `app/` is the program around it: the command line, which answers the
  resolver's requests from the disk, the language server (when run as
  `fsman-lsp`), the Node binding and the Zed extension.
- `tests/` exercises the library on concrete manifests and in-memory
  filesystems.
