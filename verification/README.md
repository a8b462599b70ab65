# nix_editor

A command line utility, and the library behind it, for reading and
modifying the values of NixOS configuration files, with the library's
behaviour stated in contracts and proved by Verus.

```
nix-editor [OPTIONS] <FILE> <ATTRIBUTE>

  -v, --val <VAL>        Value to write
  -a, --arr <ARR>        Element to add
  -d, --deref            Dereference the value of the attribute
  -o, --output <OUTPUT>  Output file for modified config or read value
```

## Layout

- `src/tree.rs`: the lossless syntax tree as plain values (`Green`, viewed
  as the mathematical `Tree`), its text, and its walk.
- `src/syntax.rs`: parsing with the `rnix` crate (the one trusted call,
  whose result is named `nix_tree`), positions in a tree (`Cursor`,
  `SyntaxNode`) and how edits at a position change the text.
- `src/parse.rs`: finding the attribute set of a file, the binding of a
  dotted attribute path, and collecting all bindings.
- `src/read.rs`, `src/write.rs`: the reads and edits; each public operation
  has an exact specification (`*_spec`), and its contract also states what
  the edit does to the text: a write replaces exactly the value text of the
  file's own binding (the text a read returns, where the read finds that
  binding), or inserts exactly one binding; a removal takes out exactly the
  text of the binding, from whichever attribute set holds it; list edits
  only insert the element texts, or only take out the listed elements and
  line breaks.  Every edit returns the whole file, but a write to a path
  that the file holds only as longer dotted paths (`a` in
  `{ a.b = 1; a.c = 2; }`), which returns the text written for the binding
  gathered from them (`{ a = 3; }`).
- `src/lib.rs`: the messages the command prints.
- `app/main.rs`: the command line program (argument parsing, files,
  colours).
- `tests/`: scenarios on concrete files.
