# pangloss

Conversion between glossary (dictionary) formats: Yomitan, Stardict, Mdict,
tab-separated text, json, and a browsable html directory.

Every reader produces a `Glossary` (entries, data files, info, metadata) and
every writer consumes one. The library in `src/` is written in Verus: each
reader and writer is a function from the bytes or text of the files to a
glossary, or back, with a contract that says what it gives; the properties
that span functions (what a reader gives back of what a writer wrote, that a
glossary any reader gives can be written as Yomitan, that renaming duplicate
headwords leaves them distinct) are proof functions.

- `src/glossary/`: the glossary model, html rendering of definitions and
  html to Yomitan structured content.
- `src/formats/`: one module per format; readers and writers work on the
  contents of files, never on the file system.
- `src/transform/`: the stylesheet class rewrite and the entry transforms.
- `src/pipeline.rs`: what happens between reading and writing.
- `app/`: the command line program: arguments, files, zip archives, the json
  of the Yomitan banks, logging.
- `tests/`: tests of the library.

## Maps held as lists

The original keeps the glossary info, the Mdict stylesheet and a node's
`data` attributes in `indexmap::IndexMap`s. Here each is a `Vec` of pairs:
`GlossaryInfo` states as its well-formedness that no key appears twice and
that `name` comes first, and `NodeData::wf` that no key appears twice; the
stylesheet keeps the first pair for a number. Insertion keeps a present key in
its place and appends a new one, as `IndexMap::insert` does, and that order is
what the writers write. Holding the pairs in a `Vec` lets every operation on
them be verified against vstd's own specification of `Vec`; keeping the
`IndexMap` behind declared types and trusted wrappers was not tried.
