# trunkdb

An embedded document database that keeps everything in one file: collections
of documents, found by id or by a filter, with secondary indexes, atomic
batches and a write-ahead log.

`src/` is the library. It holds the formats and the algorithms, each with a
contract that Verus proves:

- `document`, `encoding`, `decode`, `json`, `base64`, `id`, `values`: documents
  and how they are written down.
- `storage`: pages, slotted pages, and stores that can go back to where they
  were; `durability`: the write-ahead log.
- `index`: keys that sort as their values do, ranges of them, and the B-tree.
- `catalog`, `data`: what collections and indexes there are, and the records.
- `path`, `query`, `filter`, `builder`, `planner`, `ordering`: what a filter
  means, and which index can answer it.
- `collection`: writing, reading, finding and indexing documents. `state` says
  when a database is sound; every operation keeps it so. `packing` says when its
  pages are full.
- `database`, `batch`, `txn`: atomic changes; `cursor`: reading one by one;
  `reopen`: a sound database is sound again, and holds the same, once its catalog
  is read back from its pages.
- `check`, `tidy`, `compact`, `export`, `lines`: whether a file is consistent,
  making it smaller (a rebuilt one has full pages), and JSON Lines; `roundtrip`: an import gives back what was
  exported.
- `fuzzing`, `bench`: damaged files and workloads to try it with.

`app/` is the `trunkdb` command around it: the file, the log file, the
arguments, and printing JSON. `tests/` runs the library.
