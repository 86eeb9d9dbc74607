# rua

A small relational database engine. The library verifies its core pieces with Verus:

- `parser`: the statement language. `lexer` splits text into tokens; `grammar` states how each
  syntax tree is written as tokens and which token runs the reader accepts; `sql::parse_sql`
  reads a text into statements, and `roundtrip` proves that every well-formed statement list,
  written out, is read back.
- `rm::filesystem`: the page cache (`bufmanager`), its replacement order and hash lists
  (`utils`), the hierarchical `Bitmap` that finds the lowest free number, and the table of open
  files (`fileio`).
- `rm::record`: stored column types, table descriptions, and stored values with their order.
- `index::btree`: the layout of index nodes and buckets, the array operations on nodes, and
  the node steps of searching, inserting, splitting and rebalancing; `index::tree` holds an
  index tree whose nodes own their children, with `insert_record` and `search_record` proved
  to keep the tree well formed and to put and find entries as a sorted map does.
- `utils`: bit masks of slot pages, byte and number conversions (with the law that a date
  written as `year-mm-dd`, and a fixed-point number whose decimals do not start with 0, read
  back as the same text), text helpers.
- `sm`: the checks that a statement fits the stored tables (`check`), value conversions, and
  the range conditions of queries (`query_tree`), with the laws that an intersection of ranges
  holds exactly the values of both and that each condition narrows a range by itself; the
  conditions a where clause gives (`conds`), which rows meet them and which index serves a
  query best (`select`), and the checks that add primary and foreign keys (`keys`).

`app/` holds the command-line front end: settings, printing, random data and file access.
