# Paging for a 64-bit kernel, verified

The memory-paging part of a small x86-64 kernel, written in Verus: the
bitmaps of page-table entries, the types of pages and tables, the indexers
and iterators that walk the four levels of tables, the functions that insert,
remove, search, clean up and delete pages and tables, and the tracing pages
that keep track of what each memory owner has allocated inside its pages.

Every function of the library carries a contract over a mathematical model:
the physical memory holding the tables is a map from addresses to words, the
tracing pages are sequences of entries, and the memory map that owns the
physical frames is reached through a function answering requests, so that
each outcome is stated for whatever the memory map answered.

## Layout

- `src/` the verified library
  - `bitmap.rs`, `page.rs`, `table_type.rs`, `memory.rs`: entries, page and table kinds
  - `indexers.rs`, `table.rs`, `tables.rs`, `allocations.rs`, `search.rs`: walking tables
  - `physmem.rs`: the model of physical memory
  - `tracing/`: the tracing pages and their entries
  - `management/`: creating, inserting, removing, updating, cleaning and deleting
  - `setup.rs`: the first tables of the kernel
  - `tty.rs`: the text screen
- `tests/` tests of the library
- `app/` the kernel side: the memory map, the video memory, panics
