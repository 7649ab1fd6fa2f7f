# arcgraph_storage

The storage layer of a graph database, verified with Verus: what its pages hold,
how its indexes and tables change, and how recovery puts them back.

- `page`, `slot_model`, `records`, `slot_laws`: page headers, node and
  relationship records, and slotted pages.
- `property`, `prop_model`, `prop_entries`, `prop_block`, `prop_laws`: property
  references and typed property blocks with their overflow payloads.
- `index_model`, `index_rows`, `index_nodes`, `index_page`, `index_store`,
  `tree_model`, `tree_check`, `primary_index` and `tree_laws`, `tree_walk`,
  `tree_log`, `tree_undo`: the primary index, a B+tree over pages.
- `record_store`, `page_visit`, `mutation_log`: the store of record pages,
  streaming pages, and what a transaction notes in order to be undone.
- `redo`, `delta`, `delta_laws`, `dirty`, `order`: the order of redo, physical
  redo, and the table of dirty pages.
- `property_index_catalog`, `secondary_handle`: the declared property indexes.
- `recovery`: rebuilding indexes, statistics and adjacency from the records that
  a recovered snapshot shows.
- `router`: finding the stores of a tenant.
- `checksum`, `dash`: the calls into `crc32c` and `dashmap`, with what is taken
  for granted of them.

A `*_model` module says what bytes mean; the functions that read and write them
are stated in its terms. A `law_*` proof function states a promise that spans
several functions. Where the library calls back, it does so through a trait that
keeps a list of the calls, and the contract says what the list is afterwards; a
`*Calls` or `*Visits` type implements the trait by a closure.

`app/` is the engine around the library: locks, the log, threads, and the forms
in which errors and values are shown.
