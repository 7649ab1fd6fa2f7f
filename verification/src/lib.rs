//! The storage layer of a graph database: pages and the records on them, the
//! primary index, property blocks, redo and recovery, and the routing of
//! tenants to their stores.
pub mod catalog_laws;
pub mod checksum;
pub mod codec;
pub mod dash;
pub mod delta;
pub mod delta_laws;
pub mod dirty;
pub mod ids;
pub mod index_laws;
pub mod index_model;
pub mod index_nodes;
pub mod index_page;
pub mod index_rows;
pub mod index_store;
pub mod mutation_log;
pub mod order;
pub mod page;
pub mod page_laws;
pub mod page_visit;
pub mod primary_index;
pub mod primary_laws;
pub mod prop_block;
pub mod prop_entries;
pub mod prop_laws;
pub mod prop_model;
pub mod prop_read_laws;
pub mod prop_value_laws;
pub mod property;
pub mod property_index_catalog;
pub mod record_store;
pub mod records;
pub mod recovery;
pub mod redo;
pub mod redo_laws;
pub mod refusal_laws;
pub mod router;
pub mod secondary_handle;
pub mod slot_laws;
pub mod slot_model;
pub mod store_laws;
pub mod tree_check;
pub mod tree_laws;
pub mod tree_log;
pub mod tree_model;
pub mod tree_undo;
pub mod tree_walk;
