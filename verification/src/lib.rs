//! Period tracking and cold storage of inactive state trie subtrees.
pub mod age_laws;
pub mod be_bytes;
pub mod blob_laws;
pub mod capture;
pub mod clickhouse_source;
pub mod cold_file;
pub mod cold_format;
pub mod cold_laws;
pub mod cold_stub;
pub mod convert;
pub mod convert_inactive;
pub mod convert_laws;
pub mod file_source;
pub mod frame_laws;
pub mod identifier;
pub mod identify;
pub mod identify_inactive;
pub mod identify_laws;
pub mod inject;
pub mod inject_laws;
pub mod inject_periods;
pub mod inspect_periods;
pub mod key_order;
pub mod layout_laws;
pub mod leaf_laws;
pub mod maximal_laws;
pub mod nibble_map;
pub mod nibbles;
pub mod outside;
pub mod path_laws;
pub mod period_index;
pub mod periods;
pub mod primitives;
pub mod read_laws;
pub mod record_laws;
pub mod report_laws;
pub mod row_range;
pub mod run_config;
pub mod run_laws;
pub mod scope_laws;
pub mod stub_laws;
pub mod subtree_laws;
pub mod task_laws;
pub mod text;
pub mod trie_node;
pub mod walk;
