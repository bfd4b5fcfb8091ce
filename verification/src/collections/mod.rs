//! The collections under the store: a skip-list map and a bloom filter.

pub mod bloom_filter;
pub mod skip_list;
