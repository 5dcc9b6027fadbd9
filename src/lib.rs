pub mod schema;
pub mod segment;
pub mod doc_order;
pub mod merger;
pub mod sort_order;
pub mod fastfield;
pub mod term_ordinals;
pub mod fieldnorm;
pub mod postings;
pub mod term_merge;
pub mod store;
pub mod laws;
