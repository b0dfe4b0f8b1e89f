//! Counting of DNA-encoded library hits: template matching, bounded-mismatch
//! barcode correction and per-sample aggregation of building-block tuples.
pub mod text;
pub mod correct;
pub mod barcodes;
pub mod format;
pub mod raw_sequence;
pub mod results;
pub mod errors;
pub mod parse_sequences;
