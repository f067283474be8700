//! Block records and a multi-key index over a batch of them: lookup by
//! identifier, by content hash, by exact timestamp and by timestamp range.
//! Also plain map-building and grouping helpers over record batches.

pub mod block;
pub mod convert;
pub mod index;
pub mod json_text;
pub mod keyed;

pub use block::{BlockMetadata, BlockResult};
pub use index::BlockResultIndex;
pub use keyed::KeyedMap;
pub use json_text::{json_object_lines, process_json_output, JsonOutputError};
pub use convert::{
    convert_results_to_map, convert_results_to_map_with_options, convert_to_map, group_results_by,
};
