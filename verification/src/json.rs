//! Editing JSON by path and hash: a value is named by its path from the root
//! and by the hash of its canonical form.

pub mod apply;
pub mod canon;
pub mod fault;
pub mod laws;
pub mod order_laws;
pub mod path;
pub mod render;
pub mod tree;
pub mod value;

pub use apply::{
    apply_json_edits, delete_path, insert_at_path, set_path, DeletePathOp, InsertAtPathOp,
    JsonApplyParams, JsonEdit, SetPathOp,
};
pub use canon::{compute_canonical_hash, compute_json_anchor};
pub use fault::JsonError;
pub use path::{parse_anchor, parse_path_segments, PathSegment};
pub use render::format_json_anchors;
pub use tree::query_path_segments;
pub use value::{Json, JsonValue};
