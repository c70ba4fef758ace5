//! Line-addressable text editing with short content-hash anchors.
//!
//! A text is shown with a `LINE:HASH` anchor in front of every line. Edits
//! name lines by these anchors; a batch of edits is applied only if every
//! anchor still fits the text.

pub mod batch;
pub mod edit;
pub mod engine;
pub mod error;
pub mod format;
pub mod hash;
pub mod heuristics;
pub mod interface;
pub mod json;
pub mod laws;
pub mod order;
pub mod parse;
pub mod replace;
pub mod resolve;
pub mod splice;
pub mod text;

pub use edit::{
    ApplyResult, EditError, HashlineEdit, HashlineParams, InsertAfterOp, NoopEdit, ReplaceLinesOp,
    ReplaceOp, ReplaceResult, SetLineOp,
};
pub use engine::apply_hashline_edits;
pub use error::{HashMismatch, HashlineMismatchError};
pub use format::{format_hashlines, hash_only};
pub use hash::compute_line_hash;
pub use interface::{
    apply_edits, format_changed_region, format_lines_from, normalize_text, split_edits,
    BatchResult,
};
pub use json::{
    apply_json_edits, compute_canonical_hash, compute_json_anchor, format_json_anchors,
    DeletePathOp, InsertAtPathOp, JsonApplyParams, JsonEdit, JsonError, JsonValue, SetPathOp,
};
pub use parse::{parse_line_ref, LineRef};
pub use replace::apply_replace_edits;
