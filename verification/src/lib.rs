//! Content-addressed synchronization of a course/question/option dataset.
//!
//! The library canonicalizes an in-memory course tree (text trimming,
//! duplicate collapsing, deterministic ordering), assigns every entity a
//! content digest computed bottom-up over the tree, and reconciles the
//! hashed local tree against a remote id-to-hash snapshot, producing the
//! minimal changeset of upserts and deletions.

pub mod canon;
pub mod data;
pub mod digest;
pub mod hashing;
pub mod laws;
pub mod order;
pub mod pipeline;
pub mod sync;
pub mod text;
pub mod validate;

pub use data::{
    CourseData, CourseEvaluationData, QuestionData, QuestionOptionData, RawCourseData,
    RawCourseEvaluationData, RawQuestionData, RawQuestionOptionData,
};
pub use digest::blake3_hex;
pub use sync::{SyncData, SyncMetadata, compute_sync_data};
pub use validate::ValidationError;
pub use text::{bytes_eq, copy_bytes, lex_leq_bytes, trim_bytes};
