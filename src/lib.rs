//! The `@catch` pass over a query document's intermediate representation.
//!
//! A field annotated `@catch(to: RESULT | NULL)` contains the errors raised in
//! its subtree. The pass checks where such annotations may stand and that all
//! occurrences of one field agree on them, then leaves on each annotated field
//! a directive with its path and severity, and on each parent of a field that
//! may bubble `NULL` a marker directive.
//!
//! - `ir`: the documents, selections and directives the pass reads.
//! - `severity`: the two severities and their order.
//! - `catchable_field`: reading a field's annotation.
//! - `path`: the key that identifies a field across its occurrences.
//! - `keyed`: tables of entries keyed by path.
//! - `validator`: the per-document state and the consistency checks.
//! - `rewrite`: the directives that the pass adds.
//! - `transform`: the walk over selections.
//! - `finder`: whether a document reaches `@catch` at all.
//! - `pass`: documents and the whole program.
//! - `laws`: properties of the checks, proved.

pub mod catchable_field;
pub mod diagnostic;
pub mod finder;
pub mod ir;
pub mod keyed;
pub mod laws;
pub mod pass;
pub mod path;
pub mod rewrite;
pub mod severity;
pub mod transform;
pub mod validator;

pub use catchable_field::{CatchMetadata, CatchableField};
pub use ir::CatchMetadataDirective;
pub use pass::catch_directive;
pub use severity::CatchTo;
