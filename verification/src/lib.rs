//! A codemap for preprocessed text.
//!
//! A preprocessor (such as `cpp` or `m4`) flattens several source files into
//! one stream and records the provenance of each spliced part with line-marker
//! directives of the form:
//!
//! ```text
//! #line 42 "/my/original/file"
//! ```
//!
//! This library parses those directives, partitions the flattened buffer into
//! provenance-tagged segments, and answers coordinate-translation queries:
//! a byte offset is resolved to the segment that owns it and to the original
//! line index the document claims for it, and an original line index is
//! resolved back to the byte range of its line. Diagnostic renderers can use
//! these answers to point at the user's real source instead of the flattened
//! intermediate.

pub mod codemap;
pub mod directive;
pub mod easyloc;
pub mod line_table;
pub mod reporting;

pub use codemap::Error;
pub use codemap::FileSlice;
pub use directive::BuildError;
pub use easyloc::EasyLocated;
pub use easyloc::EasyLocator;
pub use line_table::LineSpan;
pub use codemap::PreprocessedFile;
