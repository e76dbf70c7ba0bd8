//! Transformations over a glossary: its css, and its entries.

pub mod css_transform;
pub mod entry_transform;

pub use css_transform::rewrite_css_classes;
pub use entry_transform::{EntryTransform, EntryTransformer, PreventDuplicateTerms, ResolveMdictStyles, TrimWhiteSpace};
