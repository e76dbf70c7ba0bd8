//! Conversion between glossary (dictionary) formats: Mdict, Stardict, Yomitan,
//! tab-separated text, json and a browsable html directory.

pub mod bytes;
pub mod compression;
pub mod context;
pub mod encryption;
pub mod strs;
pub mod utils;
pub mod entities;
pub mod formats;
pub mod glossary;
pub mod registry;
pub mod sorting;
pub mod transform;
pub mod pipeline;

pub use context::{Config, Context};
pub use glossary::{AltEntry, DataEntry, Definition, Entry, Glossary, GlossaryInfo, GlossaryMetadata, HtmlConverter};
pub use registry::{ReaderFormat, WriterFormat};
