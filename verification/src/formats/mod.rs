//! The glossary formats.

pub mod yomitan;
pub mod html;
pub mod json;
pub mod mdict;
pub mod stardict;
pub mod text;
