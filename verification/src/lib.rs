//! Verified core of a Markdown editor: character/byte index conversion,
//! find & replace, the heading outline, toolbar formatting, the export
//! conversions, the document's save state and the AI panel's logic.

pub mod ai;
pub mod chars;
pub mod doc;
pub mod export;
pub mod find;
pub mod markdown;
pub mod outline;
pub mod scroll;
pub mod settings;
pub mod shortcuts;
pub mod slides;
pub mod strs;
pub mod text_util;
pub mod toolbar;
