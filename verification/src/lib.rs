//! Document engine for a Markdown language server: position/offset
//! conversion, incremental buffer edits, heading-based sectioning and
//! paragraph/list reflow, with contracts over a byte-level model of the text.

pub mod text;
pub mod document;
pub mod document_adapter;
pub mod format;
pub mod format_naive;
pub mod headings;
pub mod document_v2;
pub mod section;
pub mod section_index;
pub mod sections;
pub mod incremental_sync;
pub mod processors;
pub mod rope_buf;
pub mod treesitter;
pub mod formatter_v2;
pub mod test_doc;
pub mod test_doc_v2;
pub mod util;
