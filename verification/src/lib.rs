//! A language server core for magit-style repository pages: a verified
//! annotated-text builder, a bijective page-identity/path codec, and the
//! bookkeeping that keeps live editor buffers and regenerated pages in step.

pub mod line_index;
pub mod page_writer;
pub mod pages;
pub mod path_codec;
pub mod semantic_token;
pub mod span;
pub mod stack;
pub mod store;
pub mod text;
