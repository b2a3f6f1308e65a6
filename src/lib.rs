//! Decoding and typesetting of paginated legacy e-book archives: the page
//! lexer, the typesetting state machine, the structured and markup sinks,
//! and the loaders of the page table and the table of contents.

pub mod decoding;
pub mod token;
pub mod text;
pub mod toc;
pub mod encoder;
pub mod for_flutter_proto;
pub mod for_flutter_encoder;
pub mod typst;
