//! An in-memory structured-text editing engine: grapheme-aware text
//! buffers with byte-offset bookkeeping, a style annotator driven by a
//! markdown-subset grammar, and a document / table / paragraph hierarchy
//! that routes directional and editing commands by bubbling.

mod command;
mod document;
mod line;
mod markdown;
mod paragraph;
mod style;
mod table;
mod unicode;

pub use command::Characters;
pub use command::Command;
pub use command::Commandee;
pub use command::Motion;
pub use document::Document;
pub use document::Element;
pub use line::GraphemeCell;
pub use line::InsertResult;
pub use line::TextLine;
pub use line::join_lines;
pub use line::splice_new_lines;
pub use markdown::MdToken;
pub use markdown::MdTokKind;
pub use markdown::StyleSpan;
pub use markdown::apply_styles;
pub use markdown::restyle;
pub use markdown::style_spans;
pub use markdown::style_spans_of_text;
pub use markdown::style_at;
pub use paragraph::Paragraph;
pub use style::Position;
pub use style::StyleKind;
pub use style::StyleSet;
pub use table::Table;
