//! Selection of bytes, characters or fields out of lines of text, in the
//! manner of `cut`: a position list such as `1,3-5` is parsed once and then
//! applied to each line.

pub mod text;
pub mod positions;
pub mod extract;
pub mod config;

pub use config::{build_config, Config, Extract};
pub use extract::{extract_bytes, extract_chars, extract_fields};
pub use positions::{parse_pos, ParseError, PositionList};
