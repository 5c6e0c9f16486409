//! A parser for a small configuration format.
//!
//! ```text
//! [header]
//! key = value
//! key2 = value2
//!
//! [another_header]
//! key = value
//! ```
//!
//! A document is a sequence of sections. A section is a name in square
//! brackets followed by one or more lines of `key = value`. Every value is a
//! string; sections do not nest. Blank lines and comments, which run from `#`
//! to the end of their line, may stand before a header, between the lines of
//! a section and after them.
//!
//! [`Config::parse_cfg`] reads a document into a [`Config`], a map from
//! section names to [`Section`]s whose strings are slices of the text.
//! [`Config::to_owned`] copies it into a [`ConfigOwned`], which can outlive
//! the text.
pub mod canonical;
pub mod config;
pub mod entries;
pub mod error;
pub mod index_map;
pub mod parser;
pub mod section;
pub mod text;

pub use config::Config;
pub use config::ConfigOwned;
pub use error::ErrorKind;
pub use error::ParseError;
pub use parser::{
    alphaword, alphaword_many0_underscore_alphaword, alphaword_many0_underscore_word, header,
    header_line, header_newline, key_value_pair, key_value_pair_line, key_value_pair_newline,
    parse_cfg, parse_section, parse_sections, space0_eol, underscore_alphaword,
    underscore_alphaword_drop_underscore, underscore_word, until_illegal_char,
};
pub use section::Section;
pub use section::SectionOwned;
