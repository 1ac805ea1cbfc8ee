//! SLRConfig: a hierarchical, human-editable configuration format with tables,
//! arrays, tagged variants of both, string concatenation and `$name` expansion.
//!
//! The crate holds the lexer, the grammar, the builder of the document tree and
//! the printer that writes a tree back as text.
//!
//! ```text
//! let root = ConfigElement::from_str("key = value").unwrap();
//! let value = root.as_table().unwrap().get("key").unwrap().as_value().unwrap();
//! assert_eq!(value, "value");
//! assert_eq!(root.to_string(), "key = value\n");
//! ```

pub mod chars;
pub mod span;
pub mod text;
pub mod quote;
pub mod config_string;
pub mod source;
pub mod error;
pub mod lexer;
pub mod visitor;
pub mod parser;
pub mod printer;
pub mod config_element;
pub mod laws;
pub mod relex;
pub mod reparse;
pub mod scopes;

pub use config_element::{ConfigElement, ConfigElementKind, ConfigElementVisitor, Table};
pub use config_string::{hex_to_char, ConfigString, StringKind};
pub use error::{Error, ErrorKind};
pub use lexer::{Lexer, Token, TokenKind};
pub use parser::parse_source;
pub use printer::Printer;
pub use quote::{get_string_quote_type, StringQuoteType};
pub use source::{Place, Source};
pub use span::Span;
pub use visitor::Visitor;
