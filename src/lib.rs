pub mod error;
pub mod laws;
pub mod parser;
pub mod result;
pub mod tokenizer;

pub use parser::{parse, Json, JsonView, Object, ParseError, TokenStream};
pub use tokenizer::{Error, Number, Token, TokenKind, Tokenizer};
