pub mod error;
pub mod interned_string;
pub mod lexer;
pub mod token;
pub mod whitespace;

pub use error::Error;
pub use interned_string::{InternedString, Interner};
pub use lexer::Lexer;
pub use token::Token;
