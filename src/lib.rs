pub mod lexer;
pub mod preprocessor;
pub mod text;

pub use lexer::{Lexer, LexerError, Token, TokenClass};
pub use preprocessor::{LongCommentActivation, Preprocessor, PreprocessorError};
pub use text::Position;
