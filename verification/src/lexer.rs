//! The word-level lexer.

mod plain_text_lexer;

pub use plain_text_lexer::PlainTextLexer;
pub use plain_text_lexer::emit_parts;
pub use plain_text_lexer::emit_row;
pub use plain_text_lexer::emit_word;
pub use plain_text_lexer::emit_words;
pub use plain_text_lexer::tokenize_model;
