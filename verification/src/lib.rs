//! A formatter for Verilog and SystemVerilog source text.
//!
//! Formatting is two sweeps. [`lexer::tokens`] cuts the text into tokens, each
//! the exact piece of text it was read from and its kind. [`printer::printer`]
//! replays the tokens and decides, from the kinds alone, where a line breaks,
//! how deep it is indented and where a space separates two tokens. Neither
//! sweep reorders or rewrites a token.
//!
//! Both functions are verified against a mathematical model of what they
//! compute: [`lexer::lex`] for the token stream of a text and
//! [`printer::formatted`] for the text of a token stream. Over these models
//! the library proves what holds of every text:
//!
//! * [`coverage`]: the tokens of a text and the blanks between them make up
//!   the text, character for character;
//! * [`context`]: a token is the same token wherever its text stands, as long
//!   as what follows ends it;
//! * [`settled`]: the formatted text reads back as the tokens that were
//!   written, and formatting it once more changes nothing if and only if no
//!   blank line stands where the next pass would lose it;
//! * [`grown`] and [`mended`]: the same where the formatted text reads back
//!   otherwise than it was written, because a macro takes up the number
//!   behind it or a comment the carriage return behind it.

pub mod context;
pub mod coverage;
pub mod grown;
pub mod lexer;
pub mod mended;
pub mod printer;
pub mod settled;
mod text;
