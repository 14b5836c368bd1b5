//! A lexer for a small C-like scripting language: it turns source text into
//! a sequence of typed tokens, one `next_token` call at a time, with the
//! scan's behavior pinned down by specification functions over the input
//! bytes and proved properties of the token stream.

pub mod lexer;
pub mod token;
pub mod whitespace;
