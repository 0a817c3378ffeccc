//! A lexical scanner for a small dynamically-typed scripting language.
//!
//! The scanner turns raw source text into an ordered sequence of typed
//! tokens together with a list of the errors it recovered from and the
//! final line count. The whole scan is specified by a mathematical model
//! of the single-pass algorithm ([`scanner::scan_of`]), and the executable
//! scanner is proved to compute exactly that model.

pub mod laws;
pub mod scanner;
pub mod token;
