//! Expression trees for a mathematical canvas: an index-addressed arena of
//! terms, a left-to-right parser that builds it one character at a time, and
//! a typesetting engine that measures and paints it in integer layout units.

pub mod arena;
pub mod clock;
pub mod equation;
pub mod layout;
pub mod paint;
pub mod parser;
pub mod request;
pub mod show;
pub mod term;
pub mod text;
pub mod units;
