//! The front end of a small rendering engine: a parser for a subset of HTML,
//! a parser for a subset of CSS, and the cascade that gives every element of
//! a document the properties that a style sheet declares for it.

pub mod chars;
pub mod error;
pub mod scanner;
pub mod dom;
pub mod html;
pub mod stylesheet;
pub mod order;
pub mod css;
pub mod style;
pub mod render;
pub mod render_css;
