//! The widgets that come with the toolkit.

pub mod checkbox;
pub mod element;
