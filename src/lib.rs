pub mod document;
pub mod laws;
pub mod text;
pub mod value;

pub use document::{Ini, IniError, Section};
pub use value::IniValue;
