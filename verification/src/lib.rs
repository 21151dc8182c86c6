pub mod key;
pub mod laws;
pub mod value;

pub use value::Value;
