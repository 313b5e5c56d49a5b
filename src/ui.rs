pub mod input;

pub use input::{handle_key, Action, Key};
