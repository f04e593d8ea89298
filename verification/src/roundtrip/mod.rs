//! What is rendered can be read back: the proof that parsing the text of a
//! value gives the value.

pub mod bytes;
pub mod normal;
pub mod parsed;
pub mod read;
pub mod shape;
pub mod steps;
pub mod text;
pub mod tree;
