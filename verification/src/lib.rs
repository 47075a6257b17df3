//! Rendering of structured values into environment-variable assignments,
//! the server's settings, and the log text of container output.

pub mod text;
pub mod value;
pub mod serializer;
pub mod serialize;
pub mod configuration;
pub mod logs;
