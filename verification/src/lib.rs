pub mod encoder;
pub mod frontend;
pub mod metadata;
pub mod program;
pub mod text;
pub mod text_laws;
pub mod token;
pub mod utils;
