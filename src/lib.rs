pub mod models;
pub mod text;
pub mod parser;
pub mod renderer;
pub mod source;
