pub mod strutils;
pub mod pipeline;
