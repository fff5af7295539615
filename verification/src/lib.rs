pub mod cli;
pub mod diff;
pub mod excel;
pub mod format;
pub mod json;
pub mod metadata;
pub mod reader;
pub mod text;
pub mod writer;
