pub mod canonical;
pub mod format;
pub mod parse;
pub mod reader;
pub mod roundtrip;
pub mod writer;
