pub mod huffman_coding;
pub mod reader;
pub mod tracking_writer;

pub use reader::DeflateReader;
