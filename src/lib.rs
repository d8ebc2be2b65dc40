pub mod bits;
pub mod counting;
pub mod huffman;
pub mod node;
pub mod priority_queue;
