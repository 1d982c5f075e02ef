pub mod array_list;
pub mod ring_buffer;
