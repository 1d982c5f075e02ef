pub mod doubly_linked_list;
pub mod singly_linked_list;
