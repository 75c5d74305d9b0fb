pub mod binary_search;
pub mod binary_tree;
pub mod bubble_sort;
pub mod data_structures;
pub mod dijkstras;
pub mod heap_sort;
pub mod kadanes;
pub mod linear_search;
pub mod merge_sort;
pub mod min_heap;
pub mod quick_sort;
pub mod radix_sort;
pub mod ring_buffer;
