//! Textbook algorithms and data structures, verified.
//!
//! The centerpiece is a single-source shortest-path engine: a binary heap
//! with a pluggable extraction order, driving Dijkstra's algorithm with
//! lazy deletion over non-negatively weighted directed graphs. Around it
//! stand the classic sorting and searching exercises.

pub mod binary_search;
pub mod binary_search_tree;
pub mod bubble_sort;
pub mod depth_first_search;
pub mod dijkstra;
pub mod graph;
pub mod heap;
pub mod heap_sort;
pub mod insertion_sort;
pub mod merge_sort;
pub mod merge_sort_linked_list;
pub mod min_stack;
pub mod order;
pub mod quick_select;
pub mod randomized_set;
pub mod quick_sort;
pub mod selection_sort;
pub mod shell_sort;
pub mod test_counter;
