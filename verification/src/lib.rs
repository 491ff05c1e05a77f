//! The combinatorial core of Martinez-Rueda polygon clipping.
//!
//! The sweep's data structures: a comparator-ordered min-heap of events, and
//! three sweep lines (a sorted vector, a sorted list and a splay tree), all
//! kept in arenas of plain values.  The sweep's decisions on plain values:
//! which edges belong to the result of an operation, how the result's
//! contours nest, the order and linking of the output events, and the
//! shortcuts when an operand is empty or the operands are far apart.  And
//! the flat, reusable storage of a result.  Points are of any type; the
//! geometry on them is left to the caller.
pub mod boolean;
pub mod compute_fields;
pub mod connect_edges;
pub mod contour;
pub mod divide_segment;
pub mod edge_type;
pub mod fill_queue;
pub mod min_heap;
pub mod operation;
pub mod order;
pub mod possible_intersection;
pub mod reuse;
pub mod sorted_list;
pub mod subdivide_segments;
pub mod splay_tree;
pub mod sweep_event;
pub mod tree;
pub mod tree_by_compare_segments;
pub mod vec_ops;
