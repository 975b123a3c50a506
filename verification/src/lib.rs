//! A sequence container built from individually stored nodes linked by
//! forward/backward edges, with verified push/pop at both ends, O(1)-style
//! concatenation, and borrowing/consuming iteration, together with a couple
//! of small verified demonstrations of Rust's aliasing discipline and a
//! record type meant to be filled in through an external editor.

pub mod aliasing;
pub mod edit_template;
pub mod linked_list;
