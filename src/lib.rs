//! Selection-and-range algebra for a small set of modal-editing commands:
//! whole-line selection, line joining, line-aware paste and a mode controller.
//! Every command is a function from the editor state it reads (a frozen buffer
//! snapshot and the selection set) to what the host should do next.
pub mod geometry;
pub mod row_ranges;
pub mod buffer;
pub mod line_select;
pub mod join;
pub mod paste;
pub mod mode;
pub mod motion;
