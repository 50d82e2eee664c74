//! What the interactive viewer computes: its selection and key handling,
//! the rows of its panes and the styled text of its detail panels. The
//! terminal drawing itself stays with the program that runs the viewer.

pub mod blocks;
pub mod detail;
pub mod edges;
pub mod keys;
pub mod panels;
pub mod rows;
pub mod slots;
pub mod styled;
