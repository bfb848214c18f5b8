//! Exhaustive synthesis of minimal NAND-only circuits for a truth table.
pub mod circuit;
pub mod enumeration;
pub mod render;
pub mod search;
pub mod table;

pub use circuit::Gate;
pub use render::{render_formula, signal_name};
pub use search::{find_circuits, find_for_n, searching, Outcome};
pub use table::{parse_table, tabulate_inputs, validity_mask, Table, TableError};
