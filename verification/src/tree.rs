//! The scanned tree.

pub mod ages;
pub mod figures;
pub mod laws;
pub mod node;
pub mod search;
pub mod spans;
pub mod totals;
pub mod traces;
pub mod walk;
pub mod ways;

pub use ages::{age_profile, AgeProfile};
pub use node::{Metric, Node, NodeKind};
pub use totals::{aggregate, known_time};
pub use walk::path_of;
