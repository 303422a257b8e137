//! Disk usage as a tree of sizes: the rules by which a walk of a directory is gathered into a
//! tree, and by which the tree is sorted, flattened and rendered as text.

pub mod lines;
pub mod node;
pub mod paint;
pub mod render;
pub mod scan;
pub mod settings;
pub mod size;
pub mod sorting;
pub mod text;
pub mod walk;

pub use lines::reverse_lines;
pub use node::Node;
pub use render::{Emphasis, Line};
pub use settings::{parse_depth, AppSettings, Arguments, DepthError, SettingsError};
pub use size::{file_size_to_str, str_to_file_size, SizeError};
pub use walk::{action_for, counted_length, depth_below, gather, Action, Found, Kind};
