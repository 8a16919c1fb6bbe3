//! A skip list: an ordered map whose entries sit in a sorted linked list
//! with express lanes of increasing stride above it.

pub mod order;
pub mod lanes;
pub mod layout;
pub mod node;
pub mod height;
pub mod skiplist;
pub mod laws;
pub mod text;

pub use height::{level_for_bits, MAX_LEVEL};
pub use layout::{Layout, LayoutError};
pub use node::{Node, NodeHead};
pub use skiplist::SkipList;
pub use text::render_lanes;
