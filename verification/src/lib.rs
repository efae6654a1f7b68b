//! Level-of-detail quadtree and node addressing for a planet-scale terrain
//! renderer.
//!
//! The library decides, every frame, which terrain patches exist, at what
//! resolution, and where they sit in world space. Nodes of a conceptual
//! infinite quadtree are identified by compact [`VNode`] values; a
//! [`QuadTree`] walks them breadth-first, scores each against the camera
//! position, and collapses the result into the lists of fully and partially
//! visible nodes that a renderer consumes.
//!
//! World positions are measured in whole centimeters, which is finer than the
//! smallest cell the subdivision can reach.

mod grid;
mod priority;
mod quadtree;
mod vnode;

pub use priority::CameraPosition;
pub use priority::Priority;
pub use priority::PRIORITY_CUTOFF_KEY;
pub use priority::PRIORITY_SCALE;
pub use grid::grid_cell_corner;
pub use grid::grid_index_at;
pub use grid::grid_index_seq;
pub use grid::le_bytes_of;
pub use grid::make_index_buffer;
pub use grid::index_data_bytes;
pub use quadtree::LayerType;
pub use quadtree::NodeState;
pub use quadtree::QuadTree;
pub use quadtree::TileCache;
pub use quadtree::scored;
pub use vnode::VNode;
pub use vnode::LEVEL_CELL_2CM;
pub use vnode::ROOT_SIDE_LENGTH_CM;
