//! An addressable hexagonal tiling of a subdivided icosahedron: coordinates,
//! the neighbour rule, adjacency and dual-mesh construction, payload storage
//! and traversal algorithms over the tiling.

pub mod adjacency;
pub mod algorithms;
pub mod builder;
pub mod coordinate;
pub mod dual;
pub mod ring;
pub mod sphere;

pub use adjacency::make_coordinate_store;
pub use algorithms::{Blob, LineCont};
pub use coordinate::{coord, Chunked, Coordinate};
pub use dual::{dual_topology, trio, DualCell, DualTopology, PointSource};
pub use ring::Hexagonish;
pub use sphere::Hexasphere;
