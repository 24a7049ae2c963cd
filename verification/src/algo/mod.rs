//! Computational geometry algorithms.
pub mod boolean;
pub mod convex_hull;
pub mod delaunay;
mod hull_proofs;
pub mod kdtree;
pub mod octree;
pub mod quadtree;
mod region_tree;
pub mod rtree;
pub mod sweep;
pub mod voronoi;

pub use convex_hull::graham_scan;
pub use delaunay::{delaunay, Triangle, Triangulation};
pub use kdtree::{KdTree2, KdTree3, NearestResult};
pub use octree::{Bounds3, Octree};
pub use quadtree::{Bounds, Quadtree};
pub use rtree::{RTree, RTreeEntry, RTreeNearestResult};
pub use voronoi::{voronoi, voronoi_from_delaunay, VoronoiDiagram, VoronoiEdge, VoronoiVertex};
