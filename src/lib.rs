//! Topology core of a dual marching cubes tessellator: edges and cells of the
//! sampling grid, cell configurations, leaf clusters, octree simplification
//! and the quad faces of the resulting mesh.
pub mod bitset;
pub mod cells;
pub mod edge;
pub mod grid;
pub mod keys;
pub mod leaves;
pub mod octree;
pub mod quads;
pub mod sampler;
pub mod topology;
pub mod walk;
