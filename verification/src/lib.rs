//! Triangle-mesh simplification by edge collapse.
//!
//! A mesh is held as one node for each corner of each triangle. A node is
//! linked to the next corner of its triangle (`relative`) and to the next node
//! that claims the same position (`sibling`), so that the triangles are loops
//! of three nodes and the nodes around a position form a ring. Collapsing an
//! edge merges one position into another by rewriting these links in place;
//! removed nodes stay where they are as tombstones.
//!
//! - [`node`], [`connected_mesh`]: the nodes, the mesh and what makes it well
//!   formed.
//! - [`ring`]: rings of nodes as sequences, and what holds of them.
//! - [`navigation`], [`topology`]: walks along the links, faces and edges
//!   around a node.
//! - [`builders`]: from a triangle list to a mesh and back.
//! - [`validate`]: checking a mesh at run time.
//! - [`repair`], [`collapse`], [`tracker`]: mending rings, collapsing an edge,
//!   and the map from positions to nodes that a collapse keeps up to date.
//! - [`edge`], [`queue`], [`decimate`]: edges, the queue of edges by cost, and
//!   the scheduler that collapses the cheapest edge until few enough faces
//!   are left.

pub mod builders;
pub mod collapse;
pub mod connected_mesh;
pub mod decimate;
pub mod edge;
pub mod navigation;
pub mod node;
pub mod queue;
pub mod repair;
pub mod ring;
pub mod topology;
pub mod tracker;
pub mod validate;
