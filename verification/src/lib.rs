//! Scene extraction for batch rendering of glTF scenes.
//!
//! A scene is a forest of nodes. Each node may carry a camera or a mesh, and
//! places its children relative to itself. This library finds the camera and
//! the mesh that a depth-first walk meets first, describes them for a
//! renderer, and plans one render per scene file of a directory listing.
//!
//! - [`scene`]: the nodes and the hierarchy, which is checked to be a forest.
//! - [`walk`]: paths, the order of the depth-first walk, and the search for
//!   the first node that carries a payload.
//! - [`camera`], [`mesh`]: the descriptors of the first camera and the first
//!   mesh.
//! - [`transform`]: world transforms as products along a path.
//! - [`batch`]: which files are rendered, and where each image goes.
//! - [`render`]: the plan of one render.
//!
//! Reading files, drawing and writing images are left to the caller. Numbers
//! that a renderer reads as single-precision reals are carried by their bit
//! patterns and never computed with.

pub mod scene;
pub mod walk;
pub mod camera;
pub mod mesh;
pub mod transform;
pub mod batch;
pub mod render;
