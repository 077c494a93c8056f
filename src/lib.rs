//! Geometry planning for tube meshes grown from branching skeletons.
//!
//! The library holds the integer side of turning a skeleton into renderable
//! and exportable geometry: the per-material layout of tube rings and the
//! triangle index buffers that stitch them (`mesher`, with its laws in
//! `tube_laws`), the byte layout of the binary glTF container, its packed
//! buffer and OBJ face records (`export`), the glTF scene description
//! (`scene`), and the small procedural textures that materials sample
//! (`materials`). Every function states its result exactly in its contract.
use vstd::prelude::*;

pub mod export;
pub mod materials;
pub mod mesher;
pub mod scene;
pub mod tube_laws;

pub use mesher::LSystemMeshBuilder;
