//! Scene graph and per-frame traversal planning for a small OpenGL renderer.
//!
//! The library keeps the structure of the scene (which node is a child of
//! which, which node refers to GPU geometry) in an arena addressed by node
//! indices, and computes from it the order in which world matrices must be
//! propagated and the list of draw submissions for a frame. It also keeps the
//! set of held keys for the input handler and checks vertex buffer layouts.
pub mod input;
pub mod mesh;
pub mod scene;
