//! Verified core of a small real-time scene renderer.
//!
//! The crate holds the parts of the renderer that decide things: the scene
//! tree and the order in which it is walked, the input state shared between the
//! event thread and the render thread, and the rules that turn held keys into
//! camera motion. Numeric work on matrices and every call to the window system
//! or the GPU is left to the caller, which hands in closures and plain values.

pub mod camera;
pub mod events;
pub mod keys;
pub mod mouse;
pub mod scene;
pub mod traverse;
pub mod window;
