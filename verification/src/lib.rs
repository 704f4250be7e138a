//! A gravitational N-body animation core: a fixed-size RGBA frame buffer with
//! a clip-safe filled-circle rasterizer, a per-frame render pass, and the
//! animation scheduler's state machine.
//!
//! The physical integration itself works on real-valued scalars and is carried
//! out by the host; each frame the host hands this library the screen-space
//! discs to paint, and the library renders the frame and decides whether the
//! animation stays armed.

pub mod buffer;
pub mod sim;
