//! A frame-pipelined entity engine core: a parent hierarchy with cascading
//! deletes, an incrementally solved transform hierarchy, and the per-frame
//! state machine that double-buffers a system's snapshot.
pub mod entity;
pub mod parent;
pub mod transform;
pub mod system;
pub mod name;
