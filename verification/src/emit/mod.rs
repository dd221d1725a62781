//! Writing records.

pub mod emitting_laws;
pub mod encoding;
pub mod laws;
pub mod push_emitter;

pub use encoding::Writing;
pub use push_emitter::PushEmitter;
