//! The resources the submission pipeline tracks.
//!
//! Resources are held in handle-keyed storages owned by the device. A buffer
//! carries its creation usage flags, its host-mapping state, its lifetime
//! marker, and a byte model of its device-local contents. The other resource
//! kinds share the lifetime handling; textures stand in for them here.

use vstd::prelude::*;
use crate::life::LifeGuard;
use crate::track::UsageScope;

verus! {

/// Creation usage flag: the buffer may be host-mapped for reading.
pub const USAGE_MAP_READ: u32 = 1;

/// Creation usage flag: the buffer may be host-mapped for writing.
pub const USAGE_MAP_WRITE: u32 = 2;

/// Creation usage flag: the buffer may be the source of a copy.
pub const USAGE_COPY_SRC: u32 = 4;

/// Creation usage flag: the buffer may be the destination of a copy.
pub const USAGE_COPY_DST: u32 = 8;

/// Creation usage flag: the buffer may be bound as an index buffer.
pub const USAGE_INDEX: u32 = 16;

/// Creation usage flag: the buffer may be bound as a vertex buffer.
pub const USAGE_VERTEX: u32 = 32;

/// Creation usage flag: the buffer may be bound as a uniform buffer.
pub const USAGE_UNIFORM: u32 = 64;

/// Creation usage flag: the buffer may be bound as shader storage.
pub const USAGE_STORAGE: u32 = 128;

/// Host-mapping state of a buffer.
#[derive(Debug, Clone, Copy, PartialEq, Eq, Structural)]
pub enum MapState {
    /// Not mapped and no mapping requested.
    Idle,
    /// A mapping was requested and has not resolved yet; it resolves once
    /// the last submission using the buffer completes.
    Waiting,
    /// The buffer is host-mapped right now.
    Active,
}

/// One buffer: usage flags fixed at creation, host-mapping state, lifetime
/// marker, and the byte model of its device-local contents.
pub struct Buffer {
    pub usage: u32,
    pub map_state: MapState,
    pub life_guard: LifeGuard,
    pub contents: Vec<u8>,
}

/// A non-buffer resource; it shares the lifetime handling of all resource
/// kinds but carries no byte model and no host mapping.
pub struct Texture {
    pub life_guard: LifeGuard,
}

/// A presentable surface. A submission that references its acquired image
/// must signal the surface once the hardware completes.
pub struct SwapChain {
    /// Whether an output image is currently acquired for presentation.
    pub acquired_view: bool,
    /// How many submitted frames are pending presentation.
    pub acquired_framebuffers: u64,
}

/// One recorded command buffer: the usage scopes of the resources its
/// commands touch, and the surface it presents to, if any. The recorded
/// commands themselves are opaque to this layer; they are replayed by the
/// hardware between the barriers the submission pipeline stitches in.
pub struct CommandBuffer {
    pub buffer_uses: UsageScope,
    pub texture_uses: UsageScope,
    pub used_swap_chain: Option<u64>,
}

} // verus!
