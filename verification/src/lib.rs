//! Submission pipeline of a GPU command execution engine.
//!
//! The crate turns recorded command buffers and ad-hoc buffer writes into
//! ordered hardware queue submissions, and keeps exact bookkeeping of which
//! resource is in use by which submission, so that resources are reclaimed and
//! mapping callbacks fire only once the hardware has finished with them.

pub mod command;
pub mod life;
pub mod life_tracker;
pub mod pending;
pub mod queue;
pub mod resource;
pub mod storage;
pub mod track;

pub use command::Command;
pub use command::StagingBuffer;
pub use life::LifeGuard;
pub use life_tracker::LifeTracker;
pub use life_tracker::SubmissionRecord;
pub use pending::DeferredCommands;
pub use pending::PendingWrites;
pub use queue::Device;
pub use queue::MaintainResult;
pub use queue::SubmitError;
pub use queue::SubmitOutput;
pub use queue::WriteError;
pub use resource::Buffer;
pub use resource::CommandBuffer;
pub use resource::MapState;
pub use resource::SwapChain;
pub use resource::Texture;
pub use storage::Storage;
pub use track::Barrier;
pub use track::Tracker;
pub use track::UsageScope;
