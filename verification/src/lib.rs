//! Real-time state synchronization for a game-server dashboard backend.
//!
//! The library models the broadcaster core of the backend: a poller
//! periodically fetches a closed set of topics from an upstream source,
//! detects which ones changed since the last successful fetch, and fans the
//! changed values out to every connected subscriber, while each newly
//! connected subscriber receives a consistent initial snapshot.

pub mod broadcaster;
pub mod cache;
pub mod config;
pub mod message;
pub mod poller;
pub mod proxy;
pub mod session;
pub mod topic;

pub use broadcaster::Broadcaster;
pub use cache::SnapshotCache;
pub use config::{Config, ConfigError};
pub use message::{Event, WsMessage};
pub use session::{SessionAction, SessionEvent, SessionState};
pub use topic::Topic;
