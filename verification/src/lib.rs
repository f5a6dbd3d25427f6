//! Activity telemetry and local session store.
//!
//! The library has three parts: a probe that turns raw operating-system
//! readings (foreground window, input tick counters) into well-formed
//! snapshots, a session store that keeps activity sessions, classification
//! rules and user settings with idempotent upsert semantics, and a
//! bootstrap coordinator that decides once per process whether the main
//! surface should be shown or stay hidden. The surrounding shell performs
//! the operating-system calls and the file persistence and hands this
//! library plain values; everything here is verified.

pub mod bootstrap;
pub mod laws;
pub mod model;
pub mod probe;
pub mod store;
pub mod text;
pub mod types;

pub use bootstrap::StartupAction;
pub use probe::ForegroundInfo;
pub use store::Store;
pub use types::{
    ClassificationRule, RuleBinding, RuleLabel, RuleRow, Session, SessionRow, SettingRow,
    StorageError,
};
