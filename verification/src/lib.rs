//! Reliable broadcast over stubborn links, with crash-recovery through a
//! key-value stable storage, and the scheduling core of a small actor
//! executor.
//!
//! The library holds the message formats and their byte encodings, the
//! state machines of the stubborn and the reliable broadcast, the layout of
//! their state in stable storage, the layout of a stable storage kept in
//! files, and the decisions of the executor. Threads, channels, clocks and
//! files are driven by a caller that performs the effects that these state
//! machines hand back.

pub mod assoc;
pub mod bytes;
pub mod codec;
pub mod domain;
pub mod executors;
pub mod file_layout;
pub mod history;
pub mod ids;
pub mod persistence;
pub mod reliable_broadcast;
pub mod schema;
pub mod stable_storage;
pub mod stubborn_broadcast;

pub use domain::{
    PlainSenderMessage, SystemAcknowledgmentMessage, SystemBroadcastMessage, SystemMessage,
    SystemMessageContent, SystemMessageHeader,
};
pub use executors::{Handler, Message, ModuleTable, Tick, TickScheduler, TickStep, WorkerMsg, WorkerStep};
pub use reliable_broadcast::{build_reliable_broadcast, Effects, MyReliableBroadcast, RecoveryError};
pub use stable_storage::{RamStorage, StableStorage};
pub use stubborn_broadcast::{build_stubborn_broadcast, MyStubbornBroadcast};
