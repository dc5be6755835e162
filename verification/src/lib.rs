//! A fair queue of lanes, and the configuration of a node as a table of rows.
//!
//! The queue ([`queue::Inner`]) has one slot per lane. Senders of a lane share
//! its slot, and a [`LaneScheduler`] picks the lane whose item is delivered next.
//! What each operation does is stated in [`queue_state`], and what holds over any
//! number of operations in [`queue_laws`].
//!
//! The table ([`config_scan::ConfigScan`]) has a row for each value of a
//! configuration, under the path that leads to it ([`json_tree`]). What holds of
//! the rows and their batches is stated in [`config_laws`].

pub mod config_laws;
pub mod config_scan;
pub mod json_tree;
pub mod lane;
pub mod lane_table;
pub mod queue;
pub mod queue_laws;
pub mod queue_state;
pub mod scheduler;

pub use config_scan::{ConfigScan, ScanAction};
pub use json_tree::{flatten_json, flatten_tree, JsonTree};
pub use lane::{Entry, Lane};
pub use queue::{Inner, LaneSender, NextPoll, Permit, ReserveFut, ReservePoll, SendFut, SendPoll};
pub use scheduler::{LaneScheduler, RoundRobinScheduler};
