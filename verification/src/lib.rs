//! Host telemetry engine.
//!
//! Once per tick the caller reads the system and hands over what it read. The
//! engine turns the flat process table into a forest that trusts only
//! plausible parent links ([`forest`], [`lineage`]), assembles the record to
//! publish ([`stats`]) and decides which notifications are due
//! ([`watchdog`]); [`monitor`] ties the three into one step of the monitoring
//! loop. What holds of every forest and of every run of the alert policy is
//! proved in [`forest_laws`] and [`watchdog_laws`].
//!
//! The remaining modules serve the inspection commands of the shell: startup
//! programs ([`startup`]), the shared objects of a process ([`modules`]),
//! listening sockets ([`ports`]), scheduling priority ([`priority`]) and
//! processor affinity ([`affinity`]), the tray menu ([`tray`]), and the text
//! tools they share ([`text`]).
//!
//! CPU loads are fixed-point numbers, in thousandths of a percent;
//! temperatures are thousandths of a degree; times are milliseconds.

pub mod affinity;
pub mod forest;
pub mod forest_laws;
pub mod lineage;
pub mod models;
pub mod modules;
pub mod monitor;
pub mod ports;
pub mod priority;
pub mod snapshot;
pub mod startup;
pub mod stats;
pub mod text;
pub mod tray;
pub mod watchdog;
pub mod watchdog_laws;
