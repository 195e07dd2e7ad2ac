//! Keeps the rules of a firewall in step with the addresses of hosts whose addresses change.
//!
//! [`sync`] holds the synchronization itself: a state machine that asks for commands, files and
//! names and is handed what came of them. [`run`] describes its course, [`plan`] what it decides, and
//! [`beginning`], [`progress`], [`safety`], [`convergence`], [`idempotence`], [`recovery`], [`outcome`]
//! and [`migration`] what it guarantees about the chain that [`firewall`] describes. [`setup`] and
//! [`install`] bring the program onto a machine.

pub mod addr;
pub mod beginning;
pub mod cache;
pub mod chain;
pub mod command;
pub mod config;
pub mod convergence;
pub mod dns;
pub mod firewall;
pub mod idempotence;
pub mod install;
pub mod lists;
pub mod migration;
pub mod outcome;
pub mod plan;
pub mod plan_laws;
pub mod progress;
pub mod recovery;
pub mod run;
pub mod safety;
pub mod setup;
pub mod sync;
pub mod system;
pub mod text;
pub mod text_facts;
