//! A pipeline orchestrator core: directed acyclic graphs of tasks, the
//! backend that stores their runs, and the engine that schedules, dispatches,
//! retries and records them.

pub mod backend;
pub mod cancel;
pub mod check_timeout;
pub mod cli;
pub mod codec;
pub mod command;
pub mod cron;
pub mod dag;
pub mod depth;
pub mod dispatch;
pub mod engine;
pub mod expand;
pub mod graph;
pub mod in_memory_backend;
pub mod json;
pub mod keys;
pub mod laws;
pub mod lists;
pub mod progress;
pub mod report;
pub mod rules;
pub mod runs;
pub mod schedule;
pub mod settle;
pub mod shared;
pub mod status;
pub mod task;
pub mod template;
pub mod utils;
pub mod worker;
