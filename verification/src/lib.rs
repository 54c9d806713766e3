//! recur: a human-friendly cron job manager.
//!
//! The verified core: cron-line parsing, plain-English schedule
//! descriptions, schedule field expansion, the upcoming-run timeline,
//! job checks and JSON field filtering.

pub mod text;
pub mod clock;
pub mod cron;
pub mod check;
pub mod cli;
pub mod timeline;
pub mod fields;
