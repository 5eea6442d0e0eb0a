//! Analytical core of an application-usage dashboard.
//!
//! The library turns append-only, line-oriented activity logs (one file per
//! observation period, each line recording an application-focus change) into
//! time-bucketed per-application focus durations, filtered to a query range.
//!
//! The stages are pure functions over plain values; reading directories and
//! files is left to the surrounding program, which hands file names and file
//! contents in and receives usage records back.

pub mod aggregate;
pub mod codec;
pub mod collect;
pub mod events;
pub mod parse;
pub mod resolver;
pub mod scanner;
pub mod summary;
pub mod text;
pub mod time;
