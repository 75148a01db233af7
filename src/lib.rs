//! Background download queue: a table of download tasks, the decisions of the
//! single worker that runs them one at a time, and the parser for the progress
//! lines that the download tool prints; with the small pieces around it
//! (storage paths, notifications, settings).
use vstd::prelude::*;

pub mod config;
pub mod downloader;
pub mod notifications;
pub mod parser;
pub mod queue;
pub mod scanner;
pub mod text;

verus! {

} // verus!
