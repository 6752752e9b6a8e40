//! A read-only viewer for training runs: what it reads, what it keeps of it,
//! and what it shows.
//!
//! - Event files: framing ([`record`], [`crc`]), the wire format ([`wire`]),
//!   events ([`event`], [`hparams`]), resumable reading ([`reader`]) and
//!   writing ([`writer`]).
//! - The other formats: [`dvclive`], [`mlflow`], [`wandb`] and its records
//!   ([`wandb_record`], [`wandb_writer`]).
//! - The catalog: [`series`], [`run`], [`drain`], [`backends`], [`discover`],
//!   [`project`], [`materialize`], and the summary cache ([`cache`], [`warm`]).
//! - A logdir watched for one tag: [`watch`], [`watch_walk`], [`watch_laws`].
//! - What is shown: [`predicate`], [`table`], [`listing`], [`chart`],
//!   [`args`], and the terminal interface ([`screen`], [`tui`], [`viewer`],
//!   [`rows`], [`update`], [`export`], [`caption`], [`panel`]).
//! - What holds of it all: [`project_laws`], [`backend_laws`], [`frontier`],
//!   [`event_runs`], [`frontier_laws`], [`materialize_laws`], [`opening_laws`],
//!   [`warm_laws`], [`warm_start`], [`laws`].
//! - What each part is for, in words and numbers that do not go through its
//!   definition: the formats ([`format_laws`], [`value_laws`], [`text_laws`],
//!   [`wandb_laws`], [`cache_laws`]), the catalog ([`series_laws`],
//!   [`catalog_laws`], [`refresh_laws`]), filters ([`predicate_laws`]), tables
//!   ([`export_laws`], [`listing_laws`]), charts over exact arithmetic
//!   ([`exact`], [`chart_laws`], [`plan_laws`]), the interface
//!   ([`screen_laws`], [`scope_laws`], [`caption_laws`]) and the command line
//!   ([`args_laws`]).
//!
//! The library does no input or output and no floating-point arithmetic. It
//! is handed what was read, and says what to read next. Doubles are carried
//! as their bits; the functions that read, print and compute with them are
//! handed in (see [`numeric`] and [`arith`]), and the contracts speak of what
//! they give.

pub mod bytes;
pub mod crc;
pub mod record;
pub mod wire;
pub mod text;
pub mod names;
pub mod double;
pub mod event;
pub mod hparams;
pub mod reader;
pub mod writer;
pub mod params;
pub mod dvclive;
pub mod mlflow;
pub mod wandb;
pub mod wandb_writer;
pub mod wandb_record;
pub mod numeric;
pub mod series;
pub mod shelf;
pub mod run;
pub mod reading;
pub mod drain;
pub mod backends;
pub mod discover;
pub mod cache;
pub mod warm;
pub mod warm_laws;
pub mod warm_start;
pub mod project;
pub mod naming;
pub mod materialize;
pub mod project_laws;
pub mod predicate;
pub mod table;
pub mod arith;
pub mod chart;
pub mod args;
pub mod listing;
pub mod screen;
pub mod tui;
pub mod viewer;
pub mod rows;
pub mod update;
pub mod export;
pub mod caption;
pub mod watch;
pub mod watch_laws;
pub mod watch_walk;
pub mod panel;
pub mod errors;
pub mod backend_laws;
pub mod frontier;
pub mod event_runs;
pub mod frontier_laws;
pub mod materialize_laws;
pub mod opening_laws;
pub mod value_laws;
pub mod exact;
pub mod predicate_laws;
pub mod wandb_laws;
pub mod chart_laws;
pub mod export_laws;
pub mod screen_laws;
pub mod caption_laws;
pub mod args_laws;
pub mod catalog_laws;
pub mod text_laws;
pub mod refresh_laws;
pub mod scope_laws;
pub mod format_laws;
pub mod series_laws;
pub mod listing_laws;
pub mod plan_laws;
pub mod cache_laws;
pub mod laws;
