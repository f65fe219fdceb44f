//! JitterSnoop records scheduling jitter on isolated cores: how long a task was kept off its core,
//! and by whom. This is its verified core; what reads, prints and serves stands around it.
//!
//! An event starts in the [`probe`], which runs at every context switch under a [`plan`]. It comes
//! over as bytes, which [`event`] reads, and goes into the [`rolling`] buffer of the most recent
//! events, into the 24-hour [`store`] and, as a line of [`text`], into a log. The store keeps a
//! [`bucket`] for each minute, with a [`histogram`] and a tally for each [`aggressor`], and ranks
//! the [`worst`] events. The [`report`] sums it up; [`timeline`] states what it holds after a run
//! of events.

pub mod aggressor;
pub mod bucket;
pub mod event;
pub mod histogram;
pub mod plan;
pub mod probe;
pub mod report;
pub mod rolling;
pub mod store;
pub mod text;
pub mod timeline;
pub mod worst;
