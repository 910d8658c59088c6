//! A small ranked-choice poll library.
//!
//! The heart of the crate is an instant-runoff voting tabulator: given a
//! collection of ranked ballots it determines the winning option, a tied set
//! of options, or that no result can be produced. Around it sit the data
//! model for poll items, ballots and persisted rankings, an in-memory ballot
//! store with atomic ranking replacement, and the pure computations that a
//! storage or web layer needs to feed the tabulator.

pub mod app;
pub mod conf;
pub mod irv;
pub mod model;
pub mod parse;
pub mod route;
pub mod service;
pub mod store;
pub mod view;

pub use irv::PollOption;
pub use irv::PollResult;
pub use model::Item;
