//! Repository recommendations from a log of activity events.
//!
//! An event says that a user did something to a repository. The events are
//! turned into recommendations in three stages:
//!
//! 1. [`registry`] gives every user and every repository a dense index, and
//!    [`aggregate`] adds up the weights of the events per (user, repository)
//!    cell, in both directions, keeping the cells that reach a minimum
//!    rating.
//! 2. [`propagate`] joins the repository-to-user scores with the
//!    user-to-repository scores: two repositories are related by the users
//!    that rated both. Each row keeps its strongest entries.
//! 3. [`propagate`] joins the user-to-repository scores with that affinity:
//!    a user is recommended what is related to what the user rated. Each row
//!    keeps its strongest entries again.
//!
//! [`pipeline`] runs the stages in a row. [`rank`] says which entries of a row
//! are its strongest: higher scores first, and among equal scores the lower
//! target index first. [`framing`] cuts a file into records, and [`laws`]
//! states what holds of the stages taken together.
//!
//! A matrix is a `Vec` of rows, one per source index; a row is a `Vec` of
//! `(target, score)` entries. Scores are 64-bit sums and products that are
//! checked: a score that does not fit stops the stage with an error, it is
//! never wrapped or capped.

pub mod aggregate;
pub mod error;
pub mod event;
pub mod framing;
pub mod laws;
pub mod matrix;
pub mod pipeline;
pub mod propagate;
pub mod rank;
pub mod registry;
pub mod text;
