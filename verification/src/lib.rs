//! Pays out cookies to the helpers who closed tickets in a window of time.
//!
//! A run goes through the modules in this order: [`command`] checks the
//! arguments, [`window`] holds the half-open window of time, [`leaderboard`]
//! and [`activity`] hold who closed how many tickets in it, [`policy`] and
//! [`payout`] turn the tickets into rewards, [`ranking`] puts the rewards in
//! the order in which they are shown, [`endpoint`] and [`directory`] find out
//! who each helper is, and [`report`] puts the lines of the report together.
//!
//! Rewards are exact fractions. Nothing here rounds, reads a file or talks to
//! a network: the store and the directory are asked by the caller, who hands
//! over what they answered.

pub mod activity;
pub mod command;
pub mod directory;
pub mod endpoint;
pub mod error;
pub mod leaderboard;
pub mod payout;
pub mod policy;
pub mod ranking;
pub mod report;
pub mod text;
pub mod window;
