//! Scoring and reward engine for a jeopardy-style capture-the-flag competition.
//!
//! The library holds the competition state in memory and applies the
//! operations that change it: flag submissions, ticket redemptions,
//! registrations. A persistent store loads its rows into a [`Ctf`], runs one
//! operation and writes the changed rows back inside one transaction.

pub mod board;
pub mod ctf;
pub mod forms;
pub mod lottery;
pub mod scoreboard;
pub mod solves;

pub use board::{listing, text_less, Card};
pub use ctf::{compute_score, competition_open, Challenge, Ctf, Draw, StoreError, Submission, Team};
pub use forms::{
    check_profile, check_registration, is_valid_team_name, validate_profile, validate_registration,
    FormError, DISCORD_HANDLE,
};
pub use lottery::{draw, weight_of, Prize, Winnings, TICKET_COST, WEIGHT_SCALE};
pub use scoreboard::{ranking, slug_ordered_ids, Scoreboard, Standing};
pub use solves::{is_solved, mark_solved, MAX_CHALLENGE_ID};
