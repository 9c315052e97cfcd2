//! A peer-review ledger: authors submit content, a panel of referees is
//! suggested by keyword relevance, and the panel decides by a two-phase
//! commit-reveal vote.

pub mod contract;
pub mod digest;
pub mod outcome;
pub mod ranking;
pub mod revealed;
pub mod submission;
pub mod text;
pub mod theorems;

pub use contract::Contract;
pub use outcome::{Error, Outcome, Rejection};
pub use ranking::{Reviewer, PANEL_SIZE};
pub use revealed::RevealedMap;
pub use submission::{CommentCommit, Submission, SubmissionVote, VoteCommit, QUORUM};
