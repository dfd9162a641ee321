//! Core of a spaced-repetition flashcard trainer.
//!
//! The library holds the scheduling engines that decide, after every answer,
//! which card to show next and how a card's memory state evolves:
//! an interval/position-based scheduler with interleaved learning and review
//! phases, a priority-list refinement of it, and a retrievability-driven
//! variant. All quantities that the schedulers reason about are exact
//! integers: easiness factors are kept in thousandths, intervals in whole
//! queue positions (tenths for the priority scheduler), timestamps in
//! seconds.

mod clock;
pub mod scheduler;
pub mod scheduler_fsrs;
pub mod scheduler_v2;
pub mod scheme;
pub mod user_state;

pub use scheduler::Rating;
