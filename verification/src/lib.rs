//! Adaptive vocabulary quiz engine.
//!
//! The library covers the quiz logic itself: choosing a question
//! strategy for a saved word from its lexical entry, sourcing plausible
//! wrong answers under an exclusion set, resolving free-form learner
//! input against the presented answers by exact rational Jaro
//! similarity, selecting the next practice batch, and updating per-word
//! mastery scores.  Network and database access stay outside; callers
//! hand the library plain values and persist what it returns.

pub mod dictionary;
pub mod dictionary_api;
pub mod questions;
pub mod resolve;
pub mod rng;
pub mod scoring;
pub mod similarity;
pub mod storage;
pub mod text;

pub use dictionary::{PartOfSpeech, Phonetic, Word, WordDefinition, WordMeaning};
pub use questions::{Answer, Question, QuestionGenerationError};
pub use resolve::{resolve, Resolution};
pub use scoring::{correct_update, incorrect_update, outcome_updates, ScoreUpdate};
pub use storage::{select_batch, WordEntry};
pub use text::str_to_bool;
