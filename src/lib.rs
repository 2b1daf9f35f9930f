//! Quizzes: ordered, typed question/answer items, and a byte format that round-trips them.
//!
//! `quiz` holds the data model; `codec` holds the byte format, with `dump` to encode a
//! quiz and `load` to decode one.
pub mod codec;
pub mod quiz;

pub use codec::{dump, load, load_prefix, DecodeError};
pub use quiz::{
    InvalidNumberError, Quiz, QuizError, QuizItem, QuizItemModel, QuizItemType, MAX_ITEMS,
};
