//! Evaluation of five-card poker hands: card parsing, category
//! classification, tie-break scoring and winner selection.

pub mod card;
pub mod hand;
pub mod text;
pub mod winner;

pub use card::{Card, ParseError, Suit, parse_card};
pub use hand::{Category, Hand, build_hand, classify, compare, consecutive, hand_score, pad_vec};
pub use text::parse;
pub use winner::winning_hands;
