//! Three-card video poker: a classifier for three-card hands, frequency
//! tables of draws, exact expected returns of paytables, a depth-first search
//! for a descending paytable whose return lies in a band, and an advisor that
//! picks the card, if any, to discard from a held hand.

pub mod advisor;
pub mod draws;
pub mod hand;
pub mod paytable;
pub mod rank;
pub mod suit;
pub mod table;

pub use advisor::optimal_play;
pub use draws::generate_all_games;
pub use hand::{
    generate_deck, get_hand, is_same_rank, is_same_suit, is_sequence, is_two_same_rank, Card, Hand,
};
pub use rank::Rank;
pub use suit::Suit;
pub use paytable::{HandPayGuess, ReturnBand};
pub use table::{ExpectedReturn, HandTable, PrintTable};
