//! A card game engine: cards, decks, hands and the balance of a conflict.
use vstd::prelude::*;

pub mod balance;
pub mod cards;
pub mod cli;
pub mod deck;
pub mod draw;
pub mod overcome;
pub mod simulate;
pub mod state;
pub mod tally;
pub mod text;

pub use balance::{BiddingAdvantage, BiddingBalance, Side, ThreeStateBalance};
pub use cards::{Beats, Card, Comparison, DrawnCard, Orientation, Role, Suit};
pub use deck::Deck;
pub use draw::Draw;
pub use state::{State, Step};

verus! {

} // verus!
