use crate::card::Card;
use crate::players::PlayerId;
use vstd::prelude::*;

verus! {

/// What the game announces to every connected client.
#[derive(Debug, Clone, PartialEq, Eq)]
pub enum Event {
    StartGame,
    AbortGame,
    EndGame { p_id: PlayerId },
    CardPlayed { card: Card, p_id: PlayerId },
    NextTurn { player_id: PlayerId },
    FoulGiven { from: PlayerId, to: PlayerId, cards: Vec<Card> },
    DiscardPile,
    PlayerWon { player_id: PlayerId },
    SpecialEvent { p_id: PlayerId, card: Card, from: PlayerId },
    PlayerAdded { p_id: PlayerId },
    InvalidCard { p_id: PlayerId },
    InvalidPlayer,
    PlayerLeft { p_id: PlayerId },
    Error { message: String },
    MarkReady { p_id: PlayerId },
}

/// What only the owning client receives.
#[derive(Debug, Clone, PartialEq, Eq)]
pub enum PrivateMsg {
    Hand { cards: Vec<Card> },
}

} // verus!
