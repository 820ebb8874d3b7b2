use crate::card::Card;
use crate::players::PlayerId;
use vstd::prelude::*;

verus! {

/// What a client asks the game to do.
#[derive(Debug, Copy, Clone, PartialEq, Eq, Structural)]
pub enum Action {
    EndGame,
    CardPlayedByPlayer { player_id: PlayerId, card: Card },
    Ready { player_id: PlayerId },
}

} // verus!
