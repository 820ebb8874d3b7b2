use crate::card::{ace_of_spades, Card};
use crate::event::{Event, PrivateMsg};
use crate::logic::{clear_hands, seat_index, seated, Game, GamePhase, GameView};
use crate::players::PlayerId;
use vstd::prelude::*;

verus! {

/// A message queued for one client's connection.
pub enum OutgoingMsg {
    Public(Event),
    Private(PrivateMsg),
}

/// The per-connection forwarder of broadcast events. It notes when a round
/// starts, so that the client's dealt hand is sent once in each round.
pub struct Forwarder {
    pub hand_sent: bool,
}

impl Forwarder {
    pub fn new() -> (r: Self)
        ensures
            !r.hand_sent,
    {
        Forwarder { hand_sent: false }
    }

    /// Takes note of a broadcast event; true when the client's hand is to be
    /// fetched now (the round just started and it has not been sent). The end
    /// or abort of a round makes the next round's hand due.
    pub fn observe(&mut self, ev: &Event) -> (fetch: bool)
        ensures
            fetch == (*ev is StartGame && !old(self).hand_sent),
            (*ev is EndGame || *ev is AbortGame) ==> !final(self).hand_sent,
            !(*ev is EndGame || *ev is AbortGame) ==> final(self).hand_sent == old(self).hand_sent,
    {
        match ev {
            Event::StartGame => !self.hand_sent,
            Event::EndGame { .. } | Event::AbortGame => {
                self.hand_sent = false;
                false
            },
            _ => false,
        }
    }

    /// The private message for a fetched hand; a seat with no hand gets none,
    /// and the hand stays due.
    pub fn hand_message(&mut self, hand: Option<Vec<Card>>) -> (r: Option<PrivateMsg>)
        ensures
            hand is Some ==> final(self).hand_sent && (r matches Some(PrivateMsg::Hand { cards })
                && cards@ == hand->Some_0@),
            hand is None ==> r is None && final(self).hand_sent == old(self).hand_sent,
    {
        match hand {
            Some(cards) => {
                self.hand_sent = true;
                Some(PrivateMsg::Hand { cards })
            },
            None => None,
        }
    }
}

/// After an action was applied: once the phase has turned to Playing and the
/// round's cards are not dealt yet, deal them and announce the opening turn.
pub fn deal_if_started(game: &mut Game) -> (r: Option<Event>)
    requires
        old(game).wf(),
    ensures
        final(game).wf(),
        old(game)@.phase == GamePhase::Playing && !old(game)@.hand_dealt && old(game)@.players.len() > 0 ==> {
            &&& r == Some(Event::NextTurn { player_id: final(game)@.turn })
            &&& final(game)@.phase == GamePhase::Playing
            &&& final(game)@.hand_dealt
            &&& final(game)@.deck.len() == 0
            &&& final(game)@.players.len() == old(game)@.players.len()
            &&& forall|i: int| 0 <= i < old(game)@.players.len() ==> (#[trigger] final(game)@.players[i]).id == old(game)@.players[i].id
            &&& final(game)@.players[seat_index(final(game)@.players, final(game)@.turn)].hand.count(ace_of_spades()) > 0
        },
        !(old(game)@.phase == GamePhase::Playing && !old(game)@.hand_dealt && old(game)@.players.len() > 0) ==> r is None
            && final(game)@ == old(game)@,
{
    if game.get_phase() == GamePhase::Playing && !game.cards_dealt() && game.player_count() > 0 {
        game.start_game();
        Some(Event::NextTurn { player_id: game.get_turn() })
    } else {
        None
    }
}

/// Tears a session down: frees its seat. Outside a round that is announced with
/// `PlayerLeft`; mid-round the round is aborted (`AbortGame`, announced alone),
/// the board reset, and the seat freed.
pub fn leave(game: &mut Game, id: PlayerId) -> (r: Vec<Event>)
    requires
        old(game).wf(),
    ensures
        final(game).wf(),
        id.0 >= 4 || !seated(old(game)@.players, id) ==> r@.len() == 0 && final(game)@ == old(game)@,
        id.0 < 4 && seated(old(game)@.players, id) && old(game)@.phase == GamePhase::Playing ==> {
            &&& r@ == seq![Event::AbortGame]
            &&& final(game)@ == (GameView {
                players: clear_hands(old(game)@.players).remove(seat_index(old(game)@.players, id)),
                ..old(game)@.reset_view()
            })
        },
        id.0 < 4 && seated(old(game)@.players, id) && old(game)@.phase != GamePhase::Playing ==> {
            &&& r@ == seq![Event::PlayerLeft { p_id: id }]
            &&& final(game)@ == (GameView {
                players: old(game)@.players.remove(seat_index(old(game)@.players, id)),
                ..old(game)@
            })
        },
{
    let mut out: Vec<Event> = Vec::new();
    match game.remove_player(id) {
        Some(Event::AbortGame) => {
            out.push(Event::AbortGame);
            game.reset();
            proof {
                crate::logic::lemma_clear_hands_seats(old(game)@.players, id);
            }
            let _ = game.remove_player(id);
            proof {
                assert(out@ =~= seq![Event::AbortGame]);
            }
        },
        Some(ev) => {
            out.push(ev);
            proof {
                assert(out@ =~= seq![Event::PlayerLeft { p_id: id }]);
            }
        },
        None => {},
    }
    out
}

} // verus!
