use crate::card::{ace_of_spades, lemma_standard_deck_once, Card};
use crate::event::Event;
use crate::card::standard_deck_spec;
use crate::logic::{
    best_index, concludes, lemma_seat_index, lemma_survivors, seat_index, seated, seats_ok, stack_cards, survivors, Game,
    GamePhase, GameView,
};
use crate::players::PlayerView;
use crate::players::PlayerId;
use vstd::prelude::*;

verus! {

/// Every well-formed game (each state that `Game::new` and the mutating methods
/// can reach) holds each of the 52 cards exactly once, in the deck, in some
/// hand, in the trick on the table, or among the tricks already discarded.
pub proof fn lemma_card_conservation(g: &Game)
    requires
        g.wf(),
    ensures
        forall|c: Card| #[trigger] g@.all_cards().count(c) == 1,
{
    assert forall|c: Card| #[trigger] g@.all_cards().count(c) == 1 by {
        lemma_standard_deck_once(c);
    }
}

/// The first card of a round is accepted only if it is the Ace of Spades: any
/// other card is answered with `InvalidCard` and changes nothing, while the Ace
/// played by the turn holder who holds it is shown with `CardPlayed`.
pub proof fn lemma_first_move(
    pre: GameView,
    player_id: PlayerId,
    card: Card,
    post: GameView,
    ev: Seq<Event>,
)
    requires
        pre.inv(),
        !pre.first_move,
        pre.card_played(player_id, card, post, ev),
    ensures
        card != ace_of_spades() ==> ev == (seq![Event::InvalidCard { p_id: player_id }]) && post == pre,
        ev.len() > 0 && (ev[0] is CardPlayed) ==> card == ace_of_spades(),
        card == ace_of_spades() && seated(pre.players, player_id) && pre.turn == player_id
            && pre.players[seat_index(pre.players, player_id)].hand.count(card) > 0 ==> ev.len() > 0
            && ev[0] == (Event::CardPlayed { card, p_id: player_id }),
{
}

/// Whoever holds a card of the lead suit must follow it: any other card they
/// hold is refused with `InvalidCard`, and the game does not change.
pub proof fn lemma_suit_following(
    pre: GameView,
    player_id: PlayerId,
    card: Card,
    post: GameView,
    ev: Seq<Event>,
)
    requires
        pre.inv(),
        pre.card_played(player_id, card, post, ev),
        seated(pre.players, player_id),
        pre.turn == player_id,
        pre.players[seat_index(pre.players, player_id)].hand.count(card) > 0,
        pre.stack.len() > 0,
        card.suit != pre.lead_suit(),
        pre.holds_suit(seat_index(pre.players, player_id), pre.lead_suit()),
    ensures
        ev == (seq![Event::InvalidCard { p_id: player_id }]),
        post == pre,
{
    assert(GameView { first_move: true, ..pre } == pre);
}

/// A legal foul (a card off the lead suit, with no lead-suit card in hand) hands
/// the whole trick and the foul card to the player who played the trick's
/// highest card, and gives that player both the turn and the lead.
pub proof fn lemma_foul(
    pre: GameView,
    player_id: PlayerId,
    card: Card,
    post: GameView,
    ev: Seq<Event>,
)
    requires
        pre.inv(),
        pre.card_played(player_id, card, post, ev),
        seated(pre.players, player_id),
        pre.turn == player_id,
        pre.players[seat_index(pre.players, player_id)].hand.count(card) > 0,
        pre.stack.len() > 0,
        card.suit != pre.lead_suit(),
        !pre.holds_suit(seat_index(pre.players, player_id), pre.lead_suit()),
    ensures
        ev.len() >= 2,
        ev[0] == (Event::CardPlayed { card, p_id: player_id }),
        (ev[1] is FoulGiven),
        ev[1]->FoulGiven_from == player_id,
        ev[1]->FoulGiven_cards@ == stack_cards(pre.stack).push(card),
        exists|m: int|
            0 <= m < pre.stack.len() && pre.stack[m].1 == ev[1]->FoulGiven_to && forall|k: int|
                0 <= k < pre.stack.len() ==> (#[trigger] pre.stack[k]).0.rank.spec_value() <= pre.stack[m].0.rank.spec_value(),
        post.turn == ev[1]->FoulGiven_to,
        post.leader == ev[1]->FoulGiven_to,
        post.stack.len() == 0,
        ({
            let w = ev[1]->FoulGiven_to;
            let before = pre.players[seat_index(pre.players, w)].hand;
            let kept = if w == player_id { before.remove(card) } else { before };
            !(ev.last() is EndGame) ==> {
                &&& seated(post.players, w)
                &&& post.players[seat_index(post.players, w)].hand == kept.add(ev[1]->FoulGiven_cards@.to_multiset())
                &&& ev.last() == (Event::NextTurn { player_id: w })
            }
        }),
{
    crate::logic::lemma_best_index(pre.stack);
    let i = seat_index(pre.players, player_id);
    let w = pre.stack[best_index(pre.stack)].1;
    let mid = GameView { first_move: true, ..pre };
    let me = pre.players[i];
    let played = pre.players.update(i, crate::players::PlayerView { hand: me.hand.remove(card), ..me });
    let foul = stack_cards(pre.stack).push(card);
    let j = seat_index(played, w);
    let given = played.update(
        j,
        crate::players::PlayerView { hand: played[j].hand.add(foul.to_multiset()), ..played[j] },
    );
    let t = GameView { players: given, stack: Seq::empty(), turn: w, leader: w, ..mid };
    let m = best_index(pre.stack);
    assert(seated(pre.players, w)) by {
        assert(pre.stack[m].1 == w);
    }
    lemma_same_ids(pre.players, played);
    lemma_same_ids(played, given);
    let j0 = seat_index(pre.players, w);
    assert(j == j0);
    assert(pre.players[j0].id == w);
    assert(pre.players[i].id == player_id);
    assert((j == i) == (w == player_id));
    vstd::seq_lib::to_multiset_len(foul);
    vstd::multiset::axiom_len_add(played[j].hand, foul.to_multiset());
    lemma_concludes_end(t, post, ev.skip(2));
    lemma_last_of_skip(ev, 2);
    lemma_survivors(given, w);
    let rem = survivors(given, w);
    assert(seat_index(given, w) == j);
    assert(rem[seat_index(rem, w)] == given[j]);
    assert(given[j].hand.len() > 0);
    if !(ev.last() is EndGame) {
        assert(post.players == rem);
    }
}

/// When a trick comes back round to its leader, the new turn holder and leader
/// is the player who played the highest card of the trick, all of whose cards
/// are of the lead suit.
pub proof fn lemma_trick_resolution(
    pre: GameView,
    player_id: PlayerId,
    card: Card,
    post: GameView,
    ev: Seq<Event>,
)
    requires
        pre.inv(),
        pre.card_played(player_id, card, post, ev),
        seated(pre.players, player_id),
        pre.turn == player_id,
        pre.players[seat_index(pre.players, player_id)].hand.count(card) > 0,
        pre.stack.len() > 0,
        card.suit == pre.lead_suit(),
        pre.next_after(seat_index(pre.players, player_id)) == pre.leader,
    ensures
        ev.len() >= 2,
        ev[1] == Event::DiscardPile,
        ({
            let trick = pre.stack.push((card, player_id));
            exists|m: int|
                0 <= m < trick.len() && trick[m].1 == post.leader && forall|k: int|
                    0 <= k < trick.len() ==> (#[trigger] trick[k]).0.suit == trick[m].0.suit
                        && trick[k].0.rank.spec_value() <= trick[m].0.rank.spec_value()
        }),
        post.turn == post.leader,
        post.stack.len() == 0,
        !(ev.last() is EndGame) ==> ev.last() == (Event::NextTurn { player_id: post.leader }),
{
    let trick = pre.stack.push((card, player_id));
    crate::logic::lemma_best_index(trick);
    let m = best_index(trick);
    let w = trick[m].1;
    let i = seat_index(pre.players, player_id);
    let mid = GameView { first_move: true, ..pre };
    let me = pre.players[i];
    let played = pre.players.update(i, crate::players::PlayerView { hand: me.hand.remove(card), ..me });
    let t = GameView {
        players: played,
        stack: Seq::empty(),
        turn: w,
        leader: w,
        discarded: pre.discarded.add(stack_cards(trick).to_multiset()),
        ..mid
    };
    lemma_same_ids(pre.players, played);
    assert(seated(pre.players, w)) by {
        if m < pre.stack.len() {
            assert(trick[m] == pre.stack[m]);
        }
    }
    lemma_concludes_end(t, post, ev.skip(2));
    lemma_last_of_skip(ev, 2);
    assert(ev[1] == ev.take(2)[1]);
    assert forall|k: int| 0 <= k < trick.len() implies (#[trigger] trick[k]).0.suit == trick[m].0.suit by {
        assert(pre.stack[pre.stack.len() - 1].0.suit == pre.stack[0].0.suit);
    }
}


proof fn lemma_last_of_skip(s: Seq<Event>, k: int)
    requires
        0 <= k <= s.len(),
        s.skip(k).len() > 0,
    ensures
        s.len() > 0,
        s.last() == s.skip(k).last(),
{
    assert(s.skip(k)[s.skip(k).len() - 1] == s[s.len() - 1]);
}

/// Two player lists with the same seats in the same order.
proof fn lemma_same_ids(a: Seq<PlayerView>, b: Seq<PlayerView>)
    requires
        seats_ok(a),
        a.len() == b.len(),
        forall|k: int| 0 <= k < a.len() ==> (#[trigger] a[k]).id == b[k].id,
    ensures
        seats_ok(b),
        forall|id: PlayerId| seated(a, id) ==> seated(b, id) && seat_index(b, id) == seat_index(a, id),
{
    assert(seats_ok(b)) by {
        assert forall|k: int| 0 <= k < b.len() implies (#[trigger] b[k]).id.0 < 4 by {
            assert(a[k].id == b[k].id);
        }
        assert forall|k: int, l: int| 0 <= k < b.len() && 0 <= l < b.len() && k != l implies b[k].id != b[l].id by {
            assert(a[k].id == b[k].id && a[l].id == b[l].id);
        }
    }
    assert forall|id: PlayerId| seated(a, id) implies seated(b, id) && seat_index(b, id) == seat_index(a, id) by {
        let k = seat_index(a, id);
        assert(a[k].id == id);
        assert(b[k].id == id);
        lemma_seat_index(b, k);
    }
}

/// How settling a trick ends: with `EndGame` exactly when one player is left,
/// the board then reset; otherwise with `NextTurn` for the taker, at least two
/// players still in the round.
proof fn lemma_concludes_end(t: GameView, post: GameView, ev: Seq<Event>)
    requires
        concludes(t, post, ev),
        t.phase == GamePhase::Playing,
        t.stack.len() == 0,
        seats_ok(t.players),
        seated(t.players, t.turn),
    ensures
        ev.len() > 0,
        post.stack.len() == 0,
        post.turn == t.turn,
        post.leader == t.leader,
        (ev.last() is EndGame) <==> survivors(t.players, t.turn).len() == 1,
        (ev.last() is EndGame) ==> {
            &&& post.phase == GamePhase::Waiting
            &&& post.players.len() == 1
            &&& ev.last() == (Event::EndGame { p_id: post.players[0].id })
            &&& forall|i: int| 0 <= i < post.players.len() ==> (#[trigger] post.players[i]).hand.len() == 0
            &&& post.deck == standard_deck_spec()
        },
        !(ev.last() is EndGame) ==> {
            &&& post.phase == GamePhase::Playing
            &&& ev.last() == (Event::NextTurn { player_id: t.turn })
            &&& post.players.len() >= 2
        },
        ({
            let rem = survivors(t.players, t.turn);
            !(ev.last() is EndGame) && rem[seat_index(rem, t.turn)].hand.len() > 0 ==> post.players == rem
        }),
{
    let rem = survivors(t.players, t.turn);
    let won = crate::logic::won_events(t.players, t.turn);
    lemma_survivors(t.players, t.turn);
    lemma_last_of_skip(ev, won.len() as int);
    let k = seat_index(rem, t.turn);
    assert(rem[k].id == t.turn);
}

/// A play ends the round (its last event is `EndGame`) exactly when it leaves
/// a single player in the round; the game is then back in Waiting with every
/// hand empty. Otherwise a round in play goes on.
pub proof fn lemma_round_end(
    pre: GameView,
    player_id: PlayerId,
    card: Card,
    post: GameView,
    ev: Seq<Event>,
)
    requires
        pre.inv(),
        pre.phase == GamePhase::Playing,
        pre.card_played(player_id, card, post, ev),
    ensures
        ev.len() > 0 && (ev.last() is EndGame) ==> {
            &&& post.phase == GamePhase::Waiting
            &&& post.players.len() == 1
            &&& ev.last() == (Event::EndGame { p_id: post.players[0].id })
            &&& forall|i: int| 0 <= i < post.players.len() ==> (#[trigger] post.players[i]).hand.len() == 0
            &&& post.stack.len() == 0
            &&& post.deck == standard_deck_spec()
        },
        !(ev.len() > 0 && (ev.last() is EndGame)) ==> post.phase == GamePhase::Playing,
        ev.len() >= 2 && (ev[1] == Event::DiscardPile || (ev[1] is FoulGiven)) && !(ev.last() is EndGame) ==> post.players.len() >= 2,
{
    let mid = GameView { first_move: true, ..pre };
    if (pre.first_move || card == ace_of_spades()) && seated(pre.players, player_id) && pre.turn == player_id {
        let i = seat_index(pre.players, player_id);
        let me = pre.players[i];
        let played = pre.players.update(i, crate::players::PlayerView { hand: me.hand.remove(card), ..me });
        if me.hand.count(card) > 0 && pre.stack.len() > 0 {
            if card.suit == pre.lead_suit() {
                let trick = pre.stack.push((card, player_id));
                if pre.next_after(i) == pre.leader {
                    let w = trick[best_index(trick)].1;
                    let t = GameView {
                        players: played,
                        stack: Seq::empty(),
                        turn: w,
                        leader: w,
                        discarded: pre.discarded.add(stack_cards(trick).to_multiset()),
                        ..mid
                    };
                    lemma_same_ids(pre.players, played);
                    assert(seated(pre.players, w)) by {
                        let m = best_index(trick);
                        crate::logic::lemma_best_index(trick);
                        if m < pre.stack.len() {
                            assert(trick[m] == pre.stack[m]);
                        }
                    }
                    lemma_concludes_end(t, post, ev.skip(2));
                    lemma_last_of_skip(ev, 2);
                }
            } else if !pre.holds_suit(i, pre.lead_suit()) {
                let w = pre.stack[best_index(pre.stack)].1;
                let foul = stack_cards(pre.stack).push(card);
                let j = seat_index(played, w);
                let given = played.update(
                    j,
                    crate::players::PlayerView { hand: played[j].hand.add(foul.to_multiset()), ..played[j] },
                );
                let t = GameView { players: given, stack: Seq::empty(), turn: w, leader: w, ..mid };
                crate::logic::lemma_best_index(pre.stack);
                assert(seated(pre.players, w)) by {
                    assert(pre.stack[best_index(pre.stack)].1 == w);
                }
                lemma_same_ids(pre.players, played);
                lemma_same_ids(played, given);
                lemma_concludes_end(t, post, ev.skip(2));
                lemma_last_of_skip(ev, 2);
            }
        }
    }
}

} // verus!
