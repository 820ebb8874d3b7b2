use crate::actions::Action;
use crate::card::{ace_of_spades, random_below, shuffle, standard_deck, standard_deck_spec, Card, Rank, Suit};
use crate::event::Event;
use crate::players::{PlayerId, PlayerView, Players};
use vstd::multiset::Multiset;
use vstd::prelude::*;

verus! {

broadcast use {vstd::seq_lib::group_to_multiset_ensures, vstd::multiset::group_multiset_axioms};

/// Where the game is in its round cycle.
#[derive(Debug, Copy, Clone, PartialEq, Eq, Structural)]
pub enum GamePhase {
    Waiting,
    Playing,
    Ended,
}

/// The authoritative game: seats, hands, the trick on the table and the turn.
///
/// A seat that no player holds is free, so the free seats and the held ones
/// always split {0, 1, 2, 3} between them.
pub struct Game {
    phase: GamePhase,
    turn: PlayerId,
    turn_stack: Vec<(Card, PlayerId)>,
    players: Vec<Players>,
    deck: Vec<Card>,
    first: PlayerId,
    hand_dealt: bool,
    first_move: bool,
    discarded: Ghost<Multiset<Card>>,
}

/// The model of a game. `players` is in play rotation; `stack` is the current
/// trick in play order; `leader` is the player who leads the trick.
#[verifier::ext_equal]
pub struct GameView {
    pub phase: GamePhase,
    pub turn: PlayerId,
    pub stack: Seq<(Card, PlayerId)>,
    pub players: Seq<PlayerView>,
    pub deck: Seq<Card>,
    pub leader: PlayerId,
    pub hand_dealt: bool,
    pub first_move: bool,
    /// Cards of the tricks completed this round, which leave play.
    pub discarded: Multiset<Card>,
}

/// All cards held in the given hands, together.
pub open spec fn hands_ms(ps: Seq<PlayerView>) -> Multiset<Card>
    decreases ps.len(),
{
    if ps.len() == 0 {
        Multiset::empty()
    } else {
        hands_ms(ps.drop_last()).add(ps.last().hand)
    }
}

/// The cards of a trick, in play order.
pub open spec fn stack_cards(s: Seq<(Card, PlayerId)>) -> Seq<Card> {
    s.map_values(|e: (Card, PlayerId)| e.0)
}

/// Whether some player in `ps` holds seat `id`.
pub open spec fn seated(ps: Seq<PlayerView>, id: PlayerId) -> bool {
    exists|i: int| 0 <= i < ps.len() && #[trigger] ps[i].id == id
}

/// Position in the rotation of the player at seat `id` (meaningful when seated).
pub open spec fn seat_index(ps: Seq<PlayerView>, id: PlayerId) -> int {
    choose|i: int| 0 <= i < ps.len() && #[trigger] ps[i].id == id
}

/// Seats are below four and held at most once.
pub open spec fn seats_ok(ps: Seq<PlayerView>) -> bool {
    &&& ps.len() <= 4
    &&& forall|i: int| 0 <= i < ps.len() ==> (#[trigger] ps[i].id).0 < 4
    &&& forall|i: int, j: int| 0 <= i < ps.len() && 0 <= j < ps.len() && i != j ==> ps[i].id != ps[j].id
}

/// The same players with empty hands.
pub open spec fn clear_hands(ps: Seq<PlayerView>) -> Seq<PlayerView> {
    ps.map_values(|p: PlayerView| PlayerView { id: p.id, hand: Multiset::empty(), ready: p.ready })
}

/// The cards that the first `k` deals from the top of `deck` give to the player
/// at position `i` of `n`: deal number `j` takes `deck[deck.len() - 1 - j]` to
/// position `j % n`.
pub open spec fn dealt(deck: Seq<Card>, n: int, i: int, k: int) -> Multiset<Card>
    decreases k,
{
    if k <= 0 {
        Multiset::empty()
    } else if (k - 1) % n == i {
        dealt(deck, n, i, k - 1).insert(deck[deck.len() - k])
    } else {
        dealt(deck, n, i, k - 1)
    }
}

/// Entry of the highest rank in a trick; among equal ranks the latest one.
pub open spec fn best_index(s: Seq<(Card, PlayerId)>) -> int
    decreases s.len(),
{
    if s.len() <= 1 {
        0
    } else {
        let m = best_index(s.drop_last());
        if s.last().0.rank.spec_value() >= s[m].0.rank.spec_value() {
            s.len() - 1
        } else {
            m
        }
    }
}

/// A player who has emptied the hand and does not hold the turn has won.
pub open spec fn has_won(p: PlayerView, turn: PlayerId) -> bool {
    p.hand.len() == 0 && p.id != turn
}

/// The players still in the round once the winners leave, in rotation order.
pub open spec fn survivors(ps: Seq<PlayerView>, turn: PlayerId) -> Seq<PlayerView>
    decreases ps.len(),
{
    if ps.len() == 0 {
        ps
    } else if has_won(ps.last(), turn) {
        survivors(ps.drop_last(), turn)
    } else {
        survivors(ps.drop_last(), turn).push(ps.last())
    }
}

/// One `PlayerWon` for each winner, in rotation order.
pub open spec fn won_events(ps: Seq<PlayerView>, turn: PlayerId) -> Seq<Event>
    decreases ps.len(),
{
    if ps.len() == 0 {
        Seq::empty()
    } else if has_won(ps.last(), turn) {
        won_events(ps.drop_last(), turn).push(Event::PlayerWon { player_id: ps.last().id })
    } else {
        won_events(ps.drop_last(), turn)
    }
}

impl GameView {
    /// Every card of the game: deck, hands, trick and completed tricks together.
    pub open spec fn all_cards(self) -> Multiset<Card> {
        self.deck.to_multiset().add(hands_ms(self.players)).add(stack_cards(self.stack).to_multiset()).add(
            self.discarded,
        )
    }

    /// The lowest seat that no player holds.
    pub open spec fn lowest_free(self, k: u32) -> bool {
        &&& k < 4
        &&& !seated(self.players, PlayerId(k))
        &&& forall|j: u32| j < k ==> seated(self.players, PlayerId(j))
    }

    /// The player after position `i` in the rotation.
    pub open spec fn next_after(self, i: int) -> PlayerId {
        self.players[(i + 1) % (self.players.len() as int)].id
    }

    /// Whether every seated player is ready, with at least two seated.
    pub open spec fn all_ready(self) -> bool {
        self.players.len() > 1 && forall|i: int| 0 <= i < self.players.len() ==> #[trigger] self.players[i].ready
    }

    /// The board as a new round finds it: full deck, empty hands and trick,
    /// phase Waiting; seats, ready flags, turn and leader are kept.
    pub open spec fn reset_view(self) -> GameView {
        GameView {
            phase: GamePhase::Waiting,
            stack: Seq::empty(),
            players: clear_hands(self.players),
            deck: standard_deck_spec(),
            hand_dealt: false,
            first_move: false,
            discarded: Multiset::empty(),
            ..self
        }
    }

    /// What holds of every game state.
    pub open spec fn inv(self) -> bool {
        &&& seats_ok(self.players)
        &&& self.all_cards() == standard_deck_spec().to_multiset()
        &&& self.phase != GamePhase::Ended
        &&& self.phase == GamePhase::Waiting ==> {
            &&& self.stack.len() == 0
            &&& !self.hand_dealt
            &&& self.discarded.len() == 0
            &&& forall|i: int| 0 <= i < self.players.len() ==> (#[trigger] self.players[i]).hand.len() == 0
        }
        &&& self.stack.len() > 0 ==> self.first_move
        &&& forall|k: int| 0 <= k < self.stack.len() ==> seated(self.players, (#[trigger] self.stack[k]).1)
        &&& forall|k: int| 0 <= k < self.stack.len() ==> (#[trigger] self.stack[k]).0.suit == self.stack[0].0.suit
    }
}

impl View for Game {
    type V = GameView;

    closed spec fn view(&self) -> GameView {
        GameView {
            phase: self.phase,
            turn: self.turn,
            stack: self.turn_stack@,
            players: self.players@.map_values(|p: Players| p@),
            deck: self.deck@,
            leader: self.first,
            hand_dealt: self.hand_dealt,
            first_move: self.first_move,
            discarded: self.discarded@,
        }
    }
}

/// How a round goes on once a trick is settled in state `t` (trick cleared, turn
/// and lead with the trick's taker): the players who emptied their hands leave,
/// each with `PlayerWon`; if one player is left, `EndGame` names that player and
/// the board is reset; otherwise, should the turn holder have no card, one card
/// goes over to them from the next player's hand (`SpecialEvent`), and
/// `NextTurn` names the turn holder.
pub open spec fn concludes(t: GameView, post: GameView, ev: Seq<Event>) -> bool {
    let rem = survivors(t.players, t.turn);
    let won = won_events(t.players, t.turn);
    let tail = ev.skip(won.len() as int);
    &&& ev.len() >= won.len()
    &&& ev.take(won.len() as int) == won
    &&& if rem.len() == 1 {
        &&& tail == seq![Event::EndGame { p_id: rem[0].id }]
        &&& post == (GameView { players: rem, ..t }).reset_view()
    } else {
        let k = seat_index(rem, t.turn);
        let nk = (k + 1) % (rem.len() as int);
        if rem[k].hand.len() == 0 {
            let c = tail[0]->SpecialEvent_card;
            &&& tail.len() == 2
            &&& tail[0] is SpecialEvent
            &&& tail[0]->SpecialEvent_p_id == t.turn
            &&& tail[0]->SpecialEvent_from == rem[nk].id
            &&& rem[nk].hand.count(c) > 0
            &&& tail[1] == Event::NextTurn { player_id: t.turn }
            &&& post == (GameView {
                players: rem.update(k, PlayerView { hand: rem[k].hand.insert(c), ..rem[k] }).update(
                    nk,
                    PlayerView { hand: rem[nk].hand.remove(c), ..rem[nk] },
                ),
                ..t
            })
        } else {
            &&& tail == seq![Event::NextTurn { player_id: t.turn }]
            &&& post == (GameView { players: rem, ..t })
        }
    }
}

impl GameView {
    /// The lead suit of the trick on the table.
    pub open spec fn lead_suit(self) -> Suit {
        self.stack.last().0.suit
    }

    /// Whether the hand of the player at position `i` holds a card of suit `s`.
    pub open spec fn holds_suit(self, i: int, s: Suit) -> bool {
        exists|c: Card| #[trigger] self.players[i].hand.count(c) > 0 && c.suit == s
    }

    /// What `CardPlayedByPlayer { player_id, card }` does: from state `self` to
    /// state `post`, announcing `ev`.
    pub open spec fn card_played(self, player_id: PlayerId, card: Card, post: GameView, ev: Seq<Event>) -> bool {
        let mid = GameView { first_move: true, ..self };
        if !self.first_move && card != ace_of_spades() {
            ev == seq![Event::InvalidCard { p_id: player_id }] && post == self
        } else if !seated(self.players, player_id) {
            ev.len() == 1 && ev[0] is Error && post == mid
        } else if self.turn != player_id {
            ev == seq![Event::InvalidPlayer] && post == mid
        } else {
            let i = seat_index(self.players, player_id);
            let me = self.players[i];
            let nxt = self.next_after(i);
            let played = self.players.update(i, PlayerView { hand: me.hand.remove(card), ..me });
            let shown = Event::CardPlayed { card, p_id: player_id };
            if me.hand.count(card) == 0 {
                ev == seq![Event::AbortGame] && post == mid
            } else if self.stack.len() == 0 {
                &&& ev == seq![shown, Event::NextTurn { player_id: nxt }]
                &&& post == (GameView { players: played, stack: seq![(card, player_id)], turn: nxt, ..mid })
            } else if card.suit == self.lead_suit() {
                let trick = self.stack.push((card, player_id));
                if nxt != self.leader {
                    &&& ev == seq![shown, Event::NextTurn { player_id: nxt }]
                    &&& post == (GameView { players: played, stack: trick, turn: nxt, ..mid })
                } else {
                    let w = trick[best_index(trick)].1;
                    &&& ev.len() >= 2
                    &&& ev.take(2) == seq![shown, Event::DiscardPile]
                    &&& concludes(
                        GameView {
                            players: played,
                            stack: Seq::empty(),
                            turn: w,
                            leader: w,
                            discarded: self.discarded.add(stack_cards(trick).to_multiset()),
                            ..mid
                        },
                        post,
                        ev.skip(2),
                    )
                }
            } else if self.holds_suit(i, self.lead_suit()) {
                ev == seq![Event::InvalidCard { p_id: player_id }] && post == mid
            } else {
                let w = self.stack[best_index(self.stack)].1;
                let foul = stack_cards(self.stack).push(card);
                let j = seat_index(played, w);
                let given = played.update(j, PlayerView { hand: played[j].hand.add(foul.to_multiset()), ..played[j] });
                &&& ev.len() >= 2
                &&& ev[0] == shown
                &&& ev[1] is FoulGiven
                &&& ev[1]->FoulGiven_from == player_id
                &&& ev[1]->FoulGiven_to == w
                &&& ev[1]->FoulGiven_cards@ == foul
                &&& concludes(GameView { players: given, stack: Seq::empty(), turn: w, leader: w, ..mid }, post, ev.skip(2))
            }
        }
    }

    /// What `Ready { player_id }` does.
    pub open spec fn ready_marked(self, player_id: PlayerId, post: GameView, ev: Seq<Event>) -> bool {
        if self.phase != GamePhase::Waiting || !seated(self.players, player_id) {
            ev.len() == 0 && post == self
        } else {
            let i = seat_index(self.players, player_id);
            let marked = GameView {
                players: self.players.update(i, PlayerView { ready: true, ..self.players[i] }),
                ..self
            };
            if marked.all_ready() {
                &&& ev == seq![Event::MarkReady { p_id: player_id }, Event::StartGame]
                &&& post == (GameView { phase: GamePhase::Playing, ..marked })
            } else {
                ev == seq![Event::MarkReady { p_id: player_id }] && post == marked
            }
        }
    }
}

/// The chosen entry of a trick has the highest rank in it.
pub proof fn lemma_best_index(s: Seq<(Card, PlayerId)>)
    requires
        s.len() > 0,
    ensures
        0 <= best_index(s) < s.len(),
        forall|k: int| 0 <= k < s.len() ==> (#[trigger] s[k]).0.rank.spec_value() <= s[best_index(s)].0.rank.spec_value(),
    decreases s.len(),
{
    if s.len() > 1 {
        lemma_best_index(s.drop_last());
        assert forall|k: int| 0 <= k < s.len() implies (#[trigger] s[k]).0.rank.spec_value() <= s[best_index(s)].0.rank.spec_value() by {
            if k < s.len() - 1 {
                assert(s[k] == s.drop_last()[k]);
            }
        }
    }
}

/// What the survivors of a settled trick keep: valid seats, all the cards, no
/// winner, only seated players, and the turn holder as they were.
pub proof fn lemma_survivors(ps: Seq<PlayerView>, t: PlayerId)
    requires
        seats_ok(ps),
    ensures
        seats_ok(survivors(ps, t)),
        hands_ms(survivors(ps, t)) == hands_ms(ps),
        survivors(ps, t).len() <= ps.len(),
        forall|j: int| 0 <= j < survivors(ps, t).len() ==> !has_won(#[trigger] survivors(ps, t)[j], t),
        forall|j: int| 0 <= j < survivors(ps, t).len() ==> seated(ps, (#[trigger] survivors(ps, t)[j]).id),
        forall|id: PlayerId| seated(survivors(ps, t), id) ==> seated(ps, id),
        seated(ps, t) ==> seated(survivors(ps, t), t),
        seated(ps, t) ==> survivors(ps, t)[seat_index(survivors(ps, t), t)] == ps[seat_index(ps, t)],
    decreases ps.len(),
{
    let r = survivors(ps, t);
    if ps.len() > 0 {
        let d = ps.drop_last();
        let rd = survivors(d, t);
        assert(seats_ok(d)) by {
            assert forall|i: int| 0 <= i < d.len() implies (#[trigger] d[i]).id.0 < 4 by {
                assert(d[i] == ps[i]);
            }
        }
        lemma_survivors(d, t);
        let l = ps.last();
        assert(l == ps[ps.len() - 1]);
        assert forall|id: PlayerId| seated(d, id) implies seated(ps, id) by {
            let i = choose|i: int| 0 <= i < d.len() && #[trigger] d[i].id == id;
            assert(ps[i].id == id);
        }
        assert(!seated(d, l.id)) by {
            if seated(d, l.id) {
                let i = choose|i: int| 0 <= i < d.len() && #[trigger] d[i].id == l.id;
                assert(ps[i].id == l.id);
            }
        }
        if has_won(l, t) {
            assert(r == rd);
            assert(l.hand =~= Multiset::<Card>::empty());
            assert(hands_ms(ps) =~= hands_ms(d).add(l.hand));
            if seated(ps, t) {
                let i = choose|i: int| 0 <= i < ps.len() && #[trigger] ps[i].id == t;
                assert(i != ps.len() - 1);
                assert(d[i].id == t);
                lemma_seat_index(d, i);
                lemma_seat_index(ps, i);
            }
        } else {
            assert(r == rd.push(l));
            assert(r.drop_last() =~= rd);
            assert(hands_ms(r) == hands_ms(rd).add(l.hand));
            assert forall|j: int| 0 <= j < r.len() implies !has_won(#[trigger] r[j], t) && seated(ps, r[j].id) by {
                if j < rd.len() {
                    assert(r[j] == rd[j]);
                } else {
                    assert(ps[ps.len() - 1].id == l.id);
                }
            }
            assert(seats_ok(r)) by {
                assert forall|i: int| 0 <= i < r.len() implies (#[trigger] r[i]).id.0 < 4 by {
                    if i < rd.len() {
                        assert(r[i] == rd[i]);
                    } else {
                        assert(ps[ps.len() - 1].id == l.id);
                    }
                }
                assert forall|i: int, j: int| 0 <= i < r.len() && 0 <= j < r.len() && i != j implies r[i].id != r[j].id by {
                    if i < rd.len() && j < rd.len() {
                        assert(r[i] == rd[i] && r[j] == rd[j]);
                    } else if i < rd.len() {
                        assert(r[i] == rd[i]);
                        assert(seated(d, rd[i].id));
                    } else if j < rd.len() {
                        assert(r[j] == rd[j]);
                        assert(seated(d, rd[j].id));
                    }
                }
            }
            assert forall|id: PlayerId| seated(r, id) implies seated(ps, id) by {
                let i = choose|i: int| 0 <= i < r.len() && #[trigger] r[i].id == id;
                if i < rd.len() {
                    assert(r[i] == rd[i]);
                    assert(seated(rd, id));
                } else {
                    assert(ps[ps.len() - 1].id == id);
                }
            }
            if seated(ps, t) {
                if l.id == t {
                    assert(r[r.len() - 1].id == t);
                    lemma_seat_index(r, r.len() - 1);
                    lemma_seat_index(ps, ps.len() - 1);
                } else {
                    let i = choose|i: int| 0 <= i < ps.len() && #[trigger] ps[i].id == t;
                    assert(d[i].id == t);
                    let m = choose|m: int| 0 <= m < rd.len() && #[trigger] rd[m].id == t;
                    assert(r[m].id == t);
                    lemma_seat_index(d, i);
                    lemma_seat_index(ps, i);
                    let m2 = seat_index(rd, t);
                    assert(rd[m2] == d[i]);
                    assert(r[m2] == rd[m2]);
                    lemma_seat_index(r, m2);
                }
            }
        }
    }
}

proof fn lemma_next_pos(i: int, n: int)
    requires
        0 <= i < n,
    ensures
        (i + 1) % n == if i + 1 < n { i + 1 } else { 0 },
{
    if i + 1 < n {
        vstd::arithmetic::div_mod::lemma_small_mod((i + 1) as nat, n as nat);
    } else {
        vstd::arithmetic::div_mod::lemma_mod_self_0(n);
    }
}

proof fn lemma_count_insert(m: Multiset<Card>, c: Card, x: Card)
    ensures
        m.insert(c).count(x) == m.count(x) + if x == c { 1int } else { 0int },
{
    vstd::multiset::axiom_multiset_add(m, Multiset::singleton(c), x);
    vstd::multiset::axiom_multiset_singleton(c);
    vstd::multiset::axiom_multiset_singleton_different(c, x);
}

proof fn lemma_count_remove(m: Multiset<Card>, c: Card, x: Card)
    requires
        m.count(c) > 0,
    ensures
        m.remove(c).count(x) == m.count(x) - if x == c { 1int } else { 0int },
{
    vstd::multiset::axiom_multiset_sub(m, Multiset::singleton(c), x);
    vstd::multiset::axiom_multiset_singleton(c);
    vstd::multiset::axiom_multiset_singleton_different(c, x);
}

proof fn lemma_all_cards_count(v: GameView, x: Card)
    ensures
        v.all_cards().count(x) == v.deck.to_multiset().count(x) + hands_ms(v.players).count(x)
            + stack_cards(v.stack).to_multiset().count(x) + v.discarded.count(x),
{
    let a = v.deck.to_multiset();
    let b = hands_ms(v.players);
    let c = stack_cards(v.stack).to_multiset();
    vstd::multiset::axiom_multiset_add(a, b, x);
    vstd::multiset::axiom_multiset_add(a.add(b), c, x);
    vstd::multiset::axiom_multiset_add(a.add(b).add(c), v.discarded, x);
}

proof fn lemma_hands_count_update(ps: Seq<PlayerView>, i: int, p: PlayerView, x: Card)
    requires
        0 <= i < ps.len(),
    ensures
        hands_ms(ps.update(i, p)).count(x) == hands_ms(ps).count(x) - ps[i].hand.count(x) + p.hand.count(x),
{
    lemma_hands_update(ps, i, p);
    vstd::multiset::axiom_multiset_add(hands_ms(ps.update(i, p)), ps[i].hand, x);
    vstd::multiset::axiom_multiset_add(hands_ms(ps), p.hand, x);
}

/// A card leaves the hand at position `i` for the trick.
proof fn lemma_card_to_trick(v: GameView, i: int, card: Card, pid: PlayerId)
    requires
        0 <= i < v.players.len(),
        v.players[i].hand.count(card) > 0,
    ensures
        (GameView {
            players: v.players.update(i, PlayerView { hand: v.players[i].hand.remove(card), ..v.players[i] }),
            stack: v.stack.push((card, pid)),
            ..v
        }).all_cards() =~= v.all_cards(),
{
    let p = PlayerView { hand: v.players[i].hand.remove(card), ..v.players[i] };
    let w = GameView { players: v.players.update(i, p), stack: v.stack.push((card, pid)), ..v };
    assert(stack_cards(w.stack) =~= stack_cards(v.stack).push(card));
    assert forall|x: Card| #[trigger] w.all_cards().count(x) == v.all_cards().count(x) by {
        lemma_all_cards_count(w, x);
        lemma_all_cards_count(v, x);
        lemma_hands_count_update(v.players, i, p, x);
        lemma_count_remove(v.players[i].hand, card, x);
        lemma_count_insert(stack_cards(v.stack).to_multiset(), card, x);
    }
}

/// A settled trick leaves the table for the discarded cards.
proof fn lemma_trick_to_discard(v: GameView)
    ensures
        (GameView {
            stack: Seq::empty(),
            discarded: v.discarded.add(stack_cards(v.stack).to_multiset()),
            ..v
        }).all_cards() =~= v.all_cards(),
{
    let w = GameView { stack: Seq::empty(), discarded: v.discarded.add(stack_cards(v.stack).to_multiset()), ..v };
    assert(stack_cards(w.stack) =~= Seq::<Card>::empty());
    assert forall|x: Card| #[trigger] w.all_cards().count(x) == v.all_cards().count(x) by {
        lemma_all_cards_count(w, x);
        lemma_all_cards_count(v, x);
        vstd::multiset::axiom_multiset_add(v.discarded, stack_cards(v.stack).to_multiset(), x);
    }
}

/// A foul: the card leaves the hand at position `i`, and the trick together with
/// it goes to the hand at position `j`.
proof fn lemma_foul_transfer(v: GameView, i: int, card: Card, j: int)
    requires
        0 <= i < v.players.len(),
        0 <= j < v.players.len(),
        v.players[i].hand.count(card) > 0,
    ensures
        ({
            let played = v.players.update(i, PlayerView { hand: v.players[i].hand.remove(card), ..v.players[i] });
            let foul = stack_cards(v.stack).push(card);
            let given = played.update(j, PlayerView { hand: played[j].hand.add(foul.to_multiset()), ..played[j] });
            (GameView { players: given, stack: Seq::empty(), ..v }).all_cards() =~= v.all_cards()
        }),
{
    let pi = PlayerView { hand: v.players[i].hand.remove(card), ..v.players[i] };
    let played = v.players.update(i, pi);
    let foul = stack_cards(v.stack).push(card);
    let pj = PlayerView { hand: played[j].hand.add(foul.to_multiset()), ..played[j] };
    let given = played.update(j, pj);
    let w = GameView { players: given, stack: Seq::empty(), ..v };
    assert(stack_cards(w.stack) =~= Seq::<Card>::empty());
    assert forall|x: Card| #[trigger] w.all_cards().count(x) == v.all_cards().count(x) by {
        lemma_all_cards_count(w, x);
        lemma_all_cards_count(v, x);
        lemma_hands_count_update(v.players, i, pi, x);
        lemma_hands_count_update(played, j, pj, x);
        lemma_count_remove(v.players[i].hand, card, x);
        vstd::multiset::axiom_multiset_add(played[j].hand, foul.to_multiset(), x);
        lemma_count_insert(stack_cards(v.stack).to_multiset(), card, x);
    }
}

proof fn lemma_hands_update(ps: Seq<PlayerView>, i: int, p: PlayerView)
    requires
        0 <= i < ps.len(),
    ensures
        hands_ms(ps.update(i, p)).add(ps[i].hand) =~= hands_ms(ps).add(p.hand),
    decreases ps.len(),
{
    let q = ps.update(i, p);
    let d = ps.drop_last();
    if i == ps.len() - 1 {
        assert(q.drop_last() =~= d);
        assert(q.last() == p);
        assert forall|x: Card| hands_ms(q).add(ps[i].hand).count(x) == hands_ms(ps).add(p.hand).count(x) by {
            vstd::multiset::axiom_multiset_add(hands_ms(q), ps[i].hand, x);
            vstd::multiset::axiom_multiset_add(hands_ms(ps), p.hand, x);
            vstd::multiset::axiom_multiset_add(hands_ms(d), p.hand, x);
            vstd::multiset::axiom_multiset_add(hands_ms(d), ps[i].hand, x);
        }
    } else {
        lemma_hands_update(d, i, p);
        assert(q.drop_last() =~= d.update(i, p));
        assert(q.last() == ps.last());
        let e = ps.last().hand;
        assert forall|x: Card| hands_ms(q).add(ps[i].hand).count(x) == hands_ms(ps).add(p.hand).count(x) by {
            vstd::multiset::axiom_multiset_add(hands_ms(q), ps[i].hand, x);
            vstd::multiset::axiom_multiset_add(hands_ms(ps), p.hand, x);
            vstd::multiset::axiom_multiset_add(hands_ms(d.update(i, p)), e, x);
            vstd::multiset::axiom_multiset_add(hands_ms(d), e, x);
            vstd::multiset::axiom_multiset_add(hands_ms(d.update(i, p)), ps[i].hand, x);
            vstd::multiset::axiom_multiset_add(hands_ms(d), p.hand, x);
        }
    }
}

proof fn lemma_add_cancel(a: Multiset<Card>, b: Multiset<Card>, c: Multiset<Card>)
    requires
        a.add(c) == b.add(c),
    ensures
        a == b,
{
    assert forall|x: Card| a.count(x) == b.count(x) by {
        vstd::multiset::axiom_multiset_add(a, c, x);
        vstd::multiset::axiom_multiset_add(b, c, x);
        assert(a.add(c).count(x) == b.add(c).count(x));
    }
    assert(a =~= b);
}

proof fn lemma_empty_hand(h: Seq<Card>)
    requires
        h.len() == 0,
    ensures
        h.to_multiset() =~= Multiset::<Card>::empty(),
{
    assert(h =~= Seq::<Card>::empty());
}

proof fn lemma_hands_push(ps: Seq<PlayerView>, p: PlayerView)
    ensures
        hands_ms(ps.push(p)) =~= hands_ms(ps).add(p.hand),
{
    assert(ps.push(p).drop_last() =~= ps);
}

proof fn lemma_hands_remove_empty(ps: Seq<PlayerView>, i: int)
    requires
        0 <= i < ps.len(),
        ps[i].hand.len() == 0,
    ensures
        hands_ms(ps.remove(i)) =~= hands_ms(ps),
    decreases ps.len(),
{
    if i == ps.len() - 1 {
        assert(ps.remove(i) =~= ps.drop_last());
    } else {
        lemma_hands_remove_empty(ps.drop_last(), i);
        assert(ps.remove(i).drop_last() =~= ps.drop_last().remove(i));
    }
}

proof fn lemma_hands_all_empty(ps: Seq<PlayerView>)
    requires
        forall|i: int| 0 <= i < ps.len() ==> (#[trigger] ps[i]).hand.len() == 0,
    ensures
        hands_ms(ps) =~= Multiset::<Card>::empty(),
    decreases ps.len(),
{
    if ps.len() > 0 {
        lemma_hands_all_empty(ps.drop_last());
        assert(ps.last().hand =~= Multiset::<Card>::empty());
    }
}

/// Clearing the hands keeps every seat where it was.
pub proof fn lemma_clear_hands_seats(ps: Seq<PlayerView>, id: PlayerId)
    requires
        seats_ok(ps),
        seated(ps, id),
    ensures
        seats_ok(clear_hands(ps)),
        seated(clear_hands(ps), id),
        seat_index(clear_hands(ps), id) == seat_index(ps, id),
{
    let c = clear_hands(ps);
    let i = seat_index(ps, id);
    assert(c[i].id == id);
    lemma_seat_index(c, i);
}

/// With valid seats, the position found for a seat is the one that holds it.
pub proof fn lemma_seat_index(ps: Seq<PlayerView>, i: int)
    requires
        seats_ok(ps),
        0 <= i < ps.len(),
    ensures
        seated(ps, ps[i].id),
        seat_index(ps, ps[i].id) == i,
{
    assert(seated(ps, ps[i].id));
}

proof fn lemma_deal_one(ps: Seq<PlayerView>, i: int, p: PlayerView, deck: Seq<Card>)
    requires
        0 <= i < ps.len(),
        deck.len() > 0,
        p.hand == ps[i].hand.insert(deck.last()),
    ensures
        deck.drop_last().to_multiset().add(hands_ms(ps.update(i, p))) == deck.to_multiset().add(
            hands_ms(ps),
        ),
{
    let c = deck.last();
    let d = deck.drop_last();
    assert(d.push(c) =~= deck);
    vstd::seq_lib::to_multiset_build(d, c);
    lemma_hands_update(ps, i, p);
    let q = ps.update(i, p);
    assert forall|x: Card| #[trigger] d.to_multiset().add(hands_ms(q)).count(x) == deck.to_multiset().add(
        hands_ms(ps),
    ).count(x) by {
        vstd::multiset::axiom_multiset_add(d.to_multiset(), hands_ms(q), x);
        vstd::multiset::axiom_multiset_add(deck.to_multiset(), hands_ms(ps), x);
        vstd::multiset::axiom_multiset_add(hands_ms(q), ps[i].hand, x);
        vstd::multiset::axiom_multiset_add(hands_ms(ps), p.hand, x);
    }
    assert(d.to_multiset().add(hands_ms(q)) =~= deck.to_multiset().add(hands_ms(ps)));
}

proof fn lemma_add_insert(a: Multiset<Card>, b: Multiset<Card>, c: Card)
    ensures
        a.add(b.insert(c)) == a.add(b).insert(c),
{
    assert forall|x: Card| #[trigger] a.add(b.insert(c)).count(x) == a.add(b).insert(c).count(x) by {
        vstd::multiset::axiom_multiset_add(a, b.insert(c), x);
        vstd::multiset::axiom_multiset_add(a, b, x);
        lemma_count_insert(b, c, x);
        lemma_count_insert(a.add(b), c, x);
    }
    assert(a.add(b.insert(c)) =~= a.add(b).insert(c));
}

proof fn lemma_add_empty(a: Multiset<Card>)
    ensures
        a.add(Multiset::empty()) == a,
{
    assert forall|x: Card| #[trigger] a.add(Multiset::empty()).count(x) == a.count(x) by {
        vstd::multiset::axiom_multiset_add(a, Multiset::empty(), x);
    }
    assert(a.add(Multiset::empty()) =~= a);
}

proof fn lemma_hands_holder(ps: Seq<PlayerView>, c: Card)
    requires
        hands_ms(ps).count(c) > 0,
    ensures
        exists|i: int| 0 <= i < ps.len() && (#[trigger] ps[i]).hand.count(c) > 0,
    decreases ps.len(),
{
    if ps.len() > 0 {
        vstd::multiset::axiom_multiset_add(hands_ms(ps.drop_last()), ps.last().hand, c);
        if ps.last().hand.count(c) > 0 {
            assert(ps[ps.len() - 1].hand.count(c) > 0);
        } else {
            lemma_hands_holder(ps.drop_last(), c);
            let i = choose|i: int| 0 <= i < ps.drop_last().len() && (#[trigger] ps.drop_last()[i]).hand.count(c) > 0;
            assert(ps[i].hand.count(c) > 0);
        }
    }
}

proof fn lemma_pigeonhole(ps: Seq<PlayerView>)
    requires
        seats_ok(ps),
        forall|j: u32| j < 4 ==> seated(ps, PlayerId(j)),
    ensures
        ps.len() == 4,
{
    assert(seated(ps, PlayerId(0)));
    assert(seated(ps, PlayerId(1)));
    assert(seated(ps, PlayerId(2)));
    assert(seated(ps, PlayerId(3)));
    let i0 = seat_index(ps, PlayerId(0));
    let i1 = seat_index(ps, PlayerId(1));
    let i2 = seat_index(ps, PlayerId(2));
    let i3 = seat_index(ps, PlayerId(3));
    assert(ps[i0].id == PlayerId(0));
    assert(ps[i1].id == PlayerId(1));
    assert(ps[i2].id == PlayerId(2));
    assert(ps[i3].id == PlayerId(3));
}

/// A copy of a list of cards.
fn copy_cards(v: &Vec<Card>) -> (r: Vec<Card>)
    ensures
        r@ == v@,
{
    let mut out: Vec<Card> = Vec::new();
    let mut k: usize = 0;
    while k < v.len()
        invariant
            k <= v@.len(),
            out@ == v@.take(k as int),
        decreases v@.len() - k,
    {
        out.push(v[k]);
        k = k + 1;
        assert(out@ =~= v@.take(k as int));
    }
    assert(out@ =~= v@);
    out
}

/// A single event.
fn one_event(e: Event) -> (r: Vec<Event>)
    ensures
        r@ == seq![e],
{
    let mut r: Vec<Event> = Vec::new();
    r.push(e);
    assert(r@ =~= seq![e]);
    r
}

/// Whether some card of the hand has suit `suit`.
fn has_suit(hand: &Vec<Card>, suit: Suit) -> (r: bool)
    ensures
        r == exists|i: int| 0 <= i < hand@.len() && (#[trigger] hand@[i]).suit == suit,
{
    let mut k: usize = 0;
    while k < hand.len()
        invariant
            k <= hand@.len(),
            forall|i: int| 0 <= i < k ==> (#[trigger] hand@[i]).suit != suit,
        decreases hand@.len() - k,
    {
        if hand[k].suit == suit {
            return true;
        }
        k = k + 1;
    }
    false
}

/// Whether the hand holds `card`.
fn has_card(hand: &Vec<Card>, card: Card) -> (r: bool)
    ensures
        r == hand@.contains(card),
{
    let mut k: usize = 0;
    while k < hand.len()
        invariant
            k <= hand@.len(),
            forall|i: int| 0 <= i < k ==> hand@[i] != card,
        decreases hand@.len() - k,
    {
        if hand[k] == card {
            return true;
        }
        k = k + 1;
    }
    false
}

impl Game {
    /// Well-formedness: the model's invariant.
    pub open spec fn wf(&self) -> bool {
        self@.inv()
    }

    /// A fresh game: no seats held, phase Waiting, the full deck in hand.
    pub fn new() -> (g: Self)
        ensures
            g.wf(),
            g@.phase == GamePhase::Waiting,
            g@.players.len() == 0,
            g@.stack.len() == 0,
            g@.deck == standard_deck_spec(),
            g@.turn == PlayerId(0),
            g@.leader == PlayerId(0),
            !g@.hand_dealt,
            !g@.first_move,
    {
        let g = Self {
            phase: GamePhase::Waiting,
            turn_stack: Vec::new(),
            players: Vec::new(),
            deck: standard_deck(),
            first: PlayerId(0),
            turn: PlayerId(0),
            hand_dealt: false,
            first_move: false,
            discarded: Ghost(Multiset::empty()),
        };
        proof {
            assert(g@.players =~= Seq::<PlayerView>::empty());
            assert(stack_cards(g@.stack) =~= Seq::<Card>::empty());
            assert(g@.all_cards() =~= standard_deck_spec().to_multiset());
        }
        g
    }

    /// Starts the board over for a new round: the full deck back, hands and trick
    /// emptied, phase Waiting; seats and ready flags stay.
    pub fn reset(&mut self)
        requires
            old(self).wf(),
        ensures
            final(self).wf(),
            final(self)@ == old(self)@.reset_view(),
    {
        self.phase = GamePhase::Waiting;
        self.deck = standard_deck();
        self.hand_dealt = false;
        self.turn_stack.clear();
        self.first_move = false;
        self.discarded = Ghost(Multiset::empty());
        let n = self.players.len();
        let mut i: usize = 0;
        while i < n
            invariant
                n == self.players@.len(),
                n == old(self).players@.len(),
                i <= n,
                forall|k: int| 0 <= k < n ==> (#[trigger] self.players@[k]).id == old(self).players@[k].id
                    && self.players@[k].ready == old(self).players@[k].ready,
                forall|k: int| 0 <= k < i ==> (#[trigger] self.players@[k]).hand@.len() == 0,
                self.phase == GamePhase::Waiting,
                self.deck@ == standard_deck_spec(),
                !self.hand_dealt,
                !self.first_move,
                self.turn_stack@.len() == 0,
                self.discarded@ == Multiset::<Card>::empty(),
                self.turn == old(self).turn,
                self.first == old(self).first,
            decreases n - i,
        {
            self.players[i].hand.clear();
            i = i + 1;
        }
        proof {
            let v = self@;
            assert(v.players =~= clear_hands(old(self)@.players)) by {
                assert forall|k: int| 0 <= k < n implies v.players[k] == clear_hands(old(self)@.players)[k] by {
                    lemma_empty_hand(self.players@[k].hand@);
                }
            }
            lemma_hands_all_empty(v.players);
            assert(stack_cards(v.stack) =~= Seq::<Card>::empty());
            assert(v.all_cards() =~= standard_deck_spec().to_multiset());
            assert(v.stack =~= Seq::<(Card, PlayerId)>::empty());
            assert(v == old(self)@.reset_view());
        }
    }

    pub fn get_phase(&self) -> (r: GamePhase)
        ensures
            r == self@.phase,
    {
        self.phase
    }

    /// Whether the cards of the current round have been dealt.
    pub fn cards_dealt(&self) -> (r: bool)
        ensures
            r == self@.hand_dealt,
    {
        self.hand_dealt
    }

    /// How many seats are held.
    pub fn player_count(&self) -> (r: usize)
        ensures
            r == self@.players.len(),
    {
        self.players.len()
    }

    pub fn get_turn(&self) -> (r: PlayerId)
        ensures
            r == self@.turn,
    {
        self.turn
    }

    /// Position in the rotation of the player at seat `player_id`.
    fn find_by_player_id(&self, player_id: PlayerId) -> (r: Option<usize>)
        requires
            self.wf(),
        ensures
            r is Some <==> seated(self@.players, player_id),
            r is Some ==> r->Some_0 == seat_index(self@.players, player_id) && r->Some_0 < self@.players.len()
                && self@.players[r->Some_0 as int].id == player_id,
    {
        let mut i: usize = 0;
        while i < self.players.len()
            invariant
                self.wf(),
                i <= self.players@.len(),
                forall|k: int| 0 <= k < i ==> self.players@[k].id != player_id,
            decreases self.players@.len() - i,
        {
            if self.players[i].id == player_id {
                proof {
                    lemma_seat_index(self@.players, i as int);
                }
                return Some(i);
            }
            i = i + 1;
        }
        proof {
            if seated(self@.players, player_id) {
                let k = choose|k: int| 0 <= k < self@.players.len() && #[trigger] self@.players[k].id == player_id;
                assert(self.players@[k].id == player_id);
            }
        }
        None
    }

    /// A copy of the hand of the player at seat `player_id`, if that seat is held.
    pub fn get_hand(&self, player_id: PlayerId) -> (r: Option<Vec<Card>>)
        requires
            self.wf(),
        ensures
            r is Some <==> seated(self@.players, player_id),
            r is Some ==> r->Some_0@.to_multiset() == self@.players[seat_index(self@.players, player_id)].hand,
    {
        match self.find_by_player_id(player_id) {
            Some(i) => Some(copy_cards(&self.players[i].hand)),
            None => None,
        }
    }

    /// Sets the ready flag of the player at seat `p_id`; false when no one holds it.
    pub fn mark_ready(&mut self, p_id: PlayerId) -> (r: bool)
        requires
            old(self).wf(),
        ensures
            final(self).wf(),
            r == seated(old(self)@.players, p_id),
            r ==> final(self)@ == (GameView {
                players: old(self)@.players.update(
                    seat_index(old(self)@.players, p_id),
                    PlayerView { ready: true, ..old(self)@.players[seat_index(old(self)@.players, p_id)] },
                ),
                ..old(self)@
            }),
            !r ==> final(self)@ == old(self)@,
    {
        match self.find_by_player_id(p_id) {
            Some(i) => {
                self.players[i].ready = true;
                proof {
                    let pre = old(self)@;
                    let q = pre.players.update(i as int, PlayerView { ready: true, ..pre.players[i as int] });
                    assert(self@.players =~= q);
                    assert(hands_ms(q) =~= hands_ms(pre.players)) by {
                        lemma_hands_update(pre.players, i as int, PlayerView { ready: true, ..pre.players[i as int] });
                        lemma_add_cancel(hands_ms(q), hands_ms(pre.players), pre.players[i as int].hand);
                    }
                    assert(seated(q, pre.players[i as int].id)) by {
                        assert(q[i as int].id == pre.players[i as int].id);
                    }
                    assert forall|k: int| 0 <= k < self@.stack.len() implies seated(q, (#[trigger] self@.stack[k]).1) by {
                        let j = seat_index(pre.players, pre.stack[k].1);
                        assert(q[j].id == pre.stack[k].1);
                    }
                }
                true
            },
            None => false,
        }
    }

    /// Seats a new player at the lowest free seat. Nothing happens (and nothing is
    /// returned) outside the Waiting phase or when all four seats are held.
    pub fn add_player(&mut self) -> (r: Option<Event>)
        requires
            old(self).wf(),
        ensures
            final(self).wf(),
            old(self)@.phase != GamePhase::Waiting || old(self)@.players.len() == 4 ==> r is None
                && final(self)@ == old(self)@,
            old(self)@.phase == GamePhase::Waiting && old(self)@.players.len() < 4 ==> {
                &&& r matches Some(Event::PlayerAdded { p_id })
                &&& old(self)@.lowest_free(p_id.0)
                &&& final(self)@ == (GameView {
                    players: old(self)@.players.push(
                        PlayerView { id: p_id, hand: Multiset::empty(), ready: false },
                    ),
                    ..old(self)@
                })
            },
    {
        if self.phase != GamePhase::Waiting || self.players.len() == 4 {
            return None;
        }
        let mut k: u32 = 0;
        while k < 4
            invariant
                self == old(self),
                self.wf(),
                self@.phase == GamePhase::Waiting,
                self@.players.len() < 4,
                k <= 4,
                forall|j: u32| j < k ==> seated(self@.players, PlayerId(j)),
            decreases 4 - k,
        {
            if self.find_by_player_id(PlayerId(k)).is_none() {
                let id = PlayerId(k);
                let ghost pre = self@;
                self.players.push(Players::new(id));
                proof {
                    let np = PlayerView { id, hand: Multiset::empty(), ready: false };
                    let q = pre.players.push(np);
                    lemma_empty_hand(self.players@.last().hand@);
                    assert(self@.players =~= q);
                    lemma_hands_push(pre.players, np);
                    assert(hands_ms(q) =~= hands_ms(pre.players));
                    assert(pre.stack.len() == 0);
                    assert(stack_cards(self@.stack) =~= stack_cards(pre.stack));
                    assert(self@.all_cards() =~= pre.all_cards());
                    assert(self@ == GameView { players: q, ..pre });
                }
                return Some(Event::PlayerAdded { p_id: id });
            }
            k = k + 1;
        }
        proof {
            lemma_pigeonhole(self@.players);
        }
        None
    }

    /// Frees the seat `player_id`. Mid-round this only reports `AbortGame` and
    /// changes nothing; an id that is out of range or not held is a no-op.
    pub fn remove_player(&mut self, player_id: PlayerId) -> (r: Option<Event>)
        requires
            old(self).wf(),
        ensures
            final(self).wf(),
            player_id.0 >= 4 || !seated(old(self)@.players, player_id) ==> r is None && final(self)@
                == old(self)@,
            player_id.0 < 4 && seated(old(self)@.players, player_id) && old(self)@.phase
                == GamePhase::Playing ==> r == Some(Event::AbortGame) && final(self)@ == old(self)@,
            player_id.0 < 4 && seated(old(self)@.players, player_id) && old(self)@.phase
                != GamePhase::Playing ==> r == Some(Event::PlayerLeft { p_id: player_id })
                && final(self)@ == (GameView {
                players: old(self)@.players.remove(seat_index(old(self)@.players, player_id)),
                ..old(self)@
            }),
    {
        if player_id.0 >= 4 {
            return None;
        }
        let idx = match self.find_by_player_id(player_id) {
            Some(i) => i,
            None => {
                return None;
            },
        };
        if self.phase == GamePhase::Playing {
            return Some(Event::AbortGame);
        }
        let ghost pre = self@;
        self.players.remove(idx);
        proof {
            let q = pre.players.remove(idx as int);
            assert(self@.players =~= q);
            lemma_hands_remove_empty(pre.players, idx as int);
            assert(stack_cards(self@.stack) =~= stack_cards(pre.stack));
            assert(self@.all_cards() =~= pre.all_cards());
            assert forall|i: int| 0 <= i < q.len() implies (#[trigger] q[i]).hand.len() == 0 by {
                if i < idx {
                    assert(q[i] == pre.players[i]);
                } else {
                    assert(q[i] == pre.players[i + 1]);
                }
            }
            assert(self@ == GameView { players: q, ..pre });
        }
        Some(Event::PlayerLeft { p_id: player_id })
    }

    /// At least two players are seated and all of them are ready.
    fn all_ready(&self) -> (r: bool)
        ensures
            r == self@.all_ready(),
    {
        if self.players.len() <= 1 {
            return false;
        }
        let mut i: usize = 0;
        while i < self.players.len()
            invariant
                i <= self.players@.len(),
                forall|k: int| 0 <= k < i ==> #[trigger] self@.players[k].ready,
            decreases self.players@.len() - i,
        {
            if !self.players[i].ready {
                assert(!self@.players[i as int].ready);
                return false;
            }
            i = i + 1;
        }
        true
    }

    /// Deals the whole deck round-robin, from the top of the deck, starting with
    /// the first player in the rotation.
    pub fn distribute(&mut self)
        requires
            old(self)@.players.len() > 0 || old(self)@.deck.len() == 0,
        ensures
            final(self)@.deck.len() == 0,
            hands_ms(final(self)@.players) == old(self)@.deck.to_multiset().add(hands_ms(old(self)@.players)),
            final(self)@.players.len() == old(self)@.players.len(),
            forall|i: int| 0 <= i < old(self)@.players.len() ==> (#[trigger] final(self)@.players[i]).id == old(self)@.players[i].id
                && final(self)@.players[i].ready == old(self)@.players[i].ready
                && final(self)@.players[i].hand == old(self)@.players[i].hand.add(
                    dealt(old(self)@.deck, old(self)@.players.len() as int, i, old(self)@.deck.len() as int),
                )
                && final(self)@.players[i].hand.len() == old(self)@.players[i].hand.len()
                    + old(self)@.deck.len() / old(self)@.players.len()
                    + (if i < old(self)@.deck.len() % old(self)@.players.len() { 1int } else { 0int }),
            final(self)@ == (GameView { players: final(self)@.players, deck: final(self)@.deck, ..old(self)@ }),
    {
        let ghost pre = self@;
        if self.deck.len() == 0 {
            proof {
                assert forall|i: int| 0 <= i < pre.players.len() implies (#[trigger] pre.players[i]).hand
                    == pre.players[i].hand.add(dealt(pre.deck, pre.players.len() as int, i, 0)) by {
                    lemma_add_empty(pre.players[i].hand);
                }
                vstd::multiset::lemma_multiset_empty_len(pre.deck.to_multiset());
                lemma_add_empty(hands_ms(pre.players));
                assert forall|x: Card| #[trigger] pre.deck.to_multiset().add(hands_ms(pre.players)).count(x) == hands_ms(pre.players).add(Multiset::empty()).count(x) by {
                    vstd::multiset::axiom_multiset_add(pre.deck.to_multiset(), hands_ms(pre.players), x);
                    vstd::multiset::axiom_multiset_add(hands_ms(pre.players), Multiset::empty(), x);
                }
                assert(pre.deck.to_multiset().add(hands_ms(pre.players)) =~= hands_ms(pre.players));
            }
            return;
        }
        let n = self.players.len();
        let mut seat: usize = 0;
        let ghost mut round: int = 0;
        let ghost total = pre.deck.len();
        proof {
            assert forall|i: int| 0 <= i < n implies (#[trigger] self@.players[i]).hand
                == pre.players[i].hand.add(dealt(pre.deck, n as int, i, 0)) by {
                lemma_add_empty(pre.players[i].hand);
            }
        }
        while self.deck.len() > 0
            invariant
                n == self.players@.len(),
                n == pre.players.len(),
                n > 0,
                seat < n,
                round >= 0,
                total == pre.deck.len(),
                total - self.deck@.len() == round * n + seat,
                self.deck@ == pre.deck.take(self.deck@.len() as int),
                forall|i: int| 0 <= i < n ==> (#[trigger] self@.players[i]).id == pre.players[i].id
                    && self@.players[i].ready == pre.players[i].ready
                    && self@.players[i].hand == pre.players[i].hand.add(
                        dealt(pre.deck, n as int, i, total - self.deck@.len()),
                    )
                    && self@.players[i].hand.len() == pre.players[i].hand.len() + round + (if i < seat { 1int } else { 0int }),
                self@.deck.to_multiset().add(hands_ms(self@.players)) == pre.deck.to_multiset().add(hands_ms(pre.players)),
                self@ == (GameView { players: self@.players, deck: self@.deck, ..pre }),
            decreases self.deck@.len(),
        {
            let ghost before = self@;
            let ghost k = total - self.deck@.len();
            proof {
                vstd::arithmetic::div_mod::lemma_fundamental_div_mod_converse(k, n as int, round, seat as int);
            }
            let card = self.deck.pop().unwrap();
            self.players[seat].hand.push(card);
            proof {
                let np = self@.players[seat as int];
                assert(np.hand == before.players[seat as int].hand.insert(card));
                assert(self@.players =~= before.players.update(seat as int, np));
                lemma_deal_one(before.players, seat as int, np, before.deck);
                assert(self.deck@ =~= pre.deck.take(self.deck@.len() as int));
                assert(card == pre.deck[total - (k + 1)]);
                assert forall|i: int| 0 <= i < n implies (#[trigger] self@.players[i]).hand == pre.players[i].hand.add(
                    dealt(pre.deck, n as int, i, k + 1),
                ) by {
                    if i == seat {
                        lemma_add_insert(pre.players[i].hand, dealt(pre.deck, n as int, i, k), card);
                    } else {
                        assert(self@.players[i] == before.players[i]);
                    }
                }
            }
            seat = seat + 1;
            if seat == n {
                seat = 0;
                proof {
                    assert((round + 1) * n == round * n + n) by (nonlinear_arith);
                    round = round + 1;
                }
            }
        }
        proof {
            vstd::arithmetic::div_mod::lemma_fundamental_div_mod_converse(total as int, n as int, round, seat as int);
            let post = self@;
            assert(post.deck =~= Seq::<Card>::empty());
            assert forall|x: Card| #[trigger] hands_ms(post.players).count(x) == pre.deck.to_multiset().add(hands_ms(pre.players)).count(x) by {
                vstd::multiset::axiom_multiset_add(post.deck.to_multiset(), hands_ms(post.players), x);
            }
            assert(hands_ms(post.players) =~= pre.deck.to_multiset().add(hands_ms(pre.players)));
        }
    }

    /// The seat of the first player in rotation who holds the Ace of Spades, if
    /// anyone does.
    #[verifier::loop_isolation(false)]
    fn find_ace_of_spades_holder(&self) -> (r: Option<PlayerId>)
        ensures
            r is Some ==> seated(self@.players, r->Some_0) && exists|i: int|
                0 <= i < self@.players.len() && self@.players[i].id == r->Some_0
                && #[trigger] self@.players[i].hand.count(ace_of_spades()) > 0
                && forall|j: int| 0 <= j < i ==> (#[trigger] self@.players[j]).hand.count(ace_of_spades()) == 0,
            r is None ==> forall|i: int| 0 <= i < self@.players.len() ==> (#[trigger] self@.players[i]).hand.count(ace_of_spades()) == 0,
    {
        let mut i: usize = 0;
        while i < self.players.len()
            invariant
                i <= self.players@.len(),
                forall|k: int| 0 <= k < i ==> (#[trigger] self@.players[k]).hand.count(ace_of_spades()) == 0,
            decreases self.players@.len() - i,
        {
            let hand = &self.players[i].hand;
            let mut k: usize = 0;
            while k < hand.len()
                invariant
                    k <= hand@.len(),
                    forall|j: int| 0 <= j < k ==> hand@[j] != ace_of_spades(),
                decreases hand@.len() - k,
            {
                if hand[k].suit == Suit::Spade && hand[k].rank == Rank::Ace {
                    proof {
                        assert(hand@.contains(ace_of_spades()));
                        assert(self@.players[i as int].hand == hand@.to_multiset());
                        assert(self@.players[i as int].hand.count(ace_of_spades()) > 0);
                        assert(self@.players[i as int].id == self.players@[i as int].id);
                    }
                    return Some(self.players[i].id);
                }
                k = k + 1;
            }
            proof {
                assert(!hand@.contains(ace_of_spades()));
                assert(self@.players[i as int].hand == hand@.to_multiset());
            }
            i = i + 1;
        }
        None
    }

    /// Deals a round that has begun: board reset, a freshly shuffled deck dealt
    /// round-robin to every seated player, and the holder of the Ace of Spades
    /// given both the turn and the lead. The phase stays Playing.
    pub fn start_game(&mut self)
        requires
            old(self).wf(),
            old(self)@.phase == GamePhase::Playing,
            old(self)@.players.len() > 0,
        ensures
            final(self).wf(),
            final(self)@.phase == old(self)@.phase,
            final(self)@.hand_dealt,
            !final(self)@.first_move,
            final(self)@.stack.len() == 0,
            final(self)@.deck.len() == 0,
            final(self)@.players.len() == old(self)@.players.len(),
            forall|i: int| 0 <= i < old(self)@.players.len() ==> (#[trigger] final(self)@.players[i]).id == old(self)@.players[i].id
                && final(self)@.players[i].ready == old(self)@.players[i].ready
                && final(self)@.players[i].hand.len() == 52nat / old(self)@.players.len()
                    + (if i < 52nat % old(self)@.players.len() { 1int } else { 0int }),
            hands_ms(final(self)@.players) == standard_deck_spec().to_multiset(),
            hands_ms(final(self)@.players).len() == 52,
            forall|i: int, j: int|
                0 <= i < final(self)@.players.len() && 0 <= j < final(self)@.players.len() ==> #[trigger] final(self)@.players[i].hand.len()
                    <= #[trigger] final(self)@.players[j].hand.len() + 1,
            final(self)@.turn == final(self)@.leader,
            seated(final(self)@.players, final(self)@.turn),
            final(self)@.players[seat_index(final(self)@.players, final(self)@.turn)].hand.count(ace_of_spades()) > 0,
    {
        self.reset();
        self.phase = GamePhase::Playing;
        shuffle(&mut self.deck);
        proof {
            assert(self@.all_cards() =~= old(self)@.reset_view().all_cards());
        }
        let ghost before = self@;
        self.distribute();
        self.hand_dealt = true;
        proof {
            let v = self@;
            assert(v.all_cards() =~= before.all_cards()) by {
                assert forall|x: Card| #[trigger] v.all_cards().count(x) == before.all_cards().count(x) by {
                    lemma_all_cards_count(v, x);
                    lemma_all_cards_count(before, x);
                    vstd::multiset::axiom_multiset_add(before.deck.to_multiset(), hands_ms(before.players), x);
                }
            }
            assert forall|i: int| 0 <= i < v.players.len() implies (#[trigger] v.players[i]).id == before.players[i].id by {}
            assert(stack_cards(v.stack) =~= Seq::<Card>::empty());
            assert(v.deck =~= Seq::<Card>::empty());
            assert(v.all_cards() =~= hands_ms(v.players));
            crate::card::lemma_standard_deck_once(ace_of_spades());
            lemma_hands_holder(v.players, ace_of_spades());
        }
        let first = match self.find_ace_of_spades_holder() {
            Some(id) => id,
            None => {
                proof {
                    assert(false);
                }
                self.turn
            },
        };
        self.turn = first;
        self.first = first;
        proof {
            let v = self@;
            let i = choose|i: int| 0 <= i < v.players.len() && v.players[i].id == first
                && #[trigger] v.players[i].hand.count(ace_of_spades()) > 0;
            lemma_seat_index(v.players, i);
            vstd::seq_lib::to_multiset_len(standard_deck_spec());
        }
    }

    /// The player whose card leads the trick: the highest rank, the latest
    /// among equal ranks.
    fn check_turn(&self) -> (r: PlayerId)
        requires
            self@.stack.len() > 0,
        ensures
            r == self@.stack[best_index(self@.stack)].1,
    {
        let ghost s = self@.stack;
        let mut best: usize = 0;
        let mut i: usize = 1;
        while i < self.turn_stack.len()
            invariant
                s == self.turn_stack@,
                1 <= i <= s.len(),
                best == best_index(s.take(i as int)),
                best < i,
            decreases s.len() - i,
        {
            proof {
                let t = s.take(i as int + 1);
                assert(t.drop_last() =~= s.take(i as int));
                assert(t[best as int] == s[best as int]);
            }
            if self.turn_stack[i].0.rank.value() >= self.turn_stack[best].0.rank.value() {
                best = i;
            }
            i = i + 1;
        }
        assert(s.take(s.len() as int) =~= s);
        self.turn_stack[best].1
    }

    /// Takes the players who have emptied their hands and do not hold the turn
    /// out of the round, announcing each with `PlayerWon`.
    #[verifier::loop_isolation(false)]
    fn remove_winners(&mut self) -> (r: Vec<Event>)
        requires
            old(self).wf(),
            old(self)@.stack.len() == 0,
            old(self)@.phase == GamePhase::Playing,
            seated(old(self)@.players, old(self)@.turn),
        ensures
            final(self).wf(),
            r@ == won_events(old(self)@.players, old(self)@.turn),
            final(self)@ == (GameView { players: survivors(old(self)@.players, old(self)@.turn), ..old(self)@ }),
            seated(final(self)@.players, final(self)@.turn),
    {
        let ghost pre = self@;
        let t = self.turn;
        let mut rest: Vec<Players> = Vec::new();
        std::mem::swap(&mut rest, &mut self.players);
        let ghost orig = rest@;
        let ghost ov = pre.players;
        let n = rest.len();
        let mut kept: Vec<Players> = Vec::new();
        let mut res: Vec<Event> = Vec::new();
        let mut k: usize = 0;
        while k < n
            invariant
                n == orig.len(),
                ov == orig.map_values(|p: Players| p@),
                k <= n,
                rest@ == orig.skip(k as int),
                kept@.map_values(|p: Players| p@) == survivors(ov.take(k as int), t),
                res@ == won_events(ov.take(k as int), t),
            decreases n - k,
        {
            let p = rest.remove(0);
            proof {
                let tk = ov.take(k as int + 1);
                assert(tk.drop_last() =~= ov.take(k as int));
                assert(tk.last() == p@);
                assert(rest@ =~= orig.skip(k as int + 1));
            }
            if p.hand.len() == 0 && p.id != t {
                res.push(Event::PlayerWon { player_id: p.id });
                proof {
                    assert(p@.hand.len() == 0);
                }
            } else {
                let ghost kv = kept@;
                kept.push(p);
                proof {
                    assert(kept@.map_values(|p: Players| p@) =~= kv.map_values(|p: Players| p@).push(p@));
                    if p@.hand.len() == 0 {
                        lemma_empty_hand(p.hand@);
                    }
                }
            }
            k = k + 1;
        }
        self.players = kept;
        proof {
            assert(ov.take(n as int) =~= ov);
            lemma_survivors(ov, t);
            let post = self@;
            assert(post.players == survivors(ov, t));
            assert(stack_cards(post.stack) =~= stack_cards(pre.stack));
            assert(post.all_cards() =~= pre.all_cards());
            assert(post == GameView { players: survivors(ov, t), ..pre });
        }
        res
    }

    /// Hands `cards` to the player at seat `player_id`; without such a player
    /// nothing changes.
    fn add_cards_to_player(&mut self, player_id: &PlayerId, cards: &mut Vec<Card>)
        requires
            seats_ok(old(self)@.players),
        ensures
            seated(old(self)@.players, *player_id) ==> final(self)@ == (GameView {
                players: old(self)@.players.update(
                    seat_index(old(self)@.players, *player_id),
                    PlayerView {
                        hand: old(self)@.players[seat_index(old(self)@.players, *player_id)].hand.add(old(cards)@.to_multiset()),
                        ..old(self)@.players[seat_index(old(self)@.players, *player_id)]
                    },
                ),
                ..old(self)@
            }),
            !seated(old(self)@.players, *player_id) ==> final(self)@ == old(self)@,
            seated(old(self)@.players, *player_id) ==> final(self).players@[seat_index(old(self)@.players, *player_id)].hand@
                == old(self).players@[seat_index(old(self)@.players, *player_id)].hand@ + old(cards)@,
    {
        let ghost c0 = cards@;
        let mut i: usize = 0;
        while i < self.players.len()
            invariant
                self == old(self),
                cards@ == c0,
                c0 == old(cards)@,
                seats_ok(self@.players),
                i <= self.players@.len(),
                forall|k: int| 0 <= k < i ==> self.players@[k].id != *player_id,
            decreases self.players@.len() - i,
        {
            if self.players[i].id == *player_id {
                proof {
                    assert(old(self)@.players[i as int].id == *player_id);
                    lemma_seat_index(old(self)@.players, i as int);
                    assert(seat_index(old(self)@.players, *player_id) == i);
                    vstd::seq_lib::lemma_multiset_commutative(self.players@[i as int].hand@, cards@);
                }
                let ghost pre = self@;
                let ghost h0 = self.players@[i as int].hand@;
                self.players[i].hand.append(cards);
                proof {
                    assert(self.players@[i as int].hand@ == h0 + c0);
                    assert(self@.players[i as int].hand == pre.players[i as int].hand.add(c0.to_multiset()));
                    assert(self@.players =~= pre.players.update(
                        i as int,
                        PlayerView { hand: pre.players[i as int].hand.add(c0.to_multiset()), ..pre.players[i as int] },
                    ));
                    assert(self@ == GameView {
                        players: pre.players.update(
                            i as int,
                            PlayerView { hand: pre.players[i as int].hand.add(c0.to_multiset()), ..pre.players[i as int] },
                        ),
                        ..pre
                    });
                    assert(pre == old(self)@);
                }
                return;
            }
            i = i + 1;
        }
        proof {
            if seated(old(self)@.players, *player_id) {
                let k = choose|k: int| 0 <= k < self@.players.len() && #[trigger] self@.players[k].id == *player_id;
                assert(self.players@[k].id == *player_id);
            }
        }
    }

    /// Moves one card, drawn at random, from the hand of the player at position
    /// `from` to that of the player at position `to`.
    pub fn give_random_card(&mut self, to: usize, from: usize) -> (c: Card)
        requires
            old(self).wf(),
            to != from,
            to < old(self)@.players.len(),
            from < old(self)@.players.len(),
            old(self)@.players[from as int].hand.len() > 0,
        ensures
            final(self).wf(),
            old(self)@.players[from as int].hand.count(c) > 0,
            final(self)@ == (GameView {
                players: old(self)@.players.update(
                    to as int,
                    PlayerView { hand: old(self)@.players[to as int].hand.insert(c), ..old(self)@.players[to as int] },
                ).update(
                    from as int,
                    PlayerView { hand: old(self)@.players[from as int].hand.remove(c), ..old(self)@.players[from as int] },
                ),
                ..old(self)@
            }),
    {
        let ghost pre = self@;
        let size = self.players[from].hand.len();
        proof {
            assert(self.players@[from as int].hand@.to_multiset().len() > 0);
        }
        let idx = random_below(size);
        proof {
            vstd::seq_lib::to_multiset_remove(self.players@[from as int].hand@, idx as int);
        }
        let card = self.players[from].hand.remove(idx);
        let ghost mid = self@;
        self.players[to].hand.push(card);
        proof {
            let hf = pre.players[from as int];
            let ht = pre.players[to as int];
            assert(hf.hand.count(card) > 0);
            let pf = PlayerView { hand: hf.hand.remove(card), ..hf };
            let pt = PlayerView { hand: ht.hand.insert(card), ..ht };
            let q1 = pre.players.update(to as int, pt);
            let q = q1.update(from as int, pf);
            assert(mid.players =~= pre.players.update(from as int, pf));
            assert(self@.players =~= q);
            lemma_hands_update(pre.players, to as int, pt);
            lemma_hands_update(q1, from as int, pf);
            assert(hands_ms(q) =~= hands_ms(pre.players)) by {
                assert forall|x: Card| #[trigger] hands_ms(q).count(x) == hands_ms(pre.players).count(x) by {
                    vstd::multiset::axiom_multiset_add(hands_ms(q1), ht.hand, x);
                    vstd::multiset::axiom_multiset_add(hands_ms(pre.players), pt.hand, x);
                    vstd::multiset::axiom_multiset_add(hands_ms(q), hf.hand, x);
                    vstd::multiset::axiom_multiset_add(hands_ms(q1), pf.hand, x);
                }
            }
            assert(stack_cards(self@.stack) =~= stack_cards(pre.stack));
            assert(self@.all_cards() =~= pre.all_cards());
            assert forall|k: int| 0 <= k < q.len() implies (#[trigger] q[k]).id == pre.players[k].id by {}
            assert forall|k: int| 0 <= k < self@.stack.len() implies seated(q, (#[trigger] self@.stack[k]).1) by {
                let j = seat_index(pre.players, pre.stack[k].1);
                assert(q[j].id == pre.stack[k].1);
            }
            assert(self@ == GameView { players: q, ..pre });
        }
        card
    }

    /// Ends a settled trick: winners leave, the round ends when one player is
    /// left, and otherwise the turn holder is announced (after the rescue card,
    /// should their hand be empty).
    fn conclude_trick(&mut self) -> (r: Vec<Event>)
        requires
            old(self).wf(),
            old(self)@.stack.len() == 0,
            old(self)@.phase == GamePhase::Playing,
            seated(old(self)@.players, old(self)@.turn),
        ensures
            final(self).wf(),
            concludes(old(self)@, final(self)@, r@),
    {
        let ghost pre = self@;
        let mut res = self.remove_winners();
        let ghost won = res@;
        let ghost rem = self@.players;
        proof {
            lemma_survivors(pre.players, pre.turn);
        }
        if self.players.len() == 1 {
            res.push(Event::EndGame { p_id: self.players[0].id });
            self.reset();
            proof {
                assert(res@.take(won.len() as int) =~= won);
                assert(res@.skip(won.len() as int) =~= seq![Event::EndGame { p_id: rem[0].id }]);
            }
            return res;
        }
        let pos = match self.find_by_player_id(self.turn) {
            Some(p) => p,
            None => {
                proof {
                    assert(false);
                }
                0
            },
        };
        if self.players[pos].hand.len() == 0 {
            let next = (pos + 1) % self.players.len();
            proof {
                let nk = next as int;
                lemma_next_pos(pos as int, rem.len() as int);
                assert(nk != pos as int);
                assert(!has_won(rem[nk], pre.turn));
                assert(rem[nk].id != pre.turn);
                assert(self.players@[nk].hand@.to_multiset().len() > 0);
            }
            let from_id = self.players[next].id;
            let c = self.give_random_card(pos, next);
            res.push(Event::SpecialEvent { p_id: self.turn, card: c, from: from_id });
        }
        res.push(Event::NextTurn { player_id: self.turn });
        proof {
            assert(res@.take(won.len() as int) =~= won);
            if rem[pos as int].hand.len() == 0 {
                let c = res@[won.len() as int]->SpecialEvent_card;
                assert(res@.skip(won.len() as int) =~= seq![
                    Event::SpecialEvent { p_id: pre.turn, card: c, from: rem[(pos as int + 1) % (rem.len() as int)].id },
                    Event::NextTurn { player_id: pre.turn },
                ]);
            } else {
                assert(rem[pos as int].hand.len() != 0);
                assert(res@.skip(won.len() as int) =~= seq![Event::NextTurn { player_id: pre.turn }]);
            }
        }
        res
    }

    /// Plays `card` for `player_id`: the trick algorithm, with its checks in
    /// order (opening card, seat, turn, card in hand, suit to follow).
    fn play_card(&mut self, player_id: PlayerId, card: Card) -> (r: Vec<Event>)
        requires
            old(self).wf(),
        ensures
            final(self).wf(),
            old(self)@.card_played(player_id, card, final(self)@, r@),
    {
        let ghost pre = self@;
        if !self.first_move {
            if card.rank != Rank::Ace || card.suit != Suit::Spade {
                return one_event(Event::InvalidCard { p_id: player_id });
            }
            self.first_move = true;
        }
        let ghost mid = self@;
        proof {
            assert(mid == GameView { first_move: true, ..pre });
        }
        let pos = match self.find_by_player_id(player_id) {
            Some(i) => i,
            None => {
                return vec![Event::Error { message: "Player not found".to_string() }];
            },
        };
        if self.turn != player_id {
            return one_event(Event::InvalidPlayer);
        }
        if !has_card(&self.players[pos].hand, card) {
            return one_event(Event::AbortGame);
        }
        let ghost i = pos as int;
        let ghost me = mid.players[i];
        let ghost played = mid.players.update(i, PlayerView { hand: me.hand.remove(card), ..me });
        let n = self.players.len();
        let next_turn = self.players[(pos + 1) % n].id;
        proof {
            assert(me.hand.count(card) > 0);
            assert(next_turn == pre.next_after(i));
            assert(mid.phase == GamePhase::Playing);
        }
        let shown = Event::CardPlayed { card, p_id: player_id };
        if self.turn_stack.len() == 0 {
            self.players[pos].remove_card(&card);
            self.turn_stack.push((card, player_id));
            self.turn = next_turn;
            proof {
                assert(self@.players =~= played);
                lemma_card_to_trick(mid, i, card, player_id);
                assert(self@ == GameView { players: played, stack: seq![(card, player_id)], turn: next_turn, ..mid });
                assert(played[i].id == player_id);
                assert forall|k: int| 0 <= k < self@.stack.len() implies seated(self@.players, (#[trigger] self@.stack[k]).1) by {}
            }
            return vec![shown, Event::NextTurn { player_id: next_turn }];
        }
        let lead = self.turn_stack[self.turn_stack.len() - 1].0.suit;
        if card.suit == lead {
            self.players[pos].remove_card(&card);
            self.turn_stack.push((card, player_id));
            let ghost s1 = self@;
            proof {
                assert(self@.players =~= played);
                lemma_card_to_trick(mid, i, card, player_id);
                assert(s1 == GameView { players: played, stack: pre.stack.push((card, player_id)), ..mid });
                assert(played[i].id == player_id);
                assert forall|k: int| 0 <= k < s1.stack.len() implies seated(played, (#[trigger] s1.stack[k]).1) by {
                    if k < pre.stack.len() {
                        let j = seat_index(pre.players, pre.stack[k].1);
                        assert(played[j].id == pre.stack[k].1);
                    }
                }
            }
            let mut res: Vec<Event> = Vec::new();
            res.push(shown);
            if next_turn == self.first {
                let w = self.check_turn();
                self.turn = w;
                self.first = w;
                res.push(Event::DiscardPile);
                proof {
                    lemma_best_index(s1.stack);
                    lemma_trick_to_discard(s1);
                }
                self.discarded = Ghost(self.discarded@.add(stack_cards(self.turn_stack@).to_multiset()));
                self.turn_stack.clear();
                let ghost t = self@;
                proof {
                    assert(t.stack =~= Seq::<(Card, PlayerId)>::empty());
                    assert(t == GameView {
                        players: played,
                        stack: Seq::empty(),
                        turn: w,
                        leader: w,
                        discarded: pre.discarded.add(stack_cards(s1.stack).to_multiset()),
                        ..mid
                    });
                    assert(t.all_cards() =~= (GameView {
                        stack: Seq::empty(),
                        discarded: s1.discarded.add(stack_cards(s1.stack).to_multiset()),
                        ..s1
                    }).all_cards());
                    assert(seated(t.players, w));
                }
                let mut tail = self.conclude_trick();
                let ghost tv = tail@;
                res.append(&mut tail);
                proof {
                    assert(res@.take(2) =~= seq![shown, Event::DiscardPile]);
                    assert(res@.skip(2) =~= tv);
                }
            } else {
                self.turn = next_turn;
                res.push(Event::NextTurn { player_id: next_turn });
                proof {
                    assert(res@ =~= seq![shown, Event::NextTurn { player_id: next_turn }]);
                }
            }
            return res;
        }
        if has_suit(&self.players[pos].hand, lead) {
            proof {
                let k = choose|k: int| 0 <= k < self.players@[i].hand@.len() && (#[trigger] self.players@[i].hand@[k]).suit == lead;
                let c = self.players@[i].hand@[k];
                assert(self.players@[i].hand@.contains(c));
                assert(me.hand.count(c) > 0);
                assert(pre.holds_suit(i, pre.lead_suit()));
            }
            return one_event(Event::InvalidCard { p_id: player_id });
        }
        proof {
            assert(!pre.holds_suit(i, pre.lead_suit())) by {
                if pre.holds_suit(i, pre.lead_suit()) {
                    let c = choose|c: Card| #[trigger] pre.players[i].hand.count(c) > 0 && c.suit == pre.lead_suit();
                    assert(self.players@[i].hand@.contains(c));
                    let k = choose|k: int| 0 <= k < self.players@[i].hand@.len() && self.players@[i].hand@[k] == c;
                    assert(self.players@[i].hand@[k].suit == lead);
                }
            }
        }
        self.players[pos].remove_card(&card);
        proof {
            assert(self@.players =~= played);
            assert forall|a: int| 0 <= a < played.len() implies (#[trigger] played[a]).id == pre.players[a].id by {}
            assert(seats_ok(played));
        }
        let w = self.check_turn();
        let ghost stack0 = self@.stack;
        let mut foul: Vec<Card> = Vec::new();
        let mut k: usize = 0;
        while k < self.turn_stack.len()
            invariant
                stack0 == self.turn_stack@,
                k <= stack0.len(),
                foul@ == stack_cards(stack0).take(k as int),
            decreases stack0.len() - k,
        {
            foul.push(self.turn_stack[k].0);
            k = k + 1;
            assert(foul@ =~= stack_cards(stack0).take(k as int));
        }
        self.turn_stack.clear();
        foul.push(card);
        proof {
            assert(foul@ =~= stack_cards(pre.stack).push(card));
            lemma_best_index(pre.stack);
            let o = pre.stack[best_index(pre.stack)].1;
            let jj = seat_index(pre.players, o);
            assert(played[jj].id == o);
            lemma_seat_index(played, jj);
        }
        let shown_foul = copy_cards(&foul);
        let mut res: Vec<Event> = vec![shown, Event::FoulGiven { from: player_id, to: w, cards: shown_foul }];
        self.add_cards_to_player(&w, &mut foul);
        self.turn = w;
        self.first = w;
        let ghost t = self@;
        proof {
            let j = seat_index(played, w);
            let foul_cards = stack_cards(pre.stack).push(card);
            let given = played.update(j, PlayerView { hand: played[j].hand.add(foul_cards.to_multiset()), ..played[j] });
            assert(t.stack =~= Seq::<(Card, PlayerId)>::empty());
            assert(t == GameView { players: given, stack: Seq::empty(), turn: w, leader: w, ..mid });
            lemma_foul_transfer(mid, i, card, j);
            assert(t.all_cards() =~= mid.all_cards());
            assert(given[j].id == w);
            assert(seated(t.players, w));
        }
        let mut tail = self.conclude_trick();
        let ghost tv = tail@;
        res.append(&mut tail);
        proof {
            assert(res@.skip(2) =~= tv);
        }
        res
    }

    /// Applies a client's action and returns the events it causes, in order.
    pub fn apply_action(&mut self, action: Action) -> (r: Vec<Event>)
        requires
            old(self).wf(),
        ensures
            final(self).wf(),
            match action {
                Action::Ready { player_id } => old(self)@.ready_marked(player_id, final(self)@, r@),
                Action::EndGame => r@.len() == 0 && final(self)@ == old(self)@.reset_view(),
                Action::CardPlayedByPlayer { player_id, card } => old(self)@.card_played(
                    player_id,
                    card,
                    final(self)@,
                    r@,
                ),
            },
    {
        match action {
            Action::Ready { player_id } => {
                let mut v: Vec<Event> = Vec::new();
                if self.phase != GamePhase::Waiting {
                    return v;
                }
                if !self.mark_ready(player_id) {
                    return v;
                }
                v.push(Event::MarkReady { p_id: player_id });
                if self.all_ready() {
                    self.phase = GamePhase::Playing;
                    v.push(Event::StartGame);
                    proof {
                        assert(v@ =~= seq![Event::MarkReady { p_id: player_id }, Event::StartGame]);
                    }
                } else {
                    proof {
                        assert(v@ =~= seq![Event::MarkReady { p_id: player_id }]);
                    }
                }
                v
            },
            Action::EndGame => {
                self.reset();
                Vec::new()
            },
            Action::CardPlayedByPlayer { player_id, card } => self.play_card(player_id, card),
        }
    }
}

} // verus!
