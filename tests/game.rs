use spades_engine::actions::Action;
use spades_engine::card::{shuffle, shuffle_with, standard_deck, Card, Rank, Suit};
use spades_engine::event::{Event, PrivateMsg};
use spades_engine::logic::{Game, GamePhase};
use spades_engine::players::{PlayerId, Players};
use spades_engine::session::{deal_if_started, leave, Forwarder};

fn ace_of_spades() -> Card {
    Card { rank: Rank::Ace, suit: Suit::Spade }
}

fn seated_game(n: u32) -> Game {
    let mut g = Game::new();
    for k in 0..n {
        assert_eq!(g.add_player(), Some(Event::PlayerAdded { p_id: PlayerId(k) }));
    }
    g
}

fn started_game(n: u32) -> Game {
    let mut g = seated_game(n);
    for k in 0..n {
        g.apply_action(Action::Ready { player_id: PlayerId(k) });
    }
    assert_eq!(g.get_phase(), GamePhase::Playing);
    let ev = deal_if_started(&mut g);
    assert_eq!(ev, Some(Event::NextTurn { player_id: g.get_turn() }));
    g
}

fn hand_of(g: &Game, k: u32) -> Vec<Card> {
    g.get_hand(PlayerId(k)).expect("seat is held")
}

fn total_in_hands(g: &Game, n: u32) -> usize {
    (0..n).filter_map(|k| g.get_hand(PlayerId(k))).map(|h| h.len()).sum()
}

#[test]
fn standard_deck_has_52_distinct_cards() {
    let d = standard_deck();
    assert_eq!(d.len(), 52);
    assert_eq!(d[0], Card { rank: Rank::Two, suit: Suit::Heart });
    assert_eq!(d[12], Card { rank: Rank::Ace, suit: Suit::Heart });
    assert_eq!(d[13], Card { rank: Rank::Two, suit: Suit::Diamond });
    assert_eq!(d[51], ace_of_spades());
    for i in 0..52 {
        for j in (i + 1)..52 {
            assert_ne!(d[i], d[j]);
        }
    }
}

#[test]
fn rank_values_run_from_two_to_ace() {
    assert_eq!(Rank::Two.value(), 2);
    assert_eq!(Rank::Ten.value(), 10);
    assert_eq!(Rank::King.value(), 13);
    assert_eq!(Rank::Ace.value(), 14);
}

#[test]
fn shuffle_keeps_every_card() {
    let mut d = standard_deck();
    shuffle(&mut d);
    assert_eq!(d.len(), 52);
    for c in standard_deck() {
        assert_eq!(d.iter().filter(|x| **x == c).count(), 1);
    }
    let mut small = vec![ace_of_spades()];
    shuffle(&mut small);
    assert_eq!(small, vec![ace_of_spades()]);
}

#[test]
fn shuffle_with_swaps_from_the_back() {
    let a = Card { rank: Rank::Two, suit: Suit::Heart };
    let b = Card { rank: Rank::Three, suit: Suit::Heart };
    let c = Card { rank: Rank::Four, suit: Suit::Heart };
    let mut cards = vec![a, b, c];
    shuffle_with(&mut cards, &vec![0, 0, 1]);
    assert_eq!(cards, vec![c, a, b]);
    let mut same = vec![a, b, c];
    shuffle_with(&mut same, &vec![0, 1, 2]);
    assert_eq!(same, vec![a, b, c]);
    let mut empty: Vec<Card> = vec![];
    shuffle_with(&mut empty, &vec![]);
    assert!(empty.is_empty());
}

#[test]
fn start_game_keeps_the_phase_and_deals_from_the_top() {
    let mut g = seated_game(4);
    for k in 0..4 {
        g.apply_action(Action::Ready { player_id: PlayerId(k) });
    }
    g.start_game();
    assert_eq!(g.get_phase(), GamePhase::Playing);
    assert!(g.cards_dealt());
    for k in 0..4 {
        assert_eq!(hand_of(&g, k).len(), 13);
    }
}

#[test]
fn leaving_between_rounds_frees_the_seat() {
    let mut g = seated_game(2);
    assert_eq!(leave(&mut g, PlayerId(0)), vec![Event::PlayerLeft { p_id: PlayerId(0) }]);
    assert_eq!(g.get_hand(PlayerId(0)), None);
    assert_eq!(g.add_player(), Some(Event::PlayerAdded { p_id: PlayerId(0) }));
}

#[test]
fn remove_card_takes_one_copy() {
    let mut p = Players::new(PlayerId(2));
    assert_eq!(p.remove_card(&ace_of_spades()), None);
    p.hand.push(ace_of_spades());
    p.hand.push(Card { rank: Rank::Two, suit: Suit::Club });
    assert_eq!(p.remove_card(&ace_of_spades()), Some(ace_of_spades()));
    assert_eq!(p.hand, vec![Card { rank: Rank::Two, suit: Suit::Club }]);
    assert!(!p.ready);
}

#[test]
fn seats_are_given_lowest_first_and_capped_at_four() {
    let mut g = seated_game(4);
    assert_eq!(g.add_player(), None);
    assert_eq!(g.remove_player(PlayerId(1)), Some(Event::PlayerLeft { p_id: PlayerId(1) }));
    assert_eq!(g.remove_player(PlayerId(1)), None);
    assert_eq!(g.remove_player(PlayerId(7)), None);
    assert_eq!(g.add_player(), Some(Event::PlayerAdded { p_id: PlayerId(1) }));
    assert_eq!(g.get_hand(PlayerId(1)), Some(vec![]));
}

#[test]
fn mark_ready_needs_a_seated_player() {
    let mut g = seated_game(2);
    assert!(g.mark_ready(PlayerId(0)));
    assert!(!g.mark_ready(PlayerId(3)));
}

#[test]
fn ready_of_lone_player_does_not_start() {
    let mut g = seated_game(1);
    let ev = g.apply_action(Action::Ready { player_id: PlayerId(0) });
    assert_eq!(ev, vec![Event::MarkReady { p_id: PlayerId(0) }]);
    assert_eq!(g.get_phase(), GamePhase::Waiting);
    assert_eq!(g.apply_action(Action::Ready { player_id: PlayerId(3) }), vec![]);
}

#[test]
fn four_ready_players_start_and_each_gets_one_hand() {
    let mut g = seated_game(4);
    let mut forwarders: Vec<Forwarder> = (0..4).map(|_| Forwarder::new()).collect();
    let mut all = Vec::new();
    for k in 0..4 {
        all.extend(g.apply_action(Action::Ready { player_id: PlayerId(k) }));
    }
    assert_eq!(
        all,
        vec![
            Event::MarkReady { p_id: PlayerId(0) },
            Event::MarkReady { p_id: PlayerId(1) },
            Event::MarkReady { p_id: PlayerId(2) },
            Event::MarkReady { p_id: PlayerId(3) },
            Event::StartGame,
        ]
    );
    assert!(!g.cards_dealt());
    let opening = deal_if_started(&mut g).expect("round starts");
    assert!(g.cards_dealt());
    all.push(opening);
    for (k, f) in forwarders.iter_mut().enumerate() {
        let mut hands = 0;
        for ev in &all {
            if f.observe(ev) {
                let hand = g.get_hand(PlayerId(k as u32));
                if let Some(PrivateMsg::Hand { cards }) = f.hand_message(hand) {
                    assert_eq!(cards.len(), 13);
                    hands += 1;
                }
            }
        }
        assert!(!f.observe(&Event::StartGame));
        assert_eq!(hands, 1);
    }
    assert_eq!(deal_if_started(&mut g), None);
}

#[test]
fn deal_splits_the_deck_evenly() {
    let g = started_game(3);
    let mut sizes: Vec<usize> = (0..3).map(|k| hand_of(&g, k).len()).collect();
    sizes.sort();
    assert_eq!(sizes, vec![17, 17, 18]);
    assert_eq!(total_in_hands(&g, 3), 52);
    let turn = g.get_turn();
    assert!(hand_of(&g, turn.0).contains(&ace_of_spades()));
}

#[test]
fn opening_play_without_the_ace_is_refused() {
    let mut g = started_game(4);
    let holder = g.get_turn();
    let other = PlayerId((holder.0 + 1) % 4);
    let card = hand_of(&g, other.0)[0];
    let before = hand_of(&g, other.0);
    let ev = g.apply_action(Action::CardPlayedByPlayer { player_id: other, card });
    assert_eq!(ev, vec![Event::InvalidCard { p_id: other }]);
    assert!(!ev.iter().any(|e| matches!(e, Event::NextTurn { .. })));
    assert_eq!(g.get_turn(), holder);
    assert_eq!(hand_of(&g, other.0), before);
    let wrong = hand_of(&g, holder.0).into_iter().find(|c| *c != ace_of_spades()).unwrap();
    let ev = g.apply_action(Action::CardPlayedByPlayer { player_id: holder, card: wrong });
    assert_eq!(ev, vec![Event::InvalidCard { p_id: holder }]);
}

#[test]
fn opening_ace_passes_the_turn() {
    let mut g = started_game(4);
    let holder = g.get_turn();
    let ev = g.apply_action(Action::CardPlayedByPlayer { player_id: holder, card: ace_of_spades() });
    let next = PlayerId((holder.0 + 1) % 4);
    assert_eq!(
        ev,
        vec![Event::CardPlayed { card: ace_of_spades(), p_id: holder }, Event::NextTurn { player_id: next }]
    );
    assert_eq!(g.get_turn(), next);
    assert_eq!(hand_of(&g, holder.0).len(), 12);
}

#[test]
fn out_of_turn_and_unknown_players_are_refused() {
    let mut g = started_game(2);
    let holder = g.get_turn();
    g.apply_action(Action::CardPlayedByPlayer { player_id: holder, card: ace_of_spades() });
    let card = hand_of(&g, holder.0)[0];
    assert_eq!(g.apply_action(Action::CardPlayedByPlayer { player_id: holder, card }), vec![Event::InvalidPlayer]);
    let ev = g.apply_action(Action::CardPlayedByPlayer { player_id: PlayerId(3), card });
    assert!(matches!(ev.as_slice(), [Event::Error { .. }]));
    let next = g.get_turn();
    let ev = g.apply_action(Action::CardPlayedByPlayer { player_id: next, card });
    assert_eq!(ev, vec![Event::AbortGame]);
}

#[test]
fn must_follow_suit_when_able() {
    let mut g = started_game(2);
    let holder = g.get_turn();
    g.apply_action(Action::CardPlayedByPlayer { player_id: holder, card: ace_of_spades() });
    let next = g.get_turn();
    let hand = hand_of(&g, next.0);
    if hand.iter().any(|c| c.suit == Suit::Spade) {
        if let Some(off) = hand.iter().find(|c| c.suit != Suit::Spade) {
            let ev = g.apply_action(Action::CardPlayedByPlayer { player_id: next, card: *off });
            assert_eq!(ev, vec![Event::InvalidCard { p_id: next }]);
            assert_eq!(hand_of(&g, next.0), hand);
            assert_eq!(g.get_turn(), next);
        }
    }
}

#[test]
fn end_game_action_resets_the_board() {
    let mut g = started_game(2);
    assert_eq!(g.apply_action(Action::EndGame), vec![]);
    assert_eq!(g.get_phase(), GamePhase::Waiting);
    assert!(!g.cards_dealt());
    assert_eq!(hand_of(&g, 0), vec![]);
    assert_eq!(hand_of(&g, 1), vec![]);
}

#[test]
fn leaving_mid_round_aborts_and_frees_the_seat() {
    let mut g = started_game(3);
    assert_eq!(g.remove_player(PlayerId(1)), Some(Event::AbortGame));
    assert_eq!(g.get_phase(), GamePhase::Playing);
    let ev = leave(&mut g, PlayerId(1));
    assert_eq!(ev, vec![Event::AbortGame]);
    assert_eq!(g.get_phase(), GamePhase::Waiting);
    assert_eq!(g.get_hand(PlayerId(1)), None);
    assert_eq!(hand_of(&g, 0), vec![]);
    assert_eq!(leave(&mut g, PlayerId(1)), vec![]);
    assert_eq!(leave(&mut g, PlayerId(2)), vec![Event::PlayerLeft { p_id: PlayerId(2) }]);
}

#[test]
fn give_random_card_moves_one_card() {
    let mut g = started_game(2);
    let a = hand_of(&g, 0);
    let b = hand_of(&g, 1);
    let c = g.give_random_card(0, 1);
    assert!(b.contains(&c));
    assert_eq!(hand_of(&g, 0).len(), a.len() + 1);
    assert_eq!(hand_of(&g, 1).len(), b.len() - 1);
    assert!(hand_of(&g, 0).contains(&c));
}

#[test]
fn forwarder_sends_a_hand_again_next_round() {
    let mut f = Forwarder::new();
    assert!(f.observe(&Event::StartGame));
    assert_eq!(f.hand_message(None), None);
    assert!(f.observe(&Event::StartGame));
    assert!(f.hand_message(Some(vec![ace_of_spades()])).is_some());
    assert!(!f.observe(&Event::StartGame));
    assert!(!f.observe(&Event::EndGame { p_id: PlayerId(0) }));
    assert!(f.observe(&Event::StartGame));
}

/// Plays whole rounds with a simple strategy (follow suit when able, otherwise
/// foul), checking fouls, trick resolution and the end of each round.
fn play_round(n: u32) -> (usize, usize, bool) {
    let mut g = started_game(n);
    let mut trick: Vec<(Card, PlayerId)> = Vec::new();
    let mut fouls = 0;
    let mut tricks = 0;
    for _ in 0..2000 {
        let p = g.get_turn();
        let hand = match g.get_hand(p) {
            Some(h) => h,
            None => return (fouls, tricks, false),
        };
        if hand.is_empty() {
            return (fouls, tricks, false);
        }
        let card = if trick.is_empty() {
            if hand.contains(&ace_of_spades()) { ace_of_spades() } else { hand[0] }
        } else {
            let lead = trick.last().unwrap().0.suit;
            *hand.iter().find(|c| c.suit == lead).unwrap_or(&hand[0])
        };
        let lead = trick.last().map(|t| t.0.suit);
        let ev = g.apply_action(Action::CardPlayedByPlayer { player_id: p, card });
        assert_eq!(ev[0], Event::CardPlayed { card, p_id: p });
        match ev.get(1) {
            Some(Event::FoulGiven { from, to, cards }) => {
                assert_ne!(Some(card.suit), lead);
                assert!(!hand.iter().any(|c| Some(c.suit) == lead));
                let mut expected: Vec<Card> = trick.iter().map(|t| t.0).collect();
                expected.push(card);
                assert_eq!(cards, &expected);
                assert_eq!(*from, p);
                let best = trick.iter().map(|t| t.0.rank.value()).max().unwrap();
                assert!(trick.iter().any(|t| t.1 == *to && t.0.rank.value() == best));
                if let Some(Event::EndGame { .. }) = ev.last() {
                    assert_eq!(g.get_phase(), GamePhase::Waiting);
                    return (fouls + 1, tricks, true);
                }
                assert_eq!(ev.last(), Some(&Event::NextTurn { player_id: *to }));
                assert_eq!(g.get_turn(), *to);
                for c in &expected {
                    assert!(hand_of(&g, to.0).contains(c));
                }
                fouls += 1;
                trick.clear();
            }
            Some(Event::DiscardPile) => {
                trick.push((card, p));
                let best = trick.iter().map(|t| t.0.rank.value()).max().unwrap();
                let winner = trick.iter().find(|t| t.0.rank.value() == best).unwrap().1;
                assert!(trick.iter().all(|t| t.0.suit == trick[0].0.suit));
                tricks += 1;
                trick.clear();
                if let Some(Event::EndGame { p_id }) = ev.last() {
                    assert_eq!(g.get_phase(), GamePhase::Waiting);
                    assert_eq!(g.get_hand(*p_id), Some(vec![]));
                    return (fouls, tricks, true);
                }
                assert_eq!(g.get_turn(), winner);
                assert_eq!(ev.last(), Some(&Event::NextTurn { player_id: winner }));
            }
            Some(Event::NextTurn { player_id }) => {
                trick.push((card, p));
                assert_eq!(*player_id, g.get_turn());
            }
            other => panic!("unexpected event {:?}", other),
        }
    }
    (fouls, tricks, false)
}

#[test]
fn fouls_hand_the_trick_to_its_highest_card() {
    let mut fouls = 0;
    let mut tricks = 0;
    for _ in 0..20 {
        let (f, t, _) = play_round(4);
        fouls += f;
        tricks += t;
        let (f, t, _) = play_round(2);
        fouls += f;
        tricks += t;
    }
    assert!(fouls > 0);
    assert!(tricks > 0);
}
