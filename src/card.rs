use rand::Rng;
use vstd::prelude::*;

verus! {

/// The four suits of a French deck.
#[derive(Debug, Copy, Clone, PartialEq, Eq, Structural, Hash)]
pub enum Suit {
    Spade,
    Heart,
    Diamond,
    Club,
}

/// Card ranks, ordered from Two up to Ace (Ace is high).
#[derive(Debug, Copy, Clone, PartialEq, Eq, Structural, Hash, PartialOrd, Ord)]
pub enum Rank {
    Two,
    Three,
    Four,
    Five,
    Six,
    Seven,
    Eight,
    Nine,
    Ten,
    Jack,
    Queen,
    King,
    Ace,
}

impl Rank {
    /// Face value of the rank: 2 ..= 14, with Ace counting 14.
    pub open spec fn spec_value(self) -> u8 {
        match self {
            Rank::Two => 2,
            Rank::Three => 3,
            Rank::Four => 4,
            Rank::Five => 5,
            Rank::Six => 6,
            Rank::Seven => 7,
            Rank::Eight => 8,
            Rank::Nine => 9,
            Rank::Ten => 10,
            Rank::Jack => 11,
            Rank::Queen => 12,
            Rank::King => 13,
            Rank::Ace => 14,
        }
    }

    #[verifier::when_used_as_spec(spec_value)]
    pub fn value(self) -> (r: u8)
        ensures
            r == self.spec_value(),
            2 <= r <= 14,
    {
        match self {
            Rank::Two => 2,
            Rank::Three => 3,
            Rank::Four => 4,
            Rank::Five => 5,
            Rank::Six => 6,
            Rank::Seven => 7,
            Rank::Eight => 8,
            Rank::Nine => 9,
            Rank::Ten => 10,
            Rank::Jack => 11,
            Rank::Queen => 12,
            Rank::King => 13,
            Rank::Ace => 14,
        }
    }
}

/// A playing card; two cards are equal when rank and suit agree.
#[derive(Debug, Copy, Clone, PartialEq, Eq, Structural, Hash)]
pub struct Card {
    pub rank: Rank,
    pub suit: Suit,
}

/// The card that must open every round.
pub open spec fn ace_of_spades() -> Card {
    Card { rank: Rank::Ace, suit: Suit::Spade }
}

/// Suits in the order in which a fresh deck is laid out.
pub open spec fn spec_suit_at(i: int) -> Suit {
    if i == 0 {
        Suit::Heart
    } else if i == 1 {
        Suit::Diamond
    } else if i == 2 {
        Suit::Club
    } else {
        Suit::Spade
    }
}

/// Ranks in the order in which a fresh deck is laid out, Two first.
pub open spec fn spec_rank_at(i: int) -> Rank {
    if i == 0 {
        Rank::Two
    } else if i == 1 {
        Rank::Three
    } else if i == 2 {
        Rank::Four
    } else if i == 3 {
        Rank::Five
    } else if i == 4 {
        Rank::Six
    } else if i == 5 {
        Rank::Seven
    } else if i == 6 {
        Rank::Eight
    } else if i == 7 {
        Rank::Nine
    } else if i == 8 {
        Rank::Ten
    } else if i == 9 {
        Rank::Jack
    } else if i == 10 {
        Rank::Queen
    } else if i == 11 {
        Rank::King
    } else {
        Rank::Ace
    }
}

/// Position of a suit in the fresh-deck layout.
pub open spec fn suit_index(s: Suit) -> int {
    match s {
        Suit::Heart => 0,
        Suit::Diamond => 1,
        Suit::Club => 2,
        Suit::Spade => 3,
    }
}

/// The fresh deck: suit by suit (Heart, Diamond, Club, Spade), each from Two to Ace.
pub open spec fn standard_deck_spec() -> Seq<Card> {
    Seq::new(52, |i: int| Card { suit: spec_suit_at(i / 13), rank: spec_rank_at(i % 13) })
}

fn suit_at(i: usize) -> (r: Suit)
    ensures
        r == spec_suit_at(i as int),
{
    if i == 0 {
        Suit::Heart
    } else if i == 1 {
        Suit::Diamond
    } else if i == 2 {
        Suit::Club
    } else {
        Suit::Spade
    }
}

fn rank_at(i: usize) -> (r: Rank)
    ensures
        r == spec_rank_at(i as int),
{
    if i == 0 {
        Rank::Two
    } else if i == 1 {
        Rank::Three
    } else if i == 2 {
        Rank::Four
    } else if i == 3 {
        Rank::Five
    } else if i == 4 {
        Rank::Six
    } else if i == 5 {
        Rank::Seven
    } else if i == 6 {
        Rank::Eight
    } else if i == 7 {
        Rank::Nine
    } else if i == 8 {
        Rank::Ten
    } else if i == 9 {
        Rank::Jack
    } else if i == 10 {
        Rank::Queen
    } else if i == 11 {
        Rank::King
    } else {
        Rank::Ace
    }
}

/// Builds the 52 distinct cards in their fixed layout.
pub fn standard_deck() -> (deck: Vec<Card>)
    ensures
        deck@ == standard_deck_spec(),
{
    let mut deck: Vec<Card> = Vec::with_capacity(52);
    let mut i: usize = 0;
    while i < 52
        invariant
            i <= 52,
            deck@ == standard_deck_spec().take(i as int),
        decreases 52 - i,
    {
        deck.push(Card { suit: suit_at(i / 13), rank: rank_at(i % 13) });
        i = i + 1;
        assert(deck@ =~= standard_deck_spec().take(i as int));
    }
    assert(deck@ =~= standard_deck_spec());
    deck
}

/// Every card occurs in the fresh deck exactly once.
pub proof fn lemma_standard_deck_once(c: Card)
    ensures
        standard_deck_spec().to_multiset().count(c) == 1,
{
    let d = standard_deck_spec();
    let k = suit_index(c.suit) * 13 + c.rank.spec_value() - 2;
    assert(d[k] == c);
    assert(d.no_duplicates()) by {
        assert forall|i: int, j: int| 0 <= i < d.len() && 0 <= j < d.len() && i != j implies d[i]
            != d[j] by {
            if d[i] == d[j] {
                assert(spec_rank_at(i % 13).spec_value() == i % 13 + 2);
                assert(spec_rank_at(j % 13).spec_value() == j % 13 + 2);
                assert(suit_index(spec_suit_at(i / 13)) == i / 13);
                assert(suit_index(spec_suit_at(j / 13)) == j / 13);
            }
        }
    }
    d.lemma_multiset_has_no_duplicates();
    assert(d.contains(c));
    vstd::seq_lib::to_multiset_contains(d, c);
}

/// Relies on rand's `rng()` and `Rng::random_range`: a value drawn from `0..n`,
/// which panics only on an empty range.
#[verifier::external_body]
pub(crate) fn random_below(n: usize) -> (r: usize)
    requires
        n > 0,
    ensures
        r < n,
{
    rand::rng().random_range(0..n)
}

/// The sequence with the entries at `i` and `j` exchanged.
pub open spec fn swap_at(s: Seq<Card>, i: int, j: int) -> Seq<Card> {
    s.update(i, s[j]).update(j, s[i])
}

/// Fisher-Yates on the first `i` positions: swap(i - 1, draws[i - 1]), then on
/// down to swap(1, draws[1]).
pub open spec fn fisher_yates_upto(s: Seq<Card>, draws: Seq<usize>, i: int) -> Seq<Card>
    decreases i,
{
    if i <= 1 {
        s
    } else {
        fisher_yates_upto(swap_at(s, i - 1, draws[i - 1] as int), draws, i - 1)
    }
}

/// Fisher-Yates with the given draws: for `i` from `n - 1` down to 1, swap the
/// entries at `i` and `draws[i]`.
pub open spec fn fisher_yates(s: Seq<Card>, draws: Seq<usize>) -> Seq<Card> {
    fisher_yates_upto(s, draws, s.len() as int)
}

/// Whether `draws` can drive Fisher-Yates on `n` cards: one draw per position,
/// the draw for position `i` at most `i`.
pub open spec fn valid_draws(draws: Seq<usize>, n: int) -> bool {
    draws.len() == n && forall|i: int| 0 <= i < n ==> #[trigger] draws[i] <= i
}

/// Reorders the cards by Fisher-Yates with the given draws.
pub fn shuffle_with(cards: &mut Vec<Card>, draws: &Vec<usize>)
    requires
        valid_draws(draws@, old(cards)@.len() as int),
    ensures
        final(cards)@ == fisher_yates(old(cards)@, draws@),
        final(cards)@.len() == old(cards)@.len(),
        final(cards)@.to_multiset() == old(cards)@.to_multiset(),
{
    let n = cards.len();
    let mut i: usize = n;
    while i > 1
        invariant
            i <= n,
            n == old(cards)@.len(),
            cards@.len() == n,
            valid_draws(draws@, n as int),
            fisher_yates_upto(cards@, draws@, i as int) == fisher_yates(old(cards)@, draws@),
            cards@.to_multiset() == old(cards)@.to_multiset(),
        decreases i,
    {
        i = i - 1;
        let j = draws[i];
        let a = cards[i];
        let b = cards[j];
        proof {
            let s0 = cards@;
            assert(swap_at(s0, i as int, j as int) =~= s0.update(i as int, b).update(j as int, a));
            vstd::seq_lib::to_multiset_update(s0, i as int, b);
            vstd::seq_lib::to_multiset_update(s0.update(i as int, b), j as int, a);
            vstd::seq_lib::to_multiset_contains(s0, a);
            vstd::seq_lib::to_multiset_contains(s0, b);
            assert(s0.update(i as int, b).update(j as int, a).to_multiset() =~= s0.to_multiset());
        }
        cards.set(i, b);
        cards.set(j, a);
    }
}

/// Puts the cards in a uniformly random order: Fisher-Yates with random draws.
pub fn shuffle(cards: &mut Vec<Card>)
    ensures
        exists|draws: Seq<usize>| valid_draws(draws, old(cards)@.len() as int)
            && final(cards)@ == fisher_yates(old(cards)@, draws),
        final(cards)@.len() == old(cards)@.len(),
        final(cards)@.to_multiset() == old(cards)@.to_multiset(),
{
    let n = cards.len();
    let mut draws: Vec<usize> = Vec::new();
    let mut i: usize = 0;
    while i < n
        invariant
            i <= n,
            n == cards@.len(),
            draws@.len() == i,
            forall|k: int| 0 <= k < i ==> #[trigger] draws@[k] <= k,
        decreases n - i,
    {
        let j = random_below(i + 1);
        draws.push(j);
        i = i + 1;
    }
    shuffle_with(cards, &draws);
}

} // verus!
