use crate::card::Card;
use vstd::multiset::Multiset;
use vstd::prelude::*;

verus! {

/// A seat number, one of 0, 1, 2, 3.
#[derive(Debug, Copy, Clone, PartialEq, Eq, Structural, Hash)]
pub struct PlayerId(pub u32);

/// A seated player: seat, cards in hand (order carries no meaning) and ready flag.
pub struct Players {
    pub id: PlayerId,
    pub hand: Vec<Card>,
    pub ready: bool,
}

/// A player as the game's model sees it: the hand is a multiset of cards.
pub struct PlayerView {
    pub id: PlayerId,
    pub hand: Multiset<Card>,
    pub ready: bool,
}

impl View for Players {
    type V = PlayerView;

    open spec fn view(&self) -> PlayerView {
        PlayerView { id: self.id, hand: self.hand@.to_multiset(), ready: self.ready }
    }
}

impl Players {
    /// A player at seat `id` with an empty hand, not yet ready.
    pub fn new(id: PlayerId) -> (r: Self)
        ensures
            r.id == id,
            r.hand@ == Seq::<Card>::empty(),
            !r.ready,
    {
        Self { id, hand: Vec::new(), ready: false }
    }

    /// Takes one copy of `card` out of the hand, if the hand holds it.
    pub fn remove_card(&mut self, card: &Card) -> (r: Option<Card>)
        ensures
            final(self).id == old(self).id,
            final(self).ready == old(self).ready,
            r is Some <==> old(self).hand@.contains(*card),
            r is Some ==> r->Some_0 == *card && final(self).hand@.len() + 1
                == old(self).hand@.len() && final(self).hand@.to_multiset()
                == old(self).hand@.to_multiset().remove(*card),
            r is None ==> final(self).hand@ == old(self).hand@,
    {
        let mut i: usize = 0;
        while i < self.hand.len()
            invariant
                self == old(self),
                i <= self.hand@.len(),
                forall|k: int| 0 <= k < i ==> self.hand@[k] != *card,
            decreases self.hand@.len() - i,
        {
            if self.hand[i] == *card {
                proof {
                    vstd::seq_lib::to_multiset_remove(self.hand@, i as int);
                }
                let c = self.hand.remove(i);
                return Some(c);
            }
            i = i + 1;
        }
        None
    }
}

} // verus!
