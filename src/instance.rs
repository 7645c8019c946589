//! The nine cards of the puzzle as printed.
use vstd::prelude::*;
use crate::arrangements::card_ids;
use crate::model::{Card, PartialCreature};
use crate::model::BodyPart::{Head, Tail};
use crate::model::Creature::{Octopus, OrangeFish, RedFish, Seahorse};

verus! {

/// The puzzle's cards, with identifiers 10, 20, ..., 90 in that order, each
/// with its edge markers in base order (top, right, bottom, left).
pub fn reference_cards() -> (r: Vec<Card>)
    ensures
        r@.len() == 9,
        forall|k: int| 0 <= k < 9 ==> #[trigger] r@[k].id == 10 * (k + 1),
        card_ids(r@).no_duplicates(),
        r@[0].creatures@ == seq![PartialCreature(Octopus, Head), PartialCreature(RedFish, Head), PartialCreature(Seahorse, Head), PartialCreature(OrangeFish, Tail)],
        r@[1].creatures@ == seq![PartialCreature(RedFish, Tail), PartialCreature(RedFish, Head), PartialCreature(Octopus, Head), PartialCreature(OrangeFish, Tail)],
        r@[2].creatures@ == seq![PartialCreature(RedFish, Tail), PartialCreature(Seahorse, Head), PartialCreature(OrangeFish, Head), PartialCreature(OrangeFish, Tail)],
        r@[3].creatures@ == seq![PartialCreature(RedFish, Head), PartialCreature(Octopus, Head), PartialCreature(Octopus, Tail), PartialCreature(Seahorse, Tail)],
        r@[4].creatures@ == seq![PartialCreature(OrangeFish, Head), PartialCreature(Octopus, Head), PartialCreature(OrangeFish, Head), PartialCreature(RedFish, Head)],
        r@[5].creatures@ == seq![PartialCreature(Octopus, Tail), PartialCreature(OrangeFish, Tail), PartialCreature(RedFish, Tail), PartialCreature(OrangeFish, Head)],
        r@[6].creatures@ == seq![PartialCreature(Seahorse, Head), PartialCreature(RedFish, Head), PartialCreature(Octopus, Head), PartialCreature(Seahorse, Head)],
        r@[7].creatures@ == seq![PartialCreature(Seahorse, Tail), PartialCreature(Octopus, Tail), PartialCreature(Seahorse, Head), PartialCreature(RedFish, Tail)],
        r@[8].creatures@ == seq![PartialCreature(Octopus, Tail), PartialCreature(OrangeFish, Tail), PartialCreature(Seahorse, Tail), PartialCreature(Seahorse, Tail)],
{
    let r: Vec<Card> = vec![
        Card {
            id: 10,
            creatures: [
                PartialCreature(Octopus, Head),
                PartialCreature(RedFish, Head),
                PartialCreature(Seahorse, Head),
                PartialCreature(OrangeFish, Tail),
            ],
        },
        Card {
            id: 20,
            creatures: [
                PartialCreature(RedFish, Tail),
                PartialCreature(RedFish, Head),
                PartialCreature(Octopus, Head),
                PartialCreature(OrangeFish, Tail),
            ],
        },
        Card {
            id: 30,
            creatures: [
                PartialCreature(RedFish, Tail),
                PartialCreature(Seahorse, Head),
                PartialCreature(OrangeFish, Head),
                PartialCreature(OrangeFish, Tail),
            ],
        },
        Card {
            id: 40,
            creatures: [
                PartialCreature(RedFish, Head),
                PartialCreature(Octopus, Head),
                PartialCreature(Octopus, Tail),
                PartialCreature(Seahorse, Tail),
            ],
        },
        Card {
            id: 50,
            creatures: [
                PartialCreature(OrangeFish, Head),
                PartialCreature(Octopus, Head),
                PartialCreature(OrangeFish, Head),
                PartialCreature(RedFish, Head),
            ],
        },
        Card {
            id: 60,
            creatures: [
                PartialCreature(Octopus, Tail),
                PartialCreature(OrangeFish, Tail),
                PartialCreature(RedFish, Tail),
                PartialCreature(OrangeFish, Head),
            ],
        },
        Card {
            id: 70,
            creatures: [
                PartialCreature(Seahorse, Head),
                PartialCreature(RedFish, Head),
                PartialCreature(Octopus, Head),
                PartialCreature(Seahorse, Head),
            ],
        },
        Card {
            id: 80,
            creatures: [
                PartialCreature(Seahorse, Tail),
                PartialCreature(Octopus, Tail),
                PartialCreature(Seahorse, Head),
                PartialCreature(RedFish, Tail),
            ],
        },
        Card {
            id: 90,
            creatures: [
                PartialCreature(Octopus, Tail),
                PartialCreature(OrangeFish, Tail),
                PartialCreature(Seahorse, Tail),
                PartialCreature(Seahorse, Tail),
            ],
        },
    ];
    assert(forall|k: int| 0 <= k < 9 ==> #[trigger] card_ids(r@)[k] == r@[k].id);
    r
}

} // verus!
