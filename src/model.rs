//! Cards, edge markers, rotation and the edge-compatibility rule.
use vstd::prelude::*;

verus! {

/// The creatures printed on card edges.
#[derive(Clone, Copy, Debug, Hash, PartialEq, Eq, Structural)]
pub enum Creature {
    Octopus,
    RedFish,
    Seahorse,
    OrangeFish,
}

/// Which end of a creature an edge shows.
#[derive(Clone, Copy, Debug, Hash, PartialEq, Eq, Structural)]
pub enum BodyPart {
    Head,
    Tail,
}

/// One edge marker: half of a creature.
#[derive(Clone, Copy, Debug, Hash, PartialEq, Eq, Structural)]
pub struct PartialCreature(pub Creature, pub BodyPart);

/// Two edge markers fit when they show the same creature and opposite ends.
pub open spec fn compatible(a: PartialCreature, b: PartialCreature) -> bool {
    a.0 == b.0 && a.1 != b.1
}

impl PartialCreature {
    pub fn compatible_with(&self, other: &PartialCreature) -> (r: bool)
        ensures
            r == compatible(*self, *other),
    {
        self.0 == other.0 && self.1 != other.1
    }
}

/// Compatibility does not depend on which of the two edges comes first.
pub proof fn lemma_compatible_symmetric(a: PartialCreature, b: PartialCreature)
    ensures
        compatible(a, b) == compatible(b, a),
{
}

/// A card: an identifier and its four edge markers in base order
/// (top, right, bottom, left of the unturned card).
#[derive(Clone, Copy, Debug, Hash, PartialEq, Eq)]
pub struct Card {
    pub id: usize,
    pub creatures: [PartialCreature; 4],
}

/// A card placed in the grid, turned clockwise by its second field in
/// quarter steps (0 to 3).
#[derive(Clone, Copy, Debug, Hash, PartialEq, Eq)]
pub struct PlacedCard(pub Card, pub usize);

/// Two placements are the same when they place the same card (identifier and
/// edges) in the same orientation.
pub open spec fn same_placement(a: PlacedCard, b: PlacedCard) -> bool {
    a.0.id == b.0.id && a.0.creatures@ == b.0.creatures@ && a.1 == b.1
}

/// Edge slot that faces east on a card turned by `o`.
pub open spec fn east_slot(o: int) -> int {
    (5 - o) % 4
}

/// Edge slot that faces west on a card turned by `o`.
pub open spec fn west_slot(o: int) -> int {
    3 - o
}

/// Edge slot that faces south on a card turned by `o`.
pub open spec fn south_slot(o: int) -> int {
    (6 - o) % 4
}

/// Edge slot that faces north on a card turned by `o`.
pub open spec fn north_slot(o: int) -> int {
    (4 - o) % 4
}

/// An unturned card faces the grid with its base order: top north, right
/// east, bottom south, left west.
pub proof fn lemma_unturned_faces()
    ensures
        north_slot(0) == 0,
        east_slot(0) == 1,
        south_slot(0) == 2,
        west_slot(0) == 3,
{
}

/// Every orientation shows each of the four slots on exactly one side.
pub proof fn lemma_faces_are_a_rotation(o: int)
    requires
        0 <= o < 4,
    ensures
        0 <= north_slot(o) < 4,
        east_slot(o) == (north_slot(o) + 1) % 4,
        south_slot(o) == (north_slot(o) + 2) % 4,
        west_slot(o) == (north_slot(o) + 3) % 4,
{
}

/// Edge slot that faces east on a card turned by `o`.
pub fn east_index(o: usize) -> (r: usize)
    requires
        o < 4,
    ensures
        r == east_slot(o as int),
{
    (5 - o) % 4
}

/// Edge slot that faces west on a card turned by `o`.
pub fn west_index(o: usize) -> (r: usize)
    requires
        o < 4,
    ensures
        r == west_slot(o as int),
{
    3 - o
}

/// Edge slot that faces south on a card turned by `o`.
pub fn south_index(o: usize) -> (r: usize)
    requires
        o < 4,
    ensures
        r == south_slot(o as int),
{
    (6 - o) % 4
}

/// Edge slot that faces north on a card turned by `o`.
pub fn north_index(o: usize) -> (r: usize)
    requires
        o < 4,
    ensures
        r == north_slot(o as int),
{
    (4 - o) % 4
}

/// The edge marker of `p` that faces east.
pub open spec fn east_edge(p: PlacedCard) -> PartialCreature {
    p.0.creatures@[east_slot(p.1 as int)]
}

/// The edge marker of `p` that faces west.
pub open spec fn west_edge(p: PlacedCard) -> PartialCreature {
    p.0.creatures@[west_slot(p.1 as int)]
}

/// The edge marker of `p` that faces south.
pub open spec fn south_edge(p: PlacedCard) -> PartialCreature {
    p.0.creatures@[south_slot(p.1 as int)]
}

/// The edge marker of `p` that faces north.
pub open spec fn north_edge(p: PlacedCard) -> PartialCreature {
    p.0.creatures@[north_slot(p.1 as int)]
}

/// `p` may stand directly west of `q`.
pub open spec fn fits_right(p: PlacedCard, q: PlacedCard) -> bool {
    compatible(east_edge(p), west_edge(q))
}

/// `p` may stand directly north of `q`.
pub open spec fn fits_below(p: PlacedCard, q: PlacedCard) -> bool {
    compatible(south_edge(p), north_edge(q))
}

impl PlacedCard {
    /// Whether `other` may be placed directly east of `self`.
    pub fn test_right(&self, other: &PlacedCard) -> (r: bool)
        requires
            self.1 < 4,
            other.1 < 4,
        ensures
            r == fits_right(*self, *other),
    {
        let east_creature: usize = east_index(self.1);
        let west_creature: usize = west_index(other.1);
        self.0.creatures[east_creature].compatible_with(&other.0.creatures[west_creature])
    }

    /// Whether `other` may be placed directly south of `self`.
    pub fn test_below(&self, other: &PlacedCard) -> (r: bool)
        requires
            self.1 < 4,
            other.1 < 4,
        ensures
            r == fits_below(*self, *other),
    {
        let top_creature: usize = north_index(other.1);
        let bottom_creature: usize = south_index(self.1);
        self.0.creatures[bottom_creature].compatible_with(&other.0.creatures[top_creature])
    }

    /// Whether `self` and `other` place the same card in the same orientation.
    pub fn same_as(&self, other: &PlacedCard) -> (r: bool)
        ensures
            r == same_placement(*self, *other),
    {
        if self.0.id != other.0.id || self.1 != other.1 {
            return false;
        }
        let mut k: usize = 0;
        while k < 4
            invariant
                k <= 4,
                forall|j: int| 0 <= j < k ==> self.0.creatures@[j] == other.0.creatures@[j],
            decreases 4 - k,
        {
            if self.0.creatures[k] != other.0.creatures[k] {
                return false;
            }
            k = k + 1;
        }
        assert(self.0.creatures@ =~= other.0.creatures@);
        true
    }
}

} // verus!
