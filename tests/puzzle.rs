use edge_puzzle::instance::reference_cards;
use edge_puzzle::model::BodyPart::{Head, Tail};
use edge_puzzle::model::Creature::{Octopus, OrangeFish, RedFish, Seahorse};
use edge_puzzle::model::{east_index, north_index, south_index, west_index};
use edge_puzzle::model::{Card, PartialCreature, PlacedCard};
use edge_puzzle::search::{attempt, solve};

#[test]
fn compatibility_correctness() {
    assert!(PartialCreature(Octopus, Head).compatible_with(&PartialCreature(Octopus, Tail)));
    assert!(!PartialCreature(Octopus, Head).compatible_with(&PartialCreature(Octopus, Head)));
    assert!(!PartialCreature(Octopus, Head).compatible_with(&PartialCreature(RedFish, Tail)));
}

#[test]
fn compatibility_symmetric_on_all_markers() {
    let creatures = [Octopus, RedFish, Seahorse, OrangeFish];
    let parts = [Head, Tail];
    let mut markers = Vec::new();
    for c in creatures {
        for p in parts {
            markers.push(PartialCreature(c, p));
        }
    }
    let mut fitting = 0;
    for a in &markers {
        for b in &markers {
            assert_eq!(a.compatible_with(b), b.compatible_with(a));
            if a.compatible_with(b) {
                fitting += 1;
            }
        }
    }
    assert_eq!(fitting, 8);
}

#[test]
fn unturned_card_faces_base_order() {
    assert_eq!(north_index(0), 0);
    assert_eq!(east_index(0), 1);
    assert_eq!(south_index(0), 2);
    assert_eq!(west_index(0), 3);
}

#[test]
fn quarter_turn_moves_each_face() {
    assert_eq!(north_index(1), 3);
    assert_eq!(east_index(1), 0);
    assert_eq!(south_index(1), 1);
    assert_eq!(west_index(1), 2);
    assert_eq!(east_index(3), 2);
    assert_eq!(south_index(3), 3);
}

#[test]
fn neighbours_match_by_facing_edges() {
    let cards = reference_cards();
    // card 10 east (RedFish Head) against card 20 west (OrangeFish Tail): no fit
    assert!(!PlacedCard(cards[0], 0).test_right(&PlacedCard(cards[1], 0)));
    // card 10 east (RedFish Head) against card 30 turned once, west (OrangeFish Head): no fit
    assert!(!PlacedCard(cards[0], 0).test_right(&PlacedCard(cards[2], 1)));
    // card 10 east (RedFish Head) against card 20 turned three times, west is slot 0 (RedFish Tail)
    assert!(PlacedCard(cards[0], 0).test_right(&PlacedCard(cards[1], 3)));
    // card 10 south (Seahorse Head) against card 80 north (Seahorse Tail)
    assert!(PlacedCard(cards[0], 0).test_below(&PlacedCard(cards[7], 0)));
    // card 10 south (Seahorse Head) against card 70 north (Seahorse Head)
    assert!(!PlacedCard(cards[0], 0).test_below(&PlacedCard(cards[6], 0)));
}

#[test]
fn placement_rules() {
    let cards = reference_cards();
    let empty: Vec<PlacedCard> = Vec::new();
    assert!(edge_puzzle::placement::test(&empty, &PlacedCard(cards[4], 2)));
    let layout = vec![PlacedCard(cards[0], 0)];
    assert!(!edge_puzzle::placement::test(&layout, &PlacedCard(cards[0], 0)));
    assert!(edge_puzzle::placement::test(&layout, &PlacedCard(cards[1], 3)));
    assert!(!edge_puzzle::placement::test(&layout, &PlacedCard(cards[1], 0)));
    // fourth cell starts the second row: only the card above counts
    let layout = vec![
        PlacedCard(cards[0], 0),
        PlacedCard(cards[1], 3),
        PlacedCard(cards[2], 0),
    ];
    assert!(edge_puzzle::placement::test(&layout, &PlacedCard(cards[7], 0)));
    assert!(!edge_puzzle::placement::test(&layout, &PlacedCard(cards[6], 0)));
}

#[test]
fn search_leaves_layout_as_found() {
    let cards = reference_cards();
    let mut layout = vec![PlacedCard(cards[0], 0)];
    let before = layout.clone();
    let rest: Vec<Card> = cards[1..].to_vec();
    let mut counts = (5u64, 7u64);
    attempt(&mut layout, rest, &mut counts);
    assert_eq!(layout, before);
    assert!(counts.0 >= 5 + 8 * 4);
    assert!(counts.1 >= 7);
}

#[test]
fn attempts_at_least_four_per_card() {
    let (attempts, _) = solve(reference_cards());
    assert!(attempts >= 9 * 4);
}

#[test]
fn reference_instance_counts() {
    let first = solve(reference_cards());
    let second = solve(reference_cards());
    assert_eq!(first, second);
    assert_eq!(first, (65504, 4));
}

#[test]
fn first_three_cards_alone() {
    let cards = reference_cards();
    assert_eq!(solve(cards[0..3].to_vec()), (148, 0));
}

#[test]
fn no_cards_no_trials() {
    assert_eq!(solve(Vec::new()), (0, 0));
}

#[test]
fn one_card_four_trials() {
    let cards = reference_cards();
    assert_eq!(solve(vec![cards[8]]), (4, 0));
}

#[test]
fn reference_cards_identifiers() {
    let cards = reference_cards();
    assert_eq!(cards.len(), 9);
    for (k, c) in cards.iter().enumerate() {
        assert_eq!(c.id, 10 * (k + 1));
    }
    assert_eq!(cards[4].creatures[3], PartialCreature(RedFish, Head));
}
