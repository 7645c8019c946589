//! Depth-first search over the remaining cards and their four orientations.
use vstd::prelude::*;
use crate::arrangements::{card_ids, lemma_remove_keeps_distinct};
use crate::model::{Card, PlacedCard};
use crate::placement::{admissible, oriented, CELLS};

verus! {

/// Card `i` of `remaining`, turned by `o`.
pub open spec fn candidate(remaining: Seq<Card>, i: int, o: int) -> PlacedCard {
    PlacedCard(remaining[i], o as usize)
}

/// Whether the search goes on below an admitted candidate: it does unless the
/// candidate fills the last cell.
pub open spec fn descends(layout: Seq<PlacedCard>) -> bool {
    layout.len() + 1 != CELLS
}

/// Trials made for card `i` of `remaining` turned by `o`: the trial itself,
/// and the whole search below it when it is admitted and the grid is not yet
/// full.
pub open spec fn trial_attempts(layout: Seq<PlacedCard>, remaining: Seq<Card>, i: int, o: int) -> nat
    decreases remaining.len(), 0int, 0int,
{
    if 0 <= i < remaining.len() {
        let p = candidate(remaining, i, o);
        if admissible(layout, p) && descends(layout) {
            1 + search_attempts(layout.push(p), remaining.remove(i))
        } else {
            1
        }
    } else {
        0
    }
}

/// Trials made for card `i` of `remaining` in orientations `o` to 3.
pub open spec fn card_attempts(layout: Seq<PlacedCard>, remaining: Seq<Card>, i: int, o: int) -> nat
    decreases remaining.len(), 1int, 4 - o,
{
    if 0 <= o < 4 {
        trial_attempts(layout, remaining, i, o) + card_attempts(layout, remaining, i, o + 1)
    } else {
        0
    }
}

/// Trials made for cards `i` onwards of `remaining`.
pub open spec fn cards_attempts(layout: Seq<PlacedCard>, remaining: Seq<Card>, i: int) -> nat
    decreases remaining.len(), 2int, remaining.len() - i,
{
    if 0 <= i < remaining.len() {
        card_attempts(layout, remaining, i, 0) + cards_attempts(layout, remaining, i + 1)
    } else {
        0
    }
}

/// Every (card, orientation) pair the search tries below `layout` with the
/// cards of `remaining`, at every depth, admitted or not.
pub open spec fn search_attempts(layout: Seq<PlacedCard>, remaining: Seq<Card>) -> nat
    decreases remaining.len(), 3int, 0int,
{
    cards_attempts(layout, remaining, 0)
}

/// Completed layouts found through card `i` of `remaining` turned by `o`.
pub open spec fn trial_solutions(layout: Seq<PlacedCard>, remaining: Seq<Card>, i: int, o: int) -> Seq<Seq<PlacedCard>>
    decreases remaining.len(), 0int, 0int,
{
    if 0 <= i < remaining.len() {
        let p = candidate(remaining, i, o);
        if !admissible(layout, p) {
            seq![]
        } else if descends(layout) {
            search_solutions(layout.push(p), remaining.remove(i))
        } else {
            seq![layout.push(p)]
        }
    } else {
        seq![]
    }
}

/// Completed layouts found through card `i` of `remaining` in orientations
/// `o` to 3, in the order the search meets them.
pub open spec fn card_solutions(layout: Seq<PlacedCard>, remaining: Seq<Card>, i: int, o: int) -> Seq<Seq<PlacedCard>>
    decreases remaining.len(), 1int, 4 - o,
{
    if 0 <= o < 4 {
        trial_solutions(layout, remaining, i, o) + card_solutions(layout, remaining, i, o + 1)
    } else {
        seq![]
    }
}

/// Completed layouts found through cards `i` onwards of `remaining`.
pub open spec fn cards_solutions(layout: Seq<PlacedCard>, remaining: Seq<Card>, i: int) -> Seq<Seq<PlacedCard>>
    decreases remaining.len(), 2int, remaining.len() - i,
{
    if 0 <= i < remaining.len() {
        card_solutions(layout, remaining, i, 0) + cards_solutions(layout, remaining, i + 1)
    } else {
        seq![]
    }
}

/// The completed layouts the search finds below `layout` with the cards of
/// `remaining`, in the order it finds them.
pub open spec fn search_solutions(layout: Seq<PlacedCard>, remaining: Seq<Card>) -> Seq<Seq<PlacedCard>>
    decreases remaining.len(), 3int, 0int,
{
    cards_solutions(layout, remaining, 0)
}


/// An upper bound on the trials of a search over `n` remaining cards.
pub open spec fn max_attempts(n: nat) -> nat
    decreases n,
{
    if n == 0 {
        0
    } else {
        4 * n * (1 + max_attempts((n - 1) as nat))
    }
}

proof fn lemma_trial_bounded(layout: Seq<PlacedCard>, remaining: Seq<Card>, i: int, o: int)
    requires
        0 <= i < remaining.len(),
    ensures
        trial_solutions(layout, remaining, i, o).len() <= trial_attempts(layout, remaining, i, o),
        trial_attempts(layout, remaining, i, o) <= 1 + max_attempts((remaining.len() - 1) as nat),
    decreases remaining.len(), 0int, 0int,
{
    let p = candidate(remaining, i, o);
    if admissible(layout, p) && descends(layout) {
        lemma_search_bounded(layout.push(p), remaining.remove(i));
    }
}

proof fn lemma_card_bounded(layout: Seq<PlacedCard>, remaining: Seq<Card>, i: int, o: int)
    requires
        0 <= i < remaining.len(),
        0 <= o <= 4,
    ensures
        card_solutions(layout, remaining, i, o).len() <= card_attempts(layout, remaining, i, o),
        card_attempts(layout, remaining, i, o) <= (4 - o) * (1 + max_attempts(
            (remaining.len() - 1) as nat,
        )),
    decreases remaining.len(), 1int, 4 - o,
{
    if o < 4 {
        lemma_trial_bounded(layout, remaining, i, o);
        lemma_card_bounded(layout, remaining, i, o + 1);
        let k = 1 + max_attempts((remaining.len() - 1) as nat);
        assert((4 - o) * k == k + (4 - (o + 1)) * k) by (nonlinear_arith);
    }
}

proof fn lemma_cards_bounded(layout: Seq<PlacedCard>, remaining: Seq<Card>, i: int)
    requires
        0 <= i <= remaining.len(),
    ensures
        cards_solutions(layout, remaining, i).len() <= cards_attempts(layout, remaining, i),
        cards_attempts(layout, remaining, i) <= (remaining.len() - i) * (4 * (1 + max_attempts(
            (remaining.len() - 1) as nat,
        ))),
    decreases remaining.len(), 2int, remaining.len() - i,
{
    if i < remaining.len() {
        lemma_card_bounded(layout, remaining, i, 0);
        lemma_cards_bounded(layout, remaining, i + 1);
        let k = 4 * (1 + max_attempts((remaining.len() - 1) as nat));
        let m = remaining.len() - i;
        assert(m * k == k + (m - 1) * k) by (nonlinear_arith);
    }
}

/// The search below `layout` finds no more completed layouts than it makes
/// trials, and makes at most `max_attempts` trials.
pub proof fn lemma_search_bounded(layout: Seq<PlacedCard>, remaining: Seq<Card>)
    ensures
        search_solutions(layout, remaining).len() <= search_attempts(layout, remaining),
        search_attempts(layout, remaining) <= max_attempts(remaining.len()),
    decreases remaining.len(), 3int, 0int,
{
    lemma_cards_bounded(layout, remaining, 0);
    if remaining.len() > 0 {
        let k = 1 + max_attempts((remaining.len() - 1) as nat);
        assert(remaining.len() * (4 * k) == 4 * remaining.len() * k) by (nonlinear_arith);
    }
}

proof fn lemma_max_attempts_monotone(m: nat, n: nat)
    requires
        m <= n,
    ensures
        max_attempts(m) <= max_attempts(n),
    decreases n - m,
{
    if m < n {
        lemma_max_attempts_monotone(m, (n - 1) as nat);
        let k = max_attempts((n - 1) as nat);
        assert(k <= 4 * n * (1 + k)) by (nonlinear_arith)
            requires
                n >= 1,
        ;
    }
}

/// `cards` with its element at `i` taken out.
fn without(cards: &Vec<Card>, i: usize) -> (r: Vec<Card>)
    requires
        i < cards@.len(),
    ensures
        r@ == cards@.remove(i as int),
{
    let len: usize = cards.len();
    let mut r: Vec<Card> = Vec::new();
    let mut j: usize = 0;
    while j < i
        invariant
            j <= i < cards@.len(),
            r@ =~= cards@.subrange(0, j as int),
        decreases i - j,
    {
        r.push(cards[j]);
        j = j + 1;
    }
    j = i + 1;
    while j < cards.len()
        invariant
            i < j <= cards@.len(),
            r@ =~= cards@.subrange(0, i as int) + cards@.subrange(i + 1, j as int),
        decreases cards@.len() - j,
    {
        r.push(cards[j]);
        j = j + 1;
    }
    assert(r@ =~= cards@.remove(i as int));
    r
}

/// The cards of `remaining` have distinct identifiers, none of which is
/// already placed in `layout`.
pub open spec fn unused_cards(layout: Seq<PlacedCard>, remaining: Seq<Card>) -> bool {
    &&& card_ids(remaining).no_duplicates()
    &&& forall|k: int, j: int|
        0 <= k < layout.len() && 0 <= j < remaining.len() ==> #[trigger] layout[k].0.id
            != #[trigger] remaining[j].id
}

/// Tries every card of `remaining_cards` in every orientation in the next
/// open cell of `layout`, and recursively fills the cells after it. Each trial
/// adds one to `counts.0`; each completed grid adds one to `counts.1`.
/// `layout` is left as it was found.
pub fn attempt(layout: &mut Vec<PlacedCard>, remaining_cards: Vec<Card>, counts: &mut (u64, u64))
    requires
        oriented(old(layout)@),
        unused_cards(old(layout)@, remaining_cards@),
        old(counts).0 + search_attempts(old(layout)@, remaining_cards@) <= u64::MAX,
        old(counts).1 + search_solutions(old(layout)@, remaining_cards@).len() <= u64::MAX,
    ensures
        final(layout)@ == old(layout)@,
        final(counts).0 == old(counts).0 + search_attempts(old(layout)@, remaining_cards@),
        final(counts).1 == old(counts).1 + search_solutions(old(layout)@, remaining_cards@).len(),
    decreases remaining_cards@.len(),
{
    let ghost start: (u64, u64) = *counts;
    let ghost base: Seq<PlacedCard> = layout@;
    let ghost cards: Seq<Card> = remaining_cards@;
    let n: usize = remaining_cards.len();
    let mut i: usize = 0;
    while i < n
        invariant
            n == cards.len(),
            cards == remaining_cards@,
            i <= n,
            layout@ == base,
            oriented(base),
            unused_cards(base, cards),
            counts.0 + cards_attempts(base, cards, i as int) == start.0 + cards_attempts(
                base,
                cards,
                0,
            ),
            counts.1 + cards_solutions(base, cards, i as int).len() == start.1 + cards_solutions(
                base,
                cards,
                0,
            ).len(),
            start.0 + cards_attempts(base, cards, 0) <= u64::MAX,
            start.1 + cards_solutions(base, cards, 0).len() <= u64::MAX,
        decreases n - i,
    {
        let card: Card = remaining_cards[i];
        let mut orientation: usize = 0;
        while orientation < 4
            invariant
                n == cards.len(),
                cards == remaining_cards@,
                i < n,
                card == cards[i as int],
                orientation <= 4,
                layout@ == base,
                oriented(base),
                unused_cards(base, cards),
                counts.0 + card_attempts(base, cards, i as int, orientation as int) + cards_attempts(
                    base,
                    cards,
                    i + 1,
                ) == start.0 + cards_attempts(base, cards, 0),
                counts.1 + card_solutions(base, cards, i as int, orientation as int).len()
                    + cards_solutions(base, cards, i + 1).len() == start.1 + cards_solutions(
                    base,
                    cards,
                    0,
                ).len(),
                start.0 + cards_attempts(base, cards, 0) <= u64::MAX,
                start.1 + cards_solutions(base, cards, 0).len() <= u64::MAX,
            decreases 4 - orientation,
        {
            let new_card = PlacedCard(card, orientation);
            assert(new_card == candidate(cards, i as int, orientation as int));
            proof {
                let (io, oo) = (i as int, orientation as int);
                assert(card_attempts(base, cards, io, oo) == trial_attempts(base, cards, io, oo)
                    + card_attempts(base, cards, io, oo + 1));
                assert(card_solutions(base, cards, io, oo) == trial_solutions(base, cards, io, oo)
                    + card_solutions(base, cards, io, oo + 1));
            }
            counts.0 = counts.0 + 1;
            if crate::placement::test(layout, &new_card) {
                layout.push(new_card);
                if layout.len() == CELLS {
                    assert(trial_solutions(base, cards, i as int, orientation as int).len() == 1);
                    counts.1 = counts.1 + 1;
                } else {
                    let rest: Vec<Card> = without(&remaining_cards, i);
                    proof {
                        assert forall|k: int| 0 <= k < layout@.len() implies #[trigger] layout@[k].1
                            < 4 by {
                            if k < base.len() {
                                assert(layout@[k] == base[k]);
                            }
                        }
                        let ids = card_ids(cards);
                        assert(card_ids(rest@) =~= ids.remove(i as int));
                        lemma_remove_keeps_distinct(ids, i as int);
                        assert forall|k: int, j: int|
                            0 <= k < layout@.len() && 0 <= j < rest@.len() implies #[trigger] layout@[k].0.id
                            != #[trigger] rest@[j].id by {
                            let cj = if j < i { j } else { j + 1 };
                            assert(rest@[j] == cards[cj]);
                            assert(ids[cj] == cards[cj].id);
                            assert(ids[i as int] == cards[i as int].id);
                            if k < base.len() {
                                assert(layout@[k] == base[k]);
                            }
                        }
                    }
                    attempt(layout, rest, counts);
                }
                layout.pop();
                assert(layout@ =~= base);
            }
            orientation = orientation + 1;
        }
        i = i + 1;
    }
}

/// Runs the whole search over `cards` from an empty grid and returns the
/// number of trials and the number of completed grids found.
pub fn solve(cards: Vec<Card>) -> (r: (u64, u64))
    requires
        cards@.len() <= CELLS,
        card_ids(cards@).no_duplicates(),
    ensures
        r.0 == search_attempts(seq![], cards@),
        r.1 == search_solutions(seq![], cards@).len(),
{
    let mut layout: Vec<PlacedCard> = Vec::new();
    let mut counts: (u64, u64) = (0, 0);
    proof {
        lemma_search_bounded(layout@, cards@);
        lemma_max_attempts_monotone(cards@.len(), 9);
        assert(max_attempts(0) == 0);
        assert(max_attempts(1) == 4 * 1 * (1 + max_attempts(0)));
        assert(max_attempts(1) == 4);
        assert(max_attempts(2) == 4 * 2 * (1 + max_attempts(1)));
        assert(max_attempts(2) == 40);
        assert(max_attempts(3) == 4 * 3 * (1 + max_attempts(2)));
        assert(max_attempts(3) == 492);
        assert(max_attempts(4) == 4 * 4 * (1 + max_attempts(3)));
        assert(max_attempts(4) == 7888);
        assert(max_attempts(5) == 4 * 5 * (1 + max_attempts(4)));
        assert(max_attempts(5) == 157780);
        assert(max_attempts(6) == 4 * 6 * (1 + max_attempts(5)));
        assert(max_attempts(6) == 3786744);
        assert(max_attempts(7) == 4 * 7 * (1 + max_attempts(6)));
        assert(max_attempts(7) == 106028860);
        assert(max_attempts(8) == 4 * 8 * (1 + max_attempts(7)));
        assert(max_attempts(8) == 3392923552);
        assert(max_attempts(9) == 4 * 9 * (1 + max_attempts(8)));
        assert(max_attempts(9) == 122145247908) by (nonlinear_arith)
            requires
                max_attempts(9) == 4 * 9 * (1 + max_attempts(8)),
                max_attempts(8) == 3392923552,
        ;
    }
    attempt(&mut layout, cards, &mut counts);
    counts
}

proof fn lemma_card_tries_each_orientation(layout: Seq<PlacedCard>, remaining: Seq<Card>, i: int, o: int)
    requires
        0 <= i < remaining.len(),
        0 <= o <= 4,
    ensures
        card_attempts(layout, remaining, i, o) >= 4 - o,
    decreases 4 - o,
{
    if o < 4 {
        assert(trial_attempts(layout, remaining, i, o) >= 1);
        lemma_card_tries_each_orientation(layout, remaining, i, o + 1);
    }
}

proof fn lemma_cards_try_each_card(layout: Seq<PlacedCard>, remaining: Seq<Card>, i: int)
    requires
        0 <= i <= remaining.len(),
    ensures
        cards_attempts(layout, remaining, i) >= 4 * (remaining.len() - i),
    decreases remaining.len() - i,
{
    if i < remaining.len() {
        lemma_card_tries_each_orientation(layout, remaining, i, 0);
        lemma_cards_try_each_card(layout, remaining, i + 1);
    }
}

/// The first open cell alone is tried with every remaining card in each of
/// its four orientations, admitted or not, so the search makes at least four
/// trials per remaining card.
pub proof fn lemma_attempts_lower_bound(layout: Seq<PlacedCard>, remaining: Seq<Card>)
    ensures
        search_attempts(layout, remaining) >= 4 * remaining.len(),
{
    lemma_cards_try_each_card(layout, remaining, 0);
}

} // verus!
