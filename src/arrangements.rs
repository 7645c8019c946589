//! What every completed grid found by the search looks like.
use vstd::prelude::*;
use crate::model::{Card, PlacedCard};
use crate::placement::{admissible, CELLS};
use crate::search::{
    candidate, card_solutions, cards_solutions, descends, search_solutions, trial_solutions,
};

verus! {

/// The card identifier of each cell of `layout`.
pub open spec fn ids_of(layout: Seq<PlacedCard>) -> Seq<usize> {
    layout.map_values(|p: PlacedCard| p.0.id)
}

/// The identifier of each card of `cards`.
pub open spec fn card_ids(cards: Seq<Card>) -> Seq<usize> {
    cards.map_values(|c: Card| c.id)
}

/// The card of each cell of `layout`.
pub open spec fn cards_of(layout: Seq<PlacedCard>) -> Seq<Card> {
    layout.map_values(|p: PlacedCard| p.0)
}

/// Each cell of `s` from `from` on holds a card turned by 0 to 3 quarter
/// steps that was admissible next to the cells before it.
pub open spec fn placed_by_rule(s: Seq<PlacedCard>, from: int) -> bool {
    forall|c: int| from <= c < s.len() ==> (#[trigger] s[c]).1 < 4 && admissible(s.subrange(0, c), s[c])
}

/// `s` is a valid full grid that starts with `layout` and whose other cells
/// hold exactly the cards of `remaining`, each in some orientation.
pub open spec fn valid_completion(layout: Seq<PlacedCard>, remaining: Seq<Card>, s: Seq<PlacedCard>) -> bool {
    &&& s.len() == CELLS
    &&& s.subrange(0, layout.len() as int) == layout
    &&& placed_by_rule(s, layout.len() as int)
    &&& cards_of(s.subrange(layout.len() as int, CELLS as int)).to_multiset() == remaining.to_multiset()
}

/// The card identifier and orientation of each cell of `layout`.
pub open spec fn keys_of(layout: Seq<PlacedCard>) -> Seq<(usize, usize)> {
    layout.map_values(|p: PlacedCard| (p.0.id, p.1))
}

/// `s` is a valid completion of `layout` with the cards of `remaining`, and
/// its other cells hold the identifiers of `remaining`, each as often as it
/// occurs there.
pub open spec fn completes(layout: Seq<PlacedCard>, remaining: Seq<Card>, s: Seq<PlacedCard>) -> bool {
    &&& valid_completion(layout, remaining, s)
    &&& ids_of(s.subrange(layout.len() as int, CELLS as int)).to_multiset() == card_ids(
        remaining,
    ).to_multiset()
}

/// Every grid of `grids` completes `layout` with the cards of `remaining`.
pub open spec fn all_complete(
    layout: Seq<PlacedCard>,
    remaining: Seq<Card>,
    grids: Seq<Seq<PlacedCard>>,
) -> bool {
    forall|k: int| 0 <= k < grids.len() ==> completes(layout, remaining, #[trigger] grids[k])
}

/// No two grids of `grids` agree on card identifier and orientation in
/// every cell.
pub open spec fn keys_distinct(grids: Seq<Seq<PlacedCard>>) -> bool {
    forall|a: int, b: int|
        0 <= a < b < grids.len() ==> keys_of(#[trigger] grids[a]) != keys_of(#[trigger] grids[b])
}

/// A search state from which the grid can just be filled: the layout is not
/// full, the cards left fill it exactly, and their identifiers are distinct.
pub open spec fn fills_exactly(layout: Seq<PlacedCard>, remaining: Seq<Card>) -> bool {
    &&& layout.len() < CELLS
    &&& layout.len() + remaining.len() == CELLS
    &&& card_ids(remaining).no_duplicates()
}

proof fn lemma_same_multiset_after_remove<A>(x: Seq<A>, c: Seq<A>, i: int, j: int)
    requires
        0 <= i < x.len(),
        0 <= j < c.len(),
        x[i] == c[j],
        x.remove(i).to_multiset() == c.remove(j).to_multiset(),
    ensures
        x.to_multiset() == c.to_multiset(),
{
    broadcast use vstd::multiset::group_multiset_axioms;
    broadcast use vstd::seq_lib::group_to_multiset_ensures;

    let a = x[i];
    let (mx, mc) = (x.to_multiset(), c.to_multiset());
    vstd::seq_lib::to_multiset_remove(x, i);
    vstd::seq_lib::to_multiset_remove(c, j);
    assert(x.contains(a));
    assert(c.contains(a));
    assert(mx.count(a) > 0 && mc.count(a) > 0);
    assert forall|v: A| mx.count(v) == mc.count(v) by {
        assert(mx.remove(a).count(v) == mc.remove(a).count(v));
    }
    assert(mx =~= mc);
}

pub(crate) proof fn lemma_remove_keeps_distinct(s: Seq<usize>, i: int)
    requires
        0 <= i < s.len(),
        s.no_duplicates(),
    ensures
        s.remove(i).no_duplicates(),
{
    let r = s.remove(i);
    assert forall|a: int, b: int| 0 <= a < r.len() && 0 <= b < r.len() && a != b implies r[a]
        != r[b] by {
        let sa = if a < i { a } else { a + 1 };
        let sb = if b < i { b } else { b + 1 };
        assert(r[a] == s[sa]);
        assert(r[b] == s[sb]);
    }
}

proof fn lemma_trial_grids(layout: Seq<PlacedCard>, remaining: Seq<Card>, i: int, o: int)
    requires
        fills_exactly(layout, remaining),
        0 <= i < remaining.len(),
        0 <= o < 4,
    ensures
        all_complete(layout, remaining, trial_solutions(layout, remaining, i, o)),
        keys_distinct(trial_solutions(layout, remaining, i, o)),
        forall|k: int|
            0 <= k < trial_solutions(layout, remaining, i, o).len() ==> (#[trigger] trial_solutions(
                layout,
                remaining,
                i,
                o,
            )[k])[layout.len() as int] == candidate(remaining, i, o),
    decreases remaining.len(), 0int, 0int,
{
    let n = layout.len() as int;
    let p = candidate(remaining, i, o);
    let grids = trial_solutions(layout, remaining, i, o);
    if !admissible(layout, p) {
    } else if descends(layout) {
        let next = layout.push(p);
        let rest = remaining.remove(i);
        assert(card_ids(rest) =~= card_ids(remaining).remove(i));
        lemma_remove_keeps_distinct(card_ids(remaining), i);
        lemma_search_grids(next, rest);
        assert forall|k: int| 0 <= k < grids.len() implies completes(
            layout,
            remaining,
            #[trigger] grids[k],
        ) && grids[k][n] == p by {
            let s = grids[k];
            assert(completes(next, rest, s));
            assert(s.subrange(0, n + 1)[n] == s[n]);
            assert forall|j: int| 0 <= j < n implies s[j] == layout[j] by {
                assert(s.subrange(0, n + 1)[j] == s[j]);
            }
            assert(s.subrange(0, n) =~= layout);
            let x = ids_of(s.subrange(n, CELLS as int));
            assert(x.remove(0) =~= ids_of(s.subrange(n + 1, CELLS as int)));
            lemma_same_multiset_after_remove(x, card_ids(remaining), 0, i);
            let y = cards_of(s.subrange(n, CELLS as int));
            assert(y.remove(0) =~= cards_of(s.subrange(n + 1, CELLS as int)));
            lemma_same_multiset_after_remove(y, remaining, 0, i);
            assert forall|c: int| n <= c < s.len() implies (#[trigger] s[c]).1 < 4 && admissible(
                s.subrange(0, c),
                s[c],
            ) by {
                if c == n {
                    assert(s.subrange(0, n) == layout);
                }
            }
        }
    } else {
        let s = layout.push(p);
        assert(grids =~= seq![s]);
        assert(remaining.len() == 1);
        assert(s.subrange(0, n) =~= layout);
        assert(ids_of(s.subrange(n, CELLS as int)) =~= card_ids(remaining));
        assert(cards_of(s.subrange(n, CELLS as int)) =~= remaining);
        assert forall|c: int| n <= c < s.len() implies (#[trigger] s[c]).1 < 4 && admissible(
            s.subrange(0, c),
            s[c],
        ) by {
            assert(c == n);
        }
        assert(completes(layout, remaining, grids[0]));
    }
}

proof fn lemma_card_grids(layout: Seq<PlacedCard>, remaining: Seq<Card>, i: int, o: int)
    requires
        fills_exactly(layout, remaining),
        0 <= i < remaining.len(),
        0 <= o <= 4,
    ensures
        all_complete(layout, remaining, card_solutions(layout, remaining, i, o)),
        keys_distinct(card_solutions(layout, remaining, i, o)),
        forall|k: int|
            0 <= k < card_solutions(layout, remaining, i, o).len() ==> {
                let cell = (#[trigger] card_solutions(layout, remaining, i, o)[k])[layout.len() as int];
                cell.0 == remaining[i] && o <= cell.1
            },
    decreases remaining.len(), 1int, 4 - o,
{
    if o < 4 {
        let n = layout.len() as int;
        let head = trial_solutions(layout, remaining, i, o);
        let tail = card_solutions(layout, remaining, i, o + 1);
        let grids = card_solutions(layout, remaining, i, o);
        lemma_trial_grids(layout, remaining, i, o);
        lemma_card_grids(layout, remaining, i, o + 1);
        assert(grids == head + tail);
        assert forall|k: int| 0 <= k < grids.len() implies completes(
            layout,
            remaining,
            #[trigger] grids[k],
        ) && grids[k][n].0 == remaining[i] && o <= grids[k][n].1 by {
            if k < head.len() {
                assert(grids[k] == head[k]);
            } else {
                assert(grids[k] == tail[k - head.len()]);
            }
        }
        assert forall|a: int, b: int| 0 <= a < b < grids.len() implies keys_of(
            #[trigger] grids[a],
        ) != keys_of(#[trigger] grids[b]) by {
            if b < head.len() {
                assert(grids[a] == head[a] && grids[b] == head[b]);
            } else if a >= head.len() {
                assert(grids[a] == tail[a - head.len()] && grids[b] == tail[b - head.len()]);
            } else {
                assert(grids[a] == head[a] && grids[b] == tail[b - head.len()]);
                assert(completes(layout, remaining, grids[a]));
                assert(completes(layout, remaining, grids[b]));
                assert(keys_of(grids[a])[n] != keys_of(grids[b])[n]);
            }
        }
    }
}

proof fn lemma_cards_grids(layout: Seq<PlacedCard>, remaining: Seq<Card>, i: int)
    requires
        fills_exactly(layout, remaining),
        0 <= i <= remaining.len(),
    ensures
        all_complete(layout, remaining, cards_solutions(layout, remaining, i)),
        keys_distinct(cards_solutions(layout, remaining, i)),
        forall|k: int, j: int|
            0 <= k < cards_solutions(layout, remaining, i).len() && 0 <= j < i ==> (
            #[trigger] cards_solutions(layout, remaining, i)[k])[layout.len() as int].0.id
                != #[trigger] remaining[j].id,
    decreases remaining.len(), 2int, remaining.len() - i,
{
    if i < remaining.len() {
        let n = layout.len() as int;
        let head = card_solutions(layout, remaining, i, 0);
        let tail = cards_solutions(layout, remaining, i + 1);
        let grids = cards_solutions(layout, remaining, i);
        lemma_card_grids(layout, remaining, i, 0);
        lemma_cards_grids(layout, remaining, i + 1);
        assert(grids == head + tail);
        let ids = card_ids(remaining);
        assert forall|j: int| 0 <= j < remaining.len() implies ids[j] == #[trigger] remaining[j].id by {
        }
        assert forall|k: int| 0 <= k < grids.len() implies completes(
            layout,
            remaining,
            #[trigger] grids[k],
        ) by {
            if k < head.len() {
                assert(grids[k] == head[k]);
            } else {
                assert(grids[k] == tail[k - head.len()]);
            }
        }
        assert forall|k: int, j: int| 0 <= k < grids.len() && 0 <= j < i implies (
        #[trigger] grids[k])[n].0.id != #[trigger] remaining[j].id by {
            if k < head.len() {
                assert(grids[k] == head[k]);
                assert(ids[i] != ids[j]);
            } else {
                assert(grids[k] == tail[k - head.len()]);
            }
        }
        assert forall|a: int, b: int| 0 <= a < b < grids.len() implies keys_of(
            #[trigger] grids[a],
        ) != keys_of(#[trigger] grids[b]) by {
            if b < head.len() {
                assert(grids[a] == head[a] && grids[b] == head[b]);
            } else if a >= head.len() {
                assert(grids[a] == tail[a - head.len()] && grids[b] == tail[b - head.len()]);
            } else {
                assert(grids[a] == head[a] && grids[b] == tail[b - head.len()]);
                assert(completes(layout, remaining, grids[a]));
                assert(completes(layout, remaining, grids[b]));
                assert(grids[b][n].0.id != remaining[i].id);
                assert(keys_of(grids[a])[n] != keys_of(grids[b])[n]);
            }
        }
    }
}

/// From a layout that the remaining cards, with distinct identifiers, fill
/// exactly: every completed grid the search counts is a valid completion of
/// the layout holding each remaining identifier once, and no two of them
/// agree on card identifier and orientation in every cell.
pub proof fn lemma_search_grids(layout: Seq<PlacedCard>, remaining: Seq<Card>)
    requires
        fills_exactly(layout, remaining),
    ensures
        all_complete(layout, remaining, search_solutions(layout, remaining)),
        keys_distinct(search_solutions(layout, remaining)),
    decreases remaining.len(), 3int, 0int,
{
    lemma_cards_grids(layout, remaining, 0);
}

/// No two completed grids that the search counts from an empty grid place the
/// same card identifier in the same orientation in every cell, when the nine
/// given cards have distinct identifiers.
pub proof fn lemma_solutions_distinct(cards: Seq<Card>)
    requires
        cards.len() == CELLS,
        card_ids(cards).no_duplicates(),
    ensures
        forall|a: int, b: int|
            0 <= a < b < search_solutions(seq![], cards).len() ==> keys_of(
                #[trigger] search_solutions(seq![], cards)[a],
            ) != keys_of(#[trigger] search_solutions(seq![], cards)[b]),
{
    lemma_search_grids(seq![], cards);
}

/// Every completed grid that the search counts from an empty grid holds the
/// identifiers of the nine given cards, each exactly once when they are
/// distinct.
pub proof fn lemma_solutions_use_each_card(cards: Seq<Card>)
    requires
        cards.len() == CELLS,
        card_ids(cards).no_duplicates(),
    ensures
        forall|k: int|
            0 <= k < search_solutions(seq![], cards).len() ==> {
                let grid = #[trigger] search_solutions(seq![], cards)[k];
                &&& grid.len() == CELLS
                &&& ids_of(grid).to_multiset() == card_ids(cards).to_multiset()
                &&& ids_of(grid).no_duplicates()
            },
{
    let grids = search_solutions(seq![], cards);
    lemma_search_grids(seq![], cards);
    card_ids(cards).lemma_multiset_has_no_duplicates();
    assert forall|k: int| 0 <= k < grids.len() implies {
        let grid = #[trigger] grids[k];
        &&& grid.len() == CELLS
        &&& ids_of(grid).to_multiset() == card_ids(cards).to_multiset()
        &&& ids_of(grid).no_duplicates()
    } by {
        let grid = grids[k];
        assert(completes(seq![], cards, grid));
        assert(grid.subrange(0, CELLS as int) =~= grid);
        ids_of(grid).lemma_multiset_has_no_duplicates_conv();
    }
}

proof fn lemma_in_concat<A>(a: Seq<A>, b: Seq<A>, x: A)
    ensures
        a.contains(x) ==> (a + b).contains(x),
        b.contains(x) ==> (a + b).contains(x),
{
    if a.contains(x) {
        let k = choose|k: int| 0 <= k < a.len() && a[k] == x;
        assert((a + b)[k] == x);
    }
    if b.contains(x) {
        let k = choose|k: int| 0 <= k < b.len() && b[k] == x;
        assert((a + b)[a.len() + k] == x);
    }
}

proof fn lemma_trial_in_card(
    layout: Seq<PlacedCard>,
    remaining: Seq<Card>,
    i: int,
    o: int,
    from: int,
    s: Seq<PlacedCard>,
)
    requires
        0 <= i < remaining.len(),
        0 <= from <= o < 4,
        trial_solutions(layout, remaining, i, o).contains(s),
    ensures
        card_solutions(layout, remaining, i, from).contains(s),
    decreases o - from,
{
    lemma_in_concat(
        trial_solutions(layout, remaining, i, from),
        card_solutions(layout, remaining, i, from + 1),
        s,
    );
    if from < o {
        lemma_trial_in_card(layout, remaining, i, o, from + 1, s);
    }
}

proof fn lemma_card_in_cards(
    layout: Seq<PlacedCard>,
    remaining: Seq<Card>,
    i: int,
    from: int,
    s: Seq<PlacedCard>,
)
    requires
        0 <= from <= i < remaining.len(),
        card_solutions(layout, remaining, i, 0).contains(s),
    ensures
        cards_solutions(layout, remaining, from).contains(s),
    decreases i - from,
{
    lemma_in_concat(
        card_solutions(layout, remaining, from, 0),
        cards_solutions(layout, remaining, from + 1),
        s,
    );
    if from < i {
        lemma_card_in_cards(layout, remaining, i, from + 1, s);
    }
}

/// Every valid completion of a layout with the cards that fill it exactly is
/// among the grids the search counts.
pub proof fn lemma_search_finds(layout: Seq<PlacedCard>, remaining: Seq<Card>, s: Seq<PlacedCard>)
    requires
        layout.len() < CELLS,
        layout.len() + remaining.len() == CELLS,
        valid_completion(layout, remaining, s),
    ensures
        search_solutions(layout, remaining).contains(s),
    decreases remaining.len(),
{
    broadcast use vstd::multiset::group_multiset_axioms;
    broadcast use vstd::seq_lib::group_to_multiset_ensures;

    let n = layout.len() as int;
    let p = s[n];
    let y = cards_of(s.subrange(n, CELLS as int));
    assert(y[0] == p.0);
    assert(y.contains(p.0));
    assert(remaining.to_multiset().count(p.0) > 0);
    assert(remaining.contains(p.0));
    let i = choose|i: int| 0 <= i < remaining.len() && remaining[i] == p.0;
    let o = p.1 as int;
    assert(s[n].1 < 4 && admissible(s.subrange(0, n), s[n]));
    assert(candidate(remaining, i, o) == p);
    if n + 1 == CELLS {
        assert(s =~= layout.push(p));
        assert(trial_solutions(layout, remaining, i, o)[0] == s);
    } else {
        let next = layout.push(p);
        let rest = remaining.remove(i);
        assert(s.subrange(0, n + 1) =~= next);
        assert(y.remove(0) =~= cards_of(s.subrange(n + 1, CELLS as int)));
        vstd::seq_lib::to_multiset_remove(y, 0);
        vstd::seq_lib::to_multiset_remove(remaining, i);
        lemma_search_finds(next, rest, s);
    }
    lemma_trial_in_card(layout, remaining, i, o, 0, s);
    lemma_card_in_cards(layout, remaining, i, 0, s);
}

/// From a layout that the remaining cards, with distinct identifiers, fill
/// exactly, the grids the search counts are exactly the valid completions of
/// the layout with those cards: each meets the edge rule in every cell it
/// adds, and none is missed.
pub proof fn lemma_solutions_are_valid_completions(layout: Seq<PlacedCard>, remaining: Seq<Card>)
    requires
        fills_exactly(layout, remaining),
    ensures
        forall|s: Seq<PlacedCard>|
            #[trigger] search_solutions(layout, remaining).contains(s) <==> valid_completion(
                layout,
                remaining,
                s,
            ),
{
    let grids = search_solutions(layout, remaining);
    lemma_search_grids(layout, remaining);
    assert forall|s: Seq<PlacedCard>| #[trigger] grids.contains(s) <==> valid_completion(
        layout,
        remaining,
        s,
    ) by {
        if valid_completion(layout, remaining, s) {
            lemma_search_finds(layout, remaining, s);
        }
        if grids.contains(s) {
            let k = choose|k: int| 0 <= k < grids.len() && grids[k] == s;
            assert(completes(layout, remaining, grids[k]));
        }
    }
}

proof fn lemma_distinct_keys_no_duplicates(grids: Seq<Seq<PlacedCard>>)
    requires
        keys_distinct(grids),
    ensures
        grids.no_duplicates(),
{
    assert forall|a: int, b: int| 0 <= a < grids.len() && 0 <= b < grids.len() && a != b implies grids[a]
        != grids[b] by {
        if a < b {
            assert(keys_of(grids[a]) != keys_of(grids[b]));
        } else {
            assert(keys_of(grids[b]) != keys_of(grids[a]));
        }
    }
}

/// The number of completed grids the search counts does not depend on the
/// order in which the remaining cards are handed to it.
pub proof fn lemma_solution_count_order_free(
    layout: Seq<PlacedCard>,
    remaining: Seq<Card>,
    reordered: Seq<Card>,
)
    requires
        fills_exactly(layout, remaining),
        fills_exactly(layout, reordered),
        remaining.to_multiset() == reordered.to_multiset(),
    ensures
        search_solutions(layout, remaining).len() == search_solutions(layout, reordered).len(),
{
    let g1 = search_solutions(layout, remaining);
    let g2 = search_solutions(layout, reordered);
    lemma_solutions_are_valid_completions(layout, remaining);
    lemma_solutions_are_valid_completions(layout, reordered);
    lemma_search_grids(layout, remaining);
    lemma_search_grids(layout, reordered);
    lemma_distinct_keys_no_duplicates(g1);
    lemma_distinct_keys_no_duplicates(g2);
    assert forall|s: Seq<PlacedCard>| g1.to_set().contains(s) <==> g2.to_set().contains(s) by {
        assert(g1.contains(s) <==> valid_completion(layout, remaining, s));
        assert(g2.contains(s) <==> valid_completion(layout, reordered, s));
    }
    assert(g1.to_set() =~= g2.to_set());
    g1.unique_seq_to_set();
    g2.unique_seq_to_set();
}

} // verus!
