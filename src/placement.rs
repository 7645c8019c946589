//! Whether a candidate may take the next open cell of a partial layout.
use vstd::prelude::*;
use crate::model::{fits_below, fits_right, same_placement, PlacedCard};

verus! {

/// Number of columns (and rows) of the grid.
pub const SIDE: usize = 3;

/// Number of cells of the grid.
pub const CELLS: usize = 9;

/// Every placement of the layout has an orientation in 0..4.
pub open spec fn oriented(layout: Seq<PlacedCard>) -> bool {
    forall|k: int| 0 <= k < layout.len() ==> #[trigger] layout[k].1 < 4
}

/// `p` may take cell `layout.len()` (row-major) of the grid: it repeats no
/// placement of the layout, fits the card to its west unless it starts a
/// row, and fits the card to its north unless it is in the first row.
pub open spec fn admissible(layout: Seq<PlacedCard>, p: PlacedCard) -> bool {
    let n = layout.len();
    &&& forall|k: int| 0 <= k < n ==> !same_placement(#[trigger] layout[k], p)
    &&& n % SIDE as nat > 0 ==> fits_right(layout[n - 1], p)
    &&& n / SIDE as nat > 0 ==> fits_below(layout[n - SIDE], p)
}

/// Decides whether `placed_card` may take the next open cell of `layout`.
pub fn test(layout: &Vec<PlacedCard>, placed_card: &PlacedCard) -> (r: bool)
    requires
        oriented(layout@),
        placed_card.1 < 4,
    ensures
        r == admissible(layout@, *placed_card),
{
    let mut k: usize = 0;
    while k < layout.len()
        invariant
            k <= layout.len(),
            forall|j: int| 0 <= j < k ==> !same_placement(#[trigger] layout@[j], *placed_card),
        decreases layout.len() - k,
    {
        if layout[k].same_as(placed_card) {
            return false;
        }
        k = k + 1;
    }

    let position: usize = layout.len();
    let col: usize = position % SIDE;
    let row: usize = position / SIDE;

    if col > 0 {
        let left: &PlacedCard = &layout[position - 1];
        if !left.test_right(placed_card) {
            return false;
        }
    }

    if row > 0 {
        let above: &PlacedCard = &layout[position - SIDE];
        if !above.test_below(placed_card) {
            return false;
        }
    }

    true
}

} // verus!
