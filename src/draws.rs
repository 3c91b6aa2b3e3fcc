use vstd::prelude::*;

use crate::hand::{full_deck, generate_deck, kind_of, Card, Hand};
use crate::table::HandTable;

verus! {

/// The deck positions are pairwise distinct.
pub open spec fn distinct3(i: int, j: int, k: int) -> bool {
    i != j && j != k && i != k
}

/// The number of third positions `k < n` that make `(i, j, k)` an ordered
/// draw of three distinct deck cards of category `h`.
pub open spec fn draws_k(i: int, j: int, n: int, h: Hand) -> int
    decreases n,
{
    if n <= 0 {
        0
    } else {
        draws_k(i, j, n - 1, h) + (if distinct3(i, j, n - 1) && kind_of(
            full_deck()[i],
            full_deck()[j],
            full_deck()[n - 1],
        ) == h {
            1int
        } else {
            0int
        })
    }
}

/// The number of ordered draws of category `h` whose first position is `i`
/// and whose second position is below `n`.
pub open spec fn draws_j(i: int, n: int, h: Hand) -> int
    decreases n,
{
    if n <= 0 {
        0
    } else {
        draws_j(i, n - 1, h) + draws_k(i, n - 1, 52, h)
    }
}

/// The number of ordered draws of category `h` whose first position is below `n`.
pub open spec fn draws_i(n: int, h: Hand) -> int
    decreases n,
{
    if n <= 0 {
        0
    } else {
        draws_i(n - 1, h) + draws_j(n - 1, 52, h)
    }
}

/// The number of ordered draws of three distinct cards from the deck that
/// fall in category `h`.
pub open spec fn ordered_draws(h: Hand) -> int {
    draws_i(52, h)
}

/// `1` where `x < n`, else `0`.
pub open spec fn below(x: int, n: int) -> int {
    if x < n {
        1
    } else {
        0
    }
}

/// Pushes every draw `(i, j, k)` of distinct deck positions for the given
/// first two positions.
fn push_third_cards(table: &mut HandTable, deck: &Vec<Card>, i: usize, j: usize)
    requires
        deck@ == full_deck(),
        i < 52,
        j < 52,
        old(table).total() + 50 < usize::MAX,
    ensures
        final(table).total() == old(table).total() + (if i != j { 50int } else { 0int }),
        forall|x: int| 0 <= x < 6 ==> #[trigger] final(table).counts()[x] == old(table).counts()[x]
            + draws_k(i as int, j as int, 52, Hand::at(x as nat)),
{
    let ghost start = *table;
    let n = deck.len();
    let mut k: usize = 0;
    while k < n
        invariant
            n == 52,
            deck@ == full_deck(),
            i < 52,
            j < 52,
            k <= 52,
            start.total() + 50 < usize::MAX,
            table.total() == start.total() + (if i != j {
                k - below(i as int, k as int) - below(j as int, k as int)
            } else {
                0
            }),
            forall|x: int| 0 <= x < 6 ==> #[trigger] table.counts()[x] == start.counts()[x]
                + draws_k(i as int, j as int, k as int, Hand::at(x as nat)),
        decreases 52 - k,
    {
        if i != j && j != k && i != k {
            let c1 = deck[i];
            let c2 = deck[j];
            let c3 = deck[k];
            let ghost before = table.counts();
            table.push_sequence([c1, c2, c3]);
            proof {
                let h = kind_of(c1, c2, c3);
                assert forall|x: int| 0 <= x < 6 implies #[trigger] table.counts()[x] == before[x]
                    + (if Hand::at(x as nat) == h { 1int } else { 0int }) by {
                    assert(Hand::at(h.idx()) == h);
                    if x != h.idx() {
                        assert(Hand::at(x as nat) != h);
                    }
                }
            }
        }
        k = k + 1;
    }
}

/// Counts, for every ordered draw of three distinct cards from the deck, the
/// category of the hand it makes.
pub fn generate_all_games() -> (table: HandTable)
    ensures
        forall|x: int| 0 <= x < 6 ==> #[trigger] table.counts()[x] == ordered_draws(Hand::at(x as nat)),
        table.total() == 52 * 51 * 50,
{
    let deck = generate_deck();
    let mut table = HandTable::default();
    let n = deck.len();
    let mut i: usize = 0;
    while i < n
        invariant
            n == 52,
            deck@ == full_deck(),
            i <= 52,
            table.total() == 2550 * i,
            forall|x: int| 0 <= x < 6 ==> #[trigger] table.counts()[x] == draws_i(i as int, Hand::at(x as nat)),
        decreases 52 - i,
    {
        let mut j: usize = 0;
        while j < n
            invariant
                n == 52,
                deck@ == full_deck(),
                i < 52,
                j <= 52,
                table.total() == 2550 * i + 50 * (j - below(i as int, j as int)),
                forall|x: int| 0 <= x < 6 ==> #[trigger] table.counts()[x] == draws_i(i as int, Hand::at(x as nat))
                    + draws_j(i as int, j as int, Hand::at(x as nat)),
            decreases 52 - j,
        {
            push_third_cards(&mut table, &deck, i, j);
            j = j + 1;
        }
        i = i + 1;
    }
    table
}

} // verus!
