use vstd::prelude::*;

use crate::hand::{full_deck, generate_deck, get_hand, kind_of, kind_of_hand, Card, Hand};
use crate::table::{dot_to, lemma_weighted_bound, pay_values, ExpectedReturn, HandTable};

verus! {

/// The card is one of the three held.
pub open spec fn is_held(h: [Card; 3], c: Card) -> bool {
    c == h[0] || c == h[1] || c == h[2]
}

/// The category of the held hand with slot `i` replaced by `c`.
pub open spec fn swapped_kind(h: [Card; 3], i: int, c: Card) -> Hand {
    if i == 0 {
        kind_of(c, h[1], h[2])
    } else if i == 1 {
        kind_of(h[0], c, h[2])
    } else {
        kind_of(h[0], h[1], c)
    }
}

/// Among the first `n` deck cards, the number of cards not held that, put in
/// slot `i`, make a hand of category `kind`.
pub open spec fn swap_count(h: [Card; 3], i: int, n: int, kind: Hand) -> int
    decreases n,
{
    if n <= 0 {
        0
    } else {
        swap_count(h, i, n - 1, kind) + (if !is_held(h, full_deck()[n - 1]) && swapped_kind(
            h,
            i,
            full_deck()[n - 1],
        ) == kind {
            1int
        } else {
            0int
        })
    }
}

/// The number of cards not held among the first `n` of the deck.
pub open spec fn unheld_to(h: [Card; 3], n: int) -> int
    decreases n,
{
    if n <= 0 {
        0
    } else {
        unheld_to(h, n - 1) + (if !is_held(h, full_deck()[n - 1]) { 1int } else { 0int })
    }
}

/// The frequency table of replacing slot `i` by each card of the deck not held.
pub open spec fn swap_counts(h: [Card; 3], i: int) -> Seq<int> {
    Seq::new(6, |x: int| swap_count(h, i, 52, Hand::at(x as nat)))
}

/// The expected return of discarding slot `i`, as a fraction `(num, den)`.
pub open spec fn swap_return(h: [Card; 3], p: [usize; 6], i: int) -> (int, int) {
    (dot_to(swap_counts(h, i), pay_values(p), 6), unheld_to(h, 52))
}

/// The return of keeping all three cards, as a fraction.
pub open spec fn stand_return(h: [Card; 3], p: [usize; 6]) -> (int, int) {
    (p[kind_of_hand(h).idx() as int] as int, 1)
}

/// The fraction `a` is greater than the fraction `b` (both with positive denominators).
pub open spec fn ret_gt(a: (int, int), b: (int, int)) -> bool {
    a.0 * b.1 > b.0 * a.1
}

/// The slot whose replacement gives the best expected return, the lowest one on ties.
pub open spec fn best_slot(h: [Card; 3], p: [usize; 6]) -> int {
    let r0 = swap_return(h, p, 0);
    let r1 = swap_return(h, p, 1);
    let r2 = swap_return(h, p, 2);
    if ret_gt(r1, r0) {
        if ret_gt(r2, r1) {
            2
        } else {
            1
        }
    } else if ret_gt(r2, r0) {
        2
    } else {
        0
    }
}

/// Discarding the best slot beats keeping the hand.
pub open spec fn should_discard(h: [Card; 3], p: [usize; 6]) -> bool {
    ret_gt(swap_return(h, p, best_slot(h, p)), stand_return(h, p))
}

/// `out` is the advice for `h` under `p`: the best slot discarded where that
/// beats standing, else the whole hand kept.
pub open spec fn is_advice(h: [Card; 3], p: [usize; 6], out: [Option<Card>; 3]) -> bool {
    forall|k: int|
        0 <= k < 3 ==> #[trigger] out[k] == (if should_discard(h, p) && k == best_slot(h, p) {
            None
        } else {
            Some(h[k])
        })
}

/// The expected return of playing `out`: that of replacing its empty slot,
/// or that of standing where it keeps every card.
pub open spec fn play_return(h: [Card; 3], p: [usize; 6], out: [Option<Card>; 3]) -> (int, int) {
    if out[0] is None {
        swap_return(h, p, 0)
    } else if out[1] is None {
        swap_return(h, p, 1)
    } else if out[2] is None {
        swap_return(h, p, 2)
    } else {
        stand_return(h, p)
    }
}

/// The table of replacing slot `i` of `cards` by each deck card not held.
fn swap_table(cards: &[Card; 3], deck: &Vec<Card>, i: usize) -> (t: HandTable)
    requires
        deck@ == full_deck(),
        i < 3,
    ensures
        t.counts() == swap_counts(*cards, i as int),
        t.total() == unheld_to(*cards, 52),
        t.total() <= 52,
{
    let mut t = HandTable::default();
    let n = deck.len();
    let mut d: usize = 0;
    while d < n
        invariant
            n == 52,
            deck@ == full_deck(),
            i < 3,
            d <= 52,
            t.total() == unheld_to(*cards, d as int),
            t.total() <= d,
            forall|x: int| 0 <= x < 6 ==> #[trigger] t.counts()[x] == swap_count(*cards, i as int, d as int, Hand::at(x as nat)),
        decreases 52 - d,
    {
        let card = deck[d];
        if !(card == cards[0] || card == cards[1] || card == cards[2]) {
            let mut new_hand = *cards;
            new_hand[i] = card;
            let ghost before = t.counts();
            t.push_sequence(new_hand);
            proof {
                let h = swapped_kind(*cards, i as int, card);
                assert(kind_of_hand(new_hand) == h);
                assert forall|x: int| 0 <= x < 6 implies #[trigger] t.counts()[x] == before[x]
                    + (if Hand::at(x as nat) == h { 1int } else { 0int }) by {
                    assert(Hand::at(h.idx()) == h);
                    if x != h.idx() {
                        assert(Hand::at(x as nat) != h);
                    }
                }
            }
        }
        d = d + 1;
    }
    assert(t.counts() =~= swap_counts(*cards, i as int));
    t
}

/// Whether the return `a` beats the return `b`, each no more than 52 draws
/// of payouts that fit a machine word.
fn beats(a: &ExpectedReturn, b: &ExpectedReturn) -> (r: bool)
    requires
        a.num <= 52 * usize::MAX,
        b.num <= 52 * usize::MAX,
        a.den <= 52,
        b.den <= 52,
    ensures
        r == ret_gt((a.num as int, a.den as int), (b.num as int, b.den as int)),
{
    proof {
        assert(usize::MAX <= 0xffff_ffff_ffff_ffff);
        assert(a.num * b.den <= 52 * 0xffff_ffff_ffff_ffff * 52) by (nonlinear_arith)
            requires a.num <= 52 * 0xffff_ffff_ffff_ffff, b.den <= 52;
        assert(b.num * a.den <= 52 * 0xffff_ffff_ffff_ffff * 52) by (nonlinear_arith)
            requires b.num <= 52 * 0xffff_ffff_ffff_ffff, a.den <= 52;
    }
    a.num * b.den > b.num * a.den
}

/// The expected return of replacing slot `i`, computed.
fn swap_return_exec(cards: &[Card; 3], deck: &Vec<Card>, paytable: &[usize; 6], i: usize) -> (r: ExpectedReturn)
    requires
        deck@ == full_deck(),
        i < 3,
    ensures
        (r.num as int, r.den as int) == swap_return(*cards, *paytable, i as int),
        r.num <= 52 * usize::MAX,
        r.den <= 52,
{
    let table = swap_table(cards, deck, i);
    proof {
        lemma_weighted_bound(table, *paytable);
        assert(table.total() * usize::MAX <= 52 * usize::MAX) by (nonlinear_arith)
            requires 0 <= table.total() <= 52;
    }
    table.calculate_return_full(paytable)
}

/// Advises which card, if any, to discard from a held hand under a paytable:
/// the slot whose replacement by each card of the rest of the deck gives the
/// best expected return (the lowest slot on ties) is emptied if that return
/// beats the payout of the hand as it stands; otherwise every card is kept.
pub fn optimal_play(cards: [Card; 3], paytable: [usize; 6]) -> (r: [Option<Card>; 3])
    ensures
        is_advice(cards, paytable, r),
{
    let deck = generate_deck();
    let r0 = swap_return_exec(&cards, &deck, &paytable, 0);
    let r1 = swap_return_exec(&cards, &deck, &paytable, 1);
    let r2 = swap_return_exec(&cards, &deck, &paytable, 2);
    let mut max_return = r0;
    let mut max_idx: usize = 0;
    if beats(&r1, &max_return) {
        max_return = r1;
        max_idx = 1;
    }
    if beats(&r2, &max_return) {
        max_return = r2;
        max_idx = 2;
    }
    assert(max_idx == best_slot(cards, paytable));
    let current_hand = get_hand(&cards);
    let current_return = ExpectedReturn { num: paytable[current_hand.index()] as u128, den: 1 };
    let mut out = [Some(cards[0]), Some(cards[1]), Some(cards[2])];
    if beats(&max_return, &current_return) {
        out[max_idx] = None;
    }
    out
}

/// The first four cards of the deck are distinct, so one of them is not held.
proof fn lemma_some_unheld(h: [Card; 3], n: int)
    requires
        4 <= n <= 52,
    ensures
        unheld_to(h, n) >= 1,
    decreases n,
{
    if n > 4 {
        lemma_some_unheld(h, n - 1);
    } else {
        reveal_with_fuel(unheld_to, 5);
        let d = full_deck();
        assert(d[0].rank.ord() == 1 && d[1].rank.ord() == 2 && d[2].rank.ord() == 3 && d[3].rank.ord() == 4);
    }
}

/// A return at least as high as one at least as high as a third is at least
/// as high as the third.
proof fn lemma_ge_trans(a: (int, int), b: (int, int), c: (int, int))
    requires
        a.1 > 0,
        b.1 > 0,
        c.1 > 0,
        !ret_gt(b, a),
        !ret_gt(c, b),
    ensures
        !ret_gt(c, a),
{
    let (x, y, z) = (a.1, b.1, c.1);
    assert(a.0 * y * z >= b.0 * x * z) by (nonlinear_arith)
        requires a.0 * y >= b.0 * x, z > 0;
    assert(b.0 * x * z >= c.0 * y * x) by (nonlinear_arith)
        requires b.0 * z >= c.0 * y, x > 0;
    assert((a.0 * z) * y >= (c.0 * x) * y) by (nonlinear_arith)
        requires a.0 * y * z >= b.0 * x * z, b.0 * x * z >= c.0 * y * x;
    assert(a.0 * z >= c.0 * x) by (nonlinear_arith)
        requires (a.0 * z) * y >= (c.0 * x) * y, y > 0;
}

/// The advised play's expected return is the best of standing and of
/// discarding any one of the three cards.
pub proof fn lemma_advice_is_best(h: [Card; 3], p: [usize; 6], out: [Option<Card>; 3])
    requires
        is_advice(h, p, out),
    ensures
        !ret_gt(stand_return(h, p), play_return(h, p, out)),
        forall|i: int| 0 <= i < 3 ==> !ret_gt(#[trigger] swap_return(h, p, i), play_return(h, p, out)),
        play_return(h, p, out) == stand_return(h, p) || play_return(h, p, out) == swap_return(h, p, 0)
            || play_return(h, p, out) == swap_return(h, p, 1) || play_return(h, p, out) == swap_return(h, p, 2),
{
    lemma_some_unheld(h, 52);
    let r0 = swap_return(h, p, 0);
    let r1 = swap_return(h, p, 1);
    let r2 = swap_return(h, p, 2);
    let st = stand_return(h, p);
    let b = best_slot(h, p);
    let rb = swap_return(h, p, b);
    assert(out[0] == (if should_discard(h, p) && 0 == b { None } else { Some(h[0]) }));
    assert(out[1] == (if should_discard(h, p) && 1 == b { None } else { Some(h[1]) }));
    assert(out[2] == (if should_discard(h, p) && 2 == b { None } else { Some(h[2]) }));
    // The best slot's return is at least every slot's.
    if ret_gt(r1, r0) {
        if ret_gt(r2, r1) {
            lemma_ge_trans(r2, r1, r0);
        }
    } else if ret_gt(r2, r0) {
        lemma_ge_trans(r2, r0, r1);
    }
    assert(!ret_gt(r0, rb) && !ret_gt(r1, rb) && !ret_gt(r2, rb));
    if !should_discard(h, p) {
        lemma_ge_trans(st, rb, r0);
        lemma_ge_trans(st, rb, r1);
        lemma_ge_trans(st, rb, r2);
    }
    assert forall|i: int| 0 <= i < 3 implies !ret_gt(#[trigger] swap_return(h, p, i), play_return(h, p, out)) by {
        if i == 0 {
        } else if i == 1 {
        } else {
        }
    }
}

} // verus!
