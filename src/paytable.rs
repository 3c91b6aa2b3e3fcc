use vstd::prelude::*;

use crate::hand::N_HANDS;
use crate::table::{
    lemma_dot_bound, lemma_dot_mono, lemma_max_bound, lemma_max_le, lemma_sum_nonneg,
    lemma_word_square, max_of, pay_values, ExpectedReturn, HandTable,
};

verus! {

/// What a paytable slot pays: its value where it is filled, nothing where it is not.
pub open spec fn slot_pay(o: Option<usize>) -> int {
    match o {
        Some(v) => v as int,
        None => 0,
    }
}

/// A paytable under construction: each slot holds a payout or is still empty.
#[derive(Clone, Copy, Debug)]
pub struct HandPayGuess {
    pub pay: [Option<usize>; 6],
}

/// What each slot pays, empty slots paying nothing.
pub open spec fn slot_values(g: Seq<Option<usize>>) -> Seq<int> {
    Seq::new(6, |i: int| slot_pay(g[i]))
}

/// Slot `i` of `c` is slot `i` of `g`, or fills it with less than the slot
/// before it.
pub open spec fn fill_slot_ok(g: Seq<Option<usize>>, c: Seq<Option<usize>>, i: int) -> bool {
    &&& g[i] is Some ==> c[i] == g[i]
    &&& (g[i] is None && c[i] is Some) ==> {
        &&& i > 0
        &&& c[i - 1] is Some
        &&& c[i]->0 < c[i - 1]->0
    }
}

/// Empty slot `j` of `g` is filled in `c` only where the empty slot `i`
/// before it is.
pub open spec fn fill_order_ok(g: Seq<Option<usize>>, c: Seq<Option<usize>>, i: int, j: int) -> bool {
    (g[i] is None && g[j] is None && c[j] is Some) ==> c[i] is Some
}

/// `c` is `g` with none, some or all of its empty slots filled by the search:
/// the filled slots of `g` are kept, empty slots are filled in order, and each
/// newly filled slot pays strictly less than the slot before it.
pub open spec fn is_fill(g: Seq<Option<usize>>, c: Seq<Option<usize>>) -> bool {
    &&& c.len() == 6
    &&& forall|i: int| 0 <= i < 6 ==> #[trigger] fill_slot_ok(g, c, i)
    &&& forall|i: int, j: int| 0 <= i < j < 6 ==> #[trigger] fill_order_ok(g, c, i, j)
}

/// The fills `a` and `b` of `g` agree up to slot `k`, and there `a` is still
/// empty or holds more than `b`.
pub open spec fn visited_before_at(g: Seq<Option<usize>>, a: Seq<Option<usize>>, b: Seq<Option<usize>>, k: int) -> bool {
    &&& 0 <= k < 6
    &&& g[k] is None
    &&& forall|j: int| 0 <= j < k && g[j] is None ==> #[trigger] a[j] == b[j]
    &&& b[k] is Some
    &&& (a[k] is None || a[k]->0 > b[k]->0)
}

/// The search meets the fill `a` of `g` before the fill `b`.
pub open spec fn visited_before(g: Seq<Option<usize>>, a: Seq<Option<usize>>, b: Seq<Option<usize>>) -> bool {
    exists|k: int| visited_before_at(g, a, b, k)
}

/// The payouts never grow from one category to the next worse one.
pub open spec fn is_monotone(p: Seq<int>) -> bool {
    forall|i: int| 0 <= i < 5 ==> #[trigger] p[i] >= p[i + 1]
}

/// A guess whose filled slots already descend, and whose slots after the first
/// empty one are empty or pay nothing: every fill of it descends.
pub open spec fn is_ordered_guess(g: Seq<Option<usize>>) -> bool {
    &&& is_monotone(slot_values(g))
    &&& forall|i: int, j: int|
        0 <= i < j < 6 && (#[trigger] g[i]) is None && (#[trigger] g[j]) is Some ==> g[j]->0 == 0
}

/// The number of empty slots among the first `n`.
pub open spec fn empty_to(g: Seq<Option<usize>>, n: int) -> int
    decreases n,
{
    if n <= 0 {
        0
    } else {
        empty_to(g, n - 1) + (if g[n - 1] is None { 1int } else { 0int })
    }
}

/// The band of expected returns `(low / scale, high / scale]`.
#[derive(Clone, Copy, Debug)]
pub struct ReturnBand {
    pub low: u64,
    pub high: u64,
    pub scale: u64,
}

impl ReturnBand {
    /// The return `w / t` lies above the bottom of the band.
    #[verifier::opaque]
    pub open spec fn above_low(self, w: int, t: int) -> bool {
        self.low * t < w * self.scale
    }

    /// The return `w / t` lies above the top of the band.
    #[verifier::opaque]
    pub open spec fn above_high(self, w: int, t: int) -> bool {
        self.high * t < w * self.scale
    }

    /// The return `w / t` lies in the band.
    pub open spec fn holds(self, w: int, t: int) -> bool {
        self.above_low(w, t) && !self.above_high(w, t)
    }
}

impl HandTable {
    /// No fill of `g` in the band comes before `c` in search order.
    pub open spec fn is_first_solution(self, g: Seq<Option<usize>>, c: Seq<Option<usize>>, band: ReturnBand) -> bool {
        forall|c2: Seq<Option<usize>>|
            is_fill(g, c2) && band.holds(self.weighted(slot_values(c2)), self.total())
                ==> !#[trigger] visited_before(g, c2, c)
    }

    /// Some fill of `g` has its expected return in the band.
    pub open spec fn has_solution(self, g: Seq<Option<usize>>, band: ReturnBand) -> bool {
        exists|c: Seq<Option<usize>>|
            is_fill(g, c) && #[trigger] band.holds(self.weighted(slot_values(c)), self.total())
    }

    /// The expected return of a paytable, as the exact fraction of the sum of
    /// counts times payouts over the number of draws. Empty slots pay nothing.
    pub fn calculate_return(&self, guess: &HandPayGuess) -> (r: ExpectedReturn)
        requires
            self.wf(),
        ensures
            r.num == self.weighted(slot_values(guess.pay@)),
            r.den == self.total(),
    {
        let pays = filled_pays(guess);
        ExpectedReturn { num: self.weighted_sum(&pays), den: self.total_count() }
    }

    /// Searches depth first for a fill of `guess` whose expected return lies in
    /// `band`. The first empty slot takes each value below the slot before it,
    /// from the highest down, and the search goes on from there; a guess whose
    /// return is already above the band is given up.
    pub fn build_paytable(&self, guess: HandPayGuess, band: &ReturnBand) -> (r: Option<HandPayGuess>)
        requires
            self.wf(),
            guess.pay[0] is Some,
            self.total() * max_of(slot_values(guess.pay@), 6) * band.scale <= u128::MAX,
        ensures
            r matches Some(c) ==> {
                &&& is_fill(guess.pay@, c.pay@)
                &&& band.holds(self.weighted(slot_values(c.pay@)), self.total())
                &&& self.is_first_solution(guess.pay@, c.pay@, *band)
                &&& is_ordered_guess(guess.pay@) ==> is_monotone(slot_values(c.pay@))
            },
            r is None <==> !self.has_solution(guess.pay@, *band),
        decreases empty_to(guess.pay@, 6),
    {
        let ghost g = guess.pay@;
        let ret = self.calculate_return(&guess);
        proof {
            lemma_fill_refl(g);
            lemma_sum_nonneg(self.counts(), 6);
            lemma_fill_bounds(*self, g, g);
            lemma_scale_bound(self.total(), ret.num as int, max_of(slot_values(g), 6), band.scale as int);
            lemma_word_square();
            assert(band.high * self.total() <= u128::MAX) by (nonlinear_arith)
                requires 0 <= band.high <= 0xffff_ffff_ffff_ffff, 0 <= self.total() <= usize::MAX,
                    usize::MAX <= 0xffff_ffff_ffff_ffff;
            assert(band.low * self.total() <= u128::MAX) by (nonlinear_arith)
                requires 0 <= band.low <= 0xffff_ffff_ffff_ffff, 0 <= self.total() <= usize::MAX,
                    usize::MAX <= 0xffff_ffff_ffff_ffff;
        }
        let scaled = ret.num * band.scale as u128;
        if scaled > band.high as u128 * ret.den {
            proof {
                reveal(ReturnBand::above_high);
                lemma_above_high_no_solution(*self, g, *band);
            }
            None
        } else if scaled > band.low as u128 * ret.den {
            proof {
                reveal(ReturnBand::above_high);
                reveal(ReturnBand::above_low);
                lemma_ordered_fill_monotone(g, g);
                assert(band.holds(self.weighted(slot_values(g)), self.total()));
            }
            Some(guess)
        } else {
            proof {
                reveal(ReturnBand::above_low);
            }
            match first_empty(&guess) {
                None => {
                    proof {
                        lemma_full_no_solution(*self, g, *band);
                    }
                    None
                },
                Some(idx) => {
                    let ceiling = guess.pay[idx - 1].unwrap();
                    let mut v: usize = ceiling;
                    while v > 0
                        invariant
                            self.wf(),
                            g == guess.pay@,
                            0 < idx < 6,
                            g[idx as int] is None,
                            forall|j: int| 0 <= j < idx ==> (#[trigger] g[j]) is Some,
                            g[idx - 1] == Some(ceiling),
                            g[0] is Some,
                            v <= ceiling,
                            !band.above_low(self.weighted(slot_values(g)), self.total()),
                            self.total() * max_of(slot_values(g), 6) * band.scale <= u128::MAX,
                            forall|w: usize|
                                v <= w < ceiling ==> !#[trigger] self.has_solution(
                                    g.update(idx as int, Some(w)),
                                    *band,
                                ),
                        decreases v,
                    {
                        v = v - 1;
                        let mut next = guess;
                        next.pay[idx] = Some(v);
                        let ghost n = next.pay@;
                        proof {
                            assert(n == g.update(idx as int, Some(v)));
                            lemma_empty_fill_one(g, idx as int, v, 6);
                            assert(empty_to(next.pay@, 6) < empty_to(guess.pay@, 6));
                            lemma_top_fill_one(g, idx as int, v, 6);
                            let t = self.total();
                            lemma_sum_nonneg(self.counts(), 6);
                            lemma_max_bound(slot_values(n), 6);
                            let a = max_of(slot_values(n), 6);
                            let b = max_of(slot_values(g), 6);
                            assert(t * a * band.scale <= t * b * band.scale) by (nonlinear_arith)
                                requires 0 <= t, 0 <= a <= b, 0 <= band.scale;
                        }
                        let found = self.build_paytable(next, band);
                        if found.is_some() {
                            proof {
                                let c = found->0.pay@;
                                lemma_fill_step(g, idx as int, v, c);
                                lemma_ordered_fill_monotone(g, c);
                                assert(band.holds(self.weighted(slot_values(c)), self.total()));
                                lemma_first_found(*self, g, idx as int, v, c, *band);
                            }
                            return found;
                        }
                    }
                    proof {
                        lemma_exhausted_no_solution(*self, g, idx as int, *band);
                    }
                    None
                },
            }
        }
    }
}

/// The payouts of a guess, empty slots paying nothing.
fn filled_pays(guess: &HandPayGuess) -> (r: [usize; 6])
    ensures
        pay_values(r) == slot_values(guess.pay@),
{
    let mut r: [usize; 6] = [0, 0, 0, 0, 0, 0];
    let mut i: usize = 0;
    while i < N_HANDS
        invariant
            i <= 6,
            forall|j: int| 0 <= j < i ==> r[j] as int == slot_pay(guess.pay@[j]),
        decreases 6 - i,
    {
        if let Some(v) = guess.pay[i] {
            r[i] = v;
        } else {
            r[i] = 0;
        }
        i = i + 1;
    }
    assert(pay_values(r) =~= slot_values(guess.pay@));
    r
}

/// The first empty slot of a guess, if it has one.
fn first_empty(guess: &HandPayGuess) -> (r: Option<usize>)
    ensures
        r matches Some(i) ==> i < 6 && guess.pay@[i as int] is None
            && forall|j: int| 0 <= j < i ==> (#[trigger] guess.pay@[j]) is Some,
        r is None ==> forall|j: int| 0 <= j < 6 ==> (#[trigger] guess.pay@[j]) is Some,
{
    let mut i: usize = 0;
    while i < N_HANDS
        invariant
            i <= 6,
            forall|j: int| 0 <= j < i ==> (#[trigger] guess.pay@[j]) is Some,
        decreases 6 - i,
    {
        if guess.pay[i].is_none() {
            return Some(i);
        }
        i = i + 1;
    }
    None
}

proof fn lemma_scale_le(a: int, b: int, k: int)
    requires
        a <= b,
        0 <= k,
    ensures
        a * k <= b * k,
{
    assert(a * k <= b * k) by (nonlinear_arith)
        requires a <= b, 0 <= k;
}

proof fn lemma_scale_bound(t: int, w: int, top: int, k: int)
    requires
        0 <= w <= t * top,
        0 <= t,
        0 <= top,
        0 <= k,
        t * top * k <= u128::MAX,
    ensures
        0 <= w * k <= u128::MAX,
{
    assert(0 <= w * k <= t * top * k) by (nonlinear_arith)
        requires 0 <= w <= t * top, 0 <= k;
}

proof fn lemma_fill_refl(g: Seq<Option<usize>>)
    requires
        g.len() == 6,
    ensures
        is_fill(g, g),
{
}

/// Every slot of a fill pays at most the best-paying slot of the guess.
proof fn lemma_fill_top(g: Seq<Option<usize>>, c: Seq<Option<usize>>, n: int)
    requires
        g.len() == 6,
        c.len() == 6,
        0 <= n <= 6,
        is_fill(g, c),
    ensures
        forall|i: int| 0 <= i < n ==> 0 <= #[trigger] slot_values(c)[i] <= max_of(slot_values(g), 6),
    decreases n,
{
    lemma_max_bound(slot_values(g), 6);
    if n > 0 {
        lemma_fill_top(g, c, n - 1);
        let i = n - 1;
        assert(fill_slot_ok(g, c, i));
        if g[i] is None && c[i] is Some {
            assert(slot_values(c)[i - 1] <= max_of(slot_values(g), 6));
        } else if g[i] is Some {
            assert(slot_values(g)[i] <= max_of(slot_values(g), 6));
        }
    }
}

/// Filling slots never lowers the return, and never lifts the sum of counts
/// times payouts above the total times the best payout of the guess.
proof fn lemma_fill_bounds(t: HandTable, g: Seq<Option<usize>>, c: Seq<Option<usize>>)
    requires
        g.len() == 6,
        c.len() == 6,
        is_fill(g, c),
    ensures
        0 <= t.weighted(slot_values(g)) <= t.weighted(slot_values(c)),
        t.weighted(slot_values(c)) <= t.total() * max_of(slot_values(g), 6),
{
    let top = max_of(slot_values(g), 6);
    lemma_fill_top(g, c, 6);
    lemma_fill_top(g, g, 6);
    assert forall|j: int| 0 <= j < 6 implies #[trigger] slot_values(g)[j] <= slot_values(c)[j] by {
        assert(fill_slot_ok(g, c, j));
    }
    lemma_dot_mono(t.counts(), slot_values(g), slot_values(c), 6);
    lemma_dot_bound(t.counts(), slot_values(c), 6, top);
    lemma_dot_bound(t.counts(), slot_values(g), 6, top);
}

/// A guess with no empty slot has itself as its only fill.
proof fn lemma_fill_full(g: Seq<Option<usize>>, c: Seq<Option<usize>>)
    requires
        g.len() == 6,
        c.len() == 6,
        forall|j: int| 0 <= j < 6 ==> (#[trigger] g[j]) is Some,
        is_fill(g, c),
    ensures
        forall|j: int| 0 <= j < 6 ==> #[trigger] c[j] == g[j],
{
    assert forall|j: int| 0 <= j < 6 implies #[trigger] c[j] == g[j] by {
        assert(fill_slot_ok(g, c, j));
    }
}

/// A fill that leaves the first empty slot empty fills nothing.
proof fn lemma_fill_unfilled(g: Seq<Option<usize>>, idx: int, c: Seq<Option<usize>>)
    requires
        g.len() == 6,
        c.len() == 6,
        0 <= idx < 6,
        g[idx] is None,
        forall|j: int| 0 <= j < idx ==> (#[trigger] g[j]) is Some,
        is_fill(g, c),
        c[idx] is None,
    ensures
        forall|j: int| 0 <= j < 6 ==> #[trigger] c[j] == g[j],
{
    assert forall|j: int| 0 <= j < 6 implies #[trigger] c[j] == g[j] by {
        assert(fill_slot_ok(g, c, j));
        if j > idx {
            assert(fill_order_ok(g, c, idx, j));
        }
    }
}

/// Filling the first empty slot of a guess removes one empty slot.
proof fn lemma_empty_fill_one(g: Seq<Option<usize>>, idx: int, v: usize, n: int)
    requires
        g.len() == 6,
        0 <= idx < 6,
        0 <= n <= 6,
        g[idx] is None,
    ensures
        empty_to(g.update(idx, Some(v)), n) == empty_to(g, n) - (if idx < n { 1int } else { 0int }),
        empty_to(g.update(idx, Some(v)), n) >= 0,
    decreases n,
{
    if n > 0 {
        lemma_empty_fill_one(g, idx, v, n - 1);
    }
}

/// Filling a slot with less than the slot before it keeps the best payout.
proof fn lemma_top_fill_one(g: Seq<Option<usize>>, idx: int, v: usize, n: int)
    requires
        g.len() == 6,
        0 < idx < 6,
        n == 6,
        g[idx - 1] is Some,
        v < g[idx - 1]->0,
    ensures
        max_of(slot_values(g.update(idx, Some(v))), 6) <= max_of(slot_values(g), 6),
{
    let top = max_of(slot_values(g), 6);
    let s = slot_values(g.update(idx, Some(v)));
    lemma_max_bound(slot_values(g), 6);
    assert forall|i: int| 0 <= i < 6 implies 0 <= #[trigger] s[i] <= top by {
        if i == idx {
            assert(slot_values(g)[idx - 1] <= top);
        } else {
            assert(slot_values(g)[i] <= top);
        }
    }
    lemma_max_le(s, 6, top);
}

/// A fill of the guess with its first empty slot set to `v` is a fill of the guess.
proof fn lemma_fill_step(g: Seq<Option<usize>>, idx: int, v: usize, c: Seq<Option<usize>>)
    requires
        g.len() == 6,
        c.len() == 6,
        0 < idx < 6,
        g[idx] is None,
        forall|j: int| 0 <= j < idx ==> (#[trigger] g[j]) is Some,
        v < g[idx - 1]->0,
        is_fill(g.update(idx, Some(v)), c),
    ensures
        is_fill(g, c),
{
    let n = g.update(idx, Some(v));
    assert(fill_slot_ok(n, c, idx));
    assert(fill_slot_ok(n, c, idx - 1));
    assert forall|i: int| 0 <= i < 6 implies #[trigger] fill_slot_ok(g, c, i) by {
        assert(fill_slot_ok(n, c, i));
    }
    assert forall|i: int, j: int| 0 <= i < j < 6 implies #[trigger] fill_order_ok(g, c, i, j) by {
        assert(fill_order_ok(n, c, i, j));
        if i < idx {
            assert(g[i] is Some);
        }
    }
}

/// A fill that fills the first empty slot is a fill of the guess with that
/// slot set, to a value below the slot before it.
proof fn lemma_fill_split(g: Seq<Option<usize>>, idx: int, c: Seq<Option<usize>>)
    requires
        g.len() == 6,
        c.len() == 6,
        0 < idx < 6,
        g[idx] is None,
        forall|j: int| 0 <= j < idx ==> (#[trigger] g[j]) is Some,
        is_fill(g, c),
        c[idx] is Some,
    ensures
        is_fill(g.update(idx, c[idx]), c),
        c[idx]->0 < g[idx - 1]->0,
{
    let n = g.update(idx, c[idx]);
    assert(fill_slot_ok(g, c, idx));
    assert(fill_slot_ok(g, c, idx - 1));
    assert forall|i: int| 0 <= i < 6 implies #[trigger] fill_slot_ok(n, c, i) by {
        assert(fill_slot_ok(g, c, i));
    }
    assert forall|i: int, j: int| 0 <= i < j < 6 implies #[trigger] fill_order_ok(n, c, i, j) by {
        assert(fill_order_ok(g, c, i, j));
    }
}

/// Every fill of an ordered guess descends.
proof fn lemma_ordered_fill_monotone(g: Seq<Option<usize>>, c: Seq<Option<usize>>)
    requires
        g.len() == 6,
        c.len() == 6,
        is_fill(g, c),
    ensures
        is_ordered_guess(g) ==> is_monotone(slot_values(c)),
{
    if is_ordered_guess(g) {
        assert forall|i: int| 0 <= i < 5 implies #[trigger] slot_values(c)[i] >= slot_values(c)[i + 1] by {
            assert(fill_slot_ok(g, c, i));
            assert(fill_slot_ok(g, c, i + 1));
            if c[i + 1] is Some {
                if g[i + 1] is Some {
                    assert(c[i + 1] == g[i + 1]);
                    if g[i] is Some {
                        assert(c[i] == g[i]);
                        assert(slot_values(g)[i] >= slot_values(g)[i + 1]);
                    } else {
                        assert(g[i + 1]->0 == 0);
                    }
                }
            }
        }
    }
}


/// A guess whose return is above the band has no fill in the band.
proof fn lemma_above_high_no_solution(t: HandTable, g: Seq<Option<usize>>, band: ReturnBand)
    requires
        g.len() == 6,
        band.above_high(t.weighted(slot_values(g)), t.total()),
    ensures
        !t.has_solution(g, band),
{
    assert forall|c: Seq<Option<usize>>| is_fill(g, c) implies
        !#[trigger] band.holds(t.weighted(slot_values(c)), t.total()) by {
        lemma_fill_bounds(t, g, c);
        lemma_scale_le(t.weighted(slot_values(g)), t.weighted(slot_values(c)), band.scale as int);
        reveal(ReturnBand::above_high);
    }
}

/// A complete guess whose return is not above the bottom of the band has no
/// fill in the band.
proof fn lemma_full_no_solution(t: HandTable, g: Seq<Option<usize>>, band: ReturnBand)
    requires
        g.len() == 6,
        forall|j: int| 0 <= j < 6 ==> (#[trigger] g[j]) is Some,
        !band.above_low(t.weighted(slot_values(g)), t.total()),
    ensures
        !t.has_solution(g, band),
{
    assert forall|c: Seq<Option<usize>>| is_fill(g, c) implies
        !#[trigger] band.holds(t.weighted(slot_values(c)), t.total()) by {
        lemma_fill_full(g, c);
        assert(slot_values(c) =~= slot_values(g));
    }
}

/// Where no value of the first empty slot leads to a solution, and the guess
/// itself is below the band, the guess has no fill in the band.
proof fn lemma_exhausted_no_solution(t: HandTable, g: Seq<Option<usize>>, idx: int, band: ReturnBand)
    requires
        g.len() == 6,
        0 < idx < 6,
        g[idx] is None,
        g[idx - 1] is Some,
        forall|j: int| 0 <= j < idx ==> (#[trigger] g[j]) is Some,
        !band.above_low(t.weighted(slot_values(g)), t.total()),
        forall|w: usize| w < g[idx - 1]->0 ==> !#[trigger] t.has_solution(g.update(idx, Some(w)), band),
    ensures
        !t.has_solution(g, band),
{
    assert forall|c: Seq<Option<usize>>| is_fill(g, c) implies
        !#[trigger] band.holds(t.weighted(slot_values(c)), t.total()) by {
        if c[idx] is Some {
            let w = c[idx]->0;
            lemma_fill_split(g, idx, c);
            assert(!t.has_solution(g.update(idx, Some(w)), band));
        } else {
            lemma_fill_unfilled(g, idx, c);
            assert(slot_values(c) =~= slot_values(g));
        }
    }
}


/// The solution found under the value `v` of the first empty slot is the first
/// one of the guess, where the guess itself and every higher value of that
/// slot have none.
proof fn lemma_first_found(
    t: HandTable,
    g: Seq<Option<usize>>,
    idx: int,
    v: usize,
    c: Seq<Option<usize>>,
    band: ReturnBand,
)
    requires
        g.len() == 6,
        0 < idx < 6,
        g[idx] is None,
        g[idx - 1] is Some,
        forall|j: int| 0 <= j < idx ==> (#[trigger] g[j]) is Some,
        !band.holds(t.weighted(slot_values(g)), t.total()),
        forall|w: usize| v < w < g[idx - 1]->0 ==> !#[trigger] t.has_solution(g.update(idx, Some(w)), band),
        is_fill(g.update(idx, Some(v)), c),
        t.is_first_solution(g.update(idx, Some(v)), c, band),
    ensures
        t.is_first_solution(g, c, band),
{
    let n = g.update(idx, Some(v));
    assert(fill_slot_ok(n, c, idx));
    assert forall|c2: Seq<Option<usize>>|
        is_fill(g, c2) && band.holds(t.weighted(slot_values(c2)), t.total()) implies
            !#[trigger] visited_before(g, c2, c) by {
        if visited_before(g, c2, c) {
            let k = choose|k: int| visited_before_at(g, c2, c, k);
            if c2[idx] is None {
                lemma_fill_unfilled(g, idx, c2);
                assert(slot_values(c2) =~= slot_values(g));
            } else {
                let w = c2[idx]->0;
                lemma_fill_split(g, idx, c2);
                if w > v {
                    assert(!t.has_solution(g.update(idx, Some(w)), band));
                } else if w < v {
                    if k > idx {
                        assert(c2[idx] == c[idx]);
                    }
                } else {
                    assert(g.update(idx, c2[idx]) == n);
                    if k > idx {
                        assert(visited_before_at(n, c2, c, k));
                    }
                    assert(!visited_before(n, c2, c));
                }
            }
        }
    }
}

} // verus!
