use vstd::prelude::*;

use crate::hand::{get_hand, kind_of_hand, Card, Hand, N_HANDS};

verus! {

/// The sum of the first `n` entries of `s`.
pub open spec fn sum_to(s: Seq<int>, n: int) -> int
    decreases n,
{
    if n <= 0 {
        0
    } else {
        sum_to(s, n - 1) + s[n - 1]
    }
}

/// The dot product of the first `n` entries of `a` and `b`.
pub open spec fn dot_to(a: Seq<int>, b: Seq<int>, n: int) -> int
    decreases n,
{
    if n <= 0 {
        0
    } else {
        dot_to(a, b, n - 1) + a[n - 1] * b[n - 1]
    }
}

/// The payouts of a complete paytable, as integers.
pub open spec fn pay_values(p: [usize; 6]) -> Seq<int> {
    Seq::new(6, |i: int| p[i] as int)
}

/// How many draws of each hand category were seen, indexed by category.
#[derive(Clone, Copy, Debug)]
pub struct HandTable {
    pub hands: [usize; 6],
}

/// An exact expected return: `num / den`.
#[derive(Clone, Copy, Debug)]
pub struct ExpectedReturn {
    pub num: u128,
    pub den: u128,
}

impl HandTable {
    /// The counts, indexed by category.
    pub open spec fn counts(self) -> Seq<int> {
        Seq::new(6, |i: int| self.hands[i] as int)
    }

    /// The number of draws in the table.
    pub open spec fn total(self) -> int {
        sum_to(self.counts(), 6)
    }

    /// The table's draw count fits a machine word.
    pub open spec fn wf(self) -> bool {
        self.total() <= usize::MAX
    }

    /// The sum of counts times payouts: the expected return times the total.
    pub open spec fn weighted(self, pays: Seq<int>) -> int {
        dot_to(self.counts(), pays, 6)
    }

    /// Records one three-card draw.
    pub fn push_sequence(&mut self, cards: [Card; 3])
        requires
            old(self).total() < usize::MAX,
        ensures
            final(self).counts() == old(self).counts().update(
                kind_of_hand(cards).idx() as int,
                old(self).counts()[kind_of_hand(cards).idx() as int] + 1,
            ),
            final(self).total() == old(self).total() + 1,
    {
        let hand = get_hand(&cards);
        let i = hand.index();
        proof {
            lemma_sum_bounds_entry(self.counts(), 6, i as int);
        }
        let ghost before = self.counts();
        self.hands[i] = self.hands[i] + 1;
        proof {
            assert(self.counts() =~= before.update(i as int, before[i as int] + 1));
            lemma_sum_update(before, 6, i as int, before[i as int] + 1);
        }
    }

    /// Merges two tables of disjoint draws, count by count.
    pub fn add(self, other: HandTable) -> (r: HandTable)
        requires
            self.total() + other.total() <= usize::MAX,
        ensures
            forall|i: int| 0 <= i < 6 ==> #[trigger] r.counts()[i] == self.counts()[i] + other.counts()[i],
            r.total() == self.total() + other.total(),
    {
        proof {
            reveal_with_fuel(sum_to, 7);
        }
        let a = self.hands;
        let b = other.hands;
        let r = HandTable {
            hands: [a[0] + b[0], a[1] + b[1], a[2] + b[2], a[3] + b[3], a[4] + b[4], a[5] + b[5]],
        };
        r
    }

    /// The number of draws in the table, computed.
    pub(crate) fn total_count(&self) -> (r: u128)
        ensures
            r == self.total(),
    {
        proof {
            reveal_with_fuel(sum_to, 7);
        }
        let h = self.hands;
        h[0] as u128 + h[1] as u128 + h[2] as u128 + h[3] as u128 + h[4] as u128 + h[5] as u128
    }

    /// The sum of counts times payouts, computed.
    pub(crate) fn weighted_sum(&self, pays: &[usize; 6]) -> (r: u128)
        requires
            self.wf(),
        ensures
            r == self.weighted(pay_values(*pays)),
    {
        let ghost p = pay_values(*pays);
        proof {
            lemma_sum_nonneg(self.counts(), 6);
            lemma_max_le(p, 6, usize::MAX as int);
            lemma_word_square();
            lemma_dot_bound(self.counts(), p, 6, max_of(p, 6));
            let top = max_of(p, 6);
            assert(self.total() * top <= usize::MAX * usize::MAX) by (nonlinear_arith)
                requires 0 <= self.total() <= usize::MAX, 0 <= top <= usize::MAX;
            reveal_with_fuel(dot_to, 7);
            lemma_dot_prefix_le(self.counts(), p, 1, 6);
            lemma_dot_prefix_le(self.counts(), p, 2, 6);
            lemma_dot_prefix_le(self.counts(), p, 3, 6);
            lemma_dot_prefix_le(self.counts(), p, 4, 6);
            lemma_dot_prefix_le(self.counts(), p, 5, 6);
        }
        let h = self.hands;
        let w0 = h[0] as u128 * pays[0] as u128;
        let w1 = w0 + h[1] as u128 * pays[1] as u128;
        let w2 = w1 + h[2] as u128 * pays[2] as u128;
        let w3 = w2 + h[3] as u128 * pays[3] as u128;
        let w4 = w3 + h[4] as u128 * pays[4] as u128;
        w4 + h[5] as u128 * pays[5] as u128
    }

    /// The expected return of a complete paytable.
    pub fn calculate_return_full(&self, pays: &[usize; 6]) -> (r: ExpectedReturn)
        requires
            self.wf(),
        ensures
            r.num == self.weighted(pay_values(*pays)),
            r.den == self.total(),
    {
        ExpectedReturn { num: self.weighted_sum(pays), den: self.total_count() }
    }

}

/// An empty table.
impl Default for HandTable {
    fn default() -> (r: HandTable)
        ensures
            forall|i: int| 0 <= i < 6 ==> #[trigger] r.counts()[i] == 0,
            r.total() == 0,
    {
        proof {
            reveal_with_fuel(sum_to, 7);
        }
        HandTable { hands: [0, 0, 0, 0, 0, 0] }
    }
}

/// The rows of a table ready for display: each category with its count, best first.
pub struct PrintTable {
    pub rows: Vec<(Hand, usize)>,
}

impl PrintTable {
    /// The rows of `table`, one per category in index order.
    pub fn from_table(table: &HandTable) -> (r: PrintTable)
        ensures
            r.rows@.len() == 6,
            forall|i: int| 0 <= i < 6 ==> (#[trigger] r.rows@[i]).0 == Hand::at(i as nat) && r.rows@[i].1 == table.hands[i],
    {
        let mut rows: Vec<(Hand, usize)> = Vec::new();
        let mut i: usize = 0;
        while i < N_HANDS
            invariant
                i <= 6,
                rows@.len() == i,
                forall|j: int| 0 <= j < i ==> (#[trigger] rows@[j]).0 == Hand::at(j as nat) && rows@[j].1 == table.hands[j],
            decreases 6 - i,
        {
            let hand = Hand::from_index(i).unwrap();
            rows.push((hand, table.hands[i]));
            i = i + 1;
        }
        PrintTable { rows }
    }
}

/// The greatest of the first `n` entries of `s`, and 0 where there are none.
pub open spec fn max_of(s: Seq<int>, n: int) -> int
    decreases n,
{
    if n <= 0 {
        0
    } else if s[n - 1] > max_of(s, n - 1) {
        s[n - 1]
    } else {
        max_of(s, n - 1)
    }
}

/// The product of two machine words fits 128 bits.
pub proof fn lemma_word_square()
    ensures
        usize::MAX * usize::MAX <= u128::MAX,
{
    assert(usize::MAX <= 0xffff_ffff_ffff_ffff);
    assert(usize::MAX * usize::MAX <= 0xffff_ffff_ffff_ffff * 0xffff_ffff_ffff_ffff) by (nonlinear_arith)
        requires 0 <= usize::MAX <= 0xffff_ffff_ffff_ffff;
}

pub(crate) proof fn lemma_max_bound(s: Seq<int>, n: int)
    requires
        0 <= n <= s.len(),
    ensures
        max_of(s, n) >= 0,
        forall|i: int| 0 <= i < n ==> #[trigger] s[i] <= max_of(s, n),
    decreases n,
{
    if n > 0 {
        lemma_max_bound(s, n - 1);
    }
}

pub(crate) proof fn lemma_max_le(s: Seq<int>, n: int, b: int)
    requires
        0 <= n <= s.len(),
        0 <= b,
        forall|i: int| 0 <= i < n ==> 0 <= #[trigger] s[i] <= b,
    ensures
        0 <= max_of(s, n) <= b,
        forall|i: int| 0 <= i < n ==> #[trigger] s[i] <= max_of(s, n),
    decreases n,
{
    lemma_max_bound(s, n);
    if n > 0 {
        lemma_max_le(s, n - 1, b);
    }
}

pub(crate) proof fn lemma_sum_nonneg(s: Seq<int>, n: int)
    requires
        0 <= n <= s.len(),
        forall|i: int| 0 <= i < s.len() ==> s[i] >= 0,
    ensures
        sum_to(s, n) >= 0,
    decreases n,
{
    if n > 0 {
        lemma_sum_nonneg(s, n - 1);
    }
}

proof fn lemma_sum_bounds_entry(s: Seq<int>, n: int, i: int)
    requires
        0 <= i < n <= s.len(),
        forall|j: int| 0 <= j < s.len() ==> s[j] >= 0,
    ensures
        s[i] <= sum_to(s, n),
    decreases n,
{
    lemma_sum_nonneg(s, n - 1);
    if i < n - 1 {
        lemma_sum_bounds_entry(s, n - 1, i);
    }
}

proof fn lemma_sum_update(s: Seq<int>, n: int, i: int, v: int)
    requires
        0 <= i < s.len(),
        0 <= n <= s.len(),
    ensures
        sum_to(s.update(i, v), n) == sum_to(s, n) + (if i < n { v - s[i] } else { 0 }),
    decreases n,
{
    if n > 0 {
        lemma_sum_update(s, n - 1, i, v);
    }
}

pub(crate) proof fn lemma_dot_bound(a: Seq<int>, p: Seq<int>, n: int, top: int)
    requires
        0 <= n <= a.len(),
        n <= p.len(),
        forall|j: int| 0 <= j < a.len() ==> a[j] >= 0,
        forall|j: int| 0 <= j < n ==> 0 <= #[trigger] p[j] <= top,
    ensures
        0 <= dot_to(a, p, n) <= sum_to(a, n) * top,
    decreases n,
{
    if n > 0 {
        lemma_dot_bound(a, p, n - 1, top);
        let x = a[n - 1];
        let y = p[n - 1];
        assert(0 <= x * y <= x * top) by (nonlinear_arith)
            requires 0 <= x, 0 <= y <= top;
        assert(sum_to(a, n) * top == sum_to(a, n - 1) * top + x * top) by (nonlinear_arith)
            requires sum_to(a, n) == sum_to(a, n - 1) + x;
    }
}

proof fn lemma_dot_prefix_le(a: Seq<int>, p: Seq<int>, m: int, n: int)
    requires
        0 <= m <= n <= a.len(),
        n <= p.len(),
        forall|j: int| 0 <= j < a.len() ==> a[j] >= 0,
        forall|j: int| 0 <= j < p.len() ==> p[j] >= 0,
    ensures
        0 <= dot_to(a, p, m) <= dot_to(a, p, n),
    decreases n,
{
    if n > 0 {
        let x = a[n - 1];
        let y = p[n - 1];
        assert(0 <= x * y) by (nonlinear_arith)
            requires 0 <= x, 0 <= y;
        if m < n {
            lemma_dot_prefix_le(a, p, m, n - 1);
        } else {
            lemma_dot_prefix_le(a, p, n - 1, n - 1);
        }
    }
}


pub(crate) proof fn lemma_dot_mono(a: Seq<int>, p: Seq<int>, q: Seq<int>, n: int)
    requires
        0 <= n <= a.len(),
        n <= p.len(),
        n <= q.len(),
        forall|j: int| 0 <= j < a.len() ==> a[j] >= 0,
        forall|j: int| 0 <= j < n ==> #[trigger] p[j] <= q[j],
    ensures
        dot_to(a, p, n) <= dot_to(a, q, n),
    decreases n,
{
    if n > 0 {
        lemma_dot_mono(a, p, q, n - 1);
        let x = a[n - 1];
        assert(x * p[n - 1] <= x * q[n - 1]) by (nonlinear_arith)
            requires 0 <= x, p[n - 1] <= q[n - 1];
    }
}

/// The sum of counts times payouts is at least zero and at most the total
/// times the largest machine word.
pub proof fn lemma_weighted_bound(t: HandTable, p: [usize; 6])
    ensures
        0 <= t.weighted(pay_values(p)) <= t.total() * usize::MAX,
        0 <= t.total(),
{
    lemma_sum_nonneg(t.counts(), 6);
    lemma_dot_bound(t.counts(), pay_values(p), 6, usize::MAX as int);
}


} // verus!
