use vstd::prelude::*;

use crate::rank::Rank;
use crate::suit::Suit;

verus! {

/// The six hand categories, best first. The position of a category is its
/// index in frequency tables and paytables.
#[derive(PartialEq, Eq, Structural, Clone, Copy, Debug)]
pub enum Hand {
    StraightFlush,
    ThreeOfAKind,
    Straight,
    Flush,
    Pair,
    HighCard,
}

/// The number of hand categories.
pub const N_HANDS: usize = 6;

impl Hand {
    /// The index of the category: 0 for a straight flush up to 5 for a high card.
    pub open spec fn idx(self) -> nat {
        match self {
            Hand::StraightFlush => 0,
            Hand::ThreeOfAKind => 1,
            Hand::Straight => 2,
            Hand::Flush => 3,
            Hand::Pair => 4,
            Hand::HighCard => 5,
        }
    }

    /// The category at index `i`; `i` must be below six.
    pub open spec fn at(i: nat) -> Hand {
        if i == 0 {
            Hand::StraightFlush
        } else if i == 1 {
            Hand::ThreeOfAKind
        } else if i == 2 {
            Hand::Straight
        } else if i == 3 {
            Hand::Flush
        } else if i == 4 {
            Hand::Pair
        } else {
            Hand::HighCard
        }
    }

    /// The index of the category, as a machine integer.
    pub fn index(&self) -> (r: usize)
        ensures
            r == self.idx(),
            r < N_HANDS,
    {
        match self {
            Hand::StraightFlush => 0,
            Hand::ThreeOfAKind => 1,
            Hand::Straight => 2,
            Hand::Flush => 3,
            Hand::Pair => 4,
            Hand::HighCard => 5,
        }
    }

    /// The category at index `i`, or `None` where `i` names no category.
    pub fn from_index(i: usize) -> (r: Option<Hand>)
        ensures
            i < N_HANDS <==> r is Some,
            r matches Some(h) ==> h.idx() == i && h == Hand::at(i as nat),
    {
        match i {
            0 => Some(Hand::StraightFlush),
            1 => Some(Hand::ThreeOfAKind),
            2 => Some(Hand::Straight),
            3 => Some(Hand::Flush),
            4 => Some(Hand::Pair),
            5 => Some(Hand::HighCard),
            _ => None,
        }
    }
}

/// Categories are ordered by strength: the better hand is the greater.
impl PartialOrd for Hand {
    fn partial_cmp(&self, other: &Hand) -> (r: Option<core::cmp::Ordering>) {
        let a = self.index();
        let b = other.index();
        if a > b {
            Some(core::cmp::Ordering::Less)
        } else if a == b {
            Some(core::cmp::Ordering::Equal)
        } else {
            Some(core::cmp::Ordering::Greater)
        }
    }
}

impl vstd::std_specs::cmp::PartialOrdSpecImpl for Hand {
    open spec fn obeys_partial_cmp_spec() -> bool {
        true
    }

    open spec fn partial_cmp_spec(&self, other: &Hand) -> Option<core::cmp::Ordering> {
        if self.idx() > other.idx() {
            Some(core::cmp::Ordering::Less)
        } else if self.idx() == other.idx() {
            Some(core::cmp::Ordering::Equal)
        } else {
            Some(core::cmp::Ordering::Greater)
        }
    }
}

/// A playing card.
#[derive(PartialEq, Eq, Structural, Clone, Copy, Debug)]
pub struct Card {
    pub rank: Rank,
    pub suit: Suit,
}

/// The least of three ordinals.
pub open spec fn low3(a: nat, b: nat, c: nat) -> nat {
    if a <= b && a <= c {
        a
    } else if b <= c {
        b
    } else {
        c
    }
}

/// The greatest of three ordinals.
pub open spec fn high3(a: nat, b: nat, c: nat) -> nat {
    if a >= b && a >= c {
        a
    } else if b >= c {
        b
    } else {
        c
    }
}

/// The middle one of three ordinals once they are sorted.
pub open spec fn mid3(a: nat, b: nat, c: nat) -> nat {
    (a + b + c - low3(a, b, c) - high3(a, b, c)) as nat
}

/// Sorted ascending, the three ordinals are consecutive, or are exactly
/// ace, queen, king (the ace played high).
pub open spec fn ranks_in_sequence(a: nat, b: nat, c: nat) -> bool {
    let lo = low3(a, b, c);
    let mid = mid3(a, b, c);
    let hi = high3(a, b, c);
    (lo + 1 == mid && mid + 1 == hi) || (lo == 1 && mid == 12 && hi == 13)
}

/// The three cards form a sequence of ranks.
pub open spec fn sequence_spec(a: Card, b: Card, c: Card) -> bool {
    ranks_in_sequence(a.rank.ord(), b.rank.ord(), c.rank.ord())
}

/// The three cards share one suit.
pub open spec fn same_suit_spec(a: Card, b: Card, c: Card) -> bool {
    a.suit == b.suit && b.suit == c.suit
}

/// The three cards share one rank.
pub open spec fn same_rank_spec(a: Card, b: Card, c: Card) -> bool {
    a.rank == b.rank && b.rank == c.rank
}

/// Some two of the three cards share a rank.
pub open spec fn two_same_rank_spec(a: Card, b: Card, c: Card) -> bool {
    a.rank == b.rank || b.rank == c.rank || a.rank == c.rank
}

/// The category of a three-card hand.
#[verifier::opaque]
pub open spec fn kind_of(a: Card, b: Card, c: Card) -> Hand {
    if sequence_spec(a, b, c) {
        if same_suit_spec(a, b, c) {
            Hand::StraightFlush
        } else {
            Hand::Straight
        }
    } else if same_suit_spec(a, b, c) {
        Hand::Flush
    } else if same_rank_spec(a, b, c) {
        Hand::ThreeOfAKind
    } else if two_same_rank_spec(a, b, c) {
        Hand::Pair
    } else {
        Hand::HighCard
    }
}

/// The category of a hand held as an array.
pub open spec fn kind_of_hand(h: [Card; 3]) -> Hand {
    kind_of(h[0], h[1], h[2])
}

/// The ranks of the three cards, sorted ascending by ordinal.
fn sorted_ranks(cards: (Card, Card, Card)) -> (r: (usize, usize, usize))
    ensures
        r.0 == low3(cards.0.rank.ord(), cards.1.rank.ord(), cards.2.rank.ord()),
        r.1 == mid3(cards.0.rank.ord(), cards.1.rank.ord(), cards.2.rank.ord()),
        r.2 == high3(cards.0.rank.ord(), cards.1.rank.ord(), cards.2.rank.ord()),
{
    let a = cards.0.rank.value();
    let b = cards.1.rank.value();
    let c = cards.2.rank.value();
    let lo = if a <= b && a <= c {
        a
    } else if b <= c {
        b
    } else {
        c
    };
    let hi = if a >= b && a >= c {
        a
    } else if b >= c {
        b
    } else {
        c
    };
    (lo, a + b + c - lo - hi, hi)
}

/// Whether the ranks of the three cards, sorted, are consecutive (the ace
/// counting low) or are ace, queen, king.
pub fn is_sequence(cards: (Card, Card, Card)) -> (r: bool)
    ensures
        r == sequence_spec(cards.0, cards.1, cards.2),
{
    let (c0, c1, c2) = sorted_ranks(cards);
    (c0 + 1 == c1 && c1 + 1 == c2) || (c0 == 1 && c1 == 12 && c2 == 13)
}

/// Whether the three cards share one suit.
pub fn is_same_suit(cards: (Card, Card, Card)) -> (r: bool)
    ensures
        r == same_suit_spec(cards.0, cards.1, cards.2),
{
    cards.0.suit == cards.1.suit && cards.1.suit == cards.2.suit
}

/// Whether the three cards share one rank.
pub fn is_same_rank(cards: (Card, Card, Card)) -> (r: bool)
    ensures
        r == same_rank_spec(cards.0, cards.1, cards.2),
{
    cards.0.rank == cards.1.rank && cards.1.rank == cards.2.rank
}

/// Whether two of the three cards, adjacent once sorted by rank, share a rank.
pub fn is_two_same_rank(cards: (Card, Card, Card)) -> (r: bool)
    ensures
        r == two_same_rank_spec(cards.0, cards.1, cards.2),
{
    let (c0, c1, c2) = sorted_ranks(cards);
    c0 == c1 || c1 == c2
}

/// Classifies a three-card hand.
pub fn get_hand(cards: &[Card; 3]) -> (r: Hand)
    ensures
        r == kind_of_hand(*cards),
{
    proof {
        reveal(kind_of);
    }
    let t = (cards[0], cards[1], cards[2]);
    if is_sequence(t) {
        if is_same_suit(t) {
            return Hand::StraightFlush;
        } else {
            return Hand::Straight;
        }
    }
    if is_same_suit(t) {
        return Hand::Flush;
    }
    if is_same_rank(t) {
        return Hand::ThreeOfAKind;
    }
    if is_two_same_rank(t) {
        return Hand::Pair;
    }
    Hand::HighCard
}

/// `p` lists each of the indices 0, 1 and 2 once.
pub open spec fn is_permutation3(p: [usize; 3]) -> bool {
    &&& p[0] < 3 && p[1] < 3 && p[2] < 3
    &&& p[0] != p[1] && p[1] != p[2] && p[0] != p[2]
}

/// Swapping the first two cards, or the last two, keeps the category.
proof fn lemma_kind_swaps(a: Card, b: Card, c: Card)
    ensures
        kind_of(b, a, c) == kind_of(a, b, c),
        kind_of(a, c, b) == kind_of(a, b, c),
{
    reveal(kind_of);
    let (x, y, z) = (a.rank.ord(), b.rank.ord(), c.rank.ord());
    assert(low3(y, x, z) == low3(x, y, z) && high3(y, x, z) == high3(x, y, z));
    assert(low3(x, z, y) == low3(x, y, z) && high3(x, z, y) == high3(x, y, z));
}

/// The category of a hand does not depend on the order of its cards.
pub proof fn lemma_kind_order_independent(h: [Card; 3], p: [usize; 3])
    requires
        is_permutation3(p),
    ensures
        kind_of(h[p[0] as int], h[p[1] as int], h[p[2] as int]) == kind_of_hand(h),
{
    let (a, b, c) = (h[0], h[1], h[2]);
    lemma_kind_swaps(a, b, c);
    lemma_kind_swaps(b, a, c);
    lemma_kind_swaps(a, c, b);
    lemma_kind_swaps(b, c, a);
    lemma_kind_swaps(c, a, b);
}

/// The card at position `i` of the deck: suits in order, and within a suit
/// the ranks from ace to king.
pub open spec fn deck_card_ok(c: Card, i: int) -> bool {
    c.rank.ord() == i % 13 + 1 && c.suit.ord() == i / 13
}

/// The rank with ordinal `n`, for `n` from 1 to 13.
pub open spec fn rank_with_ord(n: int) -> Rank {
    if n == 1 {
        Rank::A
    } else if n == 2 {
        Rank::Two
    } else if n == 3 {
        Rank::Three
    } else if n == 4 {
        Rank::Four
    } else if n == 5 {
        Rank::Five
    } else if n == 6 {
        Rank::Six
    } else if n == 7 {
        Rank::Seven
    } else if n == 8 {
        Rank::Eight
    } else if n == 9 {
        Rank::Nine
    } else if n == 10 {
        Rank::Ten
    } else if n == 11 {
        Rank::Jack
    } else if n == 12 {
        Rank::Queen
    } else {
        Rank::King
    }
}

/// The suit at position `n` of iteration order, for `n` from 0 to 3.
pub open spec fn suit_with_ord(n: int) -> Suit {
    if n == 0 {
        Suit::Clubs
    } else if n == 1 {
        Suit::Hearts
    } else if n == 2 {
        Suit::Spades
    } else {
        Suit::Diamonds
    }
}

/// The card at position `i` of the deck.
pub open spec fn deck_card(i: int) -> Card {
    Card { rank: rank_with_ord(i % 13 + 1), suit: suit_with_ord(i / 13) }
}

/// The deck: the four suits in turn, each from ace to king.
pub open spec fn full_deck() -> Seq<Card> {
    Seq::new(52, |i: int| deck_card(i))
}

/// The 52 cards of the deck, each suit in turn from ace to king.
pub fn generate_deck() -> (deck: Vec<Card>)
    ensures
        deck@ == full_deck(),
{
    let mut deck: Vec<Card> = Vec::new();
    let mut s: usize = 0;
    while s < 4
        invariant
            s <= 4,
            deck@.len() == 13 * s,
            forall|i: int| 0 <= i < deck@.len() ==> #[trigger] deck_card_ok(deck@[i], i),
        decreases 4 - s,
    {
        let suit = Suit::from_num(s).unwrap();
        let mut r: usize = 1;
        while r <= 13
            invariant
                s < 4,
                1 <= r <= 14,
                suit.ord() == s,
                deck@.len() == 13 * s + r - 1,
                forall|i: int| 0 <= i < deck@.len() ==> #[trigger] deck_card_ok(deck@[i], i),
            decreases 14 - r,
        {
            let rank = Rank::from_num(r).unwrap();
            let ghost n = deck@.len() as int;
            deck.push(Card { rank, suit });
            assert(deck_card_ok(deck@[n], n)) by {
                assert(n == 13 * s + (r - 1));
                assert(n % 13 == r - 1 && n / 13 == s) by (nonlinear_arith)
                    requires n == 13 * s + (r - 1), 0 <= r - 1 < 13;
            }
            r = r + 1;
        }
        s = s + 1;
    }
    assert forall|i: int| 0 <= i < 52 implies #[trigger] deck@[i] == full_deck()[i] by {
        assert(deck_card_ok(deck@[i], i));
        let c = deck@[i];
        assert(c.rank == rank_with_ord(c.rank.ord() as int));
        assert(c.suit == suit_with_ord(c.suit.ord() as int));
    }
    assert(deck@ =~= full_deck());
    deck
}

} // verus!
