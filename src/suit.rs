use vstd::prelude::*;

verus! {

/// One of the four suits of a standard deck.
#[derive(PartialEq, Eq, Structural, Clone, Copy, Debug)]
pub enum Suit {
    Clubs,
    Hearts,
    Spades,
    Diamonds,
}

impl Suit {
    /// The position of the suit in iteration order, from 0 to 3.
    pub open spec fn ord(self) -> nat {
        match self {
            Suit::Clubs => 0,
            Suit::Hearts => 1,
            Suit::Spades => 2,
            Suit::Diamonds => 3,
        }
    }

    /// The position of the suit in iteration order, as a machine integer.
    pub fn value(&self) -> (r: usize)
        ensures
            r == self.ord(),
            r < 4,
    {
        match self {
            Suit::Clubs => 0,
            Suit::Hearts => 1,
            Suit::Spades => 2,
            Suit::Diamonds => 3,
        }
    }

    /// The suit at position `num` of iteration order, if there is one.
    pub fn from_num(num: usize) -> (r: Option<Suit>)
        ensures
            num < 4 <==> r is Some,
            r matches Some(s) ==> s.ord() == num,
    {
        match num {
            0 => Some(Suit::Clubs),
            1 => Some(Suit::Hearts),
            2 => Some(Suit::Spades),
            3 => Some(Suit::Diamonds),
            _ => None,
        }
    }

    /// The number of successor steps from `start` up to `end`.
    pub fn steps_between(start: &Suit, end: &Suit) -> (r: Option<usize>)
        requires
            start.ord() <= end.ord(),
        ensures
            r == Some((end.ord() - start.ord()) as usize),
    {
        Some(end.value() - start.value())
    }

    /// The suit `count` steps after `start`, if there is one.
    pub fn forward_checked(start: Suit, count: usize) -> (r: Option<Suit>)
        ensures
            start.ord() + count < 4 <==> r is Some,
            r matches Some(s) ==> s.ord() == start.ord() + count,
    {
        if count > 3 {
            None
        } else {
            Suit::from_num(start.value() + count)
        }
    }

    /// The suit `count` steps before `start`, if there is one.
    pub fn backward_checked(start: Suit, count: usize) -> (r: Option<Suit>)
        ensures
            start.ord() >= count <==> r is Some,
            r matches Some(s) ==> s.ord() + count == start.ord(),
    {
        let start_num = start.value();
        if start_num < count {
            None
        } else {
            Suit::from_num(start_num - count)
        }
    }
}

/// Suits are ordered by their position in iteration order.
impl PartialOrd for Suit {
    fn partial_cmp(&self, other: &Suit) -> (r: Option<core::cmp::Ordering>) {
        let a = self.value();
        let b = other.value();
        if a < b {
            Some(core::cmp::Ordering::Less)
        } else if a == b {
            Some(core::cmp::Ordering::Equal)
        } else {
            Some(core::cmp::Ordering::Greater)
        }
    }
}

impl vstd::std_specs::cmp::PartialOrdSpecImpl for Suit {
    open spec fn obeys_partial_cmp_spec() -> bool {
        true
    }

    open spec fn partial_cmp_spec(&self, other: &Suit) -> Option<core::cmp::Ordering> {
        if self.ord() < other.ord() {
            Some(core::cmp::Ordering::Less)
        } else if self.ord() == other.ord() {
            Some(core::cmp::Ordering::Equal)
        } else {
            Some(core::cmp::Ordering::Greater)
        }
    }
}

} // verus!
