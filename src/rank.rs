use vstd::prelude::*;

verus! {

/// The rank of a card, from the ace (low, ordinal 1) up to the king (ordinal 13).
#[derive(PartialEq, Eq, Structural, Ord, Clone, Copy, Debug)]
pub enum Rank {
    A,
    Two,
    Three,
    Four,
    Five,
    Six,
    Seven,
    Eight,
    Nine,
    Ten,
    Jack,
    Queen,
    King,
}

impl Rank {
    /// The numeric ordinal of the rank: the ace is 1, the king 13.
    pub open spec fn ord(self) -> nat {
        match self {
            Rank::A => 1,
            Rank::Two => 2,
            Rank::Three => 3,
            Rank::Four => 4,
            Rank::Five => 5,
            Rank::Six => 6,
            Rank::Seven => 7,
            Rank::Eight => 8,
            Rank::Nine => 9,
            Rank::Ten => 10,
            Rank::Jack => 11,
            Rank::Queen => 12,
            Rank::King => 13,
        }
    }

    /// The ordinal of the rank, as a machine integer.
    pub fn value(&self) -> (r: usize)
        ensures
            r == self.ord(),
            1 <= r <= 13,
    {
        match self {
            Rank::A => 1,
            Rank::Two => 2,
            Rank::Three => 3,
            Rank::Four => 4,
            Rank::Five => 5,
            Rank::Six => 6,
            Rank::Seven => 7,
            Rank::Eight => 8,
            Rank::Nine => 9,
            Rank::Ten => 10,
            Rank::Jack => 11,
            Rank::Queen => 12,
            Rank::King => 13,
        }
    }

    /// The rank whose ordinal is `num`, if there is one.
    pub fn from_num(num: usize) -> (r: Option<Rank>)
        ensures
            1 <= num <= 13 <==> r is Some,
            r matches Some(k) ==> k.ord() == num,
    {
        match num {
            1 => Some(Rank::A),
            2 => Some(Rank::Two),
            3 => Some(Rank::Three),
            4 => Some(Rank::Four),
            5 => Some(Rank::Five),
            6 => Some(Rank::Six),
            7 => Some(Rank::Seven),
            8 => Some(Rank::Eight),
            9 => Some(Rank::Nine),
            10 => Some(Rank::Ten),
            11 => Some(Rank::Jack),
            12 => Some(Rank::Queen),
            13 => Some(Rank::King),
            _ => None,
        }
    }

    /// The number of successor steps from `start` up to `end`.
    pub fn steps_between(start: &Rank, end: &Rank) -> (r: Option<usize>)
        requires
            start.ord() <= end.ord(),
        ensures
            r == Some((end.ord() - start.ord()) as usize),
    {
        Some(end.value() - start.value())
    }

    /// The rank `count` steps above `start`, if it is still a rank.
    pub fn forward_checked(start: Rank, count: usize) -> (r: Option<Rank>)
        ensures
            start.ord() + count <= 13 <==> r is Some,
            r matches Some(k) ==> k.ord() == start.ord() + count,
    {
        if count > 12 {
            None
        } else {
            Rank::from_num(start.value() + count)
        }
    }

    /// The rank `count` steps below `start`, if it is still a rank.
    pub fn backward_checked(start: Rank, count: usize) -> (r: Option<Rank>)
        ensures
            start.ord() >= count + 1 <==> r is Some,
            r matches Some(k) ==> k.ord() + count == start.ord(),
    {
        let start_num = start.value();
        if start_num < count {
            None
        } else {
            Rank::from_num(start_num - count)
        }
    }
}

/// Ranks are ordered by ordinal, the ace lowest.
impl PartialOrd for Rank {
    fn partial_cmp(&self, other: &Rank) -> (r: Option<core::cmp::Ordering>) {
        let a = self.value();
        let b = other.value();
        if a < b {
            Some(core::cmp::Ordering::Less)
        } else if a == b {
            Some(core::cmp::Ordering::Equal)
        } else {
            Some(core::cmp::Ordering::Greater)
        }
    }
}

impl vstd::std_specs::cmp::PartialOrdSpecImpl for Rank {
    open spec fn obeys_partial_cmp_spec() -> bool {
        true
    }

    open spec fn partial_cmp_spec(&self, other: &Rank) -> Option<core::cmp::Ordering> {
        if self.ord() < other.ord() {
            Some(core::cmp::Ordering::Less)
        } else if self.ord() == other.ord() {
            Some(core::cmp::Ordering::Equal)
        } else {
            Some(core::cmp::Ordering::Greater)
        }
    }
}

} // verus!
