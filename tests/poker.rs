use cards::{
    generate_all_games, generate_deck, get_hand, is_same_rank, is_same_suit, is_sequence,
    is_two_same_rank, optimal_play, Card, Hand, HandPayGuess, HandTable, PrintTable, Rank,
    ReturnBand, Suit,
};

fn card(rank: Rank, suit: Suit) -> Card {
    Card { rank, suit }
}

#[test]
fn sequence() {
    let hand = (
        card(Rank::A, Suit::Clubs),
        card(Rank::Two, Suit::Clubs),
        card(Rank::Three, Suit::Clubs),
    );
    assert_eq!(is_sequence(hand), true);
    let hand = (
        card(Rank::A, Suit::Clubs),
        card(Rank::Two, Suit::Clubs),
        card(Rank::Four, Suit::Clubs),
    );
    assert_eq!(is_sequence(hand), false);
}

#[test]
fn main_sequence() {
    let hand = (
        Card { rank: Rank::A, suit: Suit::Clubs },
        Card { rank: Rank::Two, suit: Suit::Clubs },
        Card { rank: Rank::Three, suit: Suit::Clubs },
    );
    assert_eq!(is_sequence(hand), true);
    let hand = (
        Card { rank: Rank::A, suit: Suit::Clubs },
        Card { rank: Rank::Two, suit: Suit::Clubs },
        Card { rank: Rank::Four, suit: Suit::Clubs },
    );
    assert_eq!(is_sequence(hand), false);
}

#[test]
fn t_optimal_play() {
    let hand = [
        card(Rank::Eight, Suit::Clubs),
        card(Rank::Nine, Suit::Clubs),
        card(Rank::Ten, Suit::Clubs),
    ];
    let best_hand = optimal_play(hand, [1, 0, 0, 0, 0, 0]);
    assert_eq!(
        best_hand,
        [
            Some(card(Rank::Eight, Suit::Clubs)),
            Some(card(Rank::Nine, Suit::Clubs)),
            Some(card(Rank::Ten, Suit::Clubs)),
        ]
    );
}

#[test]
fn classifier_scenarios() {
    let c = |r, s| card(r, s);
    let h = [c(Rank::A, Suit::Clubs), c(Rank::Two, Suit::Clubs), c(Rank::Three, Suit::Clubs)];
    assert_eq!(get_hand(&h), Hand::StraightFlush);
    let h = [c(Rank::A, Suit::Clubs), c(Rank::Two, Suit::Clubs), c(Rank::Four, Suit::Clubs)];
    assert_eq!(get_hand(&h), Hand::Flush);
    let h = [c(Rank::A, Suit::Clubs), c(Rank::Queen, Suit::Clubs), c(Rank::King, Suit::Clubs)];
    assert_eq!(get_hand(&h), Hand::StraightFlush);
    let h = [c(Rank::A, Suit::Clubs), c(Rank::Queen, Suit::Diamonds), c(Rank::King, Suit::Hearts)];
    assert_eq!(get_hand(&h), Hand::Straight);
    let h = [c(Rank::Five, Suit::Clubs), c(Rank::Five, Suit::Diamonds), c(Rank::Five, Suit::Hearts)];
    assert_eq!(get_hand(&h), Hand::ThreeOfAKind);
    let h = [c(Rank::Five, Suit::Clubs), c(Rank::Five, Suit::Diamonds), c(Rank::Seven, Suit::Hearts)];
    assert_eq!(get_hand(&h), Hand::Pair);
    let h = [c(Rank::Two, Suit::Clubs), c(Rank::Five, Suit::Diamonds), c(Rank::Nine, Suit::Hearts)];
    assert_eq!(get_hand(&h), Hand::HighCard);
}

#[test]
fn ace_king_two_is_no_sequence() {
    let hand = (
        card(Rank::King, Suit::Clubs),
        card(Rank::A, Suit::Hearts),
        card(Rank::Two, Suit::Spades),
    );
    assert!(!is_sequence(hand));
    let h = [hand.0, hand.1, hand.2];
    assert_eq!(get_hand(&h), Hand::HighCard);
}

#[test]
fn classifier_predicates() {
    let a = card(Rank::Six, Suit::Spades);
    let b = card(Rank::Six, Suit::Hearts);
    let c = card(Rank::Jack, Suit::Spades);
    assert!(is_two_same_rank((c, a, b)));
    assert!(!is_same_rank((a, b, c)));
    assert!(is_same_rank((a, b, card(Rank::Six, Suit::Clubs))));
    assert!(!is_same_suit((a, b, c)));
    assert!(is_same_suit((a, c, card(Rank::Two, Suit::Spades))));
    assert!(!is_two_same_rank((a, c, card(Rank::Two, Suit::Spades))));
}

#[test]
fn classifier_order_independent() {
    let cards = [
        card(Rank::Queen, Suit::Diamonds),
        card(Rank::A, Suit::Clubs),
        card(Rank::King, Suit::Hearts),
    ];
    let perms = [[0, 1, 2], [0, 2, 1], [1, 0, 2], [1, 2, 0], [2, 0, 1], [2, 1, 0]];
    for p in perms.iter() {
        let h = [cards[p[0]], cards[p[1]], cards[p[2]]];
        assert_eq!(get_hand(&h), Hand::Straight);
    }
}

#[test]
fn deck_has_every_card_once() {
    let deck = generate_deck();
    assert_eq!(deck.len(), 52);
    assert_eq!(deck[0], card(Rank::A, Suit::Clubs));
    assert_eq!(deck[12], card(Rank::King, Suit::Clubs));
    assert_eq!(deck[13], card(Rank::A, Suit::Hearts));
    assert_eq!(deck[51], card(Rank::King, Suit::Diamonds));
    for i in 0..deck.len() {
        for j in 0..i {
            assert_ne!(deck[i], deck[j]);
        }
    }
}

#[test]
fn enumeration_counts() {
    let table = generate_all_games();
    assert_eq!(table.hands, [288, 312, 4320, 6576, 22464, 98640]);
    assert_eq!(table.hands.iter().sum::<usize>(), 132600);
}

#[test]
fn push_sequence_counts_category() {
    let mut table = HandTable::default();
    table.push_sequence([
        card(Rank::Five, Suit::Clubs),
        card(Rank::Five, Suit::Diamonds),
        card(Rank::Seven, Suit::Hearts),
    ]);
    table.push_sequence([
        card(Rank::Jack, Suit::Clubs),
        card(Rank::Queen, Suit::Clubs),
        card(Rank::King, Suit::Clubs),
    ]);
    assert_eq!(table.hands, [1, 0, 0, 0, 1, 0]);
}

#[test]
fn tables_add_pointwise() {
    let a = HandTable { hands: [1, 2, 3, 4, 5, 6] };
    let b = HandTable { hands: [10, 0, 30, 0, 50, 0] };
    assert_eq!(a.add(b).hands, [11, 2, 33, 4, 55, 6]);
    assert_eq!(HandTable::default().hands, [0; 6]);
}

#[test]
fn expected_return_is_exact() {
    let table = HandTable { hands: [1, 1, 2, 0, 0, 6] };
    let guess = HandPayGuess { pay: [Some(10), None, Some(3), None, None, Some(0)] };
    let r = table.calculate_return(&guess);
    assert_eq!((r.num, r.den), (16, 10));
    let r = table.calculate_return_full(&[10, 5, 3, 2, 1, 1]);
    assert_eq!((r.num, r.den), (27, 10));
}

#[test]
fn paytable_search_finds_band() {
    let table = generate_all_games();
    let band = ReturnBand { low: 99, high: 100, scale: 100 };
    let guess = HandPayGuess { pay: [Some(250), None, None, None, None, Some(0)] };
    let found = table.build_paytable(guess, &band).unwrap();
    assert_eq!(found.pay, [Some(250), Some(194), None, None, None, Some(0)]);
    let again = table.build_paytable(guess, &band).unwrap();
    assert_eq!(again.pay, found.pay);
    let r = table.calculate_return(&found);
    assert!(r.num * 100 > 99 * r.den && r.num * 100 <= 100 * r.den);
    let pays: Vec<usize> = found.pay.iter().map(|p| p.unwrap_or(0)).collect();
    for i in 0..5 {
        assert!(pays[i] >= pays[i + 1]);
    }
}

#[test]
fn paytable_search_fills_every_slot() {
    let table = generate_all_games();
    let band = ReturnBand { low: 99, high: 100, scale: 100 };
    let guess = HandPayGuess { pay: [Some(10), None, None, None, None, Some(0)] };
    let found = table.build_paytable(guess, &band).unwrap();
    assert_eq!(found.pay, [Some(10), Some(9), Some(6), Some(5), Some(3), Some(0)]);
}

#[test]
fn paytable_search_reports_no_solution() {
    let table = generate_all_games();
    let band = ReturnBand { low: 99, high: 100, scale: 100 };
    let guess = HandPayGuess { pay: [Some(1), None, None, None, None, Some(0)] };
    assert!(table.build_paytable(guess, &band).is_none());
    let band = ReturnBand { low: 0, high: 0, scale: 1 };
    let guess = HandPayGuess { pay: [Some(250), None, None, None, None, Some(0)] };
    assert!(table.build_paytable(guess, &band).is_none());
}

#[test]
fn paytable_search_keeps_guess_in_band() {
    let table = HandTable { hands: [1, 0, 0, 0, 0, 1] };
    let band = ReturnBand { low: 1, high: 10, scale: 1 };
    let guess = HandPayGuess { pay: [Some(8), None, None, None, None, Some(0)] };
    let found = table.build_paytable(guess, &band).unwrap();
    assert_eq!(found.pay, guess.pay);
}

#[test]
fn advisor_discards_lowest_best_slot() {
    let hand = [
        card(Rank::Two, Suit::Clubs),
        card(Rank::Seven, Suit::Diamonds),
        card(Rank::King, Suit::Hearts),
    ];
    let out = optimal_play(hand, [0, 0, 0, 0, 1, 0]);
    assert_eq!(out, [None, Some(hand[1]), Some(hand[2])]);
}

#[test]
fn advisor_chases_flush() {
    let hand = [
        card(Rank::Two, Suit::Clubs),
        card(Rank::Seven, Suit::Clubs),
        card(Rank::King, Suit::Hearts),
    ];
    let out = optimal_play(hand, [0, 0, 0, 1, 0, 0]);
    assert_eq!(out, [Some(hand[0]), Some(hand[1]), None]);
}

#[test]
fn hand_indices_round_trip() {
    for i in 0..6 {
        assert_eq!(Hand::from_index(i).unwrap().index(), i);
    }
    assert_eq!(Hand::from_index(6), None);
    assert!(Hand::StraightFlush > Hand::HighCard);
    assert!(Hand::Pair < Hand::Flush);
}

#[test]
fn print_table_rows() {
    let table = HandTable { hands: [1, 2, 3, 4, 5, 6] };
    let rows = PrintTable::from_table(&table).rows;
    assert_eq!(rows.len(), 6);
    assert_eq!(rows[0], (Hand::StraightFlush, 1));
    assert_eq!(rows[5], (Hand::HighCard, 6));
}

#[test]
fn rank_steps() {
    assert_eq!(Rank::from_num(1), Some(Rank::A));
    assert_eq!(Rank::from_num(13), Some(Rank::King));
    assert_eq!(Rank::from_num(0), None);
    assert_eq!(Rank::from_num(14), None);
    assert_eq!(Rank::forward_checked(Rank::Ten, 3), Some(Rank::King));
    assert_eq!(Rank::forward_checked(Rank::Ten, 4), None);
    assert_eq!(Rank::backward_checked(Rank::Three, 2), Some(Rank::A));
    assert_eq!(Rank::backward_checked(Rank::Three, 3), None);
    assert_eq!(Rank::steps_between(&Rank::A, &Rank::King), Some(12));
    assert!(Rank::A < Rank::Two);
    assert_eq!(Rank::Queen.value(), 12);
}

#[test]
fn suit_steps() {
    assert_eq!(Suit::from_num(0), Some(Suit::Clubs));
    assert_eq!(Suit::from_num(3), Some(Suit::Diamonds));
    assert_eq!(Suit::from_num(4), None);
    assert_eq!(Suit::forward_checked(Suit::Clubs, 3), Some(Suit::Diamonds));
    assert_eq!(Suit::forward_checked(Suit::Hearts, 3), None);
    assert_eq!(Suit::backward_checked(Suit::Spades, 2), Some(Suit::Clubs));
    assert_eq!(Suit::backward_checked(Suit::Hearts, 2), None);
    assert_eq!(Suit::steps_between(&Suit::Hearts, &Suit::Diamonds), Some(2));
    assert!(Suit::Clubs < Suit::Diamonds);
}
