use poker::{
    build_hand, classify, compare, consecutive, hand_score, pad_vec, parse, parse_card,
    winning_hands, Card, Category, ParseError, Suit,
};
use std::cmp::Ordering;

fn category_of_text(text: &str) -> Category {
    classify(&parse(text).unwrap())
}

#[test]
fn every_rank_and_suit_parses() {
    let ranks = ["2", "3", "4", "5", "6", "7", "8", "9", "10", "J", "Q", "K", "A"];
    let suits = [('S', Suit::Spade), ('H', Suit::Heart), ('D', Suit::Diamond), ('C', Suit::Club)];
    for (i, r) in ranks.iter().enumerate() {
        for (letter, suit) in suits.iter() {
            let token = format!("{}{}", r, letter);
            assert_eq!(parse_card(&token), Ok(Card { rank: i + 2, suit: *suit }));
        }
    }
}

#[test]
fn unknown_rank_is_refused() {
    assert_eq!(parse_card("1S"), Err(ParseError::RankNotFound));
    assert_eq!(parse_card("11S"), Err(ParseError::RankNotFound));
    assert_eq!(parse_card("XS"), Err(ParseError::RankNotFound));
    assert_eq!(parse_card("100S"), Err(ParseError::RankNotFound));
    assert_eq!(parse_card(""), Err(ParseError::RankNotFound));
    assert_eq!(parse_card("S"), Err(ParseError::RankNotFound));
}

#[test]
fn unknown_suit_is_refused() {
    assert_eq!(parse_card("10X"), Err(ParseError::SuitNotFound));
    assert_eq!(parse_card("Qs"), Err(ParseError::SuitNotFound));
    assert_eq!(parse_card("2Z"), Err(ParseError::SuitNotFound));
}

#[test]
fn wrong_number_of_cards_is_refused() {
    assert!(matches!(parse("2S 3S 4S 5S"), Err(ParseError::WrongCardCount)));
    assert!(matches!(parse("2S 3S 4S 5S 6S 7S"), Err(ParseError::WrongCardCount)));
    assert!(matches!(parse(""), Err(ParseError::WrongCardCount)));
}

#[test]
fn first_bad_card_decides_the_error() {
    assert!(matches!(parse("2S 1S 4X 5S 6S"), Err(ParseError::RankNotFound)));
    assert!(matches!(parse("2S 3X 1S 5S 6S"), Err(ParseError::SuitNotFound)));
}

#[test]
fn royal_flush_is_recognised() {
    assert_eq!(category_of_text("10S JS QS KS AS"), Category::RoyalFlush);
}

#[test]
fn four_of_a_kind_is_recognised() {
    assert_eq!(category_of_text("2S 4C 4S 4H 4D"), Category::FourOfAKind);
}

#[test]
fn every_category_is_recognised() {
    assert_eq!(category_of_text("9H 10H JH QH KH"), Category::StraightFlush);
    assert_eq!(category_of_text("3S 3H 3D 9C 9S"), Category::FullHouse);
    assert_eq!(category_of_text("2D 7D 9D JD KD"), Category::Flush);
    assert_eq!(category_of_text("5C 6D 7H 8S 9C"), Category::Straight);
    assert_eq!(category_of_text("7C 7D 7H KS 2C"), Category::ThreeOfAKind);
    assert_eq!(category_of_text("7C 7D KH KS 2C"), Category::TwoPair);
    assert_eq!(category_of_text("7C 7D QH KS 2C"), Category::OnePair);
    assert_eq!(category_of_text("3S 4S 5D 6H JH"), Category::HighCard);
}

#[test]
fn one_pair_is_not_taken_for_more() {
    assert_eq!(category_of_text("2S 2H 5D 7C 9S"), Category::OnePair);
    assert_eq!(category_of_text("AS 3H AD 7C 9S"), Category::OnePair);
    assert_eq!(category_of_text("2S 2H 5D 5C 9S"), Category::TwoPair);
    assert_eq!(category_of_text("2S 2H 2D 7C 9S"), Category::ThreeOfAKind);
    assert_eq!(category_of_text("2S 2S 5S 7S 9S"), Category::Flush);
}

#[test]
fn classification_is_repeatable() {
    let a = parse("7C 7D QH KS 2C").unwrap();
    let b = parse("7C 7D QH KS 2C").unwrap();
    assert_eq!(classify(&a), classify(&a));
    assert_eq!(classify(&a), classify(&b));
    assert_eq!(compare(&a, &b), Ordering::Equal);
}

#[test]
fn category_ordinals_are_distinct() {
    let all = [
        Category::HighCard,
        Category::OnePair,
        Category::TwoPair,
        Category::ThreeOfAKind,
        Category::Straight,
        Category::Flush,
        Category::FullHouse,
        Category::FourOfAKind,
        Category::StraightFlush,
        Category::RoyalFlush,
    ];
    for (i, c) in all.iter().enumerate() {
        assert_eq!(c.ordinal(), i);
    }
}

#[test]
fn royal_flush_wins_over_four_of_a_kind_and_high_card() {
    let hands = ["10D JD KD QD AD", "2S 4C 4S 4H 4D", "3S 4S 5D 6H JH"];
    assert_eq!(winning_hands(&hands), Ok(vec!["10D JD KD QD AD"]));
}

#[test]
fn tied_straight_flushes_both_win() {
    let hands = ["4S 5S 6S 7S 8S", "4H 5H 6H 7H 8H"];
    assert_eq!(winning_hands(&hands), Ok(vec!["4S 5S 6S 7S 8S", "4H 5H 6H 7H 8H"]));
}

#[test]
fn ties_keep_input_order_and_skip_losers() {
    let hands = ["4H 5H 6H 7H 8H", "2S 4C 4S 4H 4D", "4S 5S 6S 7S 8S"];
    assert_eq!(winning_hands(&hands), Ok(vec!["4H 5H 6H 7H 8H", "4S 5S 6S 7S 8S"]));
}

#[test]
fn no_hands_give_no_winners() {
    let hands: [&str; 0] = [];
    assert_eq!(winning_hands(&hands), Ok(vec![]));
}

#[test]
fn single_hand_wins() {
    assert_eq!(winning_hands(&["3S 4S 5D 6H JH"]), Ok(vec!["3S 4S 5D 6H JH"]));
}

#[test]
fn bad_hand_fails_the_batch() {
    let hands = ["3S 4S 5D 6H JH", "3S 4S 5D 6H 1H", "3S 4S"];
    assert_eq!(winning_hands(&hands), Err(ParseError::RankNotFound));
    let hands = ["3S 4S", "3S 4S 5D 6H 1H"];
    assert_eq!(winning_hands(&hands), Err(ParseError::WrongCardCount));
}

#[test]
fn kicker_breaks_tie_between_pairs() {
    let hands = ["8S 8H KD 4C 2S", "8D 8C AD 4S 2H"];
    assert_eq!(winning_hands(&hands), Ok(vec!["8D 8C AD 4S 2H"]));
}

#[test]
fn higher_pair_beats_higher_kicker() {
    let hands = ["9S 9H 2D 3C 4S", "8D 8C AD KS QH"];
    assert_eq!(winning_hands(&hands), Ok(vec!["9S 9H 2D 3C 4S"]));
}

#[test]
fn higher_straight_wins() {
    let hands = ["5C 6D 7H 8S 9C", "6C 7D 8H 9S 10C"];
    assert_eq!(winning_hands(&hands), Ok(vec!["6C 7D 8H 9S 10C"]));
}

#[test]
fn pad_vec_fills_with_ones() {
    assert_eq!(pad_vec(vec![3, 2]), vec![3, 2, 1, 1, 1]);
    assert_eq!(pad_vec(vec![]), vec![1, 1, 1, 1, 1]);
    assert_eq!(pad_vec(vec![9, 8, 7, 6, 5, 4, 3]), vec![9, 8, 7, 6, 5]);
}

#[test]
fn consecutive_needs_an_unbroken_run_of_five() {
    assert!(consecutive(vec![2, 3, 4, 5, 6]));
    assert!(consecutive(vec![10, 11, 12, 13, 14]));
    assert!(!consecutive(vec![2, 3, 4, 5, 7]));
    assert!(!consecutive(vec![2, 2, 4, 5, 6]));
    assert!(!consecutive(vec![3, 3, 4, 5, 7]));
    assert!(!consecutive(vec![2, 3, 4, 5]));
    assert!(!consecutive(vec![6, 5, 4, 3, 2]));
}

#[test]
fn score_orders_ranks_by_count_then_rank() {
    assert_eq!(hand_score(&parse("2S 4C 4S 4H 4D").unwrap()), vec![4, 2, 1, 1, 1, 4]);
    assert_eq!(hand_score(&parse("3S 4S 5D 6H JH").unwrap()), vec![11, 6, 5, 4, 3, 11]);
    assert_eq!(hand_score(&parse("9S 3H 9D 3C 3S").unwrap()), vec![3, 9, 1, 1, 1, 9]);
    assert_eq!(hand_score(&parse("7C 7D KH KS 2C").unwrap()), vec![13, 7, 2, 1, 1, 13]);
}

#[test]
fn compare_puts_category_before_score() {
    let quads = parse("2S 4C 4S 4H 4D").unwrap();
    let high = parse("3S 4S 5D 6H JH").unwrap();
    let royal = parse("10D JD KD QD AD").unwrap();
    assert_eq!(compare(&quads, &high), Ordering::Greater);
    assert_eq!(compare(&high, &quads), Ordering::Less);
    assert_eq!(compare(&royal, &quads), Ordering::Greater);
    assert_eq!(compare(&royal, &royal), Ordering::Equal);
}

#[test]
fn build_hand_sorts_and_keeps_text() {
    let cards = [
        Card { rank: 14, suit: Suit::Spade },
        Card { rank: 10, suit: Suit::Spade },
        Card { rank: 12, suit: Suit::Spade },
        Card { rank: 11, suit: Suit::Spade },
        Card { rank: 13, suit: Suit::Spade },
    ];
    let hand = build_hand(cards, "AS 10S QS JS KS".to_string());
    let ranks: Vec<usize> = hand.cards.iter().map(|c| c.rank).collect();
    assert_eq!(ranks, vec![10, 11, 12, 13, 14]);
    assert!(hand.consecutive);
    assert!(hand.uniform_suit);
    assert_eq!(hand.histogram, vec![(10, 1), (11, 1), (12, 1), (13, 1), (14, 1)]);
    assert_eq!(hand.original_text, "AS 10S QS JS KS");
    assert_eq!(classify(&hand), Category::RoyalFlush);
}

#[test]
fn histogram_counts_each_rank() {
    let hand = parse("9S 3H 9D 3C 3S").unwrap();
    assert_eq!(hand.histogram, vec![(3, 3), (9, 2)]);
    assert!(!hand.consecutive);
    assert!(!hand.uniform_suit);
}
