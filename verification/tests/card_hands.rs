use puzzle_kit::cards::{Hand, HandType};
use std::cmp::Ordering;

#[test]
fn test_high_card() {
    let hand = Hand::parse("KQ4T2");
    assert_eq!(hand.hand_type, HandType::HighCard);
}

#[test]
fn test_5_kind_all_joker() {
    let hand = Hand::parse("JJJJJ");
    assert_eq!(hand.hand_type, HandType::FiveKind);
}

#[test]
fn test_joker() {
    let hand = Hand::parse("KTJJT");
    assert_eq!(hand.hand_type, HandType::FourKind);

    let hand = Hand::parse("JQJJJ");
    assert_eq!(hand.hand_type, HandType::FiveKind);

    let hand = Hand::parse("JQJQJ");
    assert_eq!(hand.hand_type, HandType::FiveKind);

    let hand = Hand::parse("J2JQJ");
    assert_eq!(hand.hand_type, HandType::FourKind);

    let hand = Hand::parse("J2KQ3");
    assert_eq!(hand.hand_type, HandType::OnePair);
}

#[test]
fn test_full_house_0_joker() {
    let hand = Hand::parse("KKQKQ");
    assert_eq!(hand.hand_type, HandType::FullHouse);
}

#[test]
fn test_ranking_joker_low() {
    let hand_1 = Hand::parse("J3456");
    let hand_2 = Hand::parse("33456");
    assert_eq!(hand_1.cmp(&hand_2), Ordering::Less);
}

#[test]
fn test_hand_types_plain() {
    assert_eq!(Hand::parse("23456").hand_type, HandType::HighCard);
    assert_eq!(Hand::parse("22345").hand_type, HandType::OnePair);
    assert_eq!(Hand::parse("22335").hand_type, HandType::TwoPair);
    assert_eq!(Hand::parse("22235").hand_type, HandType::ThreeKind);
    assert_eq!(Hand::parse("22233").hand_type, HandType::FullHouse);
    assert_eq!(Hand::parse("22223").hand_type, HandType::FourKind);
    assert_eq!(Hand::parse("22222").hand_type, HandType::FiveKind);
}

#[test]
fn test_hand_ordering() {
    // a stronger type wins outright
    assert_eq!(
        Hand::parse("22345").cmp(&Hand::parse("AKQT9")),
        Ordering::Greater
    );
    // equal types compare card by card from the left
    assert_eq!(
        Hand::parse("KK677").cmp(&Hand::parse("KTJJT")),
        Ordering::Less
    );
    assert_eq!(Hand::parse("23456").cmp(&Hand::parse("23456")), Ordering::Equal);
}
