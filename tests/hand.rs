use blackjack::calc::{Card, Hand};
use blackjack::tokens::card_of_token;

fn hand(cards: &[Card]) -> Hand {
    Hand { cards: cards.to_vec() }
}

#[test]
fn natural_scores_twenty_one_and_effective_hundred() {
    let h = hand(&[Card::Ace, Card::Ten]);
    assert_eq!(h.get_score(), 21);
    assert_eq!(h.get_effective_score(), 100);
}

#[test]
fn three_card_twenty_one_is_not_natural() {
    let h = hand(&[Card::Ace, Card::Ace, Card::Nine]);
    assert_eq!(h.get_score(), 21);
    assert_eq!(h.get_effective_score(), 21);
}

#[test]
fn busted_hand_effective_minus_hundred() {
    let h = hand(&[Card::Ten, Card::Ten, Card::Five]);
    assert!(h.is_busted());
    assert_eq!(h.get_effective_score(), -100);
}

#[test]
fn only_one_ace_is_promoted() {
    assert_eq!(hand(&[Card::Ace, Card::Ace]).get_score(), 12);
    assert_eq!(hand(&[Card::Ace, Card::Six]).get_score(), 17);
    assert_eq!(hand(&[Card::Ace, Card::Six, Card::Ten]).get_score(), 17);
    assert_eq!(hand(&[Card::Nine, Card::Seven]).get_score(), 16);
}

#[test]
fn empty_hand_scores_zero() {
    let h = Hand::empty();
    assert!(h.is_empty());
    assert_eq!(h.get_score(), 0);
    assert!(!h.is_busted());
    assert_eq!(h.get_effective_score(), 0);
}

#[test]
fn card_values_and_order() {
    let cards = Card::iterator();
    assert_eq!(cards.len(), 10);
    assert_eq!(cards[0], Card::Ace);
    assert_eq!(cards[9], Card::Ten);
    let values: Vec<i32> = cards.iter().map(|c| c.value()).collect();
    assert_eq!(values, vec![1, 2, 3, 4, 5, 6, 7, 8, 9, 10]);
}

#[test]
fn parse_reads_all_token_kinds() {
    let h = Hand::parse("A 2 3 4 5 6 7 8 9 10 J Q K X").unwrap();
    assert_eq!(
        h.cards,
        vec![
            Card::Ace,
            Card::Two,
            Card::Three,
            Card::Four,
            Card::Five,
            Card::Six,
            Card::Seven,
            Card::Eight,
            Card::Nine,
            Card::Ten,
            Card::Ten,
            Card::Ten,
            Card::Ten,
            Card::Ten
        ]
    );
}

#[test]
fn parse_lower_case_and_eleven() {
    let h = Hand::parse("a, k q j x 11 1").unwrap();
    assert_eq!(
        h.cards,
        vec![Card::Ace, Card::Ten, Card::Ten, Card::Ten, Card::Ten, Card::Ace, Card::Ace]
    );
}

#[test]
fn parse_prefers_two_character_tokens() {
    assert_eq!(Hand::parse("101").unwrap().cards, vec![Card::Ten, Card::Ace]);
    assert_eq!(Hand::parse("111").unwrap().cards, vec![Card::Ace, Card::Ace]);
    assert_eq!(Hand::parse("12").unwrap().cards, vec![Card::Ace, Card::Two]);
}

#[test]
fn parse_skips_other_characters() {
    assert_eq!(Hand::parse("Z 3 ? 0").unwrap().cards, vec![Card::Three]);
    assert!(Hand::parse("").unwrap().cards.is_empty());
}

#[test]
fn from_tokens_names_bad_token() {
    let tokens = vec![vec!['5'], vec!['Z', 'z'], vec!['7']];
    let e = Hand::from_tokens(&tokens).unwrap_err();
    assert_eq!(e.token, vec!['Z', 'z']);
    let ok = Hand::from_tokens(&vec![vec!['1', '0'], vec!['a']]).unwrap();
    assert_eq!(ok.cards, vec![Card::Ten, Card::Ace]);
}

#[test]
fn card_of_token_cases() {
    assert_eq!(card_of_token(&vec!['1', '1']), Some(Card::Ace));
    assert_eq!(card_of_token(&vec!['1', '0']), Some(Card::Ten));
    assert_eq!(card_of_token(&vec!['q']), Some(Card::Ten));
    assert_eq!(card_of_token(&vec!['8']), Some(Card::Eight));
    assert_eq!(card_of_token(&vec!['1', '2']), None);
    assert_eq!(card_of_token(&vec!['0']), None);
    assert_eq!(card_of_token(&vec![]), None);
}
