use blackjack_sim::deck::{
    card_for_index, get_hand_for_state, hand_value, is_blackjack, is_bust, Hand, InfiniteDeck,
    PlayerState, ACE, FACES, MAX_HAND_SIZE,
};

fn hand_of(cards: &[u8]) -> Hand {
    let mut hand = Hand::new();
    for &card in cards {
        hand.push(card);
    }
    hand
}

#[test]
fn new_hand_is_empty() {
    let hand = Hand::new();
    assert_eq!(hand.len(), 0);
    assert!(hand.cards().is_empty());
    assert_eq!(hand.first(), 0);
    assert_eq!(hand.second(), 0);
    assert_eq!(Hand::default().len(), 0);
}

#[test]
fn from_cards_holds_both_in_order() {
    let hand = Hand::from_cards(7, 11);
    assert_eq!(hand.len(), 2);
    assert_eq!(hand.cards(), &[7u8, 11][..]);
    assert_eq!(hand.first(), 7);
    assert_eq!(hand.second(), 11);
}

#[test]
fn push_appends_up_to_capacity() {
    let mut hand = Hand::from_cards(2, 3);
    hand.push(4);
    assert_eq!(hand.cards(), &[2u8, 3, 4][..]);
    assert_eq!(hand.first(), 2);
    while hand.len() < MAX_HAND_SIZE {
        hand.push(1);
    }
    assert_eq!(hand.len(), 12);
    assert_eq!(hand.cards()[11], 1);
}

#[test]
fn single_card_hand_has_no_second() {
    let hand = hand_of(&[9]);
    assert_eq!(hand.first(), 9);
    assert_eq!(hand.second(), 0);
}

#[test]
fn copy_of_hand_is_independent() {
    let hand = Hand::from_cards(5, 6);
    let mut other = hand;
    other.push(10);
    assert_eq!(hand.len(), 2);
    assert_eq!(other.len(), 3);
}

#[test]
fn value_of_hard_hands() {
    assert_eq!(hand_value(&Hand::from_cards(10, 6)), (16, false));
    assert_eq!(hand_value(&Hand::from_cards(2, 3)), (5, false));
    assert_eq!(hand_value(&hand_of(&[10, 6, 5])), (21, false));
    assert_eq!(hand_value(&Hand::new()), (0, false));
}

#[test]
fn value_of_soft_hands() {
    assert_eq!(hand_value(&Hand::from_cards(11, 7)), (18, true));
    assert_eq!(hand_value(&Hand::from_cards(11, 10)), (21, true));
    assert_eq!(hand_value(&Hand::from_cards(11, 11)), (12, true));
    assert_eq!(hand_value(&hand_of(&[11, 11, 11, 11, 11, 11, 11])), (17, true));
}

#[test]
fn aces_soften_only_as_far_as_needed() {
    assert_eq!(hand_value(&hand_of(&[11, 6, 10])), (17, false));
    assert_eq!(hand_value(&hand_of(&[11, 11, 9])), (21, true));
    assert_eq!(hand_value(&hand_of(&[11, 11, 10])), (12, false));
    assert_eq!(hand_value(&hand_of(&[10, 9, 11, 11])), (21, false));
    assert_eq!(hand_value(&hand_of(&[11, 5, 11, 6])), (13, false));
}

#[test]
fn bust_hand_is_never_soft() {
    assert_eq!(hand_value(&hand_of(&[10, 10, 5])), (25, false));
    assert_eq!(hand_value(&hand_of(&[10, 10, 11, 11])), (22, false));
    assert_eq!(hand_value(&hand_of(&[10, 6, 11, 10])), (27, false));
}

#[test]
fn total_over_21_only_without_soft_ace_for_all_small_hands() {
    let values: [u8; 5] = [2, 5, 9, 10, 11];
    for &a in &values {
        for &b in &values {
            for &c in &values {
                for &d in &values {
                    let hand = hand_of(&[a, b, c, d]);
                    let (total, soft) = hand_value(&hand);
                    let sum: u16 = a as u16 + b as u16 + c as u16 + d as u16;
                    let aces: u16 = [a, b, c, d].iter().filter(|&&x| x == ACE).count() as u16;
                    if total > 21 {
                        assert!(!soft);
                        assert_eq!(total, sum - 10 * aces);
                    }
                    if soft {
                        assert!(total <= 21);
                    }
                    if total < sum {
                        assert!(total + 10 > 21);
                    }
                }
            }
        }
    }
}

#[test]
fn full_hand_of_large_cards_does_not_overflow() {
    let hand = hand_of(&[255; 12]);
    assert_eq!(hand_value(&hand), (3060, false));
}

#[test]
fn blackjack_is_two_cards_totalling_21() {
    assert!(is_blackjack(&Hand::from_cards(11, 10)));
    assert!(is_blackjack(&Hand::from_cards(10, 11)));
    assert!(!is_blackjack(&Hand::from_cards(10, 9)));
    assert!(!is_blackjack(&Hand::from_cards(11, 11)));
    assert!(!is_blackjack(&hand_of(&[7, 7, 7])));
    assert!(!is_blackjack(&hand_of(&[11, 5, 5])));
    assert!(!is_blackjack(&hand_of(&[21])));
    assert!(!is_blackjack(&Hand::new()));
}

#[test]
fn bust_is_over_21_after_softening() {
    assert!(is_bust(&hand_of(&[10, 10, 2])));
    assert!(!is_bust(&hand_of(&[10, 10, 11])));
    assert!(!is_bust(&hand_of(&[11, 11, 11])));
    assert!(!is_bust(&Hand::from_cards(10, 11)));
    assert!(is_bust(&hand_of(&[9, 9, 9])));
}

#[test]
fn player_state_new_sets_fields() {
    let state = PlayerState::new(16, 10, false, true);
    assert_eq!(state.total, 16);
    assert_eq!(state.dealer_upcard, 10);
    assert!(!state.is_soft);
    assert!(state.is_pair);
    assert_eq!(state, PlayerState { total: 16, dealer_upcard: 10, is_soft: false, is_pair: true });
    assert_ne!(state, PlayerState::new(16, 10, false, false));
}

#[test]
fn hand_for_pair_states() {
    assert_eq!(get_hand_for_state(12, true, true).cards(), &[11u8, 11][..]);
    assert_eq!(get_hand_for_state(16, false, true).cards(), &[8u8, 8][..]);
    assert_eq!(get_hand_for_state(4, false, true).cards(), &[2u8, 2][..]);
    assert_eq!(get_hand_for_state(20, false, true).cards(), &[10u8, 10][..]);
}

#[test]
fn hand_for_soft_states() {
    assert_eq!(get_hand_for_state(13, true, false).cards(), &[11u8, 2][..]);
    assert_eq!(get_hand_for_state(18, true, false).cards(), &[11u8, 7][..]);
    assert_eq!(get_hand_for_state(20, true, false).cards(), &[11u8, 9][..]);
}

#[test]
fn hand_for_hard_states() {
    assert_eq!(get_hand_for_state(5, false, false).cards(), &[2u8, 3][..]);
    assert_eq!(get_hand_for_state(11, false, false).cards(), &[2u8, 9][..]);
    assert_eq!(get_hand_for_state(4, false, false).cards(), &[2u8, 2][..]);
    assert_eq!(get_hand_for_state(12, false, false).cards(), &[10u8, 2][..]);
    assert_eq!(get_hand_for_state(19, false, false).cards(), &[10u8, 9][..]);
    assert_eq!(get_hand_for_state(20, false, false).cards(), &[10u8, 10][..]);
    assert_eq!(get_hand_for_state(21, false, false).cards(), &[10u8, 10][..]);
}

#[test]
fn hand_for_totals_under_four_is_a_lone_card() {
    assert_eq!(get_hand_for_state(3, false, false).cards(), &[3u8, 0][..]);
    assert_eq!(get_hand_for_state(0, false, false).cards(), &[0u8, 0][..]);
    assert_eq!(hand_value(&get_hand_for_state(3, false, false)), (3, false));
}

#[test]
fn hand_for_state_has_the_state_value() {
    for total in 5u8..=20 {
        let hand = get_hand_for_state(total, false, false);
        assert_eq!(hand_value(&hand), (total as u16, false));
        assert_eq!(hand.len(), 2);
    }
    for total in 13u8..=20 {
        let hand = get_hand_for_state(total, true, false);
        assert_eq!(hand_value(&hand), (total as u16, true));
    }
    for card in 2u8..=10 {
        let hand = get_hand_for_state(card * 2, false, true);
        assert_eq!(hand_value(&hand), (card as u16 * 2, false));
        assert_eq!(hand.first(), hand.second());
    }
    assert_eq!(hand_value(&get_hand_for_state(12, true, true)), (12, true));
}

#[test]
fn faces_map_to_card_values() {
    let expected: [u8; 13] = [2, 3, 4, 5, 6, 7, 8, 9, 10, 10, 10, 10, 11];
    assert_eq!(FACES, 13);
    for index in 0..FACES {
        assert_eq!(card_for_index(index), expected[index]);
    }
}

#[test]
fn ten_has_weight_four_and_every_other_card_one() {
    for card in 2u8..=11 {
        let weight: usize = (0..FACES).filter(|&i| card_for_index(i) == card).count();
        assert_eq!(weight, if card == 10 { 4 } else { 1 });
    }
}

#[test]
fn draws_are_card_values() {
    let mut deck = InfiniteDeck::new();
    for _ in 0..10_000 {
        let card: u8 = deck.draw();
        assert!((2..=11).contains(&card));
    }
}

#[test]
fn draws_vary_and_reach_every_card() {
    let mut deck = InfiniteDeck::default();
    let mut seen = [0u32; 12];
    for _ in 0..20_000 {
        seen[deck.draw() as usize] += 1;
    }
    for card in 2..=11 {
        assert!(seen[card] > 0);
    }
    assert_eq!(seen[0] + seen[1], 0);
}

#[test]
fn tens_come_about_four_times_in_thirteen() {
    let mut deck = InfiniteDeck::new();
    let trials: u32 = 130_000;
    let mut tens: u32 = 0;
    let mut aces: u32 = 0;
    for _ in 0..trials {
        let card: u8 = deck.draw();
        if card == 10 {
            tens += 1;
        }
        if card == ACE {
            aces += 1;
        }
    }
    assert!(tens > 38_000 && tens < 42_000);
    assert!(aces > 9_000 && aces < 11_000);
}
