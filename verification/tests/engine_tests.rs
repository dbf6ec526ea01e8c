use blackjack_sim::deck::{get_hand_for_state, Hand, PlayerState};
use blackjack_sim::engine::{
    dealer_stands, doubles_after_split, generate_all_states, player_stands, seat_stops, settle,
    Action, ActionStats, BlackjackEngine, PlayError, Seat, LOSS, NATURAL_WIN, PUSH, STATE_COUNT,
    SURRENDER_LOSS, WIN,
};
use blackjack_sim::stats::PAYOFF_LIMIT;

fn full_hand() -> Hand {
    let mut hand = Hand::new();
    for _ in 0..12 {
        hand.push(1);
    }
    hand
}

#[test]
fn payoffs_are_counted_in_half_bets() {
    assert_eq!(WIN, 2);
    assert_eq!(LOSS, -2);
    assert_eq!(PUSH, 0);
    assert_eq!(NATURAL_WIN, 3);
    assert_eq!(SURRENDER_LOSS, -1);
    assert_eq!(PAYOFF_LIMIT, 8);
}

#[test]
fn action_symbols() {
    assert_eq!(Action::Hit.symbol(), "H");
    assert_eq!(Action::Stand.symbol(), "S");
    assert_eq!(Action::Double.symbol(), "D");
    assert_eq!(Action::Split.symbol(), "P");
    assert_eq!(Action::Surrender.symbol(), "R");
}

#[test]
fn valid_actions_without_pair() {
    assert_eq!(
        Action::valid_actions(false),
        vec![Action::Hit, Action::Stand, Action::Double, Action::Surrender]
    );
}

#[test]
fn valid_actions_with_pair_add_split() {
    assert_eq!(
        Action::valid_actions(true),
        vec![Action::Hit, Action::Stand, Action::Double, Action::Surrender, Action::Split]
    );
}

#[test]
fn dealer_stands_on_all_seventeens() {
    assert!(!dealer_stands(16));
    assert!(dealer_stands(17));
    assert!(dealer_stands(21));
    assert!(dealer_stands(26));
    assert!(!dealer_stands(0));
}

#[test]
fn player_stands_on_hard_totals() {
    assert!(player_stands(17, false, 10));
    assert!(player_stands(20, false, 2));
    assert!(!player_stands(16, false, 7));
    assert!(!player_stands(16, false, 11));
    assert!(player_stands(16, false, 6));
    assert!(player_stands(12, false, 2));
    assert!(!player_stands(11, false, 4));
    assert!(!player_stands(12, false, 1));
    assert!(!player_stands(5, false, 6));
}

#[test]
fn player_stands_on_soft_totals_from_eighteen() {
    assert!(!player_stands(17, true, 6));
    assert!(player_stands(18, true, 10));
    assert!(player_stands(21, true, 2));
    assert!(!player_stands(13, true, 5));
}

#[test]
fn double_after_split_thresholds() {
    assert!(doubles_after_split(9, false));
    assert!(doubles_after_split(10, false));
    assert!(doubles_after_split(11, false));
    assert!(!doubles_after_split(8, false));
    assert!(!doubles_after_split(12, false));
    assert!(doubles_after_split(16, true));
    assert!(doubles_after_split(17, true));
    assert!(doubles_after_split(18, true));
    assert!(!doubles_after_split(15, true));
    assert!(!doubles_after_split(19, true));
    assert!(!doubles_after_split(16, false));
    assert!(!doubles_after_split(10, true));
}

#[test]
fn settle_compares_totals() {
    assert_eq!(settle(20, 22), WIN);
    assert_eq!(settle(12, 26), WIN);
    assert_eq!(settle(20, 19), WIN);
    assert_eq!(settle(18, 19), LOSS);
    assert_eq!(settle(17, 21), LOSS);
    assert_eq!(settle(19, 19), PUSH);
    assert_eq!(settle(21, 21), PUSH);
}

#[test]
fn seats_stop_by_their_rules() {
    assert!(!seat_stops(Seat::Dealer, &Hand::from_cards(10, 6)));
    assert!(seat_stops(Seat::Dealer, &Hand::from_cards(10, 7)));
    assert!(seat_stops(Seat::Dealer, &Hand::from_cards(11, 6)));
    assert!(!seat_stops(Seat::Player { dealer_upcard: 6 }, &Hand::from_cards(11, 6)));
    assert!(seat_stops(Seat::Player { dealer_upcard: 6 }, &Hand::from_cards(10, 3)));
    assert!(!seat_stops(Seat::Player { dealer_upcard: 7 }, &Hand::from_cards(10, 3)));
    let mut bust = Hand::from_cards(10, 5);
    bust.push(9);
    assert!(seat_stops(Seat::Player { dealer_upcard: 7 }, &bust));
    assert!(seat_stops(Seat::Dealer, &full_hand()));
    assert!(seat_stops(Seat::Player { dealer_upcard: 10 }, &full_hand()));
}

#[test]
fn natural_against_six_always_pays_three_to_two() {
    let mut engine = BlackjackEngine::new();
    let hand = Hand::from_cards(11, 10);
    for action in [Action::Hit, Action::Stand, Action::Double, Action::Split, Action::Surrender] {
        for _ in 0..2_000 {
            assert_eq!(engine.simulate_action(&hand, 6, action), Ok(NATURAL_WIN));
        }
    }
}

#[test]
fn natural_against_ace_pays_or_pushes() {
    let mut engine = BlackjackEngine::new();
    let hand = Hand::from_cards(10, 11);
    let mut pushes: u32 = 0;
    let mut wins: u32 = 0;
    for _ in 0..13_000 {
        match engine.simulate_action(&hand, 11, Action::Stand) {
            Ok(0) => pushes += 1,
            Ok(3) => wins += 1,
            other => panic!("unexpected result {:?}", other),
        }
    }
    assert!(pushes > 3_400 && pushes < 4_600);
    assert_eq!(pushes + wins, 13_000);
}

#[test]
fn surrender_against_six_loses_half() {
    let mut engine = BlackjackEngine::new();
    let hand = Hand::from_cards(10, 6);
    for _ in 0..5_000 {
        assert_eq!(engine.simulate_action(&hand, 6, Action::Surrender), Ok(SURRENDER_LOSS));
    }
}

#[test]
fn surrender_loses_all_to_a_dealer_natural() {
    let mut engine = BlackjackEngine::new();
    let hand = Hand::from_cards(10, 6);
    let mut halves: u32 = 0;
    let mut wholes: u32 = 0;
    for _ in 0..13_000 {
        match engine.simulate_action(&hand, 10, Action::Surrender) {
            Ok(-1) => halves += 1,
            Ok(-2) => wholes += 1,
            other => panic!("unexpected result {:?}", other),
        }
    }
    assert!(wholes > 700 && wholes < 1_300);
    assert_eq!(halves + wholes, 13_000);
}

#[test]
fn split_of_a_hand_that_is_no_pair_is_an_error() {
    let mut engine = BlackjackEngine::new();
    assert_eq!(
        engine.simulate_action(&Hand::from_cards(10, 6), 6, Action::Split),
        Err(PlayError::SplitWithoutPair)
    );
    let mut three = Hand::from_cards(5, 5);
    three.push(5);
    assert_eq!(engine.simulate_action(&three, 6, Action::Split), Err(PlayError::SplitWithoutPair));
    assert_eq!(
        engine.simulate_action(&Hand::new(), 6, Action::Split),
        Err(PlayError::SplitWithoutPair)
    );
}

#[test]
fn hit_or_double_of_a_full_hand_is_an_error() {
    let mut engine = BlackjackEngine::new();
    let hand = full_hand();
    assert_eq!(engine.simulate_action(&hand, 6, Action::Hit), Err(PlayError::HandFull));
    assert_eq!(engine.simulate_action(&hand, 6, Action::Double), Err(PlayError::HandFull));
    assert!(engine.simulate_action(&hand, 6, Action::Stand).is_ok());
    assert!(engine.simulate_action(&hand, 6, Action::Surrender).is_ok());
}

#[test]
fn stand_wins_loses_or_pushes_one_bet() {
    let mut engine = BlackjackEngine::new();
    let hand = Hand::from_cards(10, 8);
    let mut seen = [false; 3];
    for _ in 0..5_000 {
        let payoff: i32 = engine.simulate_action(&hand, 9, Action::Stand).unwrap();
        assert!(payoff == LOSS || payoff == PUSH || payoff == WIN);
        seen[(payoff / 2 + 1) as usize] = true;
    }
    assert_eq!(seen, [true, true, true]);
}

#[test]
fn stand_on_four_wins_only_when_the_dealer_busts() {
    // A total of 4 wins only where the dealer goes over 21.
    let mut engine = BlackjackEngine::new();
    let hand = Hand::from_cards(2, 2);
    for _ in 0..5_000 {
        let payoff: i32 = engine.simulate_action(&hand, 10, Action::Stand).unwrap();
        assert!(payoff == LOSS || payoff == WIN);
    }
}

#[test]
fn hit_wins_loses_or_pushes_one_bet() {
    let mut engine = BlackjackEngine::new();
    let hand = Hand::from_cards(10, 6);
    for _ in 0..5_000 {
        let payoff: i32 = engine.simulate_action(&hand, 10, Action::Hit).unwrap();
        assert!(payoff == LOSS || payoff == PUSH || payoff == WIN);
    }
}

#[test]
fn double_wins_loses_or_pushes_two_bets() {
    let mut engine = BlackjackEngine::new();
    let hand = Hand::from_cards(6, 5);
    let mut seen = [false; 3];
    for _ in 0..5_000 {
        let payoff: i32 = engine.simulate_action(&hand, 6, Action::Double).unwrap();
        assert!(payoff == 2 * LOSS || payoff == PUSH || payoff == 2 * WIN);
        seen[(payoff / 4 + 1) as usize] = true;
    }
    assert_eq!(seen, [true, true, true]);
}

#[test]
fn split_aces_settle_two_undoubled_hands() {
    // Each ace gets one card and meets the dealer: the sum of two payoffs of one bet.
    let mut engine = BlackjackEngine::new();
    let hand = Hand::from_cards(11, 11);
    for _ in 0..5_000 {
        let payoff: i32 = engine.simulate_action(&hand, 6, Action::Split).unwrap();
        assert!((-4..=4).contains(&payoff));
        assert_eq!(payoff % 2, 0);
    }
}

#[test]
fn split_eights_stay_within_two_doubled_hands() {
    let mut engine = BlackjackEngine::new();
    let hand = Hand::from_cards(8, 8);
    let mut beyond_two_bets = false;
    for _ in 0..20_000 {
        let payoff: i32 = engine.simulate_action(&hand, 5, Action::Split).unwrap();
        assert!((-PAYOFF_LIMIT..=PAYOFF_LIMIT).contains(&payoff));
        assert_eq!(payoff % 2, 0);
        if payoff.abs() > 4 {
            beyond_two_bets = true;
        }
    }
    assert!(beyond_two_bets);
}

#[test]
fn stand_on_hard_twenty_against_two_is_worth_about_064() {
    let mut engine = BlackjackEngine::new();
    let hand = get_hand_for_state(20, false, false);
    let stats = engine.simulate_batch(&hand, 2, Action::Stand, 100_000).unwrap();
    assert_eq!(stats.n, 100_000);
    let mean = stats.sum_x as f64 / 2.0 / stats.n as f64;
    assert!((mean - 0.64).abs() < 0.05, "mean {}", mean);
}

#[test]
fn surrender_is_worth_minus_half_against_low_cards() {
    let mut engine = BlackjackEngine::new();
    let hand = Hand::from_cards(10, 6);
    let stats = engine.simulate_batch(&hand, 7, Action::Surrender, 1_000).unwrap();
    assert_eq!((stats.n, stats.sum_x, stats.sum_x_squared), (1_000, -1_000, 1_000));
}

#[test]
fn batch_of_naturals_against_six() {
    let mut engine = BlackjackEngine::default();
    let hand = Hand::from_cards(11, 10);
    let stats = engine.simulate_batch(&hand, 6, Action::Hit, 500).unwrap();
    assert_eq!((stats.n, stats.sum_x, stats.sum_x_squared), (500, 1_500, 4_500));
}

#[test]
fn batch_records_every_trial_within_limits() {
    let mut engine = BlackjackEngine::new();
    let hand = Hand::from_cards(9, 9);
    for action in [Action::Hit, Action::Stand, Action::Double, Action::Split, Action::Surrender] {
        let stats = engine.simulate_batch(&hand, 9, action, 2_000).unwrap();
        assert_eq!(stats.n, 2_000);
        assert!(stats.sum_x.abs() <= 8 * 2_000);
        assert!(stats.sum_x_squared <= 64 * 2_000);
        assert!(stats.sum_x_squared > 0);
    }
}

#[test]
fn batch_record_merges_into_a_running_record() {
    let mut engine = BlackjackEngine::new();
    let hand = Hand::from_cards(10, 6);
    let mut total = ActionStats::new();
    for _ in 0..3 {
        let batch: ActionStats = engine.simulate_batch(&hand, 7, Action::Surrender, 100).unwrap();
        total.merge(&batch);
    }
    assert_eq!((total.n, total.sum_x, total.sum_x_squared), (300, -300, 300));
}

#[test]
fn empty_batch_is_empty() {
    let mut engine = BlackjackEngine::new();
    let stats = engine.simulate_batch(&Hand::from_cards(10, 6), 6, Action::Split, 0).unwrap();
    assert_eq!((stats.n, stats.sum_x, stats.sum_x_squared), (0, 0, 0));
}

#[test]
fn batch_of_an_impossible_split_is_an_error() {
    let mut engine = BlackjackEngine::new();
    let result = engine.simulate_batch(&Hand::from_cards(10, 6), 6, Action::Split, 10);
    assert_eq!(result.err(), Some(PlayError::SplitWithoutPair));
    let full = engine.simulate_batch(&full_hand(), 6, Action::Hit, 1);
    assert_eq!(full.err(), Some(PlayError::HandFull));
}

#[test]
fn state_space_has_350_states_in_order() {
    let states = generate_all_states();
    assert_eq!(states.len(), 350);
    assert_eq!(STATE_COUNT, 350);
    assert_eq!(states[0], PlayerState::new(5, 2, false, false));
    assert_eq!(states[9], PlayerState::new(5, 11, false, false));
    assert_eq!(states[10], PlayerState::new(6, 2, false, false));
    assert_eq!(states[169], PlayerState::new(21, 11, false, false));
    assert_eq!(states[170], PlayerState::new(13, 2, true, false));
    assert_eq!(states[249], PlayerState::new(20, 11, true, false));
    assert_eq!(states[250], PlayerState::new(4, 2, false, true));
    assert_eq!(states[339], PlayerState::new(20, 11, false, true));
    assert_eq!(states[340], PlayerState::new(12, 2, true, true));
    assert_eq!(states[349], PlayerState::new(12, 11, true, true));
}

#[test]
fn state_space_counts_by_kind() {
    let states = generate_all_states();
    let hard: usize = states.iter().filter(|s| !s.is_soft && !s.is_pair).count();
    let soft: usize = states.iter().filter(|s| s.is_soft && !s.is_pair).count();
    let pairs: usize = states.iter().filter(|s| s.is_pair).count();
    assert_eq!((hard, soft, pairs), (170, 80, 100));
    assert!(states.iter().all(|s| (2..=11).contains(&s.dealer_upcard)));
}

#[test]
fn state_space_has_no_state_twice() {
    let states = generate_all_states();
    for i in 0..states.len() {
        for j in (i + 1)..states.len() {
            assert_ne!(states[i], states[j]);
        }
    }
}

fn least_target_met(stats: &ActionStats) -> u32 {
    let mut millis: u32 = 1;
    while !stats.sem_below(millis) {
        millis += 1;
    }
    millis
}

#[test]
fn standard_error_falls_as_playouts_accumulate() {
    let mut engine = BlackjackEngine::new();
    let hand = Hand::from_cards(10, 8);
    let mut stats = engine.simulate_batch(&hand, 9, Action::Stand, 1_000).unwrap();
    let early: u32 = least_target_met(&stats);
    for _ in 0..15 {
        stats.merge(&engine.simulate_batch(&hand, 9, Action::Stand, 1_000).unwrap());
    }
    let late: u32 = least_target_met(&stats);
    assert_eq!(stats.n, 16_000);
    assert!(early > 20 && early < 40, "early {}", early);
    assert!(late > 5 && late < 10, "late {}", late);
    assert!(late < early);
}
