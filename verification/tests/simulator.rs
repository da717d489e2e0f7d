use blackjack_engine::sim::{BlackjackSimulator, ConfigError, Ruleset};

fn base_rules() -> Ruleset {
    Ruleset {
        num_decks: 1,
        dealer_hits_soft_17: false,
        payout_num: 3,
        payout_den: 2,
        double_after_split: true,
        max_splits: 3,
        pen_num: 1,
        pen_den: 2,
        split_aces_stand_only: true,
        dp_depth: 3,
        dp_depth_dbl: 4,
    }
}

#[test]
fn zero_decks_are_rejected() {
    let mut rules = base_rules();
    rules.num_decks = 0;
    assert_eq!(
        BlackjackSimulator::new(Vec::new(), rules, 1).err(),
        Some(ConfigError::BadDecks)
    );
    rules.num_decks = 9;
    assert_eq!(
        BlackjackSimulator::new(Vec::new(), rules, 1).err(),
        Some(ConfigError::BadDecks)
    );
}

#[test]
fn penetration_outside_unit_interval_is_rejected() {
    let mut rules = base_rules();
    rules.pen_num = 0;
    assert_eq!(
        BlackjackSimulator::new(Vec::new(), rules, 1).err(),
        Some(ConfigError::BadPenetration)
    );
    rules.pen_num = 3;
    rules.pen_den = 2;
    assert_eq!(
        BlackjackSimulator::new(Vec::new(), rules, 1).err(),
        Some(ConfigError::BadPenetration)
    );
}

#[test]
fn zero_payout_denominator_is_rejected() {
    let mut rules = base_rules();
    rules.payout_den = 0;
    assert_eq!(
        BlackjackSimulator::new(Vec::new(), rules, 1).err(),
        Some(ConfigError::BadPayout)
    );
}

#[test]
fn oversized_or_malformed_starting_shoes_are_rejected() {
    let rules = base_rules();
    assert_eq!(
        BlackjackSimulator::new(vec![1, 2, 3], rules, 1).err(),
        Some(ConfigError::BadShoe)
    );
    let mut heavy = vec![0u32; 10];
    heavy[9] = 500;
    assert_eq!(
        BlackjackSimulator::new(heavy, rules, 1).err(),
        Some(ConfigError::BadShoe)
    );
}

#[test]
fn construction_starts_with_a_full_shoe_and_zero_stats() {
    let sim = BlackjackSimulator::new(Vec::new(), base_rules(), 1).unwrap();
    let counts = sim.solver_deck();
    for r in 0..9 {
        assert_eq!(counts[r], 4);
    }
    assert_eq!(counts[9], 16);
    let stats = sim.get_stats();
    assert_eq!(stats.hands_played, 0);
    assert_eq!(stats.reshuffles, 0);
    assert_eq!(stats.pnl_num, 0);
    assert_eq!(stats.wagered, 0);
    assert_eq!(sim.rules.dp_depth, 3);
    assert_eq!(sim.rules.dp_depth_dbl, 4);
}

#[test]
fn reshuffle_triggers_exactly_once_and_restores_the_composition() {
    // 20 cards left of a single deck at one-half penetration: the
    // threshold is crossed, so exactly one reshuffle restores the
    // exact full composition.
    let mut shoe = vec![2u32; 10];
    shoe[9] = 2;
    let mut sim = BlackjackSimulator::new(shoe, base_rules(), 1).unwrap();
    sim.maybe_reshuffle();
    let stats = sim.get_stats();
    assert_eq!(stats.reshuffles, 1);
    let counts = sim.solver_deck();
    for r in 0..9 {
        assert_eq!(counts[r], 4);
    }
    assert_eq!(counts[9], 16);
    // A full shoe does not trigger again.
    sim.maybe_reshuffle();
    assert_eq!(sim.get_stats().reshuffles, 1);
}

#[test]
fn guaranteed_dealer_blackjack_loses_one_unit() {
    // Near-exhausted shoe: one ace and three tens. With this seed the
    // player draws two tens, the up-card is the ace, and the peek finds
    // the ten in the hole: an immediate dealer blackjack against a
    // non-blackjack twenty, losing exactly the unit stake.
    let mut rules = base_rules();
    rules.pen_num = 1;
    rules.pen_den = 1;
    let mut shoe = vec![0u32; 10];
    shoe[0] = 1;
    shoe[9] = 3;
    let mut sim = BlackjackSimulator::new(shoe, rules, 6).unwrap();
    let out = sim.play_one_hand();
    assert_eq!(out.pnl_den, 2);
    assert_eq!(out.pnl_num, -2);
    assert_eq!(out.wagered, 1);
    let stats = sim.get_stats();
    assert_eq!(stats.hands_played, 1);
    assert_eq!(stats.wagered, 1);
    assert_eq!(stats.pnl_num, -2);
}

#[test]
fn many_hands_accumulate_stats_and_reshuffle() {
    let mut sim = BlackjackSimulator::new(Vec::new(), base_rules(), 42).unwrap();
    for _ in 0..25 {
        let out = sim.play_one_hand();
        assert!(out.wagered >= 1);
        assert_eq!(out.pnl_den, 2);
    }
    let stats = sim.get_stats();
    assert_eq!(stats.hands_played, 25);
    assert!(stats.wagered >= 25);
    assert!(stats.reshuffles >= 1);
    assert!(
        stats.stand_actions + stats.hit_actions + stats.double_actions + stats.split_actions
            >= 1
    );
}

#[test]
fn reshuffle_empties_both_memo_tables() {
    // A 20-card shoe at one-half penetration: above the four-card floor
    // but below the threshold of 26 undealt cards, so the next check
    // reshuffles. Solver queries populate both memo tables first.
    let shoe = vec![2u32; 10];
    let mut sim = BlackjackSimulator::new(shoe, base_rules(), 1).unwrap();
    let deck = sim.solver_deck();
    let act1 = sim.decide_cached(14, false, 9, &deck, 0, false);
    assert!(sim.dealer_memo.len() >= 1);
    assert!(sim.decision_memo.len() >= 1);
    // The cached and the recomputed decision agree.
    let act2 = sim.decide_cached(14, false, 9, &deck, 0, false);
    assert_eq!(act1, act2);
    assert_eq!(act1, sim.decide(14, false, 9, &deck, 0, false));
    // 20 * 2 < 52 * 1: crossing the threshold clears both tables.
    sim.maybe_reshuffle();
    assert_eq!(sim.get_stats().reshuffles, 1);
    assert_eq!(sim.dealer_memo.len(), 0);
    assert_eq!(sim.decision_memo.len(), 0);
}
