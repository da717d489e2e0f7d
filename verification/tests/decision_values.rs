use blackjack_engine::ev::EvRatio;
use blackjack_engine::sim::{Action, BlackjackSimulator, Ruleset};

fn rules_s17() -> Ruleset {
    Ruleset {
        num_decks: 1,
        dealer_hits_soft_17: false,
        payout_num: 3,
        payout_den: 2,
        double_after_split: true,
        max_splits: 3,
        pen_num: 1,
        pen_den: 2,
        split_aces_stand_only: true,
        dp_depth: 3,
        dp_depth_dbl: 4,
    }
}

fn mk_sim() -> BlackjackSimulator {
    BlackjackSimulator::new(Vec::new(), rules_s17(), 1).unwrap()
}

fn as_f64(ev: EvRatio) -> f64 {
    (ev.num as f64) / (ev.den as f64)
}

#[test]
fn standing_wins_exactly_when_the_dealer_must_bust() {
    // Only sixes remain: the up-card ten finds a six in the hole for a
    // hard sixteen, and the forced third six busts the dealer.
    let sim = mk_sim();
    let mut deck = vec![0u32; 10];
    deck[5] = 6;
    let ev = sim.stand_ev(12, false, 9, &deck, 0);
    assert_eq!(ev.num as u128, ev.den);
}

#[test]
fn stand_ev_pushes_on_equal_twenties() {
    // One ten left: it must be the hole, the dealer stands on 20.
    let sim = mk_sim();
    let mut deck = vec![0u32; 10];
    deck[9] = 1;
    let ev = sim.stand_ev(20, false, 9, &deck, 0);
    assert_eq!(ev.num, 0);
    assert_eq!(ev.den, 1);
    let ev19 = sim.stand_ev(19, false, 9, &deck, 0);
    assert_eq!(ev19.num, -1);
    assert_eq!(ev19.den, 1);
}

#[test]
fn peek_failure_conditions_the_hole_card() {
    // Ace up, one ten and one six left. After a failed peek the hole
    // cannot be the ten, so the dealer has soft 17 and stands under
    // S17; the player's 18 wins for sure.
    let sim = mk_sim();
    let mut deck = vec![0u32; 10];
    deck[9] = 1;
    deck[5] = 1;
    let conditioned = sim.stand_ev(18, false, 0, &deck, 1);
    assert_eq!(conditioned.num as u128, conditioned.den);
    // Without the constraint the ten hole makes a dealer 21 and the
    // outcomes cancel exactly.
    let open = sim.stand_ev(18, false, 0, &deck, 0);
    assert_eq!(open.num, 0);
    assert!(open.den >= 2);
}

#[test]
fn stand_query_is_idempotent() {
    let sim = mk_sim();
    let deck = vec![4u32, 4, 4, 4, 4, 4, 4, 4, 4, 16];
    let a = sim.stand_ev(16, false, 9, &deck, 0);
    let b = sim.stand_ev(16, false, 9, &deck, 0);
    assert_eq!(a.num, b.num);
    assert_eq!(a.den, b.den);
}

#[test]
fn double_value_equals_one_card_hit_value_per_stake() {
    let sim = mk_sim();
    let deck = vec![4u32, 4, 4, 4, 4, 4, 4, 4, 4, 16];
    let h = sim.hit_then_stand_ev(11, false, 5, &deck, 0);
    let d = sim.double_ev(11, false, 5, &deck, 0);
    assert_eq!(h.num, d.num);
    assert_eq!(h.den, d.den);
}

#[test]
fn hit_ev_of_twenty_against_ten_is_worse_than_standing() {
    let sim = mk_sim();
    let deck = vec![4u32, 4, 4, 4, 4, 4, 4, 4, 4, 14];
    let stand = sim.stand_ev(20, false, 9, &deck, 0);
    let hit = sim.hit_then_stand_ev(20, false, 9, &deck, 0);
    assert!(as_f64(hit) < as_f64(stand));
}

#[test]
fn split_eights_children_hit_low_totals_against_a_ten() {
    // A pair of eights split against a ten: the children land on low
    // totals such as 8+2=10 and 8+3=11, where basic strategy hits
    // (or doubles), never stands.
    let sim = mk_sim();
    let deck = vec![4u32, 4, 4, 4, 4, 4, 4, 2, 4, 15];
    for child_total in [10u32, 11] {
        let act = sim.decide(child_total, false, 9, &deck, 0, false);
        assert_eq!(act, Action::Hit);
    }
    let act_dbl = sim.decide(11, false, 5, &deck, 0, true);
    assert!(act_dbl == Action::DoubleDown || act_dbl == Action::Hit);
    assert_ne!(act_dbl, Action::Stand);
}

#[test]
fn splitting_eights_beats_standing_on_sixteen() {
    let sim = mk_sim();
    let deck = vec![4u32, 4, 4, 4, 4, 4, 4, 2, 4, 15];
    let split = sim.split_ev(7, 9, &deck, 0);
    let stand16 = sim.stand_ev(16, false, 9, &deck, 0);
    assert!(as_f64(split) > as_f64(stand16));
}

#[test]
fn high_totals_stand_against_weak_up_cards() {
    let sim = mk_sim();
    let deck = vec![4u32, 4, 4, 4, 4, 4, 4, 4, 4, 16];
    let act = sim.decide(20, false, 5, &deck, 0, false);
    assert_eq!(act, Action::Stand);
}

#[test]
fn hit_values_are_the_depth_one_instance_of_the_lookahead() {
    // The configured depths are carried but the engine evaluates the
    // depth-one chain: one card, then stand. Changing the requested
    // depths cannot change any analytic value.
    let deck = vec![4u32, 4, 4, 4, 4, 4, 4, 4, 4, 16];
    let mut deep = rules_s17();
    deep.dp_depth = 7;
    deep.dp_depth_dbl = 9;
    let sim_a = mk_sim();
    let sim_b = BlackjackSimulator::new(Vec::new(), deep, 1).unwrap();
    for total in [9u32, 12, 16] {
        let a = sim_a.hit_then_stand_ev(total, false, 9, &deck, 0);
        let b = sim_b.hit_then_stand_ev(total, false, 9, &deck, 0);
        assert_eq!(a.num, b.num);
        assert_eq!(a.den, b.den);
    }
}

#[test]
fn queries_over_empty_decks_return_zero() {
    let sim = mk_sim();
    let deck = vec![0u32; 10];
    let s = sim.stand_ev(18, false, 9, &deck, 0);
    assert_eq!((s.num, s.den), (0, 1));
    let h = sim.hit_then_stand_ev(12, false, 9, &deck, 0);
    assert_eq!((h.num, h.den), (0, 1));
    let sp = sim.split_ev(7, 9, &deck, 0);
    assert_eq!((sp.num, sp.den), (0, 1));
}
