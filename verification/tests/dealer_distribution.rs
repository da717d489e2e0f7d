use blackjack_engine::dealer::{distribution, distribution_given_upcard};

fn full_single_deck() -> Vec<u32> {
    vec![4, 4, 4, 4, 4, 4, 4, 4, 4, 16]
}

#[test]
fn distribution_sums_to_its_scale_on_a_full_deck() {
    let deck = full_single_deck();
    let (dist, den) = distribution(12, false, &deck, false);
    assert!(den >= 1);
    let total: u128 = dist.iter().sum();
    assert_eq!(total, den);
}

#[test]
fn distribution_sums_to_its_scale_with_soft_totals_and_h17() {
    let deck = full_single_deck();
    let (dist, den) = distribution(17, true, &deck, true);
    let total: u128 = dist.iter().sum();
    assert_eq!(total, den);
    let (dist2, den2) = distribution(13, true, &deck, false);
    let total2: u128 = dist2.iter().sum();
    assert_eq!(total2, den2);
}

#[test]
fn standing_total_is_a_one_hot_distribution() {
    let deck = full_single_deck();
    let (dist, den) = distribution(19, false, &deck, false);
    assert_eq!(dist[2], den);
    assert_eq!(dist[0] + dist[1] + dist[3] + dist[4] + dist[5], 0);
}

#[test]
fn busted_total_puts_all_mass_on_bust() {
    let deck = full_single_deck();
    let (dist, den) = distribution(22, false, &deck, false);
    assert_eq!(dist[5], den);
}

#[test]
fn sixteen_against_only_sixes_always_busts() {
    let mut deck = vec![0u32; 10];
    deck[5] = 6;
    let (dist, den) = distribution(16, false, &deck, false);
    assert_eq!(dist[5], den);
}

#[test]
fn empty_deck_clamps_to_one_hot_fallback() {
    let deck = vec![0u32; 10];
    let (dist, den) = distribution(12, false, &deck, false);
    assert_eq!(den, 1);
    assert_eq!(dist[0], 1);
}

#[test]
fn conditioned_distribution_sums_to_its_scale() {
    let deck = full_single_deck();
    for hc in [0i32, 1, 2] {
        let (dist, den) = distribution_given_upcard(0, &deck, false, hc);
        assert!(den >= 1);
        let total: u128 = dist.iter().sum();
        assert_eq!(total, den);
    }
}

#[test]
fn conditioned_distribution_over_empty_deck_is_zero() {
    let deck = vec![0u32; 10];
    let (dist, den) = distribution_given_upcard(9, &deck, false, 0);
    assert_eq!(den, 0);
    assert!(dist.iter().all(|&x| x == 0));
}

#[test]
fn deck_state_remove_and_insert_are_inverse() {
    let mut d = blackjack_engine::deck::DeckState::full_shoe(1);
    assert_eq!(d.remaining(), 52);
    d.remove(0);
    assert_eq!(d.remaining(), 51);
    assert_eq!(d.count_of(0), 3);
    d.insert(0);
    assert_eq!(d.remaining(), 52);
    assert_eq!(d.count_of(0), 4);
}
