use blackjack_engine::cards::{add_to, hand_value, hole_allowed, rank_val};

#[test]
fn ace_ace_nine_is_soft_twenty_one() {
    let cards: Vec<u8> = vec![0, 0, 8];
    let (total, soft) = hand_value(&cards);
    assert_eq!(total, 21);
    assert!(soft);
}

#[test]
fn three_aces_and_eight_demote_to_twenty_one() {
    let cards: Vec<u8> = vec![0, 0, 0, 7];
    let (total, soft) = hand_value(&cards);
    assert_eq!(total, 21);
    assert!(soft);
    assert!(total <= 21);
}

#[test]
fn hard_twenty_and_blackjack() {
    let (t1, s1) = hand_value(&vec![9, 9]);
    assert_eq!((t1, s1), (20, false));
    let (t2, s2) = hand_value(&vec![0, 9]);
    assert_eq!((t2, s2), (21, true));
}

#[test]
fn busted_hand_is_never_soft() {
    let (t, s) = hand_value(&vec![9, 9, 9]);
    assert_eq!(t, 30);
    assert!(!s);
    let (t2, s2) = hand_value(&vec![0, 9, 9, 9]);
    assert_eq!(t2, 31);
    assert!(!s2);
}

#[test]
fn two_aces_make_soft_twelve() {
    let (t, s) = hand_value(&vec![0, 0]);
    assert_eq!(t, 12);
    assert!(s);
}

#[test]
fn rank_values_cover_all_buckets() {
    assert_eq!(rank_val(0), 11);
    assert_eq!(rank_val(1), 2);
    assert_eq!(rank_val(8), 9);
    assert_eq!(rank_val(9), 10);
}

#[test]
fn adding_a_ten_to_soft_hand_demotes_the_ace() {
    let (t, s) = add_to(17, true, 9);
    assert_eq!((t, s), (17, false));
    let (t2, s2) = add_to(12, true, 9);
    assert_eq!((t2, s2), (12, false));
}

#[test]
fn hole_constraints_exclude_the_named_rank() {
    assert!(hole_allowed(0, 9));
    assert!(hole_allowed(0, 0));
    assert!(!hole_allowed(1, 9));
    assert!(hole_allowed(1, 0));
    assert!(!hole_allowed(2, 0));
    assert!(hole_allowed(2, 9));
}
