use jacks_or_better::cards::hand;
use jacks_or_better::strategy::{analyze, first_combination, mask_of, next_combination, HoldEv};

/// The expected return per coin of a hold, as a float.
fn ev(h: HoldEv) -> f64 {
    h.paid as f64 / (h.draws as f64 * h.coins as f64)
}

/// Calls `f` with every `k`-combination of `0..n`, in lexicographic order.
fn for_each_combination(n: usize, k: usize, mut f: impl FnMut(&[usize])) {
    let mut idx = first_combination(k);
    loop {
        f(&idx);
        if !next_combination(&mut idx, n) {
            return;
        }
    }
}

#[test]
fn combination_count() {
    let mut n = 0;
    for_each_combination(47, 5, |_| n += 1);
    assert_eq!(n, 1_533_939);
    n = 0;
    for_each_combination(47, 0, |_| n += 1);
    assert_eq!(n, 1);
}

#[test]
fn combinations_come_in_lexicographic_order() {
    let mut all: Vec<Vec<usize>> = Vec::new();
    for_each_combination(5, 3, |c| all.push(c.to_vec()));
    assert_eq!(all.len(), 10);
    assert_eq!(all[0], vec![0, 1, 2]);
    assert_eq!(all[1], vec![0, 1, 3]);
    assert_eq!(all[3], vec![0, 2, 3]);
    assert_eq!(all[9], vec![2, 3, 4]);
    for w in all.windows(2) {
        assert!(w[0] < w[1]);
    }
    let mut last = vec![2, 3, 4];
    assert!(!next_combination(&mut last, 5));
    assert_eq!(last, vec![2, 3, 4]);
}

#[test]
fn made_hand_ev_equals_payout() {
    let a = analyze(&hand("7c 7d 7h Ks Kd"), 5);
    assert!((ev(a.ev_of(31)) - 9.0).abs() < 1e-12);
    let a = analyze(&hand("As Ks Qs Js Ts"), 5);
    assert_eq!(a.best().mask, 31);
    assert!((ev(a.best()) - 800.0).abs() < 1e-12);
}

#[test]
fn four_to_royal_beats_made_flush() {
    let a = analyze(&hand("Ts Js Qs Ks 5s"), 5);
    assert_eq!(a.best().mask, 0b01111);
    assert!(ev(a.best()) > 6.0);
}

#[test]
fn four_flush_beats_low_pair() {
    let a = analyze(&hand("2s 2h 7s 9s Ks"), 5);
    assert_eq!(a.best().mask, 0b11101);
    assert!(!a.is_optimal(0b00011));
}

#[test]
fn low_pair_beats_open_straight_draw() {
    let a = analyze(&hand("5s 5h 6d 7c 8s"), 5);
    assert_eq!(a.best().mask, 0b00011);
}

#[test]
fn junk_holds_single_high_card() {
    let a = analyze(&hand("2c 5d 8h 9s Kd"), 5);
    assert_eq!(a.best().mask, 0b10000);
    assert!(ev(a.ev_of(0b10000)) > ev(a.ev_of(0)));
}

#[test]
fn short_coin_strategy_uses_short_coin_paytable() {
    // K♠ Q♠ 10♠ 7♠ 2♦: 3 to a royal (hold K Q 10) vs 4 to a flush (hold all spades).
    let three_royal = 0b00111;
    let four_flush = 0b01111;
    let max = analyze(&hand("Ks Qs Ts 7s 2d"), 5);
    assert_eq!(max.best().mask, three_royal);
    let one = analyze(&hand("Ks Qs Ts 7s 2d"), 1);
    assert_eq!(one.best().mask, four_flush);
}

#[test]
fn ties_count_as_optimal() {
    // Four of a kind: keeping or discarding the kicker is identical.
    let a = analyze(&hand("7c 7d 7h 7s Ks"), 5);
    assert!(a.is_optimal(0b01111));
    assert!(a.is_optimal(0b11111));
    assert!(!a.is_optimal(0b00111));
}

#[test]
fn mask_helpers() {
    assert_eq!(mask_of(&[true, false, false, false, true]), 0b10001);
}

#[test]
fn every_hold_is_listed_once_best_first() {
    let a = analyze(&hand("Jc Jd 3h 8s 2d"), 5);
    let holds = a.holds();
    assert_eq!(holds.len(), 32);
    let mut seen = [false; 32];
    for h in holds.iter() {
        assert!(!seen[h.mask as usize]);
        seen[h.mask as usize] = true;
    }
    for w in holds.windows(2) {
        assert!(ev(w[0]) >= ev(w[1]));
    }
    // Holding nothing: five new cards from the 47 unseen ones.
    assert_eq!(a.ev_of(0).draws, 1_533_939);
    // Holding everything: one way to draw nothing.
    assert_eq!(a.ev_of(31).draws, 1);
    assert_eq!(a.ev_of(31).paid, 5);
    // Holding one card: four new cards.
    assert_eq!(a.ev_of(1).draws, 178_365);
    assert_eq!(a.coins(), 5);
    assert_eq!(a.hand(), hand("Jc Jd 3h 8s 2d"));
}

#[test]
fn draws_come_from_the_47_unseen_cards() {
    let a = analyze(&hand("2c 7d 9h Js Kd"), 1);
    assert_eq!(a.ev_of(31).draws, 1);
    assert_eq!(a.ev_of(0b01111).draws, 47);
    assert_eq!(a.ev_of(0b00111).draws, 1_081);
    assert_eq!(a.ev_of(0b00001).draws, 178_365);
    assert_eq!(a.ev_of(0).draws, 1_533_939);
}
