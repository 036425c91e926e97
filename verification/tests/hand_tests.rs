use jacks_or_better::cards::hand;
use jacks_or_better::hand::{evaluate, HandRank};

#[test]
fn categories() {
    assert_eq!(
        evaluate(&hand("As Ks Qs Js Ts")),
        Some(HandRank::RoyalFlush)
    );
    assert_eq!(
        evaluate(&hand("9h 8h 7h 6h 5h")),
        Some(HandRank::StraightFlush)
    );
    assert_eq!(
        evaluate(&hand("Ah 2h 3h 4h 5h")),
        Some(HandRank::StraightFlush)
    );
    assert_eq!(
        evaluate(&hand("7c 7d 7h 7s Ks")),
        Some(HandRank::FourOfAKind)
    );
    assert_eq!(evaluate(&hand("7c 7d 7h Ks Kd")), Some(HandRank::FullHouse));
    assert_eq!(evaluate(&hand("2d 9d Kd 4d 7d")), Some(HandRank::Flush));
    assert_eq!(evaluate(&hand("9h 8c 7d 6s 5h")), Some(HandRank::Straight));
    assert_eq!(evaluate(&hand("Ah 2c 3d 4s 5h")), Some(HandRank::Straight));
    assert_eq!(evaluate(&hand("Ah Kc Qd Js 10h")), Some(HandRank::Straight));
    assert_eq!(
        evaluate(&hand("7c 7d 7h Ks 2d")),
        Some(HandRank::ThreeOfAKind)
    );
    assert_eq!(evaluate(&hand("7c 7d Kh Ks 2d")), Some(HandRank::TwoPair));
    assert_eq!(
        evaluate(&hand("Jc Jd 3h 8s 2d")),
        Some(HandRank::JacksOrBetter)
    );
    assert_eq!(
        evaluate(&hand("Ac Ad 3h 8s 2d")),
        Some(HandRank::JacksOrBetter)
    );
}

#[test]
fn non_paying_hands() {
    assert_eq!(evaluate(&hand("10c 10d 3h 8s 2d")), None);
    assert_eq!(evaluate(&hand("Ac Kd Qh Js 2d")), None);
    // K-A-2-3-4 does not wrap around.
    assert_eq!(evaluate(&hand("Kc Ad 2h 3s 4d")), None);
}

#[test]
fn paytable_9_6() {
    let rows: [(HandRank, [u32; 5]); 9] = [
        (HandRank::RoyalFlush, [250, 500, 750, 1000, 4000]),
        (HandRank::StraightFlush, [50, 100, 150, 200, 250]),
        (HandRank::FourOfAKind, [25, 50, 75, 100, 125]),
        (HandRank::FullHouse, [9, 18, 27, 36, 45]),
        (HandRank::Flush, [6, 12, 18, 24, 30]),
        (HandRank::Straight, [4, 8, 12, 16, 20]),
        (HandRank::ThreeOfAKind, [3, 6, 9, 12, 15]),
        (HandRank::TwoPair, [2, 4, 6, 8, 10]),
        (HandRank::JacksOrBetter, [1, 2, 3, 4, 5]),
    ];
    for (rank, pays) in rows {
        for (i, p) in pays.iter().enumerate() {
            assert_eq!(rank.payout(i as u8 + 1), *p, "{:?} x{}", rank, i + 1);
        }
    }
}

#[test]
fn hand_order_does_not_matter() {
    let a = hand("7c 7d Kh Ks 2d");
    let b = hand("Ks 2d 7c Kh 7d");
    assert_eq!(evaluate(&a), evaluate(&b));
    assert_eq!(evaluate(&hand("5h 4h 3h 2h Ah")), Some(HandRank::StraightFlush));
    assert_eq!(evaluate(&hand("Ts Ks Js As Qs")), Some(HandRank::RoyalFlush));
}

#[test]
fn low_pairs_and_queens() {
    assert_eq!(evaluate(&hand("Qc Qd 3h 8s 2d")), Some(HandRank::JacksOrBetter));
    assert_eq!(evaluate(&hand("2c 2d 3h 8s 9d")), None);
    assert_eq!(evaluate(&hand("2c 2d 3h 3s 9d")), Some(HandRank::TwoPair));
    assert_eq!(evaluate(&hand("9c 9d 9h 9s 2d")), Some(HandRank::FourOfAKind));
}

#[test]
fn names_of_hands() {
    assert_eq!(HandRank::ALL_DESC.len(), 9);
    assert_eq!(HandRank::ALL_DESC[0].name(), "Royal Flush");
    assert_eq!(HandRank::JacksOrBetter.name(), "Jacks or Better");
    assert_eq!(HandRank::RoyalFlush.payout(4), 1000);
    assert_eq!(HandRank::RoyalFlush.payout(5), 4000);
}
