use jacks_or_better::cards::hand;
use jacks_or_better::game::{Banner, Game, Phase, PrimaryAction, Saved, MAX_COINS, START_BANKROLL};
use jacks_or_better::hand::HandRank;
use jacks_or_better::strategy;

#[test]
fn starts_with_100_dollars_at_quarter_denom() {
    let g = Game::new();
    assert_eq!(g.bankroll, 10_000);
    assert_eq!(g.denom, 25);
    assert_eq!(g.coins, 5);
    assert_eq!(g.bankroll / g.denom as u64, 400);
    assert_eq!(g.bet_cents(), 125);
}

#[test]
fn deal_deducts_bet_and_locks_denom() {
    let mut g = Game::new();
    g.deal();
    assert_eq!(g.phase, Phase::Dealt);
    assert_eq!(g.bankroll, 10_000 - 125);
    g.set_denom(100);
    assert_eq!(g.denom, 25);
    g.bet_one();
    assert_eq!(g.coins, 5);
    g.draw();
    assert_eq!(g.phase, Phase::Ready);
    assert_eq!(g.decisions, 1);
    g.set_denom(100);
    assert_eq!(g.denom, 100);
}

#[test]
fn cannot_deal_without_funds() {
    let mut g = Game::new();
    g.bankroll = 100;
    assert!(!g.can_deal());
    g.deal();
    assert_eq!(g.phase, Phase::Ready);
    g.set_denom(5);
    assert!(g.can_deal());
    g.bankroll = 3;
    assert!(!g.can_deal());
    assert!(!g.is_bust(), "a smaller denomination is still playable");
    g.bankroll = 0;
    assert!(g.is_bust());
    g.reset();
    assert_eq!(g.bankroll, START_BANKROLL);
}

#[test]
fn bet_one_cycles() {
    let mut g = Game::new();
    g.bet_one();
    assert_eq!(g.coins, 1);
    for _ in 0..4 {
        g.bet_one();
    }
    assert_eq!(g.coins, 5);
}

#[test]
fn settle_pays_by_denom_and_freezes_win() {
    let mut g = Game::new();
    g.settle(Some(HandRank::FullHouse));
    assert_eq!(g.last_win, 45 * 25);
    assert_eq!(g.last_win_coins, 45);
    assert_eq!(g.bankroll, 10_000 + 1125);
    g.bet_one();
    g.set_denom(1);
    assert_eq!(g.last_win_coins, 45);
    assert_eq!(g.last_win, 1125);
    g.settle(None);
    assert_eq!(g.last_win, 0);
    assert_eq!(g.last_win_coins, 0);
    assert_eq!(g.result, None);
}

#[test]
fn streak_counts_consecutive_optimal_holds() {
    let mut g = Game::new();
    let a = strategy::analyze(&hand("7c 7d 7h Ks Kd"), 5);
    g.held = [true; 5];
    g.grade(&a);
    g.grade(&a);
    assert_eq!((g.correct, g.decisions, g.streak), (2, 2, 2));
    g.held = [false; 5];
    g.grade(&a);
    assert_eq!((g.correct, g.decisions, g.streak), (2, 3, 0));
    let fb = g.feedback.as_ref().unwrap();
    assert!(!fb.optimal);
    assert_eq!((fb.player_mask, fb.best_mask), (0, 0b11111));
    g.held = [true; 5];
    g.grade(&a);
    g.reset_stats();
    assert_eq!((g.correct, g.decisions, g.streak), (0, 0, 0));
}

#[test]
fn save_refunds_unfinished_hand_and_restore_validates() {
    let mut g = Game::new();
    g.deal();
    let s = g.saved();
    assert_eq!(s.bankroll, START_BANKROLL);
    let g = Game::restore(Saved {
        bankroll: 42,
        denom: 3,
        coins: 9,
        correct: 7,
        decisions: 5,
        streak: 9,
    });
    assert_eq!((g.bankroll, g.denom, g.coins), (42, 25, MAX_COINS));
    assert_eq!((g.correct, g.decisions, g.streak), (5, 5, 5));
    assert_eq!(g.phase, Phase::Ready);
}

#[test]
fn bet_max_requires_five_coins_of_bankroll() {
    let mut g = Game::new();
    g.bet_one();
    g.bankroll = 124;
    assert!(!g.can_bet_max());
    g.bet_max();
    assert_eq!(g.coins, 1);
    assert_eq!(g.phase, Phase::Ready);
    g.bankroll = 125;
    g.bet_max();
    assert_eq!(g.coins, 5);
    assert_eq!(g.phase, Phase::Dealt);
    assert_eq!(g.bankroll, 0);
}

#[test]
fn restoring_a_save_keeps_the_values() {
    let mut g = Game::new();
    g.set_denom(50);
    g.bet_one();
    g.bet_one();
    g.deal();
    let s = g.saved();
    assert_eq!(s.bankroll, START_BANKROLL);
    let r = Game::restore(s);
    assert_eq!(r.saved(), s);
    assert_eq!((r.denom, r.coins), (50, 2));
}

#[test]
fn a_dealt_hand_holds_five_different_cards_and_draw_pays_the_result() {
    let mut g = Game::new();
    g.set_denom(1);
    g.deal();
    let dealt = g.hand.unwrap();
    for i in 0..5 {
        for j in i + 1..5 {
            assert_ne!(dealt[i], dealt[j]);
        }
    }
    assert_eq!(g.card_gen, [1; 5]);
    g.toggle_hold(0);
    g.toggle_hold(2);
    assert_eq!(g.held, [true, false, true, false, false]);
    let before = g.bankroll;
    g.draw();
    let drawn = g.hand.unwrap();
    assert_eq!(drawn[0], dealt[0]);
    assert_eq!(drawn[2], dealt[2]);
    assert_eq!(g.card_gen, [1, 2, 1, 2, 2]);
    for i in 0..5 {
        for j in i + 1..5 {
            assert_ne!(drawn[i], drawn[j]);
        }
        if i == 1 || i == 3 || i == 4 {
            assert!(!dealt.contains(&drawn[i]));
        }
    }
    let expected = jacks_or_better::hand::evaluate(&drawn).map_or(0, |r| r.payout(5));
    assert_eq!(g.result, jacks_or_better::hand::evaluate(&drawn));
    assert_eq!(g.last_win_coins, expected);
    assert_eq!(g.bankroll, before + expected as u64);
    let fb = g.feedback.unwrap();
    assert_eq!(fb.player_mask, 0b00101);
    assert_eq!(fb.dealt, dealt);
}

#[test]
fn toggling_outside_a_hand_does_nothing() {
    let mut g = Game::new();
    g.toggle_hold(3);
    assert_eq!(g.held, [false; 5]);
    g.draw();
    assert_eq!(g.phase, Phase::Ready);
    assert_eq!(g.decisions, 0);
}

#[test]
fn primary_action_follows_the_state() {
    let mut g = Game::new();
    assert_eq!(g.primary_action(), PrimaryAction::Deal);
    g.deal();
    assert_eq!(g.primary_action(), PrimaryAction::Draw);
    g.draw();
    g.bankroll = 0;
    assert_eq!(g.primary_action(), PrimaryAction::Reset);
}

#[test]
fn grading_without_analysis_keeps_the_record() {
    let mut g = Game::new();
    g.deal();
    g.draw_with(None);
    assert_eq!(g.phase, Phase::Ready);
    assert_eq!(g.decisions, 0);
    assert!(g.feedback.is_none());
}

#[test]
fn unknown_denominations_are_refused() {
    let mut g = Game::new();
    g.set_denom(10);
    assert_eq!(g.denom, 25);
    for d in [1, 5, 25, 50, 100] {
        g.set_denom(d);
        assert_eq!(g.denom, d);
    }
}

#[test]
fn banner_follows_the_state() {
    let mut g = Game::new();
    assert_eq!(g.banner(false), Banner::Hidden);
    assert_eq!(g.banner(true), Banner::PlaceBet);
    g.deal();
    assert_eq!(g.banner(true), Banner::ChooseHolds);
    g.draw();
    match g.result {
        Some(r) => assert_eq!(g.banner(true), Banner::Win(r, g.last_win_coins)),
        None => assert_eq!(g.banner(true), Banner::NoWin),
    }
    g.result = None;
    g.bankroll = 3;
    assert_eq!(g.banner(true), Banner::CannotAfford);
    g.bankroll = 0;
    assert_eq!(g.banner(true), Banner::Bust);
}
