use vstd::multiset::Multiset;
use vstd::prelude::*;

use crate::cards::{Card, Deck, is_standard, lemma_standard_deck_distinct, standard_deck};
use crate::hand::{HandRank, evaluate, spec_evaluate};
use crate::strategy::{
    Analysis, HoldEv, analyze, ev_close, held_mask, hold_ev, is_best_hold, mask_of,
};

verus! {

broadcast use vstd::seq_lib::group_to_multiset_ensures;

/// Denominations in cents.
pub const DENOMS: [u32; 5] = [1, 5, 25, 50, 100];

pub const START_BANKROLL: u64 = 10_000;

pub const MAX_COINS: u8 = 5;

/// One of the coin values the machine offers, in cents.
pub open spec fn is_denom(d: u32) -> bool {
    d == 1 || d == 5 || d == 25 || d == 50 || d == 100
}

#[derive(Clone, Copy, Debug, PartialEq, Eq, Structural)]
pub enum Phase {
    Ready,
    Dealt,
}

/// How a hold was judged against the best play for the dealt hand.
#[derive(Clone, Copy, Debug)]
pub struct Feedback {
    pub optimal: bool,
    pub dealt: [Card; 5],
    /// Bit i set = card i was held.
    pub player_mask: u8,
    pub player_ev: HoldEv,
    /// The best hold; the player's own when it ties for best.
    pub best_mask: u8,
    pub best_ev: HoldEv,
}

/// `fb` judges holding `mask` of `hand`, for a bet of `coins`, against the best hold `best`.
pub open spec fn graded(hand: Seq<Card>, coins: u8, mask: u8, best: HoldEv, fb: Feedback) -> bool {
    let player = hold_ev(hand, mask, coins);
    let optimal = ev_close(player, best);
    &&& fb.optimal == optimal
    &&& fb.dealt@ == hand
    &&& fb.player_mask == mask
    &&& fb.player_ev == player
    &&& fb.best_mask == if optimal { mask } else { best.mask }
    &&& fb.best_ev == best
}

/// What the main button does in the current state.
#[derive(Clone, Copy, Debug, PartialEq, Eq, Structural)]
pub enum PrimaryAction {
    /// Out of credits: reload the starting bankroll.
    Reset,
    Draw,
    Deal,
}

/// The message above the cards.
#[derive(Clone, Copy, Debug, PartialEq, Eq, Structural)]
pub enum Banner {
    /// Nothing to show while the drawn cards are still turning over.
    Hidden,
    /// Out of credits at every denomination.
    Bust,
    /// A hand is dealt: choose cards to hold, then draw.
    ChooseHolds,
    /// The last hand won: its rank and the coins it paid.
    Win(HandRank, u32),
    /// The bankroll does not cover the bet.
    CannotAfford,
    /// The last hand paid nothing.
    NoWin,
    /// No hand played yet.
    PlaceBet,
}

/// What survives a restart.
#[derive(Clone, Copy, Debug, PartialEq, Eq, Structural)]
pub struct Saved {
    pub bankroll: u64,
    pub denom: u32,
    pub coins: u8,
    pub correct: u32,
    pub decisions: u32,
    pub streak: u32,
}

/// The values a restored game takes from `s`: an unknown denomination falls back to
/// 25 cents, a bet outside 1..=5 coins to five coins, and the accuracy counts are
/// clamped so that the streak never exceeds the correct holds, nor these the decisions.
pub open spec fn restored(s: Saved) -> Saved {
    let correct = if s.correct <= s.decisions { s.correct } else { s.decisions };
    Saved {
        bankroll: s.bankroll,
        denom: if is_denom(s.denom) { s.denom } else { 25 },
        coins: if 1 <= s.coins <= 5 { s.coins } else { 5 },
        correct,
        decisions: s.decisions,
        streak: if s.streak <= correct { s.streak } else { correct },
    }
}

/// The state of one machine: money, bet, the hand in play and the accuracy record.
pub struct Game {
    pub bankroll: u64,
    pub denom: u32,
    pub coins: u8,
    pub phase: Phase,
    pub hand: Option<[Card; 5]>,
    pub held: [bool; 5],
    /// Incremented each time a card slot receives a new card (drives flip animation).
    pub card_gen: [u32; 5],
    pub result: Option<HandRank>,
    /// Last hand's win in cents and in coins, frozen at settle time.
    pub last_win: u64,
    pub last_win_coins: u32,
    pub feedback: Option<Feedback>,
    pub correct: u32,
    pub decisions: u32,
    /// Consecutive optimal holds.
    pub streak: u32,
    /// The cards not yet dealt; a new deal reshuffles it.
    pub deck: Deck,
}

/// Coins won by a final hand of rank `rank`, for a bet of `coins`.
pub open spec fn win_coins(rank: Option<HandRank>, coins: u8) -> int {
    match rank {
        Some(r) => r.spec_payout(coins),
        None => 0,
    }
}

/// The hand and deck after replacing each card of `h` from slot `i` on that is not
/// held, left to right, with the next card off the end of `deck`.
pub open spec fn replace_unheld(h: Seq<Card>, held: Seq<bool>, deck: Seq<Card>, i: int) -> (Seq<Card>, Seq<Card>)
    decreases 5 - i,
{
    if i < 0 || i >= 5 {
        (h, deck)
    } else if held[i] {
        replace_unheld(h, held, deck, i + 1)
    } else {
        replace_unheld(h.update(i, deck.last()), held, deck.drop_last(), i + 1)
    }
}

/// `new` is `old` after a deal: the bet taken, five cards dealt off a freshly shuffled
/// standard deck, nothing held, every slot given a new card, and last hand's result
/// cleared.
pub open spec fn deals(old: Game, new: Game) -> bool {
    &&& new.bankroll == old.bankroll - old.spec_bet()
    &&& new.phase == Phase::Dealt
    &&& new.hand matches Some(h) && h@.to_multiset().add(new.deck@.to_multiset())
        == standard_deck().to_multiset()
    &&& forall|i: int| 0 <= i < 5 ==> !#[trigger] new.held@[i] && new.card_gen@[i] == old.card_gen@[i] + 1
    &&& new.result is None
    &&& new.last_win == 0
    &&& new.last_win_coins == 0
    &&& new.feedback is None
    &&& new.denom == old.denom
    &&& new.coins == old.coins
    &&& new.correct == old.correct
    &&& new.decisions == old.decisions
    &&& new.streak == old.streak
}

/// `new` is `old` after settling a final hand of rank `rank`: the win is frozen in coins
/// and cents and added to the bankroll.
pub open spec fn settles(old: Game, new: Game, rank: Option<HandRank>) -> bool {
    let won = win_coins(rank, old.coins);
    new == Game {
        result: rank,
        last_win_coins: won as u32,
        last_win: (won * old.denom) as u64,
        bankroll: (old.bankroll + won * old.denom) as u64,
        ..old
    }
}

/// `new` is `old` after grading the held cards against the holds of `hand` for a bet of
/// `coins`, whose best is `best`: one more decision, one more correct hold and a longer
/// streak when the hold was optimal, the streak broken otherwise, and feedback recorded.
pub open spec fn grades(old: Game, new: Game, hand: Seq<Card>, coins: u8, best: HoldEv) -> bool {
    let mask = held_mask(old.held@) as u8;
    let optimal = ev_close(hold_ev(hand, mask, coins), best);
    &&& new.feedback matches Some(fb) && graded(hand, coins, mask, best, fb)
    &&& new.decisions == old.decisions + 1
    &&& new.correct == old.correct + if optimal { 1int } else { 0int }
    &&& new.streak == if optimal { old.streak + 1 } else { 0 }
    &&& new == Game { feedback: new.feedback, decisions: new.decisions, correct: new.correct, streak: new.streak, ..old }
}

/// `new` is the dealt game `old` after the draw, before any grading: unheld cards
/// replaced off the deck, their slots given new cards, the final hand settled, and the
/// machine ready for the next deal.
pub open spec fn draws(old: Game, new: Game) -> bool {
    let drawn = replace_unheld(old.hand.unwrap()@, old.held@, old.deck@, 0);
    let rank = spec_evaluate(drawn.0);
    let won = win_coins(rank, old.coins);
    &&& new.hand matches Some(h) && h@ == drawn.0
    &&& new.deck@ == drawn.1
    &&& forall|i: int| 0 <= i < 5 ==> #[trigger] new.card_gen@[i] == old.card_gen@[i] + if old.held@[i] { 0int } else { 1int }
    &&& new.phase == Phase::Ready
    &&& new.result == rank
    &&& new.last_win_coins == won
    &&& new.last_win == won * old.denom
    &&& new.bankroll == old.bankroll + won * old.denom
    &&& new.held == old.held
    &&& new.denom == old.denom
    &&& new.coins == old.coins
}

/// The largest win a bet of up to five coins can bring, in coins, is the royal's 4000.
pub proof fn lemma_win_bound(rank: Option<HandRank>, coins: u8)
    requires
        coins <= 5,
    ensures
        0 <= win_coins(rank, coins) <= 4000,
{
    if let Some(r) = rank {
        assert(0 <= r.base_pay() * coins <= 250 * 5) by (nonlinear_arith)
            requires
                0 <= r.base_pay() <= 250,
                coins <= 5,
        ;
    }
}

impl Game {
    /// The cards left in the deck, the next to be dealt last.
    pub open spec fn deck_cards(self) -> Seq<Card> {
        self.deck@
    }

    /// The cards in the hand and the deck together.
    pub open spec fn in_play(self) -> Multiset<Card> {
        match self.hand {
            Some(h) => h@.to_multiset().add(self.deck@.to_multiset()),
            None => self.deck@.to_multiset(),
        }
    }

    /// The invariant every operation keeps: the cards in the hand and the deck are
    /// different cards of one standard deck, the bet is 1 to 5 coins, and a dealt hand
    /// has 47 cards left behind it.
    pub open spec fn wf(self) -> bool {
        &&& self.in_play().subset_of(standard_deck().to_multiset())
        &&& 1 <= self.coins <= 5
        &&& forall|i: int| 0 <= i < self.deck_cards().len() ==> is_standard(#[trigger] self.deck_cards()[i])
        &&& self.hand matches Some(h) ==> forall|i: int| 0 <= i < 5 ==> is_standard(#[trigger] h@[i])
        &&& self.phase == Phase::Dealt ==> self.hand is Some && self.deck_cards().len() == 47
    }

    /// No more correct holds than decisions, and a streak no longer than the correct holds.
    pub open spec fn stats_consistent(self) -> bool {
        self.streak <= self.correct <= self.decisions
    }

    /// The bet in cents.
    pub open spec fn spec_bet(self) -> int {
        self.coins * self.denom
    }

    pub open spec fn spec_can_deal(self) -> bool {
        self.phase == Phase::Ready && self.bankroll >= self.spec_bet()
    }

    pub open spec fn spec_can_bet_max(self) -> bool {
        self.phase == Phase::Ready && self.bankroll >= 5 * self.denom
    }

    /// What `saved` records: a hand still waiting on DRAW is abandoned, so its bet is
    /// returned.
    pub open spec fn spec_saved(self) -> Saved {
        Saved {
            bankroll: (self.bankroll + if self.phase == Phase::Dealt { self.spec_bet() } else { 0 }) as u64,
            denom: self.denom,
            coins: self.coins,
            correct: self.correct,
            decisions: self.decisions,
            streak: self.streak,
        }
    }

    /// A fresh game: $100 at a quarter, five coins, no hand yet, and a shuffled deck.
    pub open spec fn is_fresh(self) -> bool {
        &&& self.bankroll == START_BANKROLL
        &&& self.denom == 25
        &&& self.coins == MAX_COINS
        &&& self.is_idle()
        &&& self.correct == 0
        &&& self.decisions == 0
        &&& self.streak == 0
    }

    /// Between hands with nothing dealt yet.
    pub open spec fn is_idle(self) -> bool {
        &&& self.phase == Phase::Ready
        &&& self.hand is None
        &&& forall|i: int| 0 <= i < 5 ==> !#[trigger] self.held@[i] && self.card_gen@[i] == 0
        &&& self.result is None
        &&& self.last_win == 0
        &&& self.last_win_coins == 0
        &&& self.feedback is None
    }

    pub fn new() -> (g: Game)
        ensures
            g.is_fresh(),
            g.wf(),
            g.deck_cards().to_multiset() == standard_deck().to_multiset(),
    {
        let deck = Deck::shuffled();
        proof {
            assert forall|i: int| 0 <= i < deck@.len() implies is_standard(#[trigger] deck@[i]) by {
                assert(deck@.to_multiset().count(deck@[i]) > 0);
                assert(standard_deck().contains(deck@[i]));
            }
        }
        Game {
            bankroll: START_BANKROLL,
            denom: 25,
            coins: MAX_COINS,
            phase: Phase::Ready,
            hand: None,
            held: [false; 5],
            card_gen: [0; 5],
            result: None,
            last_win: 0,
            last_win_coins: 0,
            feedback: None,
            correct: 0,
            decisions: 0,
            streak: 0,
            deck,
        }
    }

    /// A new game that continues from saved values, as `restored` validates them.
    pub fn restore(s: Saved) -> (g: Game)
        ensures
            g.bankroll == restored(s).bankroll,
            g.denom == restored(s).denom,
            g.coins == restored(s).coins,
            g.correct == restored(s).correct,
            g.decisions == restored(s).decisions,
            g.streak == restored(s).streak,
            g.is_idle(),
            g.wf(),
            g.stats_consistent(),
            is_denom(g.denom),
    {
        let mut g = Game::new();
        g.bankroll = s.bankroll;
        if is_denomination(s.denom) {
            g.denom = s.denom;
        }
        if 1 <= s.coins && s.coins <= MAX_COINS {
            g.coins = s.coins;
        }
        g.decisions = s.decisions;
        g.correct = if s.correct < s.decisions { s.correct } else { s.decisions };
        g.streak = if s.streak < g.correct { s.streak } else { g.correct };
        g
    }

    pub fn saved(&self) -> (s: Saved)
        requires
            self.bankroll + if self.phase == Phase::Dealt { self.spec_bet() } else { 0 } <= u64::MAX,
        ensures
            s == self.spec_saved(),
    {
        // A hand still waiting on DRAW is abandoned, so its bet is returned.
        let refund = if self.phase == Phase::Dealt {
            self.bet_cents()
        } else {
            0
        };
        Saved {
            bankroll: self.bankroll + refund,
            denom: self.denom,
            coins: self.coins,
            correct: self.correct,
            decisions: self.decisions,
            streak: self.streak,
        }
    }

    pub fn bet_cents(&self) -> (bet: u64)
        ensures
            bet == self.spec_bet(),
    {
        proof {
            assert(self.coins * self.denom <= 255 * 0xffff_ffff) by (nonlinear_arith)
                requires
                    self.coins <= 255,
                    self.denom <= 0xffff_ffff,
            ;
        }
        self.coins as u64 * self.denom as u64
    }

    pub fn can_deal(&self) -> (can: bool)
        ensures
            can == self.spec_can_deal(),
    {
        self.phase == Phase::Ready && self.bankroll >= self.bet_cents()
    }

    /// Broke at every denomination, not just the current one.
    pub fn is_bust(&self) -> (bust: bool)
        ensures
            bust == (self.phase == Phase::Ready && self.bankroll < 1),
    {
        self.phase == Phase::Ready && self.bankroll < DENOMS[0] as u64
    }

    pub fn set_denom(&mut self, denom: u32)
        ensures
            *final(self) == if old(self).phase == Phase::Ready && is_denom(denom) {
                (Game { denom, ..*old(self) })
            } else {
                *old(self)
            },
    {
        if self.phase == Phase::Ready && is_denomination(denom) {
            self.denom = denom;
        }
    }

    /// Adds a coin to the bet, going from five back to one.
    pub fn bet_one(&mut self)
        ensures
            *final(self) == if old(self).phase == Phase::Ready {
                (Game { coins: (old(self).coins % 5 + 1) as u8, ..*old(self) })
            } else {
                *old(self)
            },
    {
        if self.phase == Phase::Ready {
            self.coins = self.coins % MAX_COINS + 1;
        }
    }

    pub fn reset(&mut self)
        ensures
            *final(self) == if old(self).phase == Phase::Ready {
                (Game { bankroll: START_BANKROLL, ..*old(self) })
            } else {
                *old(self)
            },
    {
        if self.phase == Phase::Ready {
            self.bankroll = START_BANKROLL;
        }
    }

    pub fn reset_stats(&mut self)
        ensures
            *final(self) == (Game { correct: 0, decisions: 0, streak: 0, ..*old(self) }),
    {
        self.correct = 0;
        self.decisions = 0;
        self.streak = 0;
    }

    pub fn toggle_hold(&mut self, i: usize)
        requires
            i < 5,
        ensures
            *final(self) == (Game { held: final(self).held, ..*old(self) }),
            final(self).held@ == if old(self).phase == Phase::Dealt {
                old(self).held@.update(i as int, !old(self).held@[i as int])
            } else {
                old(self).held@
            },
    {
        if self.phase == Phase::Dealt {
            self.held[i] = !self.held[i];
        }
    }

    pub fn deal(&mut self)
        requires
            old(self).wf(),
            forall|i: int| 0 <= i < 5 ==> #[trigger] old(self).card_gen@[i] < u32::MAX,
        ensures
            final(self).wf(),
            old(self).spec_can_deal() ==> deals(*old(self), *final(self)),
            !old(self).spec_can_deal() ==> *final(self) == *old(self),
    {
        if !self.can_deal() {
            return;
        }
        self.bankroll = self.bankroll - self.bet_cents();
        self.deck = Deck::shuffled();
        let ghost d0 = self.deck@;
        let c0 = self.deck.deal();
        let c1 = self.deck.deal();
        let c2 = self.deck.deal();
        let c3 = self.deck.deal();
        let c4 = self.deck.deal();
        let hand: [Card; 5] = [c0, c1, c2, c3, c4];
        proof {
            let d5 = self.deck@;
            assert(d5.push(c4).push(c3).push(c2).push(c1).push(c0) =~= d0);
            assert(hand@ =~= seq![c0].push(c1).push(c2).push(c3).push(c4));
            assert(seq![c0] =~= Seq::<Card>::empty().push(c0));
            assert(hand@.to_multiset().add(d5.to_multiset()) =~= d0.to_multiset());
            assert forall|i: int| 0 <= i < 5 implies is_standard(#[trigger] hand@[i]) by {
                assert(d0.to_multiset().count(hand@[i]) > 0);
                assert(standard_deck().to_multiset().count(hand@[i]) > 0);
                assert(standard_deck().contains(hand@[i]));
            }
            assert forall|i: int| 0 <= i < d5.len() implies is_standard(#[trigger] d5[i]) by {
                assert(d0[i] == d5[i]);
                assert(d0.to_multiset().count(d5[i]) > 0);
                assert(standard_deck().contains(d5[i]));
            }
        }
        self.hand = Some(hand);
        self.held = [false; 5];
        let mut gens = self.card_gen;
        let mut i: usize = 0;
        while i < 5
            invariant
                i <= 5,
                forall|k: int| 0 <= k < 5 ==> #[trigger] old(self).card_gen@[k] < u32::MAX,
                forall|k: int| 0 <= k < i ==> #[trigger] gens@[k] == old(self).card_gen@[k] + 1,
                forall|k: int| i <= k < 5 ==> #[trigger] gens@[k] == old(self).card_gen@[k],
            decreases 5 - i,
        {
            gens[i] = gens[i] + 1;
            i = i + 1;
        }
        self.card_gen = gens;
        self.result = None;
        self.last_win = 0;
        self.last_win_coins = 0;
        self.feedback = None;
        self.phase = Phase::Dealt;
    }

    /// Bets five coins and deals, when the bankroll covers five coins.
    pub fn bet_max(&mut self)
        requires
            old(self).wf(),
            forall|i: int| 0 <= i < 5 ==> #[trigger] old(self).card_gen@[i] < u32::MAX,
        ensures
            final(self).wf(),
            old(self).spec_can_bet_max() ==> deals((Game { coins: 5, ..*old(self) }), *final(self)),
            !old(self).spec_can_bet_max() ==> *final(self) == *old(self),
    {
        if self.can_bet_max() {
            self.coins = MAX_COINS;
            assert(*self == (Game { coins: 5, ..*old(self) }));
            assert(self.spec_can_deal());
            assert(self.deck_cards() == old(self).deck_cards());
            assert(self.hand == old(self).hand);
            assert(self.wf());
            self.deal();
        }
    }

    /// Records the final hand's rank and pays its win.
    pub fn settle(&mut self, rank: Option<HandRank>)
        requires
            old(self).bankroll + win_coins(rank, old(self).coins) * old(self).denom <= u64::MAX,
        ensures
            settles(*old(self), *final(self), rank),
    {
        let won: u32 = match rank {
            Some(r) => r.payout(self.coins),
            None => 0,
        };
        proof {
            assert(0 <= won * self.denom <= 0xffff_ffff * 0xffff_ffff) by (nonlinear_arith)
                requires
                    0 <= won <= 0xffff_ffff,
                    0 <= self.denom <= 0xffff_ffff,
            ;
        }
        self.result = rank;
        self.last_win_coins = won;
        self.last_win = won as u64 * self.denom as u64;
        self.bankroll = self.bankroll + self.last_win;
    }

    /// Judges the held cards against the analysis of the dealt hand.
    pub fn grade(&mut self, a: &Analysis)
        requires
            old(self).decisions < u32::MAX,
            old(self).correct < u32::MAX,
            old(self).streak < u32::MAX,
        ensures
            grades(*old(self), *final(self), a.spec_hand(), a.spec_coins(), a.spec_holds()[0]),
            is_best_hold(a.spec_hand(), a.spec_coins(), a.spec_holds()[0]),
            old(self).stats_consistent() ==> final(self).stats_consistent(),
    {
        let mask = mask_of(&self.held);
        let best = a.best();
        let optimal = a.is_optimal(mask);
        self.decisions = self.decisions + 1;
        if optimal {
            self.correct = self.correct + 1;
            self.streak = self.streak + 1;
        } else {
            self.streak = 0;
        }
        let player_ev = a.ev_of(mask);
        self.feedback = Some(
            Feedback {
                optimal,
                dealt: a.hand(),
                player_mask: mask,
                player_ev,
                best_mask: if optimal {
                    mask
                } else {
                    best.mask
                },
                best_ev: best,
            },
        );
    }

    /// Draws replacements for the cards not held, pays the final hand, and grades the
    /// hold when an analysis of the dealt hand is at hand.
    pub fn draw_with(&mut self, analysis: Option<&Analysis>)
        requires
            old(self).wf(),
            forall|i: int| 0 <= i < 5 ==> #[trigger] old(self).card_gen@[i] < u32::MAX,
            old(self).bankroll + 4000 * old(self).denom <= u64::MAX,
            old(self).decisions < u32::MAX,
            old(self).correct < u32::MAX,
            old(self).streak < u32::MAX,
        ensures
            final(self).wf(),
            final(self).in_play().subset_of(old(self).in_play()),
            old(self).phase != Phase::Dealt ==> *final(self) == *old(self),
            old(self).phase == Phase::Dealt ==> draws(*old(self), *final(self)),
            old(self).phase == Phase::Dealt && analysis is None ==> {
                &&& final(self).feedback == old(self).feedback
                &&& final(self).decisions == old(self).decisions
                &&& final(self).correct == old(self).correct
                &&& final(self).streak == old(self).streak
            },
            old(self).phase == Phase::Dealt ==> (analysis matches Some(a) ==> {
                let drawn = replace_unheld(old(self).hand.unwrap()@, old(self).held@, old(self).deck@, 0);
                let settled = Game {
                    hand: final(self).hand,
                    deck: final(self).deck,
                    card_gen: final(self).card_gen,
                    result: final(self).result,
                    last_win_coins: final(self).last_win_coins,
                    last_win: final(self).last_win,
                    bankroll: final(self).bankroll,
                    ..*old(self)
                };
                grades(settled, (Game { phase: settled.phase, ..*final(self) }), a.spec_hand(), a.spec_coins(), a.spec_holds()[0])
                    && is_best_hold(a.spec_hand(), a.spec_coins(), a.spec_holds()[0])
            }),
            old(self).stats_consistent() ==> final(self).stats_consistent(),
    {
        if self.phase != Phase::Dealt {
            return;
        }
        let mut hand = self.hand.unwrap();
        let ghost dealt = hand@;
        let ghost deck0 = self.deck@;
        let mut i: usize = 0;
        while i < 5
            invariant
                i <= 5,
                *self == (Game { deck: self.deck, card_gen: self.card_gen, ..*old(self) }),
                old(self).wf(),
                old(self).phase == Phase::Dealt,
                replace_unheld(hand@, self.held@, self.deck@, i as int) == replace_unheld(dealt, self.held@, deck0, 0),
                self.held == old(self).held,
                forall|k: int| 0 <= k < 5 ==> #[trigger] old(self).card_gen@[k] < u32::MAX,
                forall|k: int| 0 <= k < i ==> #[trigger] self.card_gen@[k] == old(self).card_gen@[k] + if self.held@[k] { 0int } else { 1int },
                forall|k: int| i <= k < 5 ==> #[trigger] self.card_gen@[k] == old(self).card_gen@[k],
                forall|k: int| 0 <= k < 5 ==> is_standard(#[trigger] hand@[k]),
                forall|k: int| 0 <= k < self.deck@.len() ==> is_standard(#[trigger] self.deck@[k]),
                self.deck@.len() + i >= 47,
                self.deck@.len() <= 47,
                hand@.to_multiset().add(self.deck@.to_multiset()).subset_of(
                    dealt.to_multiset().add(deck0.to_multiset()),
                ),
            decreases 5 - i,
        {
            if !self.held[i] {
                let ghost before = self.deck@;
                let ghost h_before = hand@;
                let c = self.deck.deal();
                proof {
                    broadcast use vstd::multiset::group_multiset_axioms;
                    lemma_update_to_multiset(h_before, i as int, c);
                    assert(self.deck@.push(c) =~= before);
                    assert(h_before.to_multiset().count(h_before[i as int]) > 0);
                    assert(h_before.update(i as int, c).to_multiset().add(self.deck@.to_multiset()).subset_of(
                        h_before.to_multiset().add(before.to_multiset())));
                    assert(is_standard(before[before.len() - 1]));
                    assert forall|k: int| 0 <= k < self.deck@.len() implies is_standard(#[trigger] self.deck@[k]) by {
                        assert(self.deck@[k] == before[k]);
                    }
                }
                hand[i] = c;
                self.card_gen[i] = self.card_gen[i] + 1;
            }
            i = i + 1;
        }
        self.hand = Some(hand);
        proof {
            broadcast use vstd::multiset::group_multiset_axioms;
            assert(self.in_play().subset_of(old(self).in_play()));
        }
        let rank = evaluate(&hand);
        proof {
            lemma_win_bound(rank, self.coins);
            assert(win_coins(rank, self.coins) * self.denom <= 4000 * self.denom) by (nonlinear_arith)
                requires
                    0 <= win_coins(rank, self.coins) <= 4000,
                    0 <= self.denom,
            ;
        }
        self.settle(rank);
        if let Some(a) = analysis {
            self.grade(a);
        }
        self.phase = Phase::Ready;
    }

    /// Draws replacements for the cards not held, pays the final hand, and grades the
    /// hold against the exact analysis of the dealt hand.
    pub fn draw(&mut self)
        requires
            old(self).wf(),
            forall|i: int| 0 <= i < 5 ==> #[trigger] old(self).card_gen@[i] < u32::MAX,
            old(self).bankroll + 4000 * old(self).denom <= u64::MAX,
            old(self).decisions < u32::MAX,
            old(self).correct < u32::MAX,
            old(self).streak < u32::MAX,
        ensures
            final(self).wf(),
            final(self).in_play().subset_of(old(self).in_play()),
            old(self).phase != Phase::Dealt ==> *final(self) == *old(self),
            old(self).phase == Phase::Dealt ==> draws(*old(self), *final(self)),
            old(self).phase == Phase::Dealt ==> {
                let settled = Game {
                    hand: final(self).hand,
                    deck: final(self).deck,
                    card_gen: final(self).card_gen,
                    result: final(self).result,
                    last_win_coins: final(self).last_win_coins,
                    last_win: final(self).last_win,
                    bankroll: final(self).bankroll,
                    ..*old(self)
                };
                &&& final(self).feedback matches Some(fb) && is_best_hold(old(self).hand.unwrap()@, old(self).coins, fb.best_ev)
                &&& grades(settled, (Game { phase: settled.phase, ..*final(self) }), old(self).hand.unwrap()@, old(self).coins, final(self).feedback.unwrap().best_ev)
            },
            old(self).stats_consistent() ==> final(self).stats_consistent(),
    {
        if self.phase != Phase::Dealt {
            return;
        }
        let dealt = self.hand.unwrap();
        let a = analyze(&dealt, self.coins);
        self.draw_with(Some(&a));
    }

    /// The main button resets a bust game, draws a dealt hand, and deals otherwise.
    pub fn primary_action(&self) -> (action: PrimaryAction)
        ensures
            action == if self.phase == Phase::Ready && self.bankroll < 1 {
                PrimaryAction::Reset
            } else if self.phase == Phase::Dealt {
                PrimaryAction::Draw
            } else {
                PrimaryAction::Deal
            },
    {
        if self.is_bust() {
            return PrimaryAction::Reset;
        }
        match self.phase {
            Phase::Dealt => PrimaryAction::Draw,
            Phase::Ready => PrimaryAction::Deal,
        }
    }

    /// The message above the cards, once the last drawn cards are `revealed`.
    pub fn banner(&self, revealed: bool) -> (banner: Banner)
        ensures
            banner == if !revealed {
                Banner::Hidden
            } else if self.phase == Phase::Ready && self.bankroll < 1 {
                Banner::Bust
            } else if self.phase == Phase::Dealt {
                Banner::ChooseHolds
            } else if self.result is Some {
                Banner::Win(self.result.unwrap(), self.last_win_coins)
            } else if !self.spec_can_deal() {
                Banner::CannotAfford
            } else if self.hand is Some {
                Banner::NoWin
            } else {
                Banner::PlaceBet
            },
    {
        if !revealed {
            return Banner::Hidden;
        }
        if self.is_bust() {
            return Banner::Bust;
        }
        match (self.phase, self.result, self.hand) {
            (Phase::Dealt, _, _) => Banner::ChooseHolds,
            (Phase::Ready, Some(r), _) => Banner::Win(r, self.last_win_coins),
            (Phase::Ready, None, _) if !self.can_deal() => Banner::CannotAfford,
            (Phase::Ready, None, Some(_)) => Banner::NoWin,
            (Phase::Ready, None, None) => Banner::PlaceBet,
        }
    }

    pub fn can_bet_max(&self) -> (can: bool)
        ensures
            can == self.spec_can_bet_max(),
    {
        self.phase == Phase::Ready && self.bankroll >= MAX_COINS as u64 * self.denom as u64
    }
}

/// Restoring validates what it reads: the result always has a known denomination, a bet
/// of one to five coins and consistent accuracy counts, and validating again changes
/// nothing.
pub proof fn lemma_restored_valid(s: Saved)
    ensures
        is_denom(restored(s).denom),
        1 <= restored(s).coins <= 5,
        restored(s).streak <= restored(s).correct <= restored(s).decisions,
        restored(restored(s)) == restored(s),
{
}

/// Saving keeps everything a restart needs: restoring what `saved` writes for a
/// consistent game gives back the same bankroll (with an unfinished bet refunded),
/// denomination, bet and accuracy record.
pub proof fn lemma_save_restore_round_trip(g: Game)
    requires
        g.wf(),
        is_denom(g.denom),
        g.stats_consistent(),
        g.bankroll + if g.phase == Phase::Dealt { g.spec_bet() } else { 0 } <= u64::MAX,
    ensures
        restored(g.spec_saved()) == g.spec_saved(),
{
}

/// BET ONE cycles through the bets: five presses from any bet of one to five coins come
/// back to it, passing through every bet of one to five coins.
pub proof fn lemma_bet_one_cycles(c: u8)
    requires
        1 <= c <= 5,
    ensures
        1 <= c % 5 + 1 <= 5,
        ((((c % 5 + 1) % 5 + 1) % 5 + 1) % 5 + 1) % 5 + 1 == c,
{
}

/// The coins a paying hand wins for a bet of `coins` (one to five) by the 9/6 paytable:
/// the hand's pay per coin times the coins actually bet, except that a royal flush bet
/// with all five coins wins 4000.
pub open spec fn paytable_win(r: HandRank, coins: int) -> int {
    let per_coin = match r {
        HandRank::JacksOrBetter => 1int,
        HandRank::TwoPair => 2,
        HandRank::ThreeOfAKind => 3,
        HandRank::Straight => 4,
        HandRank::Flush => 6,
        HandRank::FullHouse => 9,
        HandRank::FourOfAKind => 25,
        HandRank::StraightFlush => 50,
        HandRank::RoyalFlush => 250,
    };
    if r == HandRank::RoyalFlush && coins == 5 {
        4000
    } else {
        per_coin * coins
    }
}

/// Settling a final hand pays it at the number of coins actually bet: the coins won are
/// the paytable's for that bet (nothing for a hand that does not pay), the win in cents
/// is those coins times the denomination, and the bankroll grows by exactly that.
pub proof fn lemma_settle_pays_the_bet(old: Game, new: Game, rank: Option<HandRank>)
    requires
        settles(old, new, rank),
        1 <= old.coins <= 5,
        old.bankroll + 4000 * old.denom <= u64::MAX,
    ensures
        new.last_win_coins == match rank {
            Some(r) => paytable_win(r, old.coins as int),
            None => 0,
        },
        new.last_win == new.last_win_coins * old.denom,
        new.bankroll == old.bankroll + new.last_win_coins * old.denom,
        new.result == rank,
{
    let won = win_coins(rank, old.coins);
    assert(0 <= won <= 4000) by {
        lemma_win_bound(rank, old.coins);
    }
    assert(0 <= won * old.denom <= 4000 * old.denom) by (nonlinear_arith)
        requires
            0 <= won <= 4000,
            0 <= old.denom,
    ;
}

/// Two bets that differ only in the coins pay in proportion to the coins: every paying
/// hand but a five-coin royal wins `c` times as much for a bet of `c` coins as for one.
pub proof fn lemma_win_scales_with_the_bet(r: HandRank, coins: u8)
    requires
        1 <= coins <= 5,
        !(r == HandRank::RoyalFlush && coins == 5),
    ensures
        win_coins(Some(r), coins) == coins * win_coins(Some(r), 1),
        win_coins(Some(r), coins) == paytable_win(r, coins as int),
{
    let b = r.base_pay();
    assert(b * coins == coins * (b * 1)) by (nonlinear_arith);
}

/// Drawing pays the final hand at the number of coins bet: the coins won are the
/// paytable's for the rank of the drawn hand and that bet, and the bankroll grows by
/// those coins times the denomination.
pub proof fn lemma_draw_pays_the_bet(old: Game, new: Game)
    requires
        draws(old, new),
        1 <= old.coins <= 5,
    ensures
        new.last_win_coins == match new.result {
            Some(r) => paytable_win(r, old.coins as int),
            None => 0,
        },
        new.last_win == new.last_win_coins * old.denom,
        new.bankroll == old.bankroll + new.last_win_coins * old.denom,
{
}

/// The feedback on a graded hold always reports the player's own hold: its mask is the
/// held cards' mask and its figures are that hold's exact return, whether the hold was
/// optimal or not; the best hold's figures are reported beside it, and the hold is
/// called optimal exactly when its return is within 1e-9 of the best's.
pub proof fn lemma_feedback_reports_the_players_hold(
    old: Game,
    new: Game,
    hand: Seq<Card>,
    coins: u8,
    best: HoldEv,
)
    requires
        grades(old, new, hand, coins, best),
    ensures
        new.feedback is Some,
        new.feedback.unwrap().player_mask == held_mask(old.held@) as u8,
        new.feedback.unwrap().player_ev == hold_ev(hand, held_mask(old.held@) as u8, coins),
        new.feedback.unwrap().player_ev.mask == new.feedback.unwrap().player_mask,
        new.feedback.unwrap().best_ev == best,
        new.feedback.unwrap().dealt@ == hand,
        new.feedback.unwrap().optimal <==> ev_close(new.feedback.unwrap().player_ev, best),
        new.feedback.unwrap().optimal ==> new.feedback.unwrap().best_mask == new.feedback.unwrap().player_mask,
        !new.feedback.unwrap().optimal ==> new.feedback.unwrap().best_mask == best.mask,
        new.decisions == old.decisions + 1,
        new.correct == old.correct + if new.feedback.unwrap().optimal { 1int } else { 0int },
        new.streak == if new.feedback.unwrap().optimal { old.streak + 1 } else { 0 },
        new.bankroll == old.bankroll && new.hand == old.hand && new.held == old.held,
{
}

/// The bet is the coins bet times the denomination: a deal takes exactly that from the
/// bankroll, DEAL is possible exactly when the bankroll covers it, and saving in the
/// middle of a hand refunds exactly that.
pub proof fn lemma_bet_is_coins_times_denomination(old: Game, new: Game)
    ensures
        deals(old, new) ==> new.bankroll == old.bankroll - old.coins * old.denom,
        old.spec_can_deal() <==> (old.phase == Phase::Ready && old.bankroll >= old.coins * old.denom),
        old.phase == Phase::Dealt && old.bankroll + old.coins * old.denom <= u64::MAX
            ==> old.spec_saved().bankroll == old.bankroll + old.coins * old.denom,
        old.phase == Phase::Ready ==> old.spec_saved().bankroll == old.bankroll,
        old.spec_can_bet_max() <==> (old.phase == Phase::Ready && old.bankroll >= 5 * old.denom),
        deals((Game { coins: 5, ..old }), new) ==> new.bankroll == old.bankroll - 5 * old.denom && new.coins == 5,
{
}

/// The machine offers exactly the denominations of `DENOMS`.
pub proof fn lemma_denominations_listed(d: u32)
    ensures
        is_denom(d) <==> exists|i: int| 0 <= i < 5 && DENOMS[i] == d,
{
    if is_denom(d) {
        if d == 1 {
            assert(DENOMS[0] == d);
        } else if d == 5 {
            assert(DENOMS[1] == d);
        } else if d == 25 {
            assert(DENOMS[2] == d);
        } else if d == 50 {
            assert(DENOMS[3] == d);
        } else {
            assert(DENOMS[4] == d);
        }
    }
}

/// A save that is already valid (a known denomination, one to five coins, and a streak
/// no longer than the correct holds, nor these more than the decisions) restores
/// unchanged; an invalid denomination or bet falls back to the fresh game's 25 cents and
/// five coins.
pub proof fn lemma_restore_keeps_valid_saves(s: Saved)
    ensures
        is_denom(s.denom) && 1 <= s.coins <= 5 && s.streak <= s.correct <= s.decisions ==> restored(s) == s,
        restored(s).bankroll == s.bankroll,
        restored(s).decisions == s.decisions,
        !is_denom(s.denom) ==> restored(s).denom == 25,
        !(1 <= s.coins <= 5) ==> restored(s).coins == MAX_COINS,
{
}

/// How many of the first `k` slots are not held.
pub open spec fn unheld_before(held: Seq<bool>, k: int) -> int
    decreases k,
{
    if k <= 0 {
        0
    } else {
        unheld_before(held, k - 1) + if held[k - 1] { 0int } else { 1int }
    }
}

proof fn lemma_unheld_before_nonnegative(held: Seq<bool>, k: int)
    ensures
        0 <= unheld_before(held, k),
    decreases k,
{
    if k > 0 {
        lemma_unheld_before_nonnegative(held, k - 1);
    }
}

proof fn lemma_unheld_before_grows(held: Seq<bool>, i: int, k: int)
    requires
        0 <= i <= k,
    ensures
        0 <= unheld_before(held, k) - unheld_before(held, i) <= k - i,
        0 <= unheld_before(held, i),
    decreases k,
{
    lemma_unheld_before_nonnegative(held, i);
    if k > i {
        lemma_unheld_before_grows(held, i, k - 1);
    }
}

proof fn lemma_replace_unheld_slots(h: Seq<Card>, held: Seq<bool>, deck: Seq<Card>, i: int)
    requires
        0 <= i <= 5,
        h.len() == 5,
        held.len() == 5,
        deck.len() >= unheld_before(held, 5) - unheld_before(held, i),
    ensures
        replace_unheld(h, held, deck, i).0.len() == 5,
        forall|k: int| 0 <= k < i ==> #[trigger] replace_unheld(h, held, deck, i).0[k] == h[k],
        forall|k: int| i <= k < 5 ==> #[trigger] replace_unheld(h, held, deck, i).0[k] == if held[k] {
            h[k]
        } else {
            deck[deck.len() - 1 - (unheld_before(held, k) - unheld_before(held, i))]
        },
        replace_unheld(h, held, deck, i).1 == deck.take(deck.len() - (unheld_before(held, 5) - unheld_before(held, i))),
    decreases 5 - i,
{
    lemma_unheld_before_grows(held, i, 5);
    if i == 5 {
        assert(deck.take(deck.len() as int) =~= deck);
    } else if held[i] {
        assert(unheld_before(held, i + 1) == unheld_before(held, i));
        lemma_replace_unheld_slots(h, held, deck, i + 1);
    } else {
        assert(unheld_before(held, i + 1) == unheld_before(held, i) + 1);
        let h2 = h.update(i, deck.last());
        let d2 = deck.drop_last();
        lemma_replace_unheld_slots(h2, held, d2, i + 1);
        let r = replace_unheld(h, held, deck, i);
        assert(r == replace_unheld(h2, held, d2, i + 1));
        assert forall|k: int| i < k < 5 implies #[trigger] r.0[k] == if held[k] {
            h[k]
        } else {
            deck[deck.len() - 1 - (unheld_before(held, k) - unheld_before(held, i))]
        } by {
            lemma_unheld_before_grows(held, i + 1, k);
            lemma_unheld_before_grows(held, k, 5);
            if !held[k] {
                assert(unheld_before(held, k + 1) == unheld_before(held, k) + 1);
                lemma_unheld_before_grows(held, k + 1, 5);
            }
        }
        lemma_unheld_before_grows(held, i + 1, 5);
        assert(r.1 =~= deck.take(deck.len() - (unheld_before(held, 5) - unheld_before(held, i))));
    }
}

/// Drawing keeps every held card in its slot and fills the other slots, left to right,
/// with the cards off the end of the deck, last card first; the deck loses exactly those
/// cards and keeps the rest in order.
pub proof fn lemma_draw_replaces_only_unheld(old: Game, new: Game)
    requires
        draws(old, new),
        old.hand is Some,
        old.deck@.len() >= 5,
    ensures
        forall|i: int| 0 <= i < 5 && old.held@[i] ==> #[trigger] new.hand.unwrap()@[i] == old.hand.unwrap()@[i],
        forall|i: int| 0 <= i < 5 && !old.held@[i] ==> #[trigger] new.hand.unwrap()@[i]
            == old.deck@[old.deck@.len() - 1 - unheld_before(old.held@, i)],
        new.deck@ == old.deck@.take(old.deck@.len() - unheld_before(old.held@, 5)),
{
    let h = old.hand.unwrap()@;
    lemma_unheld_before_grows(old.held@, 0, 5);
    lemma_replace_unheld_slots(h, old.held@, old.deck@, 0);
}

/// Replacing one card of a hand takes that card out of its multiset and puts the new
/// one in.
proof fn lemma_update_to_multiset(h: Seq<Card>, i: int, x: Card)
    requires
        0 <= i < h.len(),
    ensures
        h.update(i, x).to_multiset() == h.to_multiset().remove(h[i]).insert(x),
{
    let a = h.update(i, x);
    assert(a.remove(i) =~= h.remove(i));
    assert(a[i] == x);
    assert(a.to_multiset().count(x) > 0);
    assert(a.to_multiset() =~= a.to_multiset().remove(x).insert(x));
}

/// The cards of a game that keeps its invariant are all different: no card is in the
/// hand twice, nor both in the hand and in the deck.
pub proof fn lemma_cards_in_play_distinct(g: Game)
    requires
        g.wf(),
    ensures
        g.hand matches Some(h) ==> h@.no_duplicates(),
        g.hand matches Some(h) ==> forall|i: int, j: int|
            0 <= i < 5 && 0 <= j < g.deck@.len() ==> #[trigger] h@[i] != #[trigger] g.deck@[j],
        g.deck@.no_duplicates(),
{
    broadcast use vstd::multiset::group_multiset_axioms;

    lemma_standard_deck_distinct();
    standard_deck().lemma_multiset_has_no_duplicates();
    let m = g.in_play();
    assert forall|x: Card| m.count(x) <= 1 by {
        if m.count(x) > 0 {
            assert(standard_deck().to_multiset().count(x) >= m.count(x));
        }
    }
    assert forall|x: Card| g.deck@.to_multiset().contains(x) implies g.deck@.to_multiset().count(x) == 1 by {
        if let Some(h) = g.hand {
            assert(m.count(x) == h@.to_multiset().count(x) + g.deck@.to_multiset().count(x));
        }
    }
    g.deck@.lemma_multiset_has_no_duplicates_conv();
    if let Some(h) = g.hand {
        assert forall|x: Card| h@.to_multiset().contains(x) implies h@.to_multiset().count(x) == 1 by {
            assert(m.count(x) == h@.to_multiset().count(x) + g.deck@.to_multiset().count(x));
        }
        h@.lemma_multiset_has_no_duplicates_conv();
        assert forall|i: int, j: int| 0 <= i < 5 && 0 <= j < g.deck@.len() implies #[trigger] h@[i] != #[trigger] g.deck@[j] by {
            if h@[i] == g.deck@[j] {
                assert(h@.to_multiset().count(h@[i]) > 0);
                assert(g.deck@.to_multiset().count(h@[i]) > 0);
                assert(m.count(h@[i]) >= 2);
            }
        }
    }
}

/// Whether `d` is one of `DENOMS`.
fn is_denomination(d: u32) -> (found: bool)
    ensures
        found == is_denom(d),
{
    let mut i: usize = 0;
    while i < 5
        invariant
            i <= 5,
            forall|k: int| 0 <= k < i ==> DENOMS@[k] != d,
        decreases 5 - i,
    {
        if DENOMS[i] == d {
            return true;
        }
        i = i + 1;
    }
    false
}

} // verus!
