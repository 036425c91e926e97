use vstd::prelude::*;

use crate::cards::{Card, Suit};

verus! {

/// The paying hands of Jacks or Better, lowest first.
#[derive(Clone, Copy, Debug, PartialEq, Eq, Structural, PartialOrd, Ord)]
pub enum HandRank {
    JacksOrBetter,
    TwoPair,
    ThreeOfAKind,
    Straight,
    Flush,
    FullHouse,
    FourOfAKind,
    StraightFlush,
    RoyalFlush,
}

impl HandRank {
    /// Paytable order, top row first.
    pub const ALL_DESC: [HandRank; 9] = [
        HandRank::RoyalFlush,
        HandRank::StraightFlush,
        HandRank::FourOfAKind,
        HandRank::FullHouse,
        HandRank::Flush,
        HandRank::Straight,
        HandRank::ThreeOfAKind,
        HandRank::TwoPair,
        HandRank::JacksOrBetter,
    ];

    /// Position in the order of hands, from 0 for Jacks or Better up to 8 for a royal flush.
    pub open spec fn level(self) -> int {
        match self {
            HandRank::JacksOrBetter => 0,
            HandRank::TwoPair => 1,
            HandRank::ThreeOfAKind => 2,
            HandRank::Straight => 3,
            HandRank::Flush => 4,
            HandRank::FullHouse => 5,
            HandRank::FourOfAKind => 6,
            HandRank::StraightFlush => 7,
            HandRank::RoyalFlush => 8,
        }
    }

    pub open spec fn spec_name(self) -> Seq<char> {
        match self {
            HandRank::RoyalFlush => "Royal Flush"@,
            HandRank::StraightFlush => "Straight Flush"@,
            HandRank::FourOfAKind => "Four of a Kind"@,
            HandRank::FullHouse => "Full House"@,
            HandRank::Flush => "Flush"@,
            HandRank::Straight => "Straight"@,
            HandRank::ThreeOfAKind => "Three of a Kind"@,
            HandRank::TwoPair => "Two Pair"@,
            HandRank::JacksOrBetter => "Jacks or Better"@,
        }
    }

    /// Coins paid per coin bet on the 9/6 paytable.
    pub open spec fn base_pay(self) -> int {
        match self {
            HandRank::JacksOrBetter => 1,
            HandRank::TwoPair => 2,
            HandRank::ThreeOfAKind => 3,
            HandRank::Straight => 4,
            HandRank::Flush => 6,
            HandRank::FullHouse => 9,
            HandRank::FourOfAKind => 25,
            HandRank::StraightFlush => 50,
            HandRank::RoyalFlush => 250,
        }
    }

    /// Coins paid for a bet of `coins`: the base pay times the coins, except a royal
    /// flush bet with five coins, which pays 4000.
    pub open spec fn spec_payout(self, coins: u8) -> int {
        if self == HandRank::RoyalFlush && coins == 5 {
            4000
        } else {
            self.base_pay() * coins
        }
    }

    pub fn name(self) -> (name: &'static str)
        ensures
            name@ == self.spec_name(),
    {
        match self {
            HandRank::RoyalFlush => "Royal Flush",
            HandRank::StraightFlush => "Straight Flush",
            HandRank::FourOfAKind => "Four of a Kind",
            HandRank::FullHouse => "Full House",
            HandRank::Flush => "Flush",
            HandRank::Straight => "Straight",
            HandRank::ThreeOfAKind => "Three of a Kind",
            HandRank::TwoPair => "Two Pair",
            HandRank::JacksOrBetter => "Jacks or Better",
        }
    }

    /// 9/6 Jacks or Better payout in coins for a bet of `coins` (1..=5).
    pub fn payout(self, coins: u8) -> (pay: u32)
        ensures
            pay == self.spec_payout(coins),
    {
        if self == HandRank::RoyalFlush && coins == 5 {
            return 4000;
        }
        let base: u32 = match self {
            HandRank::JacksOrBetter => 1,
            HandRank::TwoPair => 2,
            HandRank::ThreeOfAKind => 3,
            HandRank::Straight => 4,
            HandRank::Flush => 6,
            HandRank::FullHouse => 9,
            HandRank::FourOfAKind => 25,
            HandRank::StraightFlush => 50,
            HandRank::RoyalFlush => 250,
        };
        base * coins as u32
    }
}

/// Number of cards of rank `r` in `h`.
pub open spec fn rank_count(h: Seq<Card>, r: int) -> nat
    decreases h.len(),
{
    if h.len() == 0 {
        0
    } else {
        rank_count(h.drop_last(), r) + if h.last().rank == r { 1nat } else { 0nat }
    }
}

/// Some rank in `lo..hi` occurs exactly `n` times.
pub open spec fn has_rank_count(h: Seq<Card>, n: nat, lo: int, hi: int) -> bool {
    exists|r: int| lo <= r < hi && #[trigger] rank_count(h, r) == n
}

/// Number of ranks in `lo..hi` that occur exactly twice.
pub open spec fn pair_count(h: Seq<Card>, lo: int, hi: int) -> nat
    decreases hi - lo,
{
    if hi <= lo {
        0
    } else {
        pair_count(h, lo, hi - 1) + if rank_count(h, hi - 1) == 2 { 1nat } else { 0nat }
    }
}

/// All cards share one suit.
pub open spec fn is_flush(h: Seq<Card>) -> bool {
    forall|i: int| 0 <= i < h.len() ==> #[trigger] h[i].suit == h[0].suit
}

/// No rank occurs twice.
pub open spec fn distinct_ranks(h: Seq<Card>) -> bool {
    forall|r: int| #[trigger] rank_count(h, r) <= 1
}

/// Every rank lies in `lo..=lo + 4`.
pub open spec fn ranks_within_five(h: Seq<Card>, lo: int) -> bool {
    forall|i: int| 0 <= i < h.len() ==> lo <= #[trigger] h[i].rank <= lo + 4
}

/// Every rank is one of A, 2, 3, 4, 5.
pub open spec fn ranks_in_wheel(h: Seq<Card>) -> bool {
    forall|i: int| 0 <= i < h.len() ==> {
        let r = #[trigger] h[i].rank;
        r == 14 || 2 <= r <= 5
    }
}

/// Five different ranks, all within a span of five, or A-2-3-4-5 (an ace does not
/// otherwise wrap around).
pub open spec fn is_straight(h: Seq<Card>) -> bool {
    &&& distinct_ranks(h)
    &&& (exists|lo: int| #[trigger] ranks_within_five(h, lo)) || ranks_in_wheel(h)
}

/// Every rank is ten or higher.
pub open spec fn ranks_at_least_ten(h: Seq<Card>) -> bool {
    forall|i: int| 0 <= i < h.len() ==> #[trigger] h[i].rank >= 10
}

/// The best paying hand that the five cards make, or `None` when they pay nothing.
pub open spec fn spec_evaluate(h: Seq<Card>) -> Option<HandRank> {
    let flush = is_flush(h);
    let straight = is_straight(h);
    let trips = has_rank_count(h, 3, 2, 15);
    let pairs = pair_count(h, 2, 15);
    if straight && flush {
        Some(if ranks_at_least_ten(h) { HandRank::RoyalFlush } else { HandRank::StraightFlush })
    } else if has_rank_count(h, 4, 2, 15) {
        Some(HandRank::FourOfAKind)
    } else if trips && pairs == 1 {
        Some(HandRank::FullHouse)
    } else if flush {
        Some(HandRank::Flush)
    } else if straight {
        Some(HandRank::Straight)
    } else if trips {
        Some(HandRank::ThreeOfAKind)
    } else if pairs == 2 {
        Some(HandRank::TwoPair)
    } else if has_rank_count(h, 2, 11, 15) {
        Some(HandRank::JacksOrBetter)
    } else {
        None
    }
}

/// A rank that occurs is the rank of some card.
pub proof fn lemma_rank_count_witness(h: Seq<Card>, r: int)
    requires
        rank_count(h, r) > 0,
    ensures
        exists|i: int| 0 <= i < h.len() && h[i].rank == r,
    decreases h.len(),
{
    if h.last().rank != r {
        lemma_rank_count_witness(h.drop_last(), r);
        let i = choose|i: int| 0 <= i < h.drop_last().len() && h.drop_last()[i].rank == r;
        assert(h[i].rank == r);
    }
}

/// The rank of any card occurs at least once.
pub proof fn lemma_rank_count_at_least_one(h: Seq<Card>, i: int)
    requires
        0 <= i < h.len(),
    ensures
        rank_count(h, h[i].rank as int) >= 1,
    decreases h.len(),
{
    if i < h.len() - 1 {
        lemma_rank_count_at_least_one(h.drop_last(), i);
    }
}

pub fn evaluate(hand: &[Card; 5]) -> (rank: Option<HandRank>)
    requires
        forall|i: int| 0 <= i < 5 ==> #[trigger] hand@[i].rank <= 14,
    ensures
        rank == spec_evaluate(hand@),
{
    let ghost h = hand@;
    let mut counts = [0u8; 15];
    let mut i: usize = 0;
    while i < 5
        invariant
            i <= 5,
            h == hand@,
            h.len() == 5,
            forall|k: int| 0 <= k < 5 ==> #[trigger] h[k].rank <= 14,
            forall|r: int| 0 <= r < 15 ==> counts@[r] == rank_count(h.take(i as int), r),
        decreases 5 - i,
    {
        let r = hand[i].rank as usize;
        proof {
            assert(h.take(i + 1).drop_last() =~= h.take(i as int));
            lemma_rank_count_bound(h.take(i as int), r as int);
        }
        counts[r] = counts[r] + 1;
        i = i + 1;
    }
    assert(h.take(5) =~= h);

    let mut flush = true;
    let mut distinct = true;
    let mut wheel = true;
    let mut lo: u8 = hand[0].rank;
    let mut hi: u8 = hand[0].rank;
    let mut i: usize = 0;
    while i < 5
        invariant
            i <= 5,
            h == hand@,
            h.len() == 5,
            forall|k: int| 0 <= k < 5 ==> #[trigger] h[k].rank <= 14,
            forall|r: int| 0 <= r < 15 ==> counts@[r] == rank_count(h, r),
            flush == forall|k: int| 0 <= k < i ==> #[trigger] h[k].suit == h[0].suit,
            distinct == forall|k: int| 0 <= k < i ==> rank_count(h, #[trigger] h[k].rank as int) <= 1,
            wheel == forall|k: int| 0 <= k < i ==> {
                let r = #[trigger] h[k].rank;
                r == 14 || 2 <= r <= 5
            },
            lo <= hi <= 14,
            forall|k: int| 0 <= k < i ==> lo <= #[trigger] h[k].rank <= hi,
            exists|k: int| 0 <= k < 5 && h[k].rank == lo,
            exists|k: int| 0 <= k < 5 && h[k].rank == hi,
        decreases 5 - i,
    {
        let c = hand[i];
        assert(counts@[c.rank as int] == rank_count(h, c.rank as int));
        assert(c == h[i as int]);
        proof {
            lemma_rank_count_at_least_one(h, i as int);
        }
        if c.suit != hand[0].suit {
            flush = false;
        }
        if counts[c.rank as usize] != 1 {
            distinct = false;
        }
        if !(c.rank == 14 || (2 <= c.rank && c.rank <= 5)) {
            wheel = false;
        }
        if c.rank < lo {
            lo = c.rank;
        }
        if c.rank > hi {
            hi = c.rank;
        }
        i = i + 1;
    }
    proof {
        assert(flush == is_flush(h));
        assert(wheel == ranks_in_wheel(h));
        if distinct {
            assert forall|r: int| #[trigger] rank_count(h, r) <= 1 by {
                if rank_count(h, r) > 1 {
                    lemma_rank_count_witness(h, r);
                }
            }
        } else {
            let k = choose|k: int| 0 <= k < 5 && !(rank_count(h, #[trigger] h[k].rank as int) <= 1);
            assert(!(rank_count(h, h[k].rank as int) <= 1));
        }
        assert(distinct == distinct_ranks(h));
        if hi - lo <= 4 {
            assert(ranks_within_five(h, lo as int));
        } else {
            assert forall|l: int| !#[trigger] ranks_within_five(h, l) by {
                let a = choose|k: int| 0 <= k < 5 && h[k].rank == lo;
                let b = choose|k: int| 0 <= k < 5 && h[k].rank == hi;
                assert(h[a].rank == lo);
                assert(h[b].rank == hi);
            }
        }
        assert(((hi - lo <= 4) || wheel) == ((exists|l: int| #[trigger] ranks_within_five(h, l)) || ranks_in_wheel(h)));
        assert((lo >= 10) == ranks_at_least_ten(h)) by {
            if lo < 10 {
                let a = choose|k: int| 0 <= k < 5 && h[k].rank == lo;
                assert(h[a].rank == lo);
            }
        }
    }
    let straight = distinct && (hi - lo <= 4 || wheel);

    if straight && flush {
        return Some(
            if lo >= 10 {
                HandRank::RoyalFlush
            } else {
                HandRank::StraightFlush
            },
        );
    }
    let mut pairs: u8 = 0;
    let mut high_pair = false;
    let mut trips = false;
    let mut quads = false;
    let mut r: usize = 2;
    while r < 15
        invariant
            2 <= r <= 15,
            forall|q: int| 0 <= q < 15 ==> counts@[q] == rank_count(h, q),
            pairs == pair_count(h, 2, r as int),
            pairs <= r,
            quads == has_rank_count(h, 4, 2, r as int),
            trips == has_rank_count(h, 3, 2, r as int),
            high_pair == has_rank_count(h, 2, 11, r as int),
        decreases 15 - r,
    {
        let n = counts[r];
        if n == 4 {
            quads = true;
        } else if n == 3 {
            trips = true;
        } else if n == 2 {
            pairs = pairs + 1;
            if r >= 11 {
                high_pair = true;
            }
        }
        proof {
            assert(rank_count(h, r as int) == n);
            assert(quads == has_rank_count(h, 4, 2, r + 1)) by {
                if quads && n != 4 {
                    let q = choose|q: int| 2 <= q < r && #[trigger] rank_count(h, q) == 4;
                    assert(2 <= q < r + 1 && rank_count(h, q) == 4);
                }
            }
            assert(trips == has_rank_count(h, 3, 2, r + 1)) by {
                if trips && n != 3 {
                    let q = choose|q: int| 2 <= q < r && #[trigger] rank_count(h, q) == 3;
                    assert(2 <= q < r + 1 && rank_count(h, q) == 3);
                }
            }
            assert(high_pair == has_rank_count(h, 2, 11, r + 1)) by {
                if high_pair && !(n == 2 && r >= 11) {
                    let q = choose|q: int| 11 <= q < r && #[trigger] rank_count(h, q) == 2;
                    assert(11 <= q < r + 1 && rank_count(h, q) == 2);
                }
            }
        }
        r = r + 1;
    }

    if quads {
        Some(HandRank::FourOfAKind)
    } else if trips && pairs == 1 {
        Some(HandRank::FullHouse)
    } else if flush {
        Some(HandRank::Flush)
    } else if straight {
        Some(HandRank::Straight)
    } else if trips {
        Some(HandRank::ThreeOfAKind)
    } else if pairs == 2 {
        Some(HandRank::TwoPair)
    } else if high_pair {
        Some(HandRank::JacksOrBetter)
    } else {
        None
    }
}

/// A higher hand pays more than a lower one, for any bet of one to five coins.
pub proof fn lemma_better_hands_pay_more(a: HandRank, b: HandRank, coins: u8)
    requires
        a.level() < b.level(),
        1 <= coins <= 5,
    ensures
        a.spec_payout(coins) < b.spec_payout(coins),
{
    assert(a.base_pay() < b.base_pay());
    assert(a.base_pay() * coins < b.base_pay() * coins) by (nonlinear_arith)
        requires
            a.base_pay() < b.base_pay(),
            coins >= 1,
    ;
    assert(b.base_pay() * coins <= 250 * 5) by (nonlinear_arith)
        requires
            b.base_pay() <= 250,
            coins <= 5,
    ;
}

/// Cards of rank `r` counted through the multiset of the hand.
spec fn rank_count_of(m: vstd::multiset::Multiset<Card>, r: int) -> nat {
    if 0 <= r < 256 {
        m.count(Card { rank: r as u8, suit: Suit::Clubs }) + m.count(Card { rank: r as u8, suit: Suit::Diamonds })
            + m.count(Card { rank: r as u8, suit: Suit::Hearts }) + m.count(Card { rank: r as u8, suit: Suit::Spades })
    } else {
        0
    }
}

proof fn lemma_rank_count_multiset(h: Seq<Card>, r: int)
    ensures
        rank_count(h, r) == rank_count_of(h.to_multiset(), r),
    decreases h.len(),
{
    broadcast use vstd::seq_lib::group_to_multiset_ensures;
    broadcast use vstd::multiset::group_multiset_axioms;

    if h.len() == 0 {
        assert(h.to_multiset() =~= vstd::multiset::Multiset::empty());
    } else {
        lemma_rank_count_multiset(h.drop_last(), r);
        assert(h.drop_last().push(h.last()) =~= h);
    }
}

proof fn lemma_pair_count_same(h1: Seq<Card>, h2: Seq<Card>, lo: int, hi: int)
    requires
        forall|r: int| #[trigger] rank_count(h1, r) == rank_count(h2, r),
    ensures
        pair_count(h1, lo, hi) == pair_count(h2, lo, hi),
    decreases hi - lo,
{
    if hi > lo {
        lemma_pair_count_same(h1, h2, lo, hi - 1);
        assert(rank_count(h1, hi - 1) == rank_count(h2, hi - 1));
    }
}

proof fn lemma_has_rank_count_same(h1: Seq<Card>, h2: Seq<Card>, n: nat, lo: int, hi: int)
    requires
        forall|r: int| #[trigger] rank_count(h1, r) == rank_count(h2, r),
    ensures
        has_rank_count(h1, n, lo, hi) == has_rank_count(h2, n, lo, hi),
{
    if has_rank_count(h1, n, lo, hi) {
        let r = choose|r: int| lo <= r < hi && #[trigger] rank_count(h1, r) == n;
        assert(rank_count(h2, r) == n);
    }
    if has_rank_count(h2, n, lo, hi) {
        let r = choose|r: int| lo <= r < hi && #[trigger] rank_count(h2, r) == n;
        assert(rank_count(h1, r) == n);
    }
}

/// Each card of `h2` is some card of `h1` when both hold the same cards.
proof fn lemma_same_cards(h1: Seq<Card>, h2: Seq<Card>)
    requires
        h1.to_multiset() == h2.to_multiset(),
    ensures
        forall|i: int| 0 <= i < h2.len() ==> h1.contains(#[trigger] h2[i]),
{
    broadcast use vstd::seq_lib::group_to_multiset_ensures;

    assert forall|i: int| 0 <= i < h2.len() implies h1.contains(#[trigger] h2[i]) by {
        assert(h2.contains(h2[i]));
        assert(h2.to_multiset().count(h2[i]) > 0);
    }
}

proof fn lemma_orderless_one_way(h1: Seq<Card>, h2: Seq<Card>)
    requires
        h1.len() == 5,
        h2.len() == 5,
        h1.to_multiset() == h2.to_multiset(),
    ensures
        is_flush(h1) ==> is_flush(h2),
        forall|lo: int| ranks_within_five(h1, lo) ==> #[trigger] ranks_within_five(h2, lo),
        ranks_in_wheel(h1) ==> ranks_in_wheel(h2),
        ranks_at_least_ten(h1) ==> ranks_at_least_ten(h2),
{
    lemma_same_cards(h1, h2);
    if is_flush(h1) {
        assert forall|i: int| 0 <= i < h2.len() implies #[trigger] h2[i].suit == h2[0].suit by {
            let a = choose|j: int| 0 <= j < h1.len() && h1[j] == h2[i];
            let b = choose|j: int| 0 <= j < h1.len() && h1[j] == h2[0];
            assert(h1[a].suit == h1[0].suit && h1[b].suit == h1[0].suit);
        }
    }
    assert forall|lo: int| ranks_within_five(h1, lo) implies #[trigger] ranks_within_five(h2, lo) by {
        assert forall|i: int| 0 <= i < h2.len() implies lo <= #[trigger] h2[i].rank <= lo + 4 by {
            let a = choose|j: int| 0 <= j < h1.len() && h1[j] == h2[i];
            assert(lo <= h1[a].rank <= lo + 4);
        }
    }
    if ranks_in_wheel(h1) {
        assert forall|i: int| 0 <= i < h2.len() implies {
            let r = #[trigger] h2[i].rank;
            r == 14 || 2 <= r <= 5
        } by {
            let a = choose|j: int| 0 <= j < h1.len() && h1[j] == h2[i];
            assert(h1[a].rank == h2[i].rank);
        }
    }
    if ranks_at_least_ten(h1) {
        assert forall|i: int| 0 <= i < h2.len() implies #[trigger] h2[i].rank >= 10 by {
            let a = choose|j: int| 0 <= j < h1.len() && h1[j] == h2[i];
            assert(h1[a].rank >= 10);
        }
    }
}

/// The order of the cards does not matter: two hands of the same five cards evaluate
/// alike.
pub proof fn lemma_evaluate_ignores_order(h1: Seq<Card>, h2: Seq<Card>)
    requires
        h1.len() == 5,
        h2.len() == 5,
        h1.to_multiset() == h2.to_multiset(),
    ensures
        spec_evaluate(h1) == spec_evaluate(h2),
{
    lemma_orderless_one_way(h1, h2);
    lemma_orderless_one_way(h2, h1);
    assert forall|r: int| #[trigger] rank_count(h1, r) == rank_count(h2, r) by {
        lemma_rank_count_multiset(h1, r);
        lemma_rank_count_multiset(h2, r);
    }
    lemma_pair_count_same(h1, h2, 2, 15);
    assert(is_flush(h1) == is_flush(h2));
    if distinct_ranks(h1) {
        assert forall|r: int| #[trigger] rank_count(h2, r) <= 1 by {
            assert(rank_count(h1, r) <= 1);
        }
    }
    if distinct_ranks(h2) {
        assert forall|r: int| #[trigger] rank_count(h1, r) <= 1 by {
            assert(rank_count(h2, r) <= 1);
        }
    }
    assert(distinct_ranks(h1) == distinct_ranks(h2));
    if exists|lo: int| #[trigger] ranks_within_five(h1, lo) {
        let lo = choose|lo: int| #[trigger] ranks_within_five(h1, lo);
        assert(ranks_within_five(h2, lo));
    }
    if exists|lo: int| #[trigger] ranks_within_five(h2, lo) {
        let lo = choose|lo: int| #[trigger] ranks_within_five(h2, lo);
        assert(ranks_within_five(h1, lo));
    }
    assert(is_straight(h1) == is_straight(h2));
    lemma_has_rank_count_same(h1, h2, 4, 2, 15);
    lemma_has_rank_count_same(h1, h2, 3, 2, 15);
    lemma_has_rank_count_same(h1, h2, 2, 11, 15);
}

/// Five cards of five different ranks have every rank count at most one.
proof fn lemma_different_ranks_count_once(h: Seq<Card>, r: int)
    requires
        forall|i: int, j: int| 0 <= i < j < h.len() ==> h[i].rank != h[j].rank,
    ensures
        rank_count(h, r) <= 1,
    decreases h.len(),
{
    if h.len() > 0 {
        let p = h.drop_last();
        assert forall|i: int, j: int| 0 <= i < j < p.len() implies p[i].rank != p[j].rank by {
            assert(p[i] == h[i] && p[j] == h[j]);
        }
        lemma_different_ranks_count_once(p, r);
        if h.last().rank == r && rank_count(p, r) == 1 {
            lemma_rank_count_witness(p, r);
            let k = choose|k: int| 0 <= k < p.len() && p[k].rank == r;
            assert(h[k].rank == h[h.len() - 1].rank);
        }
    }
}

/// Five cards of five consecutive ranks make a straight, whatever the low rank: from
/// 2-3-4-5-6 (`lo` 2) up to 10-J-Q-K-A (`lo` 10), and the ace-low A-2-3-4-5 (written
/// `lo` 1, the ace counting as one). Of mixed suits they are a Straight; all of one suit
/// they are a straight flush, and a royal flush when they run from ten to the ace.
pub proof fn lemma_five_in_a_row_is_a_straight(h: Seq<Card>, lo: int)
    requires
        h.len() == 5,
        forall|i: int, j: int| 0 <= i < j < 5 ==> h[i].rank != h[j].rank,
        (2 <= lo <= 10 && forall|i: int| 0 <= i < 5 ==> lo <= #[trigger] h[i].rank <= lo + 4)
            || (lo == 1 && forall|i: int| 0 <= i < 5 ==> (#[trigger] h[i].rank == 14 || 2 <= h[i].rank <= 5)),
    ensures
        (exists|i: int| 0 <= i < 5 && #[trigger] h[i].suit != h[0].suit)
            ==> spec_evaluate(h) == Some(HandRank::Straight),
        (forall|i: int| 0 <= i < 5 ==> #[trigger] h[i].suit == h[0].suit)
            ==> spec_evaluate(h) == Some(if lo == 10 { HandRank::RoyalFlush } else { HandRank::StraightFlush }),
{
    assert forall|r: int| #[trigger] rank_count(h, r) <= 1 by {
        lemma_different_ranks_count_once(h, r);
    }
    assert(distinct_ranks(h));
    if lo == 1 {
        assert(ranks_in_wheel(h));
    } else {
        assert(ranks_within_five(h, lo));
    }
    assert(is_straight(h));
    assert(!has_rank_count(h, 4, 2, 15));
    assert(!has_rank_count(h, 3, 2, 15));
    if exists|i: int| 0 <= i < 5 && #[trigger] h[i].suit != h[0].suit {
        let i = choose|i: int| 0 <= i < 5 && #[trigger] h[i].suit != h[0].suit;
        assert(!is_flush(h));
    }
    if lo == 10 {
        assert(ranks_at_least_ten(h));
    } else {
        // Five different ranks cannot all lie in 10..=13, nor can two aces be dealt.
        assert(h[0].rank != h[1].rank && h[0].rank != h[2].rank && h[0].rank != h[3].rank
            && h[0].rank != h[4].rank && h[1].rank != h[2].rank && h[1].rank != h[3].rank
            && h[1].rank != h[4].rank && h[2].rank != h[3].rank && h[2].rank != h[4].rank
            && h[3].rank != h[4].rank);
        assert(h[0].rank < 10 || h[1].rank < 10 || h[2].rank < 10 || h[3].rank < 10 || h[4].rank < 10);
        assert(!ranks_at_least_ten(h));
    }
}

/// The number of cards of rank `r` among five, card by card.
proof fn lemma_rank_count_five(h: Seq<Card>, r: int)
    requires
        h.len() == 5,
    ensures
        rank_count(h, r) == (if h[0].rank == r { 1int } else { 0int }) + (if h[1].rank == r { 1int } else { 0int })
            + (if h[2].rank == r { 1int } else { 0int }) + (if h[3].rank == r { 1int } else { 0int })
            + (if h[4].rank == r { 1int } else { 0int }),
{
    let h4 = h.drop_last();
    let h3 = h4.drop_last();
    let h2 = h3.drop_last();
    let h1 = h2.drop_last();
    let h0 = h1.drop_last();
    assert(h0.len() == 0);
    assert(h1.last() == h[0]);
    assert(h2.last() == h[1]);
    assert(h3.last() == h[2]);
    assert(h4.last() == h[3]);
    assert(rank_count(h0, r) == 0);
    assert(rank_count(h1, r) == rank_count(h0, r) + if h[0].rank == r { 1nat } else { 0nat });
    assert(rank_count(h2, r) == rank_count(h1, r) + if h[1].rank == r { 1nat } else { 0nat });
    assert(rank_count(h3, r) == rank_count(h2, r) + if h[2].rank == r { 1nat } else { 0nat });
    assert(rank_count(h4, r) == rank_count(h3, r) + if h[3].rank == r { 1nat } else { 0nat });
}

proof fn lemma_pair_count_none(h: Seq<Card>, lo: int, hi: int)
    requires
        forall|r: int| lo <= r < hi ==> #[trigger] rank_count(h, r) != 2,
    ensures
        pair_count(h, lo, hi) == 0,
    decreases hi - lo,
{
    if hi > lo {
        lemma_pair_count_none(h, lo, hi - 1);
    }
}

proof fn lemma_pair_count_one(h: Seq<Card>, lo: int, hi: int, p: int)
    requires
        lo <= p < hi,
        rank_count(h, p) == 2,
        forall|r: int| lo <= r < hi && r != p ==> #[trigger] rank_count(h, r) != 2,
    ensures
        pair_count(h, lo, hi) == 1,
    decreases hi - lo,
{
    if p == hi - 1 {
        lemma_pair_count_none(h, lo, hi - 1);
    } else {
        lemma_pair_count_one(h, lo, hi - 1, p);
    }
}

proof fn lemma_pair_count_two(h: Seq<Card>, lo: int, hi: int, p: int, q: int)
    requires
        lo <= p < q < hi,
        rank_count(h, p) == 2,
        rank_count(h, q) == 2,
        forall|r: int| lo <= r < hi && r != p && r != q ==> #[trigger] rank_count(h, r) != 2,
    ensures
        pair_count(h, lo, hi) == 2,
    decreases hi - lo,
{
    if q == hi - 1 {
        lemma_pair_count_one(h, lo, hi - 1, p);
    } else {
        lemma_pair_count_two(h, lo, hi - 1, p, q);
    }
}

/// One pair and three odd cards: the hand pays Jacks or Better when the pair is jacks or
/// higher (aces high), and nothing when it is tens or lower.
pub proof fn lemma_one_pair(h: Seq<Card>)
    requires
        h.len() == 5,
        forall|i: int| 0 <= i < 5 ==> 2 <= #[trigger] h[i].rank <= 14,
        h[0].rank == h[1].rank,
        h[0].suit != h[1].suit,
        forall|i: int, j: int| 1 <= i < j < 5 ==> h[i].rank != h[j].rank,
    ensures
        spec_evaluate(h) == if h[0].rank >= 11 { Some(HandRank::JacksOrBetter) } else { None },
{
    let p = h[0].rank as int;
    assert forall|r: int| #[trigger] rank_count(h, r) == if r == p { 2int } else if r == h[2].rank || r == h[3].rank || r == h[4].rank { 1int } else { 0int } by {
        lemma_rank_count_five(h, r);
    }
    assert(!is_flush(h));
    assert(rank_count(h, p) == 2);
    assert(!distinct_ranks(h));
    assert(!has_rank_count(h, 4, 2, 15));
    assert(!has_rank_count(h, 3, 2, 15));
    lemma_pair_count_one(h, 2, 15, p);
    if p >= 11 {
        assert(has_rank_count(h, 2, 11, 15));
    } else {
        assert(!has_rank_count(h, 2, 11, 15));
    }
}

/// Two pairs and an odd card pay Two Pair, whatever their ranks.
pub proof fn lemma_two_pair(h: Seq<Card>)
    requires
        h.len() == 5,
        forall|i: int| 0 <= i < 5 ==> 2 <= #[trigger] h[i].rank <= 14,
        h[0].rank == h[1].rank,
        h[2].rank == h[3].rank,
        h[0].suit != h[1].suit,
        h[0].rank < h[2].rank,
        h[4].rank != h[0].rank,
        h[4].rank != h[2].rank,
    ensures
        spec_evaluate(h) == Some(HandRank::TwoPair),
{
    let p = h[0].rank as int;
    let q = h[2].rank as int;
    assert forall|r: int| #[trigger] rank_count(h, r) == if r == p || r == q { 2int } else if r == h[4].rank { 1int } else { 0int } by {
        lemma_rank_count_five(h, r);
    }
    assert(!is_flush(h));
    assert(rank_count(h, p) == 2);
    assert(!distinct_ranks(h));
    assert(!has_rank_count(h, 4, 2, 15));
    assert(!has_rank_count(h, 3, 2, 15));
    lemma_pair_count_two(h, 2, 15, p, q);
}

/// Three of a kind with two odd cards pays Three of a Kind; with a pair it is a Full
/// House.
pub proof fn lemma_three_of_a_kind(h: Seq<Card>)
    requires
        h.len() == 5,
        forall|i: int| 0 <= i < 5 ==> 2 <= #[trigger] h[i].rank <= 14,
        h[0].rank == h[1].rank,
        h[1].rank == h[2].rank,
        h[0].suit != h[1].suit,
        h[3].rank != h[0].rank,
        h[4].rank != h[0].rank,
    ensures
        spec_evaluate(h) == Some(if h[3].rank == h[4].rank { HandRank::FullHouse } else { HandRank::ThreeOfAKind }),
{
    let p = h[0].rank as int;
    assert forall|r: int| #[trigger] rank_count(h, r) == if r == p { 3int } else if r == h[3].rank && r == h[4].rank { 2int } else if r == h[3].rank || r == h[4].rank { 1int } else { 0int } by {
        lemma_rank_count_five(h, r);
    }
    assert(!is_flush(h));
    assert(rank_count(h, p) == 3);
    assert(!distinct_ranks(h));
    assert(!has_rank_count(h, 4, 2, 15));
    assert(has_rank_count(h, 3, 2, 15));
    if h[3].rank == h[4].rank {
        lemma_pair_count_one(h, 2, 15, h[3].rank as int);
    } else {
        lemma_pair_count_none(h, 2, 15);
    }
}

/// Four cards of one rank pay Four of a Kind, whatever the fifth card.
pub proof fn lemma_four_of_a_kind(h: Seq<Card>)
    requires
        h.len() == 5,
        forall|i: int| 0 <= i < 5 ==> 2 <= #[trigger] h[i].rank <= 14,
        h[0].rank == h[1].rank,
        h[1].rank == h[2].rank,
        h[2].rank == h[3].rank,
        h[0].suit != h[1].suit,
        h[4].rank != h[0].rank,
    ensures
        spec_evaluate(h) == Some(HandRank::FourOfAKind),
{
    let p = h[0].rank as int;
    assert forall|r: int| #[trigger] rank_count(h, r) == if r == p { 4int } else if r == h[4].rank { 1int } else { 0int } by {
        lemma_rank_count_five(h, r);
    }
    assert(!is_flush(h));
    assert(rank_count(h, p) == 4);
    assert(has_rank_count(h, 4, 2, 15));
}

/// Five cards of one suit pay a Flush when their five ranks are different and make no
/// straight: the highest and lowest lie more than four apart, and some rank lies between
/// six and king, so they are not A-2-3-4-5 either.
pub proof fn lemma_flush(h: Seq<Card>, lo: int, hi: int, mid: int)
    requires
        h.len() == 5,
        forall|i: int| 0 <= i < 5 ==> #[trigger] h[i].suit == h[0].suit,
        forall|i: int, j: int| 0 <= i < j < 5 ==> h[i].rank != h[j].rank,
        0 <= lo < 5,
        0 <= hi < 5,
        0 <= mid < 5,
        h[hi].rank - h[lo].rank > 4,
        6 <= h[mid].rank <= 13,
    ensures
        spec_evaluate(h) == Some(HandRank::Flush),
{
    assert forall|r: int| #[trigger] rank_count(h, r) <= 1 by {
        lemma_different_ranks_count_once(h, r);
    }
    assert(is_flush(h));
    assert forall|l: int| !#[trigger] ranks_within_five(h, l) by {
        assert(l <= h[lo].rank && h[hi].rank <= l + 4 ==> false);
    }
    assert(!ranks_in_wheel(h));
    assert(!is_straight(h));
    assert(!has_rank_count(h, 4, 2, 15));
    assert(!has_rank_count(h, 3, 2, 15));
}

/// No rank occurs more often than there are cards.
pub proof fn lemma_rank_count_bound(h: Seq<Card>, r: int)
    ensures
        rank_count(h, r) <= h.len(),
    decreases h.len(),
{
    if h.len() > 0 {
        lemma_rank_count_bound(h.drop_last(), r);
    }
}

} // verus!
