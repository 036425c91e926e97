use vstd::prelude::*;

use crate::cards::{Card, Suit, full_deck, is_standard, lemma_standard_deck_distinct, standard_deck};
use crate::hand::{evaluate, spec_evaluate};

verus! {

/// Bit `i` of a hold mask: whether card `i` is held.
pub open spec fn is_held(mask: u8, i: int) -> bool {
    (mask >> (i as u8)) & 1u8 == 1u8
}

proof fn lemma_mask_step(m: u8, i: u8)
    by (bit_vector)
    requires
        i < 5,
        m < (1u8 << i),
    ensures
        (m | (1u8 << i)) < (1u8 << ((i + 1) as u8)),
        m < (1u8 << ((i + 1) as u8)),
        ((m | (1u8 << i)) >> i) & 1u8 == 1u8,
        (m >> i) & 1u8 == 0u8,
        forall|j: u8| j < i ==> (((m | (1u8 << i)) >> j) & 1u8) == ((m >> j) & 1u8),
{
}

/// The weight of bit `i` of a hold mask.
pub open spec fn bit_weight(i: int) -> int {
    if i == 0 {
        1
    } else if i == 1 {
        2
    } else if i == 2 {
        4
    } else if i == 3 {
        8
    } else {
        16
    }
}

/// The mask of the first `n` held flags: the sum of the weights of the held cards.
pub open spec fn held_mask_upto(held: Seq<bool>, n: int) -> int
    decreases n,
{
    if n <= 0 {
        0
    } else {
        held_mask_upto(held, n - 1) + if held[n - 1] { bit_weight(n - 1) } else { 0 }
    }
}

/// The hold mask of five held flags.
pub open spec fn held_mask(held: Seq<bool>) -> int {
    held_mask_upto(held, 5)
}

proof fn lemma_mask_weight(m: u8, i: u8)
    requires
        i < 5,
        m < (1u8 << i),
    ensures
        (1u8 << i) == bit_weight(i as int),
        (m | (1u8 << i)) == m + bit_weight(i as int),
{
    assert(m < (1u8 << i) ==> (m | (1u8 << i)) == m + (1u8 << i)) by (bit_vector);
    if i == 0 {
        assert((1u8 << 0u8) == 1u8) by (bit_vector);
    } else if i == 1 {
        assert((1u8 << 1u8) == 2u8) by (bit_vector);
    } else if i == 2 {
        assert((1u8 << 2u8) == 4u8) by (bit_vector);
    } else if i == 3 {
        assert((1u8 << 3u8) == 8u8) by (bit_vector);
    } else {
        assert((1u8 << 4u8) == 16u8) by (bit_vector);
    }
}

proof fn lemma_mask_start()
    by (bit_vector)
    ensures
        0u8 < (1u8 << 0u8),
        (1u8 << 5u8) == 32u8,
{
}

/// The hold mask of five held flags: bit `i` is set exactly when card `i` is held.
pub fn mask_of(held: &[bool; 5]) -> (mask: u8)
    ensures
        mask < 32,
        mask == held_mask(held@),
        forall|i: int| 0 <= i < 5 ==> is_held(mask, i) == held@[i],
{
    let mut m: u8 = 0;
    let mut i: u8 = 0;
    proof {
        lemma_mask_start();
    }
    while i < 5
        invariant
            i <= 5,
            m < (1u8 << i),
            m == held_mask_upto(held@, i as int),
            (1u8 << 5u8) == 32u8,
            forall|j: int| 0 <= j < i ==> is_held(m, j) == held@[j],
        decreases 5 - i,
    {
        proof {
            lemma_mask_step(m, i);
            lemma_mask_weight(m, i);
        }
        let ghost old_m = m;
        if held[i as usize] {
            m = m | (1u8 << i);
        }
        assert forall|j: int| 0 <= j < i + 1 implies is_held(m, j) == held@[j] by {
            if j < i {
                assert(is_held(old_m, j) == held@[j]);
                if held@[i as int] {
                    assert(m == (old_m | (1u8 << i)));
                    assert((((old_m | (1u8 << i)) >> (j as u8)) & 1u8) == ((old_m >> (j as u8)) & 1u8));
                }
            } else {
                assert(j == i);
                assert((j as u8) == i);
            }
        }
        i = i + 1;
    }
    m
}

/// Number of ways to choose `k` of `n` items.
pub open spec fn binomial(n: nat, k: nat) -> nat
    decreases n,
{
    if k == 0 {
        1
    } else if n == 0 {
        0
    } else {
        binomial((n - 1) as nat, (k - 1) as nat) + binomial((n - 1) as nat, k)
    }
}

spec fn power(b: nat, e: nat) -> nat
    decreases e,
{
    if e == 0 {
        1
    } else {
        b * power(b, (e - 1) as nat)
    }
}

proof fn lemma_power_base_monotone(a: nat, b: nat, e: nat)
    requires
        a <= b,
    ensures
        power(a, e) <= power(b, e),
    decreases e,
{
    if e > 0 {
        lemma_power_base_monotone(a, b, (e - 1) as nat);
        let x = power(a, (e - 1) as nat);
        let y = power(b, (e - 1) as nat);
        assert(a * x <= b * y) by (nonlinear_arith)
            requires
                a <= b,
                x <= y,
        ;
    }
}

proof fn lemma_power_exp_monotone(b: nat, e: nat, f: nat)
    requires
        b >= 1,
        e <= f,
    ensures
        power(b, e) <= power(b, f),
    decreases f,
{
    if e < f {
        lemma_power_exp_monotone(b, e, (f - 1) as nat);
        let x = power(b, (f - 1) as nat);
        assert(x <= b * x) by (nonlinear_arith)
            requires
                b >= 1,
        ;
    }
}

proof fn lemma_binomial_le_power(n: nat, k: nat)
    ensures
        binomial(n, k) <= power(n, k),
    decreases n,
{
    if k > 0 && n > 0 {
        let m = (n - 1) as nat;
        let j = (k - 1) as nat;
        lemma_binomial_le_power(m, j);
        lemma_binomial_le_power(m, k);
        lemma_power_base_monotone(m, n, j);
        let x = power(m, j);
        let y = power(n, j);
        assert(x + m * x <= n * y) by (nonlinear_arith)
            requires
                x <= y,
                n == m + 1,
        ;
    }
}

/// Choosing up to five of at most 52 cards can be done in at most 52^5 ways.
proof fn lemma_binomial_small(n: nat, k: nat)
    requires
        n <= 52,
        k <= 5,
    ensures
        binomial(n, k) <= 380204032,
{
    lemma_binomial_le_power(n, k);
    lemma_power_base_monotone(n, 52, k);
    lemma_power_exp_monotone(52, k, 5);
    reveal_with_fuel(power, 6);
    assert(power(52, 5) == 380204032);
}

/// Coins paid for a final hand.
pub open spec fn pay_of(h: Seq<Card>, coins: u8) -> int {
    match spec_evaluate(h) {
        Some(r) => r.spec_payout(coins),
        None => 0,
    }
}

/// Total paid over every way to fill the `slots` of `h` with cards of `rest`: each
/// subset of `slots.len()` cards of `rest` once, its cards placed in the slots in order.
pub open spec fn draw_pay(h: Seq<Card>, slots: Seq<usize>, rest: Seq<Card>, coins: u8) -> int
    decreases rest.len(),
{
    if slots.len() == 0 {
        pay_of(h, coins)
    } else if rest.len() == 0 {
        0
    } else {
        draw_pay(h.update(slots[0] as int, rest[0]), slots.drop_first(), rest.drop_first(), coins)
            + draw_pay(h, slots, rest.drop_first(), coins)
    }
}

/// Most coins any hand pays for a bet of up to 255 coins.
pub open spec fn max_pay() -> int {
    63750
}

proof fn lemma_pay_bound(h: Seq<Card>, coins: u8)
    ensures
        0 <= pay_of(h, coins) <= max_pay(),
{
    match spec_evaluate(h) {
        Some(r) => {
            assert(0 <= r.base_pay() * coins <= 250 * coins) by (nonlinear_arith)
                requires
                    0 <= r.base_pay() <= 250,
            ;
        },
        None => {},
    }
}

proof fn lemma_draw_pay_bound(h: Seq<Card>, slots: Seq<usize>, rest: Seq<Card>, coins: u8)
    ensures
        0 <= draw_pay(h, slots, rest, coins) <= max_pay() * binomial(rest.len(), slots.len()),
        rest.len() < slots.len() ==> draw_pay(h, slots, rest, coins) == 0
            && binomial(rest.len(), slots.len()) == 0,
    decreases rest.len(),
{
    if slots.len() == 0 {
        lemma_pay_bound(h, coins);
    } else if rest.len() > 0 {
        lemma_draw_pay_bound(
            h.update(slots[0] as int, rest[0]),
            slots.drop_first(),
            rest.drop_first(),
            coins,
        );
        lemma_draw_pay_bound(h, slots, rest.drop_first(), coins);
    }
}

/// Sums the pay over every way to fill the open slots `open[t..]` of `trial` from the
/// cards `rest[j..]`, and counts those ways. `trial` comes back unchanged.
fn draw_total(
    trial: &mut [Card; 5],
    open: &Vec<usize>,
    t: usize,
    rest: &Vec<Card>,
    j: usize,
    coins: u8,
) -> (r: (u64, u64))
    requires
        t <= open@.len() <= 5,
        j <= rest@.len() <= 52,
        forall|i: int| 0 <= i < open@.len() ==> #[trigger] open@[i] < 5,
        forall|i: int| 0 <= i < 5 ==> #[trigger] old(trial)@[i].rank <= 14,
        forall|i: int| 0 <= i < rest@.len() ==> #[trigger] rest@[i].rank <= 14,
    ensures
        *final(trial) == *old(trial),
        r.0 == draw_pay(old(trial)@, open@.skip(t as int), rest@.skip(j as int), coins),
        r.1 == binomial((rest@.len() - j) as nat, (open@.len() - t) as nat),
    decreases rest@.len() - j,
{
    let ghost h = trial@;
    let ghost slots = open@.skip(t as int);
    let ghost cards = rest@.skip(j as int);
    proof {
        lemma_draw_pay_bound(h, slots, cards, coins);
        lemma_binomial_small(cards.len(), slots.len());
    }
    if t == open.len() {
        let pay: u64 = match evaluate(trial) {
            Some(rank) => rank.payout(coins) as u64,
            None => 0,
        };
        return (pay, 1);
    }
    if rest.len() - j < open.len() - t {
        return (0, 0);
    }
    let slot = open[t];
    let saved = trial[slot];
    trial[slot] = rest[j];
    proof {
        assert(slots[0] == slot);
        assert(cards[0] == rest@[j as int]);
        assert(slots.drop_first() =~= open@.skip(t + 1));
        assert(cards.drop_first() =~= rest@.skip(j + 1));
        assert(trial@ =~= h.update(slot as int, rest@[j as int]));
    }
    let (p1, n1) = draw_total(trial, open, t + 1, rest, j + 1, coins);
    trial[slot] = saved;
    proof {
        assert(trial@ =~= h);
    }
    let (p2, n2) = draw_total(trial, open, t, rest, j + 1, coins);
    proof {
        lemma_draw_pay_bound(h.update(slot as int, rest@[j as int]), slots.drop_first(), cards.drop_first(), coins);
        lemma_draw_pay_bound(h, slots, cards.drop_first(), coins);
        lemma_binomial_small(cards.drop_first().len(), slots.len());
        lemma_binomial_small(cards.drop_first().len(), slots.drop_first().len());
    }
    (p1 + p2, n1 + n2)
}

/// The cards of `s` that are not in `h`, in their order in `s`.
pub open spec fn without(s: Seq<Card>, h: Seq<Card>) -> Seq<Card>
    decreases s.len(),
{
    if s.len() == 0 {
        s
    } else if h.contains(s.last()) {
        without(s.drop_last(), h)
    } else {
        without(s.drop_last(), h).push(s.last())
    }
}

/// The cards of a standard deck that are not in the hand `h`, in deck order.
pub open spec fn unseen(h: Seq<Card>) -> Seq<Card> {
    without(standard_deck(), h)
}

/// Number of positions of `s` whose card is in `h`.
spec fn count_in(s: Seq<Card>, h: Seq<Card>) -> nat
    decreases s.len(),
{
    if s.len() == 0 {
        0
    } else {
        count_in(s.drop_last(), h) + if h.contains(s.last()) { 1nat } else { 0nat }
    }
}

/// Number of positions of `s` that hold `x`.
spec fn occurrences(s: Seq<Card>, x: Card) -> nat
    decreases s.len(),
{
    if s.len() == 0 {
        0
    } else {
        occurrences(s.drop_last(), x) + if s.last() == x { 1nat } else { 0nat }
    }
}

proof fn lemma_without_len(s: Seq<Card>, h: Seq<Card>)
    ensures
        without(s, h).len() + count_in(s, h) == s.len(),
        forall|i: int| 0 <= i < without(s, h).len() ==> s.contains(#[trigger] without(s, h)[i]),
    decreases s.len(),
{
    if s.len() > 0 {
        lemma_without_len(s.drop_last(), h);
        let w = without(s.drop_last(), h);
        assert forall|i: int| 0 <= i < without(s, h).len() implies s.contains(#[trigger] without(s, h)[i]) by {
            if i < w.len() {
                assert(s.drop_last().contains(w[i]));
                let k = choose|k: int| 0 <= k < s.drop_last().len() && s.drop_last()[k] == w[i];
                assert(s[k] == w[i]);
            } else {
                assert(s[s.len() - 1] == without(s, h)[i]);
            }
        }
    }
}

proof fn lemma_count_in_empty(s: Seq<Card>, h: Seq<Card>)
    requires
        h.len() == 0,
    ensures
        count_in(s, h) == 0,
    decreases s.len(),
{
    if s.len() > 0 {
        lemma_count_in_empty(s.drop_last(), h);
    }
}

proof fn lemma_count_in_push(s: Seq<Card>, h: Seq<Card>, x: Card)
    ensures
        count_in(s, h.push(x)) <= count_in(s, h) + occurrences(s, x),
    decreases s.len(),
{
    if s.len() > 0 {
        lemma_count_in_push(s.drop_last(), h, x);
        let c = s.last();
        if h.push(x).contains(c) && !h.contains(c) {
            let k = choose|k: int| 0 <= k < h.push(x).len() && h.push(x)[k] == c;
            if k < h.len() {
                assert(h[k] == c);
            }
        }
    }
}

proof fn lemma_occurrences_unique(s: Seq<Card>, x: Card)
    requires
        s.no_duplicates(),
    ensures
        occurrences(s, x) <= 1,
    decreases s.len(),
{
    if s.len() > 0 {
        assert(s.drop_last().no_duplicates());
        lemma_occurrences_unique(s.drop_last(), x);
        if s.last() == x && occurrences(s.drop_last(), x) > 0 {
            lemma_occurrences_witness(s.drop_last(), x);
            let k = choose|k: int| 0 <= k < s.drop_last().len() && s.drop_last()[k] == x;
            assert(s[k] == s[s.len() - 1]);
        }
    }
}

proof fn lemma_occurrences_witness(s: Seq<Card>, x: Card)
    requires
        occurrences(s, x) > 0,
    ensures
        exists|k: int| 0 <= k < s.len() && s[k] == x,
    decreases s.len(),
{
    if s.last() != x {
        lemma_occurrences_witness(s.drop_last(), x);
        let k = choose|k: int| 0 <= k < s.drop_last().len() && s.drop_last()[k] == x;
        assert(s[k] == x);
    }
}

proof fn lemma_count_in_bound(s: Seq<Card>, h: Seq<Card>)
    requires
        s.no_duplicates(),
    ensures
        count_in(s, h) <= h.len(),
    decreases h.len(),
{
    if h.len() == 0 {
        lemma_count_in_empty(s, h);
    } else {
        lemma_count_in_bound(s, h.drop_last());
        lemma_count_in_push(s, h.drop_last(), h.last());
        lemma_occurrences_unique(s, h.last());
        assert(h.drop_last().push(h.last()) =~= h);
    }
}

/// Five cards leave between 47 and 52 unseen cards.
proof fn lemma_unseen_len(h: Seq<Card>)
    requires
        h.len() == 5,
    ensures
        47 <= unseen(h).len() <= 52,
{
    lemma_standard_deck_distinct();
    lemma_without_len(standard_deck(), h);
    lemma_count_in_bound(standard_deck(), h);
}

/// Every card of rank 2 to 14 lies in the standard deck.
proof fn lemma_standard_in_deck(c: Card)
    requires
        is_standard(c),
    ensures
        standard_deck().contains(c),
{
    let s: int = match c.suit {
        Suit::Clubs => 0,
        Suit::Diamonds => 1,
        Suit::Hearts => 2,
        Suit::Spades => 3,
    };
    let r: int = c.rank as int;
    let i: int = 13 * s + r - 2;
    assert(i / 13 == s) by (nonlinear_arith)
        requires
            i == 13 * s + r - 2,
            2 <= r <= 14,
    ;
    assert(i % 13 == r - 2) by (nonlinear_arith)
        requires
            i == 13 * s + r - 2,
            2 <= r <= 14,
    ;
    assert(standard_deck()[i] == c);
}

proof fn lemma_occurrences_positive(s: Seq<Card>, x: Card)
    requires
        s.contains(x),
    ensures
        occurrences(s, x) >= 1,
    decreases s.len(),
{
    if s.last() != x {
        let k = choose|k: int| 0 <= k < s.len() && s[k] == x;
        assert(s.drop_last()[k] == x);
        lemma_occurrences_positive(s.drop_last(), x);
    }
}

proof fn lemma_count_in_push_fresh(s: Seq<Card>, h: Seq<Card>, x: Card)
    requires
        !h.contains(x),
    ensures
        count_in(s, h.push(x)) == count_in(s, h) + occurrences(s, x),
    decreases s.len(),
{
    if s.len() > 0 {
        lemma_count_in_push_fresh(s.drop_last(), h, x);
        let c = s.last();
        if h.contains(c) {
            let k = choose|k: int| 0 <= k < h.len() && h[k] == c;
            assert(h.push(x)[k] == c);
        }
        if c == x {
            assert(h.push(x)[h.len() as int] == c);
        }
        if h.push(x).contains(c) && !h.contains(c) {
            let k = choose|k: int| 0 <= k < h.push(x).len() && h.push(x)[k] == c;
            if k < h.len() {
                assert(h[k] == c);
            }
        }
    }
}

proof fn lemma_count_in_distinct(h: Seq<Card>)
    requires
        h.no_duplicates(),
        forall|i: int| 0 <= i < h.len() ==> is_standard(#[trigger] h[i]),
    ensures
        count_in(standard_deck(), h) == h.len(),
    decreases h.len(),
{
    if h.len() == 0 {
        lemma_count_in_empty(standard_deck(), h);
    } else {
        let p = h.drop_last();
        let x = h.last();
        assert forall|i: int| 0 <= i < p.len() implies is_standard(#[trigger] p[i]) by {
            assert(p[i] == h[i]);
        }
        lemma_count_in_distinct(p);
        if p.contains(x) {
            let k = choose|k: int| 0 <= k < p.len() && p[k] == x;
            assert(h[k] == h[h.len() - 1]);
        }
        lemma_count_in_push_fresh(standard_deck(), p, x);
        lemma_standard_deck_distinct();
        lemma_occurrences_unique(standard_deck(), x);
        lemma_standard_in_deck(x);
        lemma_occurrences_positive(standard_deck(), x);
        assert(p.push(x) =~= h);
    }
}

/// Five different cards of a standard deck leave exactly 47 unseen, so a hold that keeps
/// the cards of `mask` draws from those 47 and has C(47, k) equally likely draws, `k`
/// being the number of cards it throws away.
pub proof fn lemma_draws_from_47(hand: Seq<Card>, mask: u8)
    requires
        hand.len() == 5,
        hand.no_duplicates(),
        forall|i: int| 0 <= i < 5 ==> is_standard(#[trigger] hand[i]),
    ensures
        unseen(hand).len() == 47,
        hold_draws(hand, mask) == binomial(47, open_slots(mask).len()),
{
    lemma_count_in_distinct(hand);
    lemma_without_len(standard_deck(), hand);
}

/// Whether the hand holds the card.
fn hand_contains(hand: &[Card; 5], c: Card) -> (found: bool)
    ensures
        found == hand@.contains(c),
{
    let mut i: usize = 0;
    while i < 5
        invariant
            i <= 5,
            forall|k: int| 0 <= k < i ==> hand@[k] != c,
        decreases 5 - i,
    {
        if hand[i] == c {
            assert(hand@[i as int] == c);
            return true;
        }
        i = i + 1;
    }
    false
}

/// The cards of a standard deck that are not in the hand, in deck order.
fn unseen_cards(hand: &[Card; 5]) -> (rest: Vec<Card>)
    ensures
        rest@ == unseen(hand@),
{
    let deck = full_deck();
    let mut rest: Vec<Card> = Vec::new();
    let mut i: usize = 0;
    while i < 52
        invariant
            i <= 52,
            deck@ == standard_deck(),
            rest@ == without(deck@.take(i as int), hand@),
        decreases 52 - i,
    {
        assert(deck@.take(i + 1).drop_last() =~= deck@.take(i as int));
        assert(deck@.take(i + 1).last() == deck@[i as int]);
        if !hand_contains(hand, deck[i]) {
            rest.push(deck[i]);
        }
        i = i + 1;
    }
    assert(deck@.take(52) =~= deck@);
    rest
}

/// `c` picks `c.len()` of the items `0..n`, listed in increasing order.
pub open spec fn is_combination(c: Seq<usize>, n: int) -> bool {
    &&& forall|p: int, q: int| 0 <= p < q < c.len() ==> #[trigger] c[p] < #[trigger] c[q]
    &&& forall|p: int| 0 <= p < c.len() ==> #[trigger] c[p] < n
}

/// `a` and `b` agree before position `p` and `a` is lower at `p`.
pub open spec fn lower_first_at(a: Seq<usize>, b: Seq<usize>, p: int) -> bool {
    &&& 0 <= p < a.len()
    &&& p < b.len()
    &&& forall|q: int| 0 <= q < p ==> #[trigger] a[q] == b[q]
    &&& a[p] < b[p]
}

/// `a` comes before `b` in lexicographic order.
pub open spec fn lex_before(a: Seq<usize>, b: Seq<usize>) -> bool {
    exists|p: int| #[trigger] lower_first_at(a, b, p)
}

/// The entries of a combination are spread at least as far apart as their positions,
/// and each stays low enough to leave room for the ones after it.
proof fn lemma_combination_gaps(c: Seq<usize>, n: int)
    requires
        is_combination(c, n),
    ensures
        forall|p: int, q: int| 0 <= p <= q < c.len() ==> #[trigger] c[q] - #[trigger] c[p] >= q - p,
        forall|p: int| 0 <= p < c.len() ==> #[trigger] c[p] <= n - c.len() + p,
{
    assert forall|p: int, q: int| 0 <= p <= q < c.len() implies #[trigger] c[q] - #[trigger] c[p] >= q - p by {
        lemma_combination_gap(c, n, p, q);
    }
    assert forall|p: int| 0 <= p < c.len() implies #[trigger] c[p] <= n - c.len() + p by {
        lemma_combination_gap(c, n, p, c.len() - 1);
    }
}

proof fn lemma_combination_gap(c: Seq<usize>, n: int, p: int, q: int)
    requires
        is_combination(c, n),
        0 <= p <= q < c.len(),
    ensures
        c[q] - c[p] >= q - p,
    decreases q - p,
{
    if p < q {
        lemma_combination_gap(c, n, p, q - 1);
        assert(c[q - 1] < c[q]);
    }
}

/// The first combination in lexicographic order: `0, 1, ..., k - 1`.
pub fn first_combination(k: usize) -> (c: Vec<usize>)
    ensures
        c@.len() == k,
        forall|i: int| 0 <= i < k ==> c@[i] == i,
        forall|n: int| k <= n ==> is_combination(c@, n),
        forall|n: int, d: Seq<usize>| is_combination(d, n) && d.len() == k ==> !lex_before(d, c@),
{
    let mut c: Vec<usize> = Vec::new();
    let mut i: usize = 0;
    while i < k
        invariant
            i <= k,
            c@.len() == i,
            forall|j: int| 0 <= j < i ==> c@[j] == j,
        decreases k - i,
    {
        c.push(i);
        i = i + 1;
    }
    assert forall|n: int, d: Seq<usize>| is_combination(d, n) && d.len() == k implies !lex_before(d, c@) by {
        if lex_before(d, c@) {
            let p = choose|p: int| #[trigger] lower_first_at(d, c@, p);
            lemma_combination_gaps(d, n);
            assert(d[p] - d[0] >= p);
        }
    }
    c
}

/// Steps `idx` to the next combination of `k = idx.len()` items out of `0..n` in
/// lexicographic order. Returns false, leaving `idx` as it was, when it is the last.
pub fn next_combination(idx: &mut Vec<usize>, n: usize) -> (stepped: bool)
    requires
        is_combination(old(idx)@, n as int),
    ensures
        final(idx)@.len() == old(idx)@.len(),
        is_combination(final(idx)@, n as int),
        stepped ==> lex_before(old(idx)@, final(idx)@),
        stepped ==> forall|c: Seq<usize>| is_combination(c, n as int) && c.len() == old(idx)@.len()
            ==> !(lex_before(old(idx)@, c) && lex_before(c, final(idx)@)),
        !stepped ==> final(idx)@ == old(idx)@,
        !stepped ==> forall|c: Seq<usize>| is_combination(c, n as int) && c.len() == old(idx)@.len()
            ==> !lex_before(old(idx)@, c),
{
    let ghost old_idx = idx@;
    let k = idx.len();
    proof {
        lemma_combination_gaps(old_idx, n as int);
    }
    if k == 0 {
        assert forall|c: Seq<usize>| is_combination(c, n as int) && c.len() == 0 implies !lex_before(old_idx, c) by {
            if lex_before(old_idx, c) {
                let p = choose|p: int| #[trigger] lower_first_at(old_idx, c, p);
            }
        }
        return false;
    }
    assert(old_idx[0] <= n - k);
    let mut i = k - 1;
    while idx[i] == n - k + i
        invariant
            i < k,
            k <= n,
            k == idx@.len(),
            idx@ == old_idx,
            is_combination(old_idx, n as int),
            forall|p: int| 0 <= p < k ==> #[trigger] old_idx[p] <= n - k + p,
            forall|j: int| i < j < k ==> #[trigger] old_idx[j] == n - k + j,
        decreases i,
    {
        if i == 0 {
            assert forall|c: Seq<usize>| is_combination(c, n as int) && c.len() == k implies !lex_before(old_idx, c) by {
                if lex_before(old_idx, c) {
                    let p = choose|p: int| #[trigger] lower_first_at(old_idx, c, p);
                    lemma_combination_gaps(c, n as int);
                    assert(c[p] <= n - k + p);
                }
            }
            return false;
        }
        i = i - 1;
    }
    let v = idx[i] + 1;
    idx.set(i, v);
    let mut j = i + 1;
    while j < k
        invariant
            i < j <= k,
            k <= n,
            old_idx.len() == k,
            k == idx@.len(),
            v == old_idx[i as int] + 1,
            v <= n - k + i,
            forall|q: int| 0 <= q < i ==> #[trigger] idx@[q] == old_idx[q],
            idx@[i as int] == v,
            forall|q: int| i < q < j ==> #[trigger] idx@[q] == v + (q - i),
        decreases k - j,
    {
        idx.set(j, v + (j - i));
        j = j + 1;
    }
    let ghost new_idx = idx@;
    assert(forall|q: int| i <= q < k ==> #[trigger] new_idx[q] == v + (q - i));
    assert(is_combination(new_idx, n as int));
    assert(lower_first_at(old_idx, new_idx, i as int));
    assert forall|c: Seq<usize>| is_combination(c, n as int) && c.len() == k implies !(lex_before(old_idx, c)
        && lex_before(c, new_idx)) by {
        if lex_before(old_idx, c) && lex_before(c, new_idx) {
            let p1 = choose|p: int| #[trigger] lower_first_at(old_idx, c, p);
            let p2 = choose|p: int| #[trigger] lower_first_at(c, new_idx, p);
            lemma_combination_gaps(c, n as int);
            if p1 < i {
                if p2 < p1 {
                    assert(c[p2] == old_idx[p2]);
                } else if p2 > p1 {
                    assert(c[p1] == new_idx[p1]);
                }
            } else if p1 > i {
                assert(old_idx[p1] == n - k + p1);
            } else {
                if p2 < i {
                    assert(c[p2] == old_idx[p2]);
                } else if p2 > i {
                    assert(c[i as int] == new_idx[i as int]);
                    assert(c[p2] - c[i as int] >= p2 - i);
                }
            }
        }
    }
    true
}

/// The slots among the first `n` that `mask` does not hold, in order.
pub open spec fn open_upto(mask: u8, n: int) -> Seq<usize>
    decreases n,
{
    if n <= 0 {
        Seq::empty()
    } else if is_held(mask, n - 1) {
        open_upto(mask, n - 1)
    } else {
        open_upto(mask, n - 1).push((n - 1) as usize)
    }
}

/// The card slots that a hold `mask` replaces, in order.
pub open spec fn open_slots(mask: u8) -> Seq<usize> {
    open_upto(mask, 5)
}

proof fn lemma_open_upto(mask: u8, n: int)
    requires
        0 <= n <= 5,
    ensures
        open_upto(mask, n).len() <= n,
        forall|i: int| 0 <= i < open_upto(mask, n).len() ==> #[trigger] open_upto(mask, n)[i] < n,
    decreases n,
{
    if n > 0 {
        lemma_open_upto(mask, n - 1);
    }
}

pub(crate) proof fn lemma_bit_test(mask: u8, i: u8)
    by (bit_vector)
    requires
        i < 5,
    ensures
        ((mask & (1u8 << i)) == 0u8) == !((mask >> i) & 1u8 == 1u8),
{
}

fn open_slots_of(mask: u8) -> (open: Vec<usize>)
    ensures
        open@ == open_slots(mask),
{
    let mut open: Vec<usize> = Vec::new();
    let mut i: u8 = 0;
    while i < 5
        invariant
            i <= 5,
            open@ == open_upto(mask, i as int),
        decreases 5 - i,
    {
        proof {
            lemma_bit_test(mask, i);
        }
        if mask & (1u8 << i) == 0 {
            open.push(i as usize);
        }
        i = i + 1;
    }
    open
}

/// The exact expected return of one hold: over `draws` equally likely draws the hold
/// pays `paid` coins in all, for a bet of `coins`, so it returns `paid / (draws * coins)`
/// per coin bet.
#[derive(Clone, Copy, Debug, PartialEq, Eq, Structural)]
pub struct HoldEv {
    /// Bit i set = card i is held.
    pub mask: u8,
    pub paid: u64,
    pub draws: u64,
    pub coins: u8,
}

/// Total pay over all draws for holding `mask` of `hand`.
pub open spec fn hold_pay(hand: Seq<Card>, mask: u8, coins: u8) -> int {
    draw_pay(hand, open_slots(mask), unseen(hand), coins)
}

/// Number of equally likely draws after holding `mask` of `hand`.
pub open spec fn hold_draws(hand: Seq<Card>, mask: u8) -> nat {
    binomial(unseen(hand).len(), open_slots(mask).len())
}

/// The expected return of holding `mask` of `hand` with a bet of `coins`.
pub open spec fn hold_ev(hand: Seq<Card>, mask: u8, coins: u8) -> HoldEv {
    HoldEv {
        mask,
        paid: hold_pay(hand, mask, coins) as u64,
        draws: hold_draws(hand, mask) as u64,
        coins,
    }
}

/// The bet behind a hold's figures, in coins times draws: its return per coin is
/// `paid / stake`.
pub open spec fn stake(e: HoldEv) -> int {
    e.draws * e.coins
}

/// `a` returns strictly more per coin than `b`.
pub open spec fn ev_above(a: HoldEv, b: HoldEv) -> bool {
    a.paid * stake(b) > b.paid * stake(a)
}

/// `a` and `b` return the same per coin.
pub open spec fn ev_same(a: HoldEv, b: HoldEv) -> bool {
    a.paid * stake(b) == b.paid * stake(a)
}

/// `a` comes before `b` when holds are listed best first: a higher return, or the same
/// return and a lower mask.
pub open spec fn ranks_before(a: HoldEv, b: HoldEv) -> bool {
    ev_above(a, b) || (ev_same(a, b) && a.mask < b.mask)
}

/// The returns of `a` and `b` per coin differ by less than 1e-9.
pub open spec fn ev_close(a: HoldEv, b: HoldEv) -> bool {
    let diff = a.paid * stake(b) - b.paid * stake(a);
    let gap = if diff < 0 { -diff } else { diff };
    1000000000 * gap < stake(a) * stake(b)
}

/// The bounds that every hold's figures obey.
pub open spec fn hold_bounded(e: HoldEv) -> bool {
    &&& 1 <= e.draws <= 380204032
    &&& 1 <= e.coins
    &&& e.paid <= max_pay() * e.draws
}

proof fn lemma_hold_ev_bounded(hand: Seq<Card>, mask: u8, coins: u8)
    requires
        hand.len() == 5,
        coins >= 1,
    ensures
        hold_bounded(hold_ev(hand, mask, coins)),
        hold_pay(hand, mask, coins) == hold_ev(hand, mask, coins).paid,
        hold_draws(hand, mask) == hold_ev(hand, mask, coins).draws,
{
    lemma_unseen_len(hand);
    lemma_open_upto(mask, 5);
    lemma_binomial_small(unseen(hand).len(), open_slots(mask).len());
    lemma_binomial_positive(unseen(hand).len(), open_slots(mask).len());
    lemma_draw_pay_bound(hand, open_slots(mask), unseen(hand), coins);
}

proof fn lemma_binomial_positive(n: nat, k: nat)
    requires
        k <= n,
    ensures
        binomial(n, k) >= 1,
    decreases n,
{
    if k > 0 {
        lemma_binomial_positive((n - 1) as nat, (k - 1) as nat);
    }
}

/// Returns compare as fractions with positive denominators, so the order is transitive.
proof fn lemma_ev_order(a: HoldEv, b: HoldEv, c: HoldEv)
    requires
        stake(a) > 0,
        stake(b) > 0,
        stake(c) > 0,
    ensures
        !ev_above(b, a) && !ev_above(c, b) ==> !ev_above(c, a),
        ev_above(a, b) && !ev_above(c, b) ==> ev_above(a, c),
        !ev_above(b, a) && ev_above(b, c) ==> ev_above(a, c),
        ev_same(a, b) == (!ev_above(a, b) && !ev_above(b, a)),
{
    let (ap, ad, bp, bd, cp, cd) = (a.paid as int, stake(a), b.paid as int, stake(b), c.paid as int, stake(c));
    assert(ap * bd >= bp * ad && bp * cd >= cp * bd ==> ap * cd >= cp * ad) by (nonlinear_arith)
        requires
            ad > 0,
            bd > 0,
            cd > 0,
    ;
    assert(ap * bd > bp * ad && bp * cd >= cp * bd ==> ap * cd > cp * ad) by (nonlinear_arith)
        requires
            ad > 0,
            bd > 0,
            cd > 0,
    ;
    assert(ap * bd >= bp * ad && bp * cd > cp * bd ==> ap * cd > cp * ad) by (nonlinear_arith)
        requires
            ad > 0,
            bd > 0,
            cd > 0,
    ;
}

proof fn lemma_stake_positive(e: HoldEv)
    requires
        hold_bounded(e),
    ensures
        1 <= stake(e) <= 380204032 * 255,
        0 <= e.paid <= max_pay() * 380204032,
{
    assert(1 <= e.draws * e.coins <= 380204032 * 255) by (nonlinear_arith)
        requires
            1 <= e.draws <= 380204032,
            1 <= e.coins <= 255,
    ;
}

/// The paid total of `a` scaled by the stake of `b`, computed exactly.
fn cross(a: &HoldEv, b: &HoldEv) -> (x: u128)
    requires
        hold_bounded(*a),
        hold_bounded(*b),
    ensures
        x == a.paid * stake(*b),
        x <= max_pay() * 380204032 * 380204032 * 255,
{
    proof {
        lemma_stake_positive(*a);
        lemma_stake_positive(*b);
        assert(0 <= a.paid * stake(*b) <= max_pay() * 380204032 * 380204032 * 255) by (nonlinear_arith)
            requires
                0 <= a.paid <= max_pay() * 380204032,
                1 <= stake(*b) <= 380204032 * 255,
        ;
    }
    let s = (b.draws as u128) * (b.coins as u128);
    (a.paid as u128) * s
}

fn ev_above_exec(a: &HoldEv, b: &HoldEv) -> (above: bool)
    requires
        hold_bounded(*a),
        hold_bounded(*b),
    ensures
        above == ev_above(*a, *b),
{
    cross(a, b) > cross(b, a)
}

fn ev_close_exec(a: &HoldEv, b: &HoldEv) -> (close: bool)
    requires
        hold_bounded(*a),
        hold_bounded(*b),
    ensures
        close == ev_close(*a, *b),
{
    let x = cross(a, b);
    let y = cross(b, a);
    let gap = if x >= y { x - y } else { y - x };
    proof {
        lemma_stake_positive(*a);
        lemma_stake_positive(*b);
        assert(1 <= stake(*a) * stake(*b) <= 380204032 * 255 * 380204032 * 255) by (nonlinear_arith)
            requires
                1 <= stake(*a) <= 380204032 * 255,
                1 <= stake(*b) <= 380204032 * 255,
        ;
    }
    let sa = (a.draws as u128) * (a.coins as u128);
    let sb = (b.draws as u128) * (b.coins as u128);
    1000000000u128 * gap < sa * sb
}

/// Some hold in `holds` has mask `m`.
pub open spec fn has_mask(holds: Seq<HoldEv>, m: u8) -> bool {
    exists|p: int| 0 <= p < holds.len() && #[trigger] holds[p].mask == m
}

proof fn lemma_all_bits_held()
    by (bit_vector)
    ensures
        forall|i: u8| i < 5 ==> ((31u8 >> i) & 1u8) == 1u8,
{
}

/// Standing pat: holding all five cards leaves one possible outcome, the hand itself,
/// so it returns exactly the hand's pay.
pub proof fn lemma_standing_pat(hand: Seq<Card>, coins: u8)
    ensures
        hold_pay(hand, 31, coins) == pay_of(hand, coins),
        hold_draws(hand, 31) == 1,
{
    lemma_all_bits_held();
    assert(is_held(31, 0) && is_held(31, 1) && is_held(31, 2) && is_held(31, 3) && is_held(31, 4)) by {
        assert(((31u8 >> 0u8) & 1u8) == 1u8);
        assert(((31u8 >> 1u8) & 1u8) == 1u8);
        assert(((31u8 >> 2u8) & 1u8) == 1u8);
        assert(((31u8 >> 3u8) & 1u8) == 1u8);
        assert(((31u8 >> 4u8) & 1u8) == 1u8);
    }
    assert(open_slots(31) =~= Seq::<usize>::empty()) by {
        reveal_with_fuel(open_upto, 6);
    }
}

/// Ties count as optimal: two holds with exactly the same return are within the
/// tolerance of each other, so a hold that ties the best is graded optimal.
pub proof fn lemma_ties_are_close(a: HoldEv, b: HoldEv)
    requires
        hold_bounded(a),
        hold_bounded(b),
        ev_same(a, b),
    ensures
        ev_close(a, b),
{
    lemma_stake_positive(a);
    lemma_stake_positive(b);
    assert(stake(a) * stake(b) > 0) by (nonlinear_arith)
        requires
            stake(a) > 0,
            stake(b) > 0,
    ;
}

/// The tolerance of "optimal" is one billionth of a coin per coin bet: with `a` returning
/// `pa / sa` per coin and `b` returning `pb / sb` (paid over draws times coins), `a` and
/// `b` are close exactly when neither return exceeds the other by 1e-9 or more, that is
/// when `10^9 * |pa * sb - pb * sa| < sa * sb`. In particular a hold whose return falls
/// short of the best by 1e-9 per coin or more is never graded optimal, and closeness does
/// not depend on which hold comes first.
pub proof fn lemma_close_means_within_a_billionth(a: HoldEv, b: HoldEv)
    ensures
        ev_close(a, b) <==> ({
            let sa = a.draws * a.coins;
            let sb = b.draws * b.coins;
            &&& 1000000000 * (a.paid * sb) < 1000000000 * (b.paid * sa) + sa * sb
            &&& 1000000000 * (b.paid * sa) < 1000000000 * (a.paid * sb) + sa * sb
        }),
        ev_close(a, b) == ev_close(b, a),
{
}

/// `holds` lists every hold of `hand` once, with its exact return, best first.
pub open spec fn lists_all_holds(hand: Seq<Card>, coins: u8, holds: Seq<HoldEv>) -> bool {
    &&& holds.len() == 32
    &&& forall|p: int|
        0 <= p < 32 ==> #[trigger] holds[p].mask < 32 && holds[p] == hold_ev(hand, holds[p].mask, coins)
    &&& forall|m: u8| m < 32 ==> #[trigger] has_mask(holds, m)
    &&& forall|p: int, q: int| 0 <= p < q < 32 ==> ranks_before(#[trigger] holds[p], #[trigger] holds[q])
}

/// Holds are listed best first: a hold listed before another returns at least as much
/// per coin (paid over draws times coins, compared by cross-multiplying), and of two holds
/// with the same return the one with the lower mask comes first.
pub proof fn lemma_listed_best_first(hand: Seq<Card>, coins: u8, holds: Seq<HoldEv>, p: int, q: int)
    requires
        lists_all_holds(hand, coins, holds),
        0 <= p < q < 32,
    ensures
        holds[p].paid * (holds[q].draws * holds[q].coins) >= holds[q].paid * (holds[p].draws * holds[p].coins),
        holds[p].paid * (holds[q].draws * holds[q].coins) == holds[q].paid * (holds[p].draws * holds[p].coins)
            ==> holds[p].mask < holds[q].mask,
{
    assert(ranks_before(holds[p], holds[q]));
}

/// `e` is the best hold of `hand` for a bet of `coins`: every other hold returns less,
/// or the same with a higher mask.
pub open spec fn is_best_hold(hand: Seq<Card>, coins: u8, e: HoldEv) -> bool {
    &&& e.mask < 32
    &&& e == hold_ev(hand, e.mask, coins)
    &&& forall|m: u8| m < 32 && m != e.mask ==> ranks_before(e, #[trigger] hold_ev(hand, m, coins))
}

proof fn lemma_best_of_list(hand: Seq<Card>, coins: u8, holds: Seq<HoldEv>)
    requires
        lists_all_holds(hand, coins, holds),
    ensures
        is_best_hold(hand, coins, holds[0]),
{
    assert(holds[0].mask < 32);
    assert forall|m: u8| m < 32 && m != holds[0].mask implies ranks_before(holds[0], #[trigger] hold_ev(hand, m, coins)) by {
        assert(has_mask(holds, m));
        let p = choose|p: int| 0 <= p < holds.len() && #[trigger] holds[p].mask == m;
        assert(holds[p] == hold_ev(hand, m, coins));
        assert(p != 0);
        assert(ranks_before(holds[0], holds[p]));
    }
}

/// A list sorted strictly by `ranks_before` is fixed by the holds it contains.
proof fn lemma_sorted_lists_equal(s1: Seq<HoldEv>, s2: Seq<HoldEv>)
    requires
        forall|p: int, q: int| 0 <= p < q < s1.len() ==> ranks_before(#[trigger] s1[p], #[trigger] s1[q]),
        forall|p: int, q: int| 0 <= p < q < s2.len() ==> ranks_before(#[trigger] s2[p], #[trigger] s2[q]),
        forall|x: HoldEv| s1.contains(x) <==> s2.contains(x),
    ensures
        s1 == s2,
    decreases s1.len(),
{
    if s1.len() == 0 {
        if s2.len() > 0 {
            assert(s2.contains(s2[0]));
        }
        assert(s1 =~= s2);
    } else {
        assert(s1.contains(s1[0]));
        let j = choose|j: int| 0 <= j < s2.len() && s2[j] == s1[0];
        assert(s2.contains(s2[0]));
        let i = choose|i: int| 0 <= i < s1.len() && s1[i] == s2[0];
        if j > 0 {
            assert(ranks_before(s2[0], s2[j]));
            assert(i > 0);
            assert(ranks_before(s1[0], s1[i]));
            assert(false);
        }
        let t1 = s1.drop_first();
        let t2 = s2.drop_first();
        assert forall|x: HoldEv| t1.contains(x) <==> t2.contains(x) by {
            if t1.contains(x) {
                let a = choose|a: int| 0 <= a < t1.len() && t1[a] == x;
                assert(s1[a + 1] == x);
                assert(ranks_before(s1[0], s1[a + 1]));
                assert(s2.contains(x));
                let b = choose|b: int| 0 <= b < s2.len() && s2[b] == x;
                assert(b != 0);
                assert(t2[b - 1] == x);
            }
            if t2.contains(x) {
                let a = choose|a: int| 0 <= a < t2.len() && t2[a] == x;
                assert(s2[a + 1] == x);
                assert(ranks_before(s2[0], s2[a + 1]));
                assert(s1.contains(x));
                let b = choose|b: int| 0 <= b < s1.len() && s1[b] == x;
                assert(b != 0);
                assert(t1[b - 1] == x);
            }
        }
        assert forall|p: int, q: int| 0 <= p < q < t1.len() implies ranks_before(#[trigger] t1[p], #[trigger] t1[q]) by {
            assert(ranks_before(s1[p + 1], s1[q + 1]));
        }
        assert forall|p: int, q: int| 0 <= p < q < t2.len() implies ranks_before(#[trigger] t2[p], #[trigger] t2[q]) by {
            assert(ranks_before(s2[p + 1], s2[q + 1]));
        }
        lemma_sorted_lists_equal(t1, t2);
        assert(s1 =~= s2) by {
            assert(s1 =~= seq![s1[0]] + t1);
            assert(s2 =~= seq![s2[0]] + t2);
        }
    }
}

/// The analysis of a hand is determined by the hand and the bet: there is only one way
/// to list every hold once, with its exact return, best first.
pub proof fn lemma_analysis_unique(hand: Seq<Card>, coins: u8, s1: Seq<HoldEv>, s2: Seq<HoldEv>)
    requires
        lists_all_holds(hand, coins, s1),
        lists_all_holds(hand, coins, s2),
    ensures
        s1 == s2,
{
    assert forall|x: HoldEv| s1.contains(x) <==> s2.contains(x) by {
        if s1.contains(x) {
            let a = choose|a: int| 0 <= a < s1.len() && s1[a] == x;
            assert(s1[a].mask < 32);
            assert(has_mask(s2, x.mask));
            let b = choose|b: int| 0 <= b < s2.len() && #[trigger] s2[b].mask == x.mask;
            assert(s2[b] == x);
        }
        if s2.contains(x) {
            let a = choose|a: int| 0 <= a < s2.len() && s2[a] == x;
            assert(s2[a].mask < 32);
            assert(has_mask(s1, x.mask));
            let b = choose|b: int| 0 <= b < s1.len() && #[trigger] s1[b].mask == x.mask;
            assert(s1[b] == x);
        }
    }
    lemma_sorted_lists_equal(s1, s2);
}

/// The analysis of a dealt hand: every hold with its exact expected return.
#[derive(Debug)]
pub struct Analysis {
    hand: [Card; 5],
    coins: u8,
    /// All 32 holds, best first.
    holds: Vec<HoldEv>,
}

impl Analysis {
    #[verifier::type_invariant]
    spec fn well_formed(self) -> bool {
        &&& self.coins >= 1
        &&& lists_all_holds(self.hand@, self.coins, self.holds@)
    }

    /// The hand that was analyzed.
    pub closed spec fn spec_hand(self) -> Seq<Card> {
        self.hand@
    }

    /// The bet, in coins, that the returns are for.
    pub closed spec fn spec_coins(self) -> u8 {
        self.coins
    }

    /// All holds, best first.
    pub closed spec fn spec_holds(self) -> Seq<HoldEv> {
        self.holds@
    }

    pub fn hand(&self) -> (hand: [Card; 5])
        ensures
            hand@ == self.spec_hand(),
    {
        self.hand
    }

    pub fn coins(&self) -> (coins: u8)
        ensures
            coins == self.spec_coins(),
            coins >= 1,
    {
        proof {
            use_type_invariant(self);
        }
        self.coins
    }

    /// All 32 holds, best first.
    pub fn holds(&self) -> (holds: &Vec<HoldEv>)
        ensures
            holds@ == self.spec_holds(),
            lists_all_holds(self.spec_hand(), self.spec_coins(), holds@),
    {
        proof {
            use_type_invariant(self);
        }
        &self.holds
    }

    /// The best hold: no hold returns more, and among equally good holds it has the
    /// lowest mask.
    pub fn best(&self) -> (best: HoldEv)
        ensures
            best == self.spec_holds()[0],
            is_best_hold(self.spec_hand(), self.spec_coins(), best),
            best == hold_ev(self.spec_hand(), best.mask, self.spec_coins()),
            forall|p: int| 1 <= p < 32 ==> ranks_before(best, #[trigger] self.spec_holds()[p]),
            hold_bounded(best),
    {
        proof {
            use_type_invariant(self);
            assert(self.holds@[0].mask < 32);
            lemma_hold_ev_bounded(self.hand@, self.holds@[0].mask, self.coins);
            lemma_best_of_list(self.hand@, self.coins, self.holds@);
        }
        self.holds[0]
    }

    /// The expected return of holding `mask`.
    pub fn ev_of(&self, mask: u8) -> (ev: HoldEv)
        requires
            mask < 32,
        ensures
            ev == hold_ev(self.spec_hand(), mask, self.spec_coins()),
            self.spec_holds().contains(ev),
            hold_bounded(ev),
    {
        proof {
            use_type_invariant(self);
            lemma_hold_ev_bounded(self.hand@, mask, self.coins);
        }
        assert(has_mask(self.holds@, mask));
        let ghost target = choose|p: int| 0 <= p < 32 && self.holds@[p].mask == mask;
        let mut p: usize = 0;
        while p < 32
            invariant
                lists_all_holds(self.hand@, self.coins, self.holds@),
                0 <= target < 32,
                self.holds@[target].mask == mask,
                p <= target,
                hold_bounded(hold_ev(self.hand@, mask, self.coins)),
            decreases 32 - p,
        {
            if self.holds[p].mask == mask {
                assert(self.holds@[p as int] == hold_ev(self.hand@, mask, self.coins));
                return self.holds[p];
            }
            p = p + 1;
        }
        proof {
            assert(false);
        }
        self.holds[0]
    }

    /// Whether holding `mask` is optimal: its return is within 1e-9 per coin of the best.
    pub fn is_optimal(&self, mask: u8) -> (optimal: bool)
        requires
            mask < 32,
        ensures
            optimal == ev_close(hold_ev(self.spec_hand(), mask, self.spec_coins()), self.spec_holds()[0]),
    {
        let ev = self.ev_of(mask);
        let best = self.best();
        ev_close_exec(&ev, &best)
    }
}

/// Exact expected value of every possible hold by enumerating all draws from the unseen
/// cards, using the paytable for the number of coins bet (the royal pays 800 per coin
/// only at five coins).
pub fn analyze(hand: &[Card; 5], coins: u8) -> (a: Analysis)
    requires
        coins >= 1,
        forall|i: int| 0 <= i < 5 ==> #[trigger] hand@[i].rank <= 14,
    ensures
        a.spec_hand() == hand@,
        a.spec_coins() == coins,
        lists_all_holds(hand@, coins, a.spec_holds()),
{
    let ghost h = hand@;
    let rest = unseen_cards(hand);
    proof {
        lemma_unseen_len(h);
        lemma_without_len(standard_deck(), h);
        assert forall|i: int| 0 <= i < rest@.len() implies #[trigger] rest@[i].rank <= 14 by {
            assert(standard_deck().contains(rest@[i]));
        }
    }
    let mut holds: Vec<HoldEv> = Vec::new();
    let mut mask: u8 = 0;
    while mask < 32
        invariant
            mask <= 32,
            coins >= 1,
            h == hand@,
            rest@ == unseen(h),
            47 <= rest@.len() <= 52,
            forall|i: int| 0 <= i < 5 ==> #[trigger] h[i].rank <= 14,
            forall|i: int| 0 <= i < rest@.len() ==> #[trigger] rest@[i].rank <= 14,
            holds@.len() == mask,
            forall|p: int|
                0 <= p < mask ==> #[trigger] holds@[p].mask < mask && holds@[p] == hold_ev(h, holds@[p].mask, coins)
                    && hold_bounded(holds@[p]),
            forall|m: u8| m < mask ==> #[trigger] has_mask(holds@, m),
            forall|p: int, q: int| 0 <= p < q < mask ==> ranks_before(#[trigger] holds@[p], #[trigger] holds@[q]),
        decreases 32 - mask,
    {
        let open = open_slots_of(mask);
        proof {
            lemma_open_upto(mask, 5);
            lemma_hold_ev_bounded(h, mask, coins);
            assert(open@.skip(0) =~= open@);
            assert(rest@.skip(0) =~= rest@);
        }
        let mut trial = *hand;
        let (paid, draws) = draw_total(&mut trial, &open, 0, &rest, 0, coins);
        let e = HoldEv { mask, paid, draws, coins };
        assert(e == hold_ev(h, mask, coins));

        assert forall|p: int| 0 <= p < holds@.len() implies #[trigger] hold_bounded(holds@[p]) by {
            assert(holds@[p].mask < mask);
        }
        let mut pos: usize = 0;
        while pos < holds.len() && !ev_above_exec(&e, &holds[pos])
            invariant
                pos <= holds@.len(),
                hold_bounded(e),
                forall|p: int| 0 <= p < holds@.len() ==> #[trigger] hold_bounded(holds@[p]),
                forall|q: int| 0 <= q < pos ==> !ev_above(e, #[trigger] holds@[q]),
            decreases holds@.len() - pos,
        {
            pos = pos + 1;
        }
        let ghost old_holds = holds@;
        holds.insert(pos, e);
        proof {
            let s = old_holds;
            let n = holds@;
            assert forall|p: int| 0 <= p < mask + 1 implies #[trigger] n[p].mask < mask + 1
                && n[p] == hold_ev(h, n[p].mask, coins) && hold_bounded(n[p]) by {
                if p < pos {
                    assert(n[p] == s[p]);
                } else if p > pos {
                    assert(n[p] == s[p - 1]);
                }
            }
            assert forall|m: u8| m < mask + 1 implies #[trigger] has_mask(n, m) by {
                if m == mask {
                    assert(n[pos as int].mask == m);
                } else {
                    assert(has_mask(s, m));
                    let p = choose|p: int| 0 <= p < s.len() && #[trigger] s[p].mask == m;
                    if p < pos {
                        assert(n[p].mask == m);
                    } else {
                        assert(n[p + 1].mask == m);
                    }
                }
            }
            assert forall|p: int, q: int| 0 <= p < q < mask + 1 implies ranks_before(#[trigger] n[p], #[trigger] n[q]) by {
                lemma_stake_positive(e);
                if q < pos {
                    assert(n[p] == s[p] && n[q] == s[q]);
                } else if p > pos {
                    assert(n[p] == s[p - 1] && n[q] == s[q - 1]);
                } else if p < pos && q > pos {
                    assert(n[p] == s[p] && n[q] == s[q - 1]);
                } else if q == pos {
                    assert(n[p] == s[p]);
                    assert(!ev_above(e, s[p]));
                    lemma_stake_positive(s[p]);
                    lemma_ev_order(e, s[p], s[p]);
                    assert(s[p].mask < mask);
                } else {
                    assert(p == pos);
                    assert(n[q] == s[q - 1]);
                    assert(ev_above(e, s[pos as int]));
                    lemma_stake_positive(s[pos as int]);
                    lemma_stake_positive(s[q - 1]);
                    if q - 1 > pos {
                        assert(ranks_before(s[pos as int], s[q - 1]));
                        lemma_ev_order(s[q - 1], s[pos as int], s[pos as int]);
                        lemma_ev_order(e, s[pos as int], s[q - 1]);
                    }
                }
            }
        }
        mask = mask + 1;
    }
    Analysis { hand: *hand, coins, holds }
}

} // verus!
