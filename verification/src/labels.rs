use vstd::prelude::*;

use crate::cards::{Card, digits_value, is_digit};
use crate::hand::HandRank;
use crate::strategy::{is_held, lemma_bit_test};

verus! {

/// The character of a decimal digit.
pub open spec fn digit_char(d: int) -> char {
    (48 + d) as char
}

/// The decimal numeral of `n`, without leading zeros.
pub open spec fn decimal(n: nat) -> Seq<char>
    decreases n,
{
    if n < 10 {
        seq![digit_char(n as int)]
    } else {
        decimal(n / 10).push(digit_char((n % 10) as int))
    }
}

/// The text of a digit.
fn digit_str(d: u64) -> (s: &'static str)
    requires
        d < 10,
    ensures
        s@ == seq![digit_char(d as int)],
{
    proof {
        reveal_strlit("0");
        reveal_strlit("1");
        reveal_strlit("2");
        reveal_strlit("3");
        reveal_strlit("4");
        reveal_strlit("5");
        reveal_strlit("6");
        reveal_strlit("7");
        reveal_strlit("8");
        reveal_strlit("9");
    }
    match d {
        0 => "0",
        1 => "1",
        2 => "2",
        3 => "3",
        4 => "4",
        5 => "5",
        6 => "6",
        7 => "7",
        8 => "8",
        _ => "9",
    }
}

/// Appends the decimal numeral of `n`.
fn push_decimal(s: &mut String, n: u64)
    ensures
        final(s)@ == old(s)@ + decimal(n as nat),
    decreases n,
{
    if n >= 10 {
        push_decimal(s, n / 10);
    }
    s.append(digit_str(n % 10));
    assert(final(s)@ =~= old(s)@ + decimal(n as nat)) by {
        if n >= 10 {
            assert(decimal(n as nat) == decimal((n / 10) as nat).push(digit_char((n % 10) as int)));
        }
    }
}

/// The numeral `decimal(n)` is written in decimal digits, has no leading zero, and reads
/// back as `n`.
pub proof fn lemma_decimal_reads_back(n: nat)
    ensures
        digits_value(decimal(n)) == n,
        decimal(n).len() >= 1,
        forall|i: int| 0 <= i < decimal(n).len() ==> is_digit(#[trigger] decimal(n)[i]),
        n > 0 ==> decimal(n)[0] != '0',
    decreases n,
{
    let x = digit_char((n % 10) as int);
    assert(x as int == 48 + n % 10);
    if n >= 10 {
        let d = decimal(n / 10);
        lemma_decimal_reads_back(n / 10);
        assert(decimal(n) == d.push(x));
        assert(d.push(x).drop_last() =~= d);
        assert(d.push(x).last() == x);
        assert(digits_value(d.push(x)) == digits_value(d) * 10 + (x as int - '0' as int));
        assert(decimal(n)[0] == d[0]);
    } else {
        assert(decimal(n) == seq![x]);
        assert(seq![x].drop_last() =~= Seq::<char>::empty());
        assert(digits_value(Seq::<char>::empty()) == 0);
        assert(digits_value(seq![x]) == digits_value(Seq::<char>::empty()) * 10 + (x as int - '0' as int));
    }
}

/// A denomination as the picker shows it: whole dollars as "$1", cents as "25¢".
pub open spec fn denom_text(cents: u32) -> Seq<char> {
    if cents >= 100 {
        "$"@ + decimal((cents / 100) as nat)
    } else {
        decimal(cents as nat) + "¢"@
    }
}

/// An amount of cents in dollars with two decimals, like "$12.05".
pub open spec fn dollars_text(cents: u64) -> Seq<char> {
    let c = cents % 100;
    "$"@ + decimal((cents / 100) as nat) + "."@ + seq![digit_char((c / 10) as int), digit_char((c % 10) as int)]
}

pub fn denom_label(cents: u32) -> (label: String)
    ensures
        label@ == denom_text(cents),
{
    let mut s = String::new();
    if cents >= 100 {
        s.append("$");
        push_decimal(&mut s, (cents / 100) as u64);
    } else {
        push_decimal(&mut s, cents as u64);
        s.append("¢");
    }
    assert(s@ =~= denom_text(cents));
    s
}

pub fn dollars(cents: u64) -> (text: String)
    ensures
        text@ == dollars_text(cents),
{
    let mut s = String::new();
    s.append("$");
    push_decimal(&mut s, cents / 100);
    s.append(".");
    let c = cents % 100;
    s.append(digit_str(c / 10));
    s.append(digit_str(c % 10));
    assert(s@ =~= dollars_text(cents));
    s
}

/// A row of the paytable as read aloud: the hand's name and its pay for a bet of `coins`.
pub open spec fn paytable_row(rank: HandRank, coins: u8) -> Seq<char> {
    rank.spec_name() + " "@ + decimal(rank.spec_payout(coins) as nat)
}

/// The first `n` rows of the paytable, top row first, separated by commas.
pub open spec fn paytable_rows(coins: u8, n: int) -> Seq<char>
    decreases n,
{
    if n <= 0 {
        Seq::empty()
    } else if n == 1 {
        paytable_row(HandRank::ALL_DESC@[0], coins)
    } else {
        paytable_rows(coins, n - 1) + ", "@ + paytable_row(HandRank::ALL_DESC@[n - 1], coins)
    }
}

/// The paytable for a bet of `coins`, as one sentence for screen readers.
pub fn paytable_speech(coins: u8) -> (text: String)
    ensures
        text@ == "Paytable at "@ + decimal(coins as nat) + " coins: "@ + paytable_rows(coins, 9),
{
    let mut s = String::from_str("Paytable at ");
    push_decimal(&mut s, coins as u64);
    s.append(" coins: ");
    let ghost start = s@;
    let mut i: usize = 0;
    while i < 9
        invariant
            i <= 9,
            s@ == start + paytable_rows(coins, i as int),
        decreases 9 - i,
    {
        if i > 0 {
            s.append(", ");
        }
        let rank = HandRank::ALL_DESC[i];
        s.append(rank.name());
        s.append(" ");
        push_decimal(&mut s, rank.payout(coins) as u64);
        assert(s@ =~= start + paytable_rows(coins, i + 1));
        i = i + 1;
    }
    s
}

/// The note under the paytable: the bet, and what a royal flush pays at five coins.
pub open spec fn bet_note_text(coins: u8, denom: u32) -> Seq<char> {
    let bet = "BET "@ + decimal(coins as nat) + " × "@ + denom_text(denom);
    let royal = decimal(HandRank::RoyalFlush.spec_payout(5) as nat);
    if coins == 5 {
        bet + "  ·  royal bonus "@ + royal
    } else {
        bet + "  ·  royal pays "@ + royal + " at 5 coins"@
    }
}

pub fn bet_note(coins: u8, denom: u32) -> (note: String)
    ensures
        note@ == bet_note_text(coins, denom),
{
    let mut s = String::from_str("BET ");
    push_decimal(&mut s, coins as u64);
    s.append(" × ");
    let label = denom_label(denom);
    s.append(label.as_str());
    let royal = HandRank::RoyalFlush.payout(5);
    if coins == 5 {
        s.append("  ·  royal bonus ");
        push_decimal(&mut s, royal as u64);
    } else {
        s.append("  ·  royal pays ");
        push_decimal(&mut s, royal as u64);
        s.append(" at 5 coins");
    }
    assert(s@ =~= bet_note_text(coins, denom));
    s
}

/// The spoken names of the cards among the first `n` of `dealt` that `mask` holds.
pub open spec fn held_names(dealt: Seq<Card>, mask: u8, n: int) -> Seq<Seq<char>>
    decreases n,
{
    if n <= 0 {
        Seq::empty()
    } else if is_held(mask, n - 1) {
        held_names(dealt, mask, n - 1).push(dealt[n - 1].spec_name())
    } else {
        held_names(dealt, mask, n - 1)
    }
}

/// The parts separated by ", ".
pub open spec fn joined(parts: Seq<Seq<char>>) -> Seq<char>
    decreases parts.len(),
{
    if parts.len() == 0 {
        Seq::empty()
    } else if parts.len() == 1 {
        parts[0]
    } else {
        joined(parts.drop_last()) + ", "@ + parts.last()
    }
}

/// A hold in words: "hold" and the held cards' names, or "draw five new cards".
pub open spec fn hold_phrase_text(dealt: Seq<Card>, mask: u8) -> Seq<char> {
    let names = held_names(dealt, mask, 5);
    if names.len() == 0 {
        "draw five new cards"@
    } else {
        "hold "@ + joined(names)
    }
}

pub fn hold_phrase(dealt: &[Card; 5], mask: u8) -> (text: String)
    ensures
        text@ == hold_phrase_text(dealt@, mask),
{
    let mut names = String::new();
    let mut any = false;
    let mut i: u8 = 0;
    while i < 5
        invariant
            i <= 5,
            names@ == joined(held_names(dealt@, mask, i as int)),
            any == (held_names(dealt@, mask, i as int).len() > 0),
        decreases 5 - i,
    {
        proof {
            lemma_bit_test(mask, i);
        }
        if mask & (1u8 << i) != 0 {
            let ghost before = held_names(dealt@, mask, i as int);
            let name = dealt[i as usize].name();
            if any {
                names.append(", ");
            }
            names.append(name.as_str());
            any = true;
            assert(held_names(dealt@, mask, i + 1) == before.push(dealt@[i as int].spec_name()));
            assert(before.push(dealt@[i as int].spec_name()).drop_last() =~= before);
        }
        i = i + 1;
    }
    if any {
        let mut s = String::from_str("hold ");
        s.append(names.as_str());
        s
    } else {
        String::from_str("draw five new cards")
    }
}

/// How fast the cards flip and the wins count up.
#[derive(Clone, Copy, Debug, PartialEq, Eq, Structural)]
pub enum Speed {
    Normal,
    Fast,
    Instant,
}

impl Speed {
    pub const ALL: [Speed; 3] = [Speed::Normal, Speed::Fast, Speed::Instant];

    pub open spec fn spec_label(self) -> Seq<char> {
        match self {
            Speed::Normal => "Normal"@,
            Speed::Fast => "Fast"@,
            Speed::Instant => "Instant"@,
        }
    }

    pub fn label(self) -> (label: &'static str)
        ensures
            label@ == self.spec_label(),
    {
        match self {
            Speed::Normal => "Normal",
            Speed::Fast => "Fast",
            Speed::Instant => "Instant",
        }
    }
}

} // verus!
