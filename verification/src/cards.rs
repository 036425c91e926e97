use rand::seq::SliceRandom;
use vstd::prelude::*;
use vstd::std_specs::iter::IteratorSpec;

verus! {

broadcast use vstd::seq_lib::group_to_multiset_ensures;

/// The four suits of a standard deck.
#[derive(Clone, Copy, Debug, PartialEq, Eq, Structural)]
pub enum Suit {
    Clubs,
    Diamonds,
    Hearts,
    Spades,
}

/// The suit at position `i` of the deck order clubs, diamonds, hearts, spades.
pub open spec fn suit_at(i: int) -> Suit {
    if i == 0 {
        Suit::Clubs
    } else if i == 1 {
        Suit::Diamonds
    } else if i == 2 {
        Suit::Hearts
    } else {
        Suit::Spades
    }
}

impl Suit {
    pub const ALL: [Suit; 4] = [Suit::Clubs, Suit::Diamonds, Suit::Hearts, Suit::Spades];

    /// Whether the suit is printed in red.
    pub open spec fn spec_is_red(self) -> bool {
        self == Suit::Diamonds || self == Suit::Hearts
    }

    /// The suit's name in lower case.
    pub open spec fn spec_name(self) -> Seq<char> {
        match self {
            Suit::Clubs => "clubs"@,
            Suit::Diamonds => "diamonds"@,
            Suit::Hearts => "hearts"@,
            Suit::Spades => "spades"@,
        }
    }

    pub fn is_red(self) -> (red: bool)
        ensures
            red == self.spec_is_red(),
    {
        match self {
            Suit::Diamonds | Suit::Hearts => true,
            _ => false,
        }
    }

    pub fn name(self) -> (name: &'static str)
        ensures
            name@ == self.spec_name(),
    {
        match self {
            Suit::Clubs => "clubs",
            Suit::Diamonds => "diamonds",
            Suit::Hearts => "hearts",
            Suit::Spades => "spades",
        }
    }
}

/// A playing card. `rank` is 2..=14 where 11=J, 12=Q, 13=K, 14=A.
#[derive(Clone, Copy, Debug, PartialEq, Eq, Structural)]
pub struct Card {
    pub rank: u8,
    pub suit: Suit,
}

/// The corner label of a rank: "2" to "10", "J", "Q", "K", "A", and "?" for anything else.
pub open spec fn rank_text(rank: u8) -> Seq<char> {
    if rank == 2 {
        "2"@
    } else if rank == 3 {
        "3"@
    } else if rank == 4 {
        "4"@
    } else if rank == 5 {
        "5"@
    } else if rank == 6 {
        "6"@
    } else if rank == 7 {
        "7"@
    } else if rank == 8 {
        "8"@
    } else if rank == 9 {
        "9"@
    } else if rank == 10 {
        "10"@
    } else if rank == 11 {
        "J"@
    } else if rank == 12 {
        "Q"@
    } else if rank == 13 {
        "K"@
    } else if rank == 14 {
        "A"@
    } else {
        "?"@
    }
}

/// The spoken word for a rank: court cards and aces by name, others by their label.
pub open spec fn spoken_rank(rank: u8) -> Seq<char> {
    if rank == 11 {
        "Jack"@
    } else if rank == 12 {
        "Queen"@
    } else if rank == 13 {
        "King"@
    } else if rank == 14 {
        "Ace"@
    } else {
        rank_text(rank)
    }
}

/// A card of a standard deck: ranks 2 to 14.
pub open spec fn is_standard(c: Card) -> bool {
    2 <= c.rank <= 14
}

impl Card {
    /// The spoken name, e.g. "Queen of hearts".
    pub open spec fn spec_name(self) -> Seq<char> {
        spoken_rank(self.rank) + " of "@ + self.suit.spec_name()
    }

    pub fn rank_label(self) -> (label: &'static str)
        ensures
            label@ == rank_text(self.rank),
    {
        match self.rank {
            2 => "2",
            3 => "3",
            4 => "4",
            5 => "5",
            6 => "6",
            7 => "7",
            8 => "8",
            9 => "9",
            10 => "10",
            11 => "J",
            12 => "Q",
            13 => "K",
            14 => "A",
            _ => "?",
        }
    }

    /// Spoken name, e.g. "Queen of hearts", for screen readers.
    pub fn name(self) -> (name: String)
        ensures
            name@ == self.spec_name(),
    {
        let rank = match self.rank {
            11 => "Jack",
            12 => "Queen",
            13 => "King",
            14 => "Ace",
            _ => self.rank_label(),
        };
        let mut name = String::from_str(rank);
        name.append(" of ");
        name.append(self.suit.name());
        name
    }
}

/// The standard deck in order: clubs, diamonds, hearts, spades, each from 2 up to the ace.
pub open spec fn standard_deck() -> Seq<Card> {
    Seq::new(52, |i: int| Card { rank: (i % 13 + 2) as u8, suit: suit_at(i / 13) })
}

/// The standard deck holds 52 different cards.
pub proof fn lemma_standard_deck_distinct()
    ensures
        standard_deck().no_duplicates(),
        standard_deck().len() == 52,
{
    let d = standard_deck();
    assert forall|i: int, j: int| 0 <= i < 52 && 0 <= j < 52 && i != j implies d[i] != d[j] by {
        if d[i] == d[j] {
            assert(i % 13 == j % 13);
            assert(i / 13 == j / 13) by {
                assert(0 <= i / 13 < 4 && 0 <= j / 13 < 4);
            }
            assert(i == j) by (nonlinear_arith)
                requires
                    i % 13 == j % 13,
                    i / 13 == j / 13,
                    0 <= i,
                    0 <= j,
            ;
        }
    }
}

pub fn full_deck() -> (deck: Vec<Card>)
    ensures
        deck@ == standard_deck(),
{
    let mut v: Vec<Card> = Vec::with_capacity(52);
    let mut s: usize = 0;
    while s < 4
        invariant
            s <= 4,
            v@.len() == 13 * s,
            forall|i: int| 0 <= i < v@.len() ==> v@[i] == standard_deck()[i],
        decreases 4 - s,
    {
        let suit = Suit::ALL[s];
        let mut rank: u8 = 2;
        while rank <= 14
            invariant
                s < 4,
                2 <= rank <= 15,
                suit == suit_at(s as int),
                v@.len() == 13 * s + rank - 2,
                forall|i: int| 0 <= i < v@.len() ==> v@[i] == standard_deck()[i],
            decreases 15 - rank,
        {
            proof {
                let i = 13 * s + rank - 2;
                assert(i / 13 == s as int) by (nonlinear_arith)
                    requires i == 13 * s + rank - 2, 2 <= rank <= 14;
                assert(i % 13 == rank - 2) by (nonlinear_arith)
                    requires i == 13 * s + rank - 2, 2 <= rank <= 14;
            }
            v.push(Card { rank, suit });
            rank = rank + 1;
        }
        s = s + 1;
    }
    assert(v@ =~= standard_deck());
    v
}

/// Shuffles the cards with `rand::seq::SliceRandom::shuffle` and the thread-local
/// generator `rand::rng()`. Trusted: afterwards the vector holds the same cards, each as
/// many times as before, in an order that chance decides. Left unsaid: which order comes
/// out, and that `rand::rng()` panics when the operating system's random source cannot
/// seed it, which no `requires` can rule out.
#[verifier::external_body]
fn shuffle_cards(cards: &mut Vec<Card>)
    ensures
        final(cards)@.to_multiset() == old(cards)@.to_multiset(),
{
    cards.shuffle(&mut rand::rng());
}

/// A deck of cards; cards are dealt from its end.
pub struct Deck {
    cards: Vec<Card>,
}

impl View for Deck {
    type V = Seq<Card>;

    closed spec fn view(&self) -> Seq<Card> {
        self.cards@
    }
}

impl Deck {
    /// A freshly shuffled standard deck.
    pub fn shuffled() -> (deck: Deck)
        ensures
            deck@.to_multiset() == standard_deck().to_multiset(),
            deck@.len() == 52,
    {
        let mut cards = full_deck();
        shuffle_cards(&mut cards);
        proof {
            cards@.to_multiset_ensures();
            standard_deck().to_multiset_ensures();
        }
        Deck { cards }
    }

    /// Deals the card at the end of the deck.
    pub fn deal(&mut self) -> (card: Card)
        requires
            old(self)@.len() > 0,
        ensures
            card == old(self)@.last(),
            final(self)@ == old(self)@.drop_last(),
    {
        let card = self.cards.pop();
        card.unwrap()
    }
}

/// An ASCII decimal digit.
pub open spec fn is_digit(c: char) -> bool {
    '0' <= c <= '9'
}

/// The value of a string of decimal digits.
pub open spec fn digits_value(d: Seq<char>) -> int
    decreases d.len(),
{
    if d.len() == 0 {
        0
    } else {
        digits_value(d.drop_last()) * 10 + (d.last() as int - '0' as int)
    }
}

/// The digits of a numeral, after an optional leading '+'.
pub open spec fn numeral_digits(s: Seq<char>) -> Seq<char> {
    if s.len() > 0 && s[0] == '+' {
        s.drop_first()
    } else {
        s
    }
}

/// A rank written as `str::parse::<u8>` accepts it: an optional '+', then one or more
/// decimal digits, worth at most 255.
pub open spec fn is_u8_numeral(s: Seq<char>) -> bool {
    let d = numeral_digits(s);
    &&& d.len() > 0
    &&& forall|i: int| 0 <= i < d.len() ==> is_digit(#[trigger] d[i])
    &&& digits_value(d) <= 255
}

/// The rank a text names: J, Q, K, A, T, or a numeral.
pub open spec fn rank_of_text(r: Seq<char>) -> Option<u8> {
    if r == seq!['J'] {
        Some(11u8)
    } else if r == seq!['Q'] {
        Some(12u8)
    } else if r == seq!['K'] {
        Some(13u8)
    } else if r == seq!['A'] {
        Some(14u8)
    } else if r == seq!['T'] {
        Some(10u8)
    } else if is_u8_numeral(r) {
        Some(digits_value(numeral_digits(r)) as u8)
    } else {
        None
    }
}

/// The suit a letter names: c, d, h or s.
pub open spec fn suit_of_char(c: char) -> Option<Suit> {
    if c == 'c' {
        Some(Suit::Clubs)
    } else if c == 'd' {
        Some(Suit::Diamonds)
    } else if c == 'h' {
        Some(Suit::Hearts)
    } else if c == 's' {
        Some(Suit::Spades)
    } else {
        None
    }
}

/// The card a text like "Js", "10h" or "Ad" names: a rank, then a suit letter.
pub open spec fn card_of_text(s: Seq<char>) -> Option<Card> {
    if s.len() == 0 {
        None
    } else {
        match (rank_of_text(s.drop_last()), suit_of_char(s.last())) {
            (Some(rank), Some(suit)) => Some(Card { rank, suit }),
            _ => None,
        }
    }
}

/// Writing a card of a standard deck as its corner label and suit letter ("10h", "Qs")
/// and parsing that text gives the card back.
pub proof fn lemma_parse_reads_the_label(c: Card)
    requires
        is_standard(c),
    ensures
        card_of_text(rank_text(c.rank) + seq![
            match c.suit {
                Suit::Clubs => 'c',
                Suit::Diamonds => 'd',
                Suit::Hearts => 'h',
                Suit::Spades => 's',
            },
        ]) == Some(c),
{
    reveal_strlit("2");
    reveal_strlit("3");
    reveal_strlit("4");
    reveal_strlit("5");
    reveal_strlit("6");
    reveal_strlit("7");
    reveal_strlit("8");
    reveal_strlit("9");
    reveal_strlit("10");
    reveal_strlit("J");
    reveal_strlit("Q");
    reveal_strlit("K");
    reveal_strlit("A");
    let letter = match c.suit {
        Suit::Clubs => 'c',
        Suit::Diamonds => 'd',
        Suit::Hearts => 'h',
        Suit::Spades => 's',
    };
    let r = rank_text(c.rank);
    let s = r + seq![letter];
    assert(s.drop_last() =~= r);
    assert(s.last() == letter);
    if 2 <= c.rank <= 9 {
        assert(r.len() == 1 && r[0] == (48 + c.rank) as char);
        assert(numeral_digits(r) =~= r);
        assert(digits_value(r.drop_last()) == 0);
        assert(is_u8_numeral(r));
        assert(digits_value(r) == c.rank);
    } else if c.rank == 10 {
        assert(r =~= seq!['1', '0']);
        assert(numeral_digits(r) =~= r);
        assert(r.drop_last() =~= seq!['1']);
        assert(seq!['1'].drop_last() =~= Seq::<char>::empty());
        assert(digits_value(Seq::<char>::empty()) == 0);
        assert(digits_value(seq!['1']) == digits_value(Seq::<char>::empty()) * 10 + ('1' as int - '0' as int));
        assert(digits_value(seq!['1']) == 1);
        assert(digits_value(r) == 10);
        assert(is_u8_numeral(r));
    } else if c.rank == 11 {
        assert(r =~= seq!['J']);
    } else if c.rank == 12 {
        assert(r =~= seq!['Q']);
    } else if c.rank == 13 {
        assert(r =~= seq!['K']);
    } else {
        assert(r =~= seq!['A']);
    }
    assert(rank_of_text(r) == Some(c.rank));
    assert(suit_of_char(letter) == Some(c.suit));
}

proof fn lemma_digits_prefix(d: Seq<char>, n: int)
    requires
        0 <= n <= d.len(),
        forall|i: int| 0 <= i < d.len() ==> is_digit(#[trigger] d[i]),
    ensures
        0 <= digits_value(d.take(n)) <= digits_value(d),
    decreases d.len(),
{
    if n < d.len() {
        assert(d.drop_last().take(n) =~= d.take(n));
        lemma_digits_prefix(d.drop_last(), n);
    } else {
        assert(d.take(n) =~= d);
    }
    if d.len() > 0 {
        lemma_digits_prefix(d.drop_last(), d.len() - 1);
        assert(d.drop_last().take(d.len() - 1) =~= d.drop_last());
    }
}

/// The value of the decimal digits `d[from..]`.
fn parse_digits(d: &Vec<char>, from: usize) -> (value: u8)
    requires
        from < d@.len(),
        forall|i: int| from <= i < d@.len() ==> is_digit(#[trigger] d@[i]),
        digits_value(d@.skip(from as int)) <= 255,
    ensures
        value == digits_value(d@.skip(from as int)),
{
    let ghost ds = d@.skip(from as int);
    assert forall|i: int| 0 <= i < ds.len() implies is_digit(#[trigger] ds[i]) by {
        assert(ds[i] == d@[from + i]);
    }
    let mut value: u32 = 0;
    let mut i: usize = from;
    while i < d.len()
        invariant
            from <= i <= d@.len(),
            ds == d@.skip(from as int),
            forall|k: int| 0 <= k < ds.len() ==> is_digit(#[trigger] ds[k]),
            digits_value(ds) <= 255,
            value == digits_value(ds.take(i - from)),
        decreases d@.len() - i,
    {
        proof {
            lemma_digits_prefix(ds, i - from + 1);
            assert(ds.take(i - from + 1).drop_last() =~= ds.take(i - from));
            assert(ds.take(i - from + 1).last() == d@[i as int]);
        }
        let c = d[i];
        value = value * 10 + (c as u32 - '0' as u32);
        i = i + 1;
    }
    assert(ds.take(i - from) =~= ds);
    value as u8
}

/// The characters of a string slice.
fn chars_of(s: &str) -> (v: Vec<char>)
    ensures
        v@ == s@,
{
    broadcast use vstd::string::group_string_axioms;

    let mut v: Vec<char> = Vec::new();
    let mut it = s.chars();
    assert(it.remaining() == s@);
    loop
        invariant
            v@ + it.remaining() == s@,
        ensures
            v@ == s@,
        decreases s@.len() - v@.len(),
    {
        let ghost before = it.remaining();
        match it.next() {
            Some(c) => {
                assert(before.len() > 0);
                assert(v@.push(c) + before.drop_first() =~= v@ + before);
                v.push(c);
            },
            None => {
                assert(before.len() == 0);
                assert(v@ =~= s@);
                break;
            },
        }
    }
    v
}

/// The card that a rank text `text[..last]` and a suit letter `text[last]` name.
fn card_of_chars(text: &Vec<char>) -> (card: Card)
    requires
        card_of_text(text@) is Some,
    ensures
        card == card_of_text(text@).unwrap(),
{
    let last = text.len() - 1;
    let ghost r = text@.drop_last();
    let rank: u8 = if last == 1 && text[0] == 'J' {
        assert(r =~= seq!['J']);
        11
    } else if last == 1 && text[0] == 'Q' {
        assert(r =~= seq!['Q']);
        12
    } else if last == 1 && text[0] == 'K' {
        assert(r =~= seq!['K']);
        13
    } else if last == 1 && text[0] == 'A' {
        assert(r =~= seq!['A']);
        14
    } else if last == 1 && text[0] == 'T' {
        assert(r =~= seq!['T']);
        10
    } else {
        assert(r != seq!['J'] && r != seq!['Q'] && r != seq!['K'] && r != seq!['A'] && r != seq!['T']) by {
            if r.len() == 1 {
                assert(r[0] == text@[0]);
            }
        }
        let from: usize = if text[0] == '+' { 1 } else { 0 };
        proof {
            let d = numeral_digits(r);
            assert(d =~= text@.skip(from as int).drop_last());
            assert forall|i: int| from <= i < last implies is_digit(#[trigger] text@[i]) by {
                assert(d[i - from] == text@[i]);
            }
        }
        let digits = text_prefix(text, last);
        proof {
            assert(digits@.skip(from as int) =~= numeral_digits(r));
        }
        parse_digits(&digits, from)
    };
    let suit = match text[last] {
        'c' => Suit::Clubs,
        'd' => Suit::Diamonds,
        'h' => Suit::Hearts,
        _ => Suit::Spades,
    };
    Card { rank, suit }
}

/// The first `n` characters.
fn text_prefix(text: &Vec<char>, n: usize) -> (prefix: Vec<char>)
    requires
        n <= text@.len(),
    ensures
        prefix@ == text@.take(n as int),
{
    let mut prefix: Vec<char> = Vec::new();
    let mut i: usize = 0;
    while i < n
        invariant
            i <= n <= text@.len(),
            prefix@ == text@.take(i as int),
        decreases n - i,
    {
        prefix.push(text[i]);
        i = i + 1;
        assert(prefix@ =~= text@.take(i as int));
    }
    prefix
}

impl Card {
    /// Parse "Js", "10h", "Ad" style notation.
    pub fn parse(s: &str) -> (card: Card)
        requires
            card_of_text(s@) is Some,
        ensures
            card == card_of_text(s@).unwrap(),
    {
        let text = chars_of(s);
        card_of_chars(&text)
    }
}

/// Unicode white space, as `char::is_whitespace` classifies it.
pub open spec fn is_space(c: char) -> bool {
    let u = c as u32;
    ||| 0x09 <= u <= 0x0D
    ||| u == 0x20
    ||| u == 0x85
    ||| u == 0xA0
    ||| u == 0x1680
    ||| 0x2000 <= u <= 0x200A
    ||| u == 0x2028
    ||| u == 0x2029
    ||| u == 0x202F
    ||| u == 0x205F
    ||| u == 0x3000
}

fn space(c: char) -> (b: bool)
    ensures
        b == is_space(c),
{
    let u = c as u32;
    (0x09 <= u && u <= 0x0D) || u == 0x20 || u == 0x85 || u == 0xA0 || u == 0x1680 || (0x2000 <= u
        && u <= 0x200A) || u == 0x2028 || u == 0x2029 || u == 0x202F || u == 0x205F || u == 0x3000
}

/// The words of `s`: its maximal runs of characters other than white space, in order.
pub open spec fn words(s: Seq<char>) -> Seq<Seq<char>>
    decreases s.len(),
{
    if s.len() == 0 {
        Seq::empty()
    } else if is_space(s.last()) {
        words(s.drop_last())
    } else if s.len() >= 2 && !is_space(s[s.len() - 2]) {
        let w = words(s.drop_last());
        w.drop_last().push(w.last().push(s.last()))
    } else {
        words(s.drop_last()).push(seq![s.last()])
    }
}

/// Cutting text at a word boundary keeps its first words whole.
proof fn lemma_words_cut(s: Seq<char>, n: int, m: int)
    requires
        0 <= n <= m <= s.len(),
        n == m || is_space(s[n]),
    ensures
        words(s.take(n)).len() <= words(s.take(m)).len(),
        forall|k: int| 0 <= k < words(s.take(n)).len() ==> #[trigger] words(s.take(n))[k] == words(s.take(m))[k],
        n < m && !is_space(s[m - 1]) ==> words(s.take(n)).len() < words(s.take(m)).len(),
    decreases m - n,
{
    if n < m {
        lemma_words_cut(s, n, m - 1);
        let t = s.take(m);
        assert(t.drop_last() =~= s.take(m - 1));
        assert(t.last() == s[m - 1]);
        if m >= 2 {
            assert(t[t.len() - 2] == s[m - 2]);
        }
    }
}

/// Five cards in the notation of `Card::parse`, separated by white space.
pub fn hand(s: &str) -> (cards: [Card; 5])
    requires
        words(s@).len() == 5,
        forall|i: int| 0 <= i < 5 ==> card_of_text(#[trigger] words(s@)[i]) is Some,
    ensures
        forall|i: int| 0 <= i < 5 ==> cards@[i] == card_of_text(#[trigger] words(s@)[i]).unwrap(),
{
    let text = chars_of(s);
    let ghost all = words(text@);
    let mut found: Vec<Card> = Vec::new();
    let mut current: Vec<char> = Vec::new();
    let ghost mut done: Seq<Seq<char>> = Seq::empty();
    let mut i: usize = 0;
    while i < text.len()
        invariant
            i <= text@.len(),
            all == words(text@),
            all.len() == 5,
            forall|k: int| 0 <= k < 5 ==> card_of_text(#[trigger] all[k]) is Some,
            words(text@.take(i as int)) == if current@.len() == 0 {
                done
            } else {
                done.push(current@)
            },
            current@.len() > 0 ==> i > 0 && !is_space(text@[i - 1]),
            current@.len() == 0 ==> i == 0 || is_space(text@[i - 1]),
            found@.len() == done.len(),
            done.len() <= 5,
            forall|k: int| 0 <= k < done.len() ==> #[trigger] done[k] == all[k],
            forall|k: int| 0 <= k < done.len() ==> found@[k] == card_of_text(#[trigger] all[k]).unwrap(),
        decreases text@.len() - i,
    {
        let c = text[i];
        proof {
            assert(text@.take(i + 1).drop_last() =~= text@.take(i as int));
            assert(text@.take(i + 1).last() == c);
        }
        if space(c) {
            if current.len() > 0 {
                proof {
                    lemma_words_cut(text@, i as int, text@.len() as int);
                    assert(text@.take(text@.len() as int) =~= text@);
                    assert(done.push(current@)[done.len() as int] == current@);
                    assert forall|k: int| 0 <= k < done.len() + 1 implies #[trigger] done.push(current@)[k] == all[k] by {
                        assert(words(text@.take(i as int))[k] == all[k]);
                    }
                }
                let card = card_of_chars(&current);
                found.push(card);
                proof {
                    done = done.push(current@);
                }
                current = Vec::new();
            }
        } else {
            let ghost t = text@.take(i + 1);
            proof {
                if current@.len() > 0 {
                    assert(t[t.len() - 2] == text@[i - 1]);
                    let w = done.push(current@);
                    assert(words(t) == w.drop_last().push(w.last().push(c)));
                    assert(w.drop_last().push(w.last().push(c)) =~= done.push(current@.push(c)));
                } else {
                    if i > 0 {
                        assert(t[t.len() - 2] == text@[i - 1]);
                    }
                    assert(words(t) == done.push(seq![c]));
                    assert(current@.push(c) =~= seq![c]);
                }
            }
            current.push(c);
        }
        i = i + 1;
    }
    assert(text@.take(i as int) =~= text@);
    if current.len() > 0 {
        assert(all[done.len() as int] == current@);
        let card = card_of_chars(&current);
        found.push(card);
        proof {
            done = done.push(current@);
        }
    }
    assert(done =~= all);
    [found[0], found[1], found[2], found[3], found[4]]
}

} // verus!
