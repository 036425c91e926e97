use jacks_or_better::cards::{full_deck, hand, Card, Deck, Suit};
use jacks_or_better::labels::{bet_note, denom_label, dollars, hold_phrase, paytable_speech, Speed};
use jacks_or_better::sound::win_notes;

#[test]
fn deck_has_every_card_once() {
    let deck = full_deck();
    assert_eq!(deck.len(), 52);
    for i in 0..52 {
        for j in i + 1..52 {
            assert_ne!(deck[i], deck[j]);
        }
    }
    assert_eq!(deck[0], Card { rank: 2, suit: Suit::Clubs });
    assert_eq!(deck[12], Card { rank: 14, suit: Suit::Clubs });
    assert_eq!(deck[51], Card { rank: 14, suit: Suit::Spades });
}

#[test]
fn shuffled_deck_is_a_reordered_full_deck() {
    let mut deck = Deck::shuffled();
    let mut dealt = Vec::new();
    for _ in 0..52 {
        dealt.push(deck.deal());
    }
    let full = full_deck();
    for c in full.iter() {
        assert_eq!(dealt.iter().filter(|d| *d == c).count(), 1);
    }
    // The chance that a shuffle leaves 52 cards in order is 1 in 52!.
    dealt.reverse();
    assert_ne!(dealt, full);
}

#[test]
fn names_and_labels() {
    assert!(Suit::Hearts.is_red());
    assert!(Suit::Diamonds.is_red());
    assert!(!Suit::Spades.is_red());
    assert!(!Suit::Clubs.is_red());
    assert_eq!(Suit::Diamonds.name(), "diamonds");
    let q = Card { rank: 12, suit: Suit::Hearts };
    assert_eq!(q.rank_label(), "Q");
    assert_eq!(q.name(), "Queen of hearts");
    assert_eq!(Card { rank: 10, suit: Suit::Clubs }.name(), "10 of clubs");
    assert_eq!(Card { rank: 14, suit: Suit::Spades }.name(), "Ace of spades");
    assert_eq!(Card { rank: 1, suit: Suit::Spades }.rank_label(), "?");
}

#[test]
fn parse_reads_the_notation() {
    assert_eq!(Card::parse("Js"), Card { rank: 11, suit: Suit::Spades });
    assert_eq!(Card::parse("10h"), Card { rank: 10, suit: Suit::Hearts });
    assert_eq!(Card::parse("Td"), Card { rank: 10, suit: Suit::Diamonds });
    assert_eq!(Card::parse("Ac"), Card { rank: 14, suit: Suit::Clubs });
    assert_eq!(Card::parse("+7c"), Card { rank: 7, suit: Suit::Clubs });
    assert_eq!(Card::parse("007d"), Card { rank: 7, suit: Suit::Diamonds });
    let h = hand("  2c\t3d 4h\n5s  Ac ");
    assert_eq!(h[0], Card { rank: 2, suit: Suit::Clubs });
    assert_eq!(h[4], Card { rank: 14, suit: Suit::Clubs });
}

#[test]
fn money_labels() {
    assert_eq!(denom_label(1), "1¢");
    assert_eq!(denom_label(25), "25¢");
    assert_eq!(denom_label(100), "$1");
    assert_eq!(denom_label(250), "$2");
    assert_eq!(dollars(10_000), "$100.00");
    assert_eq!(dollars(1_205), "$12.05");
    assert_eq!(dollars(7), "$0.07");
}

#[test]
fn speeds_and_notes() {
    assert_eq!(Speed::ALL.map(Speed::label), ["Normal", "Fast", "Instant"]);
    let counts: Vec<usize> = [0, 1, 2, 3, 4, 9, 10, 49, 50, 800].iter().map(|&m| win_notes(m)).collect();
    assert_eq!(counts, vec![0, 2, 3, 3, 4, 4, 5, 5, 6, 6]);
}

#[test]
fn paytable_read_aloud() {
    assert_eq!(
        paytable_speech(5),
        "Paytable at 5 coins: Royal Flush 4000, Straight Flush 250, Four of a Kind 125, \
         Full House 45, Flush 30, Straight 20, Three of a Kind 15, Two Pair 10, Jacks or Better 5"
    );
    assert_eq!(
        paytable_speech(1),
        "Paytable at 1 coins: Royal Flush 250, Straight Flush 50, Four of a Kind 25, \
         Full House 9, Flush 6, Straight 4, Three of a Kind 3, Two Pair 2, Jacks or Better 1"
    );
}

#[test]
fn bet_note_mentions_the_royal_bonus() {
    assert_eq!(bet_note(5, 25), "BET 5 × 25¢  ·  royal bonus 4000");
    assert_eq!(bet_note(3, 100), "BET 3 × $1  ·  royal pays 4000 at 5 coins");
}

#[test]
fn holds_in_words() {
    let dealt = hand("Qh Jh 2c 3d 9s");
    assert_eq!(hold_phrase(&dealt, 0), "draw five new cards");
    assert_eq!(hold_phrase(&dealt, 0b00001), "hold Queen of hearts");
    assert_eq!(
        hold_phrase(&dealt, 0b10011),
        "hold Queen of hearts, Jack of hearts, 9 of spades"
    );
}
