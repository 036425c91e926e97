use vstd::prelude::*;

verus! {

/// Notes in the win arpeggio for a win of `multiple` coins per coin bet: none for no
/// win, and more notes for bigger wins, up to six.
pub open spec fn spec_win_notes(multiple: u32) -> int {
    if multiple == 0 {
        0
    } else if multiple == 1 {
        2
    } else if multiple <= 3 {
        3
    } else if multiple <= 9 {
        4
    } else if multiple <= 49 {
        5
    } else {
        6
    }
}

/// How many notes of the rising arpeggio a win plays, longer for bigger wins
/// (`multiple` = payout per coin bet).
pub fn win_notes(multiple: u32) -> (count: usize)
    ensures
        count == spec_win_notes(multiple),
{
    match multiple {
        0 => 0,
        1 => 2,
        2..=3 => 3,
        4..=9 => 4,
        10..=49 => 5,
        _ => 6,
    }
}

/// Bigger wins play longer: a win never plays fewer notes than a smaller one, a win of
/// any size plays at least two, no win plays none, and no win plays more than the six
/// notes of the arpeggio.
pub proof fn lemma_bigger_wins_play_longer(a: u32, b: u32)
    requires
        a <= b,
    ensures
        spec_win_notes(a) <= spec_win_notes(b),
        spec_win_notes(a) == 0 <==> a == 0,
        a > 0 ==> 2 <= spec_win_notes(a),
        spec_win_notes(b) <= 6,
{
}

} // verus!
