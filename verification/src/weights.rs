//! The weight of a hand against a range, with card removal: a hand meets
//! only the hands of the other player that share no card with it.

use vstd::prelude::*;
use crate::card::Card;
use crate::hands::{is_blocked, Hand};
use crate::layout::is_blocked_by;

verus! {

/// Whether two hands share a card.
pub open spec fn shares_card(a: Hand, b: Hand) -> bool {
    a.holds(b.first) || a.holds(b.second)
}

/// The weights of the first `n` hands of `opp` that share no card with `h`,
/// added up.
pub open spec fn facing_upto(h: Hand, opp: Seq<Hand>, n: int) -> int
    decreases n,
{
    if n <= 0 {
        0
    } else if shares_card(h, opp[n - 1]) {
        facing_upto(h, opp, n - 1)
    } else {
        facing_upto(h, opp, n - 1) + opp[n - 1].weight
    }
}

/// The mass of a hand against a range: its weight times the weights of the
/// hands it can meet. Divided by the masses of all hands of the player it is
/// the probability of the hand.
pub open spec fn mass_of(h: Hand, opp: Seq<Hand>) -> int {
    h.weight * facing_upto(h, opp, opp.len() as int)
}

/// Whether `masses` are the masses of `hands` against `opp`.
pub open spec fn are_masses(masses: Seq<u64>, hands: Seq<Hand>, opp: Seq<Hand>) -> bool {
    &&& masses.len() == hands.len()
    &&& forall|i: int| 0 <= i < hands.len() ==> #[trigger] masses[i] == mass_of(hands[i], opp)
}

/// The hands a hand can meet weigh no more than all hands.
pub proof fn lemma_facing_bounds(h: Hand, opp: Seq<Hand>, n: int)
    requires
        0 <= n,
    ensures
        0 <= facing_upto(h, opp, n) <= 255 * n,
    decreases n,
{
    if n > 0 {
        lemma_facing_bounds(h, opp, n - 1);
    }
}

/// A hand that shares a card with every hand of the other player has no
/// mass, and so has a hand without weight.
pub proof fn lemma_blocked_hand_has_no_mass(h: Hand, opp: Seq<Hand>, n: int)
    requires
        0 <= n <= opp.len(),
        forall|j: int| 0 <= j < n ==> shares_card(h, #[trigger] opp[j]),
    ensures
        facing_upto(h, opp, n) == 0,
    decreases n,
{
    if n > 0 {
        lemma_blocked_hand_has_no_mass(h, opp, n - 1);
    }
}

/// The weights of the hands of `opp` that `h` can meet, added up.
pub fn facing_weight(h: &Hand, opp: &Vec<Hand>) -> (sum: u64)
    requires
        opp@.len() <= 0xffff_ffff,
    ensures
        sum == facing_upto(*h, opp@, opp@.len() as int),
        sum <= 255 * opp@.len(),
{
    let mut sum: u64 = 0;
    let mut j: usize = 0;
    while j < opp.len()
        invariant
            j <= opp@.len() <= 0xffff_ffff,
            sum == facing_upto(*h, opp@, j as int),
            sum <= 255 * j,
        decreases opp@.len() - j,
    {
        let o = opp[j];
        let shared = h.first == o.first || h.second == o.first || h.first == o.second || h.second
            == o.second;
        if !shared {
            sum += o.weight as u64;
        }
        j += 1;
    }
    sum
}

/// The masses of the hands of a player against the hands of the other.
pub fn hand_masses(hands: &Vec<Hand>, opp: &Vec<Hand>) -> (masses: Vec<u64>)
    requires
        opp@.len() <= 0xffff_ffff,
    ensures
        are_masses(masses@, hands@, opp@),
{
    let mut masses: Vec<u64> = Vec::new();
    let mut i: usize = 0;
    while i < hands.len()
        invariant
            i <= hands@.len(),
            opp@.len() <= 0xffff_ffff,
            are_masses(masses@, hands@.subrange(0, i as int), opp@),
        decreases hands@.len() - i,
    {
        let h = hands[i];
        let facing = facing_weight(&h, opp);
        assert(0 <= h.weight * facing <= 255 * (255 * 0xffff_ffff)) by (nonlinear_arith)
            requires
                0 <= h.weight <= 255,
                0 <= facing <= 255 * 0xffff_ffff,
        ;
        let ghost before = masses@;
        masses.push((h.weight as u64) * facing);
        proof {
            let now = hands@.subrange(0, i + 1);
            assert forall|k: int| 0 <= k < now.len() implies #[trigger] masses@[k] == mass_of(
                now[k],
                opp@,
            ) by {
                if k < i {
                    assert(masses@[k] == before[k]);
                    assert(now[k] == hands@.subrange(0, i as int)[k]);
                }
            }
        }
        i += 1;
    }
    assert(hands@.subrange(0, hands@.len() as int) =~= hands@);
    masses
}

/// The weights of the first `n` hands of `opp` that share no card with `h`
/// nor with the board, added up.
pub open spec fn facing_at_upto(h: Hand, opp: Seq<Hand>, board: Seq<u8>, n: int) -> int
    decreases n,
{
    if n <= 0 {
        0
    } else if shares_card(h, opp[n - 1]) || is_blocked_by(opp[n - 1], board) {
        facing_at_upto(h, opp, board, n - 1)
    } else {
        facing_at_upto(h, opp, board, n - 1) + opp[n - 1].weight
    }
}

/// The mass of a hand on a board: nothing if the board holds one of its
/// cards, else its weight times the weights of the hands it can meet on the
/// board.
pub open spec fn mass_at(h: Hand, opp: Seq<Hand>, board: Seq<u8>) -> int {
    if is_blocked_by(h, board) {
        0
    } else {
        h.weight * facing_at_upto(h, opp, board, opp.len() as int)
    }
}

/// Whether `masses` are the masses of `hands` against `opp` on a board.
pub open spec fn are_masses_at(
    masses: Seq<u64>,
    hands: Seq<Hand>,
    opp: Seq<Hand>,
    board: Seq<u8>,
) -> bool {
    &&& masses.len() == hands.len()
    &&& forall|i: int| 0 <= i < hands.len() ==> #[trigger] masses[i] == mass_at(hands[i], opp, board)
}

/// The first `n` masses, added up.
pub open spec fn total_upto(masses: Seq<u64>, n: int) -> int
    decreases n,
{
    if n <= 0 {
        0
    } else {
        total_upto(masses, n - 1) + masses[n - 1]
    }
}

/// On a board that holds no card of any hand, the masses are the masses
/// without a board.
pub proof fn lemma_mass_off_the_board(h: Hand, opp: Seq<Hand>, board: Seq<u8>, n: int)
    requires
        0 <= n <= opp.len(),
        forall|j: int| 0 <= j < opp.len() ==> !is_blocked_by(#[trigger] opp[j], board),
    ensures
        facing_at_upto(h, opp, board, n) == facing_upto(h, opp, n),
    decreases n,
{
    if n > 0 {
        lemma_mass_off_the_board(h, opp, board, n - 1);
    }
}

/// Whether the board holds a card of the hand.
fn blocked(h: &Hand, board: &[Card; 5]) -> (r: bool)
    ensures
        r == is_blocked_by(*h, board@),
{
    is_blocked(board.as_slice(), h.first) || is_blocked(board.as_slice(), h.second)
}

/// The masses of the hands of a player against the hands of the other on a
/// board, in the order of the hands.
pub fn hand_masses_at(hands: &Vec<Hand>, opp: &Vec<Hand>, board: &[Card; 5]) -> (masses: Vec<u64>)
    requires
        opp@.len() <= 0xffff_ffff,
    ensures
        are_masses_at(masses@, hands@, opp@, board@),
{
    let mut masses: Vec<u64> = Vec::new();
    let mut i: usize = 0;
    while i < hands.len()
        invariant
            i <= hands@.len(),
            opp@.len() <= 0xffff_ffff,
            are_masses_at(masses@, hands@.subrange(0, i as int), opp@, board@),
        decreases hands@.len() - i,
    {
        let h = hands[i];
        let mut sum: u64 = 0;
        if !blocked(&h, board) {
            let mut j: usize = 0;
            while j < opp.len()
                invariant
                    j <= opp@.len() <= 0xffff_ffff,
                    sum == facing_at_upto(h, opp@, board@, j as int),
                    sum <= 255 * j,
                decreases opp@.len() - j,
            {
                let o = opp[j];
                let shared = h.first == o.first || h.second == o.first || h.first == o.second
                    || h.second == o.second;
                if !shared && !blocked(&o, board) {
                    sum += o.weight as u64;
                }
                j += 1;
            }
            assert(0 <= h.weight * sum <= 255 * (255 * 0xffff_ffff)) by (nonlinear_arith)
                requires
                    0 <= h.weight <= 255,
                    0 <= sum <= 255 * 0xffff_ffff,
            ;
            sum = (h.weight as u64) * sum;
        }
        let ghost before = masses@;
        masses.push(sum);
        proof {
            let now = hands@.subrange(0, i + 1);
            assert forall|k: int| 0 <= k < now.len() implies #[trigger] masses@[k] == mass_at(
                now[k],
                opp@,
                board@,
            ) by {
                if k < i {
                    assert(masses@[k] == before[k]);
                    assert(now[k] == hands@.subrange(0, i as int)[k]);
                }
            }
        }
        i += 1;
    }
    assert(hands@.subrange(0, hands@.len() as int) =~= hands@);
    masses
}

/// All masses added up: what a mass is divided by to give the probability
/// of its hand.
pub fn mass_total(masses: &Vec<u64>) -> (total: u128)
    ensures
        total == total_upto(masses@, masses@.len() as int),
{
    let mut total: u128 = 0;
    let mut i: usize = 0;
    while i < masses.len()
        invariant
            i <= masses@.len(),
            total == total_upto(masses@, i as int),
            total <= i * 0xffff_ffff_ffff_ffff,
        decreases masses@.len() - i,
    {
        total = total + masses[i] as u128;
        i += 1;
    }
    total
}

} // verus!
