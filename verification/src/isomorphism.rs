//! Suits that are interchangeable in a spot.
//!
//! Two suits can be exchanged where the exchange maps the board onto itself
//! and leaves the weights of both ranges as they are. What holds after the
//! deal of a card then holds after the deal of the card of the other suit
//! with the two suits exchanged in every hand, so that one of the two deals
//! can stand for both.

use vstd::prelude::*;
use crate::card::{is_card, Card};
use crate::hands::{is_blocked, is_enumeration, is_live, lists, Hand};
use crate::range::{is_combo, is_weights, slot, Range};
use crate::spot::{deals_upto, lemma_deals_upto};

verus! {

/// The card `c` with the suits `a` and `b` exchanged. What is no card of the
/// deck stays as it is.
pub open spec fn swapped(c: int, a: int, b: int) -> int {
    if !is_card(c) {
        c
    } else if c % 4 == a {
        c - a + b
    } else if c % 4 == b {
        c - b + a
    } else {
        c
    }
}

/// The weight in `w` of the hand made of two cards, after the suits `a` and
/// `b` are exchanged in both.
pub open spec fn swapped_weight(w: Seq<u8>, c1: int, c2: int, a: int, b: int) -> int {
    Range::weight_in(w, swapped(c1, a, b), swapped(c2, a, b))
}

/// Whether the exchange of the suits maps the board onto itself.
pub open spec fn board_keeps(board: Seq<u8>, a: int, b: int) -> bool {
    forall|i: int| 0 <= i < board.len() ==> board.contains(swapped(#[trigger] board[i] as int, a, b) as u8)
}

/// Whether the exchange of the suits leaves every weight of the range as it
/// is.
pub open spec fn range_keeps(w: Seq<u8>, a: int, b: int) -> bool {
    forall|c1: int, c2: int|
        is_combo(c1, c2) ==> #[trigger] swapped_weight(w, c1, c2, a, b) == w[slot(c1, c2)]
}

/// Whether the two suits are interchangeable on a board for two ranges.
pub open spec fn interchangeable(board: Seq<u8>, oop: Seq<u8>, ip: Seq<u8>, a: int, b: int) -> bool {
    &&& 0 <= a < 4
    &&& 0 <= b < 4
    &&& board_keeps(board, a, b)
    &&& range_keeps(oop, a, b)
    &&& range_keeps(ip, a, b)
}

/// Exchanging two suits twice gives the card back; the exchange keeps the
/// rank, and maps the deck onto itself.
pub proof fn lemma_swapped(c: int, a: int, b: int)
    requires
        0 <= a < 4,
        0 <= b < 4,
    ensures
        swapped(swapped(c, a, b), a, b) == c,
        is_card(c) ==> is_card(swapped(c, a, b)) && swapped(c, a, b) / 4 == c / 4,
        swapped(c, a, b) == swapped(c, b, a),
{
}

/// Where two suits are interchangeable, the exchange maps every hand that a
/// player can hold on the board to a hand he can hold, of the same weight.
pub proof fn lemma_swap_keeps_live(w: Seq<u8>, board: Seq<u8>, a: int, b: int, c1: int, c2: int)
    requires
        0 <= a < 4,
        0 <= b < 4,
        is_weights(w),
        board_keeps(board, a, b),
        range_keeps(w, a, b),
        is_live(w, board, c1, c2),
    ensures
        ({
            let x = swapped(c1, a, b);
            let y = swapped(c2, a, b);
            let lo = if x < y {
                x
            } else {
                y
            };
            let hi = if x < y {
                y
            } else {
                x
            };
            is_live(w, board, lo, hi) && w[slot(lo, hi)] == w[slot(c1, c2)]
        }),
{
    let x = swapped(c1, a, b);
    let y = swapped(c2, a, b);
    lemma_swapped(c1, a, b);
    lemma_swapped(c2, a, b);
    assert(swapped_weight(w, c1, c2, a, b) == w[slot(c1, c2)]);
    assert(x != y) by {
        if x == y {
            assert(swapped(x, a, b) == swapped(y, a, b));
        }
    }
    if board.contains(x as u8) {
        let i = choose|i: int| 0 <= i < board.len() && board[i] == x as u8;
        assert(board.contains(swapped(board[i] as int, a, b) as u8));
    }
    if board.contains(y as u8) {
        let i = choose|i: int| 0 <= i < board.len() && board[i] == y as u8;
        assert(board.contains(swapped(board[i] as int, a, b) as u8));
    }
}

/// The card `c` with the suits `a` and `b` exchanged.
pub fn swap_card(c: Card, a: u8, b: u8) -> (x: Card)
    requires
        a < 4,
        b < 4,
    ensures
        x == swapped(c as int, a as int, b as int),
{
    if c >= 52 {
        c
    } else if c % 4 == a {
        c - a + b
    } else if c % 4 == b {
        c - b + a
    } else {
        c
    }
}

/// Whether the exchange of the suits maps the board onto itself.
pub fn board_is_kept(board: &[Card; 5], a: u8, b: u8) -> (ok: bool)
    requires
        a < 4,
        b < 4,
    ensures
        ok == board_keeps(board@, a as int, b as int),
{
    let mut i: usize = 0;
    while i < 5
        invariant
            i <= 5,
            a < 4,
            b < 4,
            forall|j: int|
                0 <= j < i ==> board@.contains(swapped(#[trigger] board@[j] as int, a as int, b as int) as u8),
        decreases 5 - i,
    {
        if !is_blocked(board.as_slice(), swap_card(board[i], a, b)) {
            return false;
        }
        i += 1;
    }
    true
}

/// Whether the exchange of the suits leaves every weight of the range as it
/// is.
pub fn range_is_kept(range: &Range, a: u8, b: u8) -> (ok: bool)
    requires
        a < 4,
        b < 4,
    ensures
        ok == range_keeps(range@, a as int, b as int),
{
    let mut c1: u8 = 0;
    while c1 < 52
        invariant
            c1 <= 52,
            a < 4,
            b < 4,
            forall|x: int, y: int|
                is_combo(x, y) && x < c1 ==> #[trigger] swapped_weight(
                    range@,
                    x,
                    y,
                    a as int,
                    b as int,
                ) == range@[slot(x, y)],
        decreases 52 - c1,
    {
        let mut c2: u8 = c1 + 1;
        while c2 < 52
            invariant
                c1 < c2 <= 52,
                a < 4,
                b < 4,
                forall|x: int, y: int|
                    is_combo(x, y) && (x < c1 || (x == c1 && y < c2)) ==> #[trigger] swapped_weight(
                        range@,
                        x,
                        y,
                        a as int,
                        b as int,
                    ) == range@[slot(x, y)],
            decreases 52 - c2,
        {
            let w = range.weight(c1, c2);
            let v = range.weight(swap_card(c1, a, b), swap_card(c2, a, b));
            if w != v {
                assert(swapped_weight(range@, c1 as int, c2 as int, a as int, b as int)
                    != range@[slot(c1 as int, c2 as int)]);
                return false;
            }
            c2 += 1;
        }
        c1 += 1;
    }
    true
}

/// Whether the two suits are interchangeable on a board for two ranges.
pub fn suits_interchangeable(board: &[Card; 5], oop: &Range, ip: &Range, a: u8, b: u8) -> (ok: bool)
    ensures
        ok == interchangeable(board@, oop@, ip@, a as int, b as int),
{
    a < 4 && b < 4 && board_is_kept(board, a, b) && range_is_kept(oop, a, b) && range_is_kept(
        ip,
        a,
        b,
    )
}

/// The card of the least suit below `s` that can stand for the card `c`: a
/// card of the same rank that is not on the board and whose suit is
/// interchangeable with the suit of `c`; `c` itself if there is none.
pub open spec fn class_upto(board: Seq<u8>, oop: Seq<u8>, ip: Seq<u8>, c: int, s: int) -> int
    decreases s,
{
    if s <= 0 {
        c
    } else {
        let below = class_upto(board, oop, ip, c, s - 1);
        let other = c - c % 4 + (s - 1);
        if below != c {
            below
        } else if s - 1 < c % 4 && !board.contains(other as u8) && interchangeable(
            board,
            oop,
            ip,
            s - 1,
            c % 4,
        ) {
            other
        } else {
            c
        }
    }
}

/// The card that stands for the deal of the card `c`: the card of the least
/// suit that is interchangeable with the suit of `c`, of the same rank and
/// not on the board.
pub open spec fn deal_class(board: Seq<u8>, oop: Seq<u8>, ip: Seq<u8>, c: int) -> int {
    class_upto(board, oop, ip, c, 4)
}

/// The card that stands for a card is the card itself or a card of the same
/// rank and a lower, interchangeable suit that is not on the board.
pub proof fn lemma_class_upto(board: Seq<u8>, oop: Seq<u8>, ip: Seq<u8>, c: int, s: int)
    requires
        is_card(c),
        0 <= s <= 4,
    ensures
        ({
            let k = class_upto(board, oop, ip, c, s);
            k == c || (is_card(k) && k / 4 == c / 4 && k < c && k % 4 < s && !board.contains(
                k as u8,
            ) && interchangeable(board, oop, ip, k % 4, c % 4))
        }),
    decreases s,
{
    if s > 0 {
        lemma_class_upto(board, oop, ip, c, s - 1);
    }
}

/// The card that stands for the deal of the card `c`.
pub fn deal_representative(board: &[Card; 5], oop: &Range, ip: &Range, c: Card) -> (k: Card)
    requires
        is_card(c as int),
    ensures
        k == deal_class(board@, oop@, ip@, c as int),
        k == c || (is_card(k as int) && k / 4 == c / 4 && k < c && !board@.contains(k)
            && interchangeable(board@, oop@, ip@, (k % 4) as int, (c % 4) as int)),
{
    let suit = c % 4;
    let first = c - suit;
    let mut s: u8 = 0;
    while s < 4
        invariant
            s <= 4,
            is_card(c as int),
            suit == c % 4,
            first == c - suit,
            class_upto(board@, oop@, ip@, c as int, s as int) == c,
        decreases 4 - s,
    {
        if s < suit && !is_blocked(board.as_slice(), first + s) && suits_interchangeable(
            board,
            oop,
            ip,
            s,
            suit,
        ) {
            proof {
                assert(class_upto(board@, oop@, ip@, c as int, s + 1) == first + s);
                lemma_class_rest(board@, oop@, ip@, c as int, s + 1, 4);
                lemma_class_upto(board@, oop@, ip@, c as int, 4);
            }
            return first + s;
        }
        s += 1;
    }
    c
}

/// For each deal that can follow a board, in the order of the deals, the
/// card whose deal stands for it. Deals with the same card here can share
/// what is stored for them.
pub fn deal_representatives(board: &[Card; 5], oop: &Range, ip: &Range) -> (cards: Vec<Card>)
    ensures
        cards@.len() == deals_upto(board@, 52).len(),
        forall|k: int|
            0 <= k < cards@.len() ==> #[trigger] cards@[k] == deal_class(
                board@,
                oop@,
                ip@,
                deals_upto(board@, 52)[k]->Chance_0 as int,
            ),
{
    let mut cards: Vec<Card> = Vec::new();
    let mut c: u8 = 0;
    while c < 52
        invariant
            c <= 52,
            cards@.len() == deals_upto(board@, c as int).len(),
            forall|k: int|
                0 <= k < cards@.len() ==> #[trigger] cards@[k] == deal_class(
                    board@,
                    oop@,
                    ip@,
                    deals_upto(board@, c as int)[k]->Chance_0 as int,
                ),
        decreases 52 - c,
    {
        proof {
            lemma_deals_upto(board@, c as int);
        }
        if !is_blocked(board.as_slice(), c) {
            let k = deal_representative(board, oop, ip, c);
            let ghost before = cards@;
            cards.push(k);
            assert forall|i: int| 0 <= i < cards@.len() implies #[trigger] cards@[i] == deal_class(
                board@,
                oop@,
                ip@,
                deals_upto(board@, c + 1)[i]->Chance_0 as int,
            ) by {
                if i < before.len() {
                    assert(cards@[i] == before[i]);
                    assert(deals_upto(board@, c + 1)[i] == deals_upto(board@, c as int)[i]);
                }
            }
        }
        c += 1;
    }
    cards
}

/// Once a card is found that stands for `c`, the suits above do not change
/// it.
proof fn lemma_class_rest(board: Seq<u8>, oop: Seq<u8>, ip: Seq<u8>, c: int, s: int, t: int)
    requires
        0 <= s <= t,
        class_upto(board, oop, ip, c, s) != c,
    ensures
        class_upto(board, oop, ip, c, t) == class_upto(board, oop, ip, c, s),
    decreases t - s,
{
    if s < t {
        lemma_class_rest(board, oop, ip, c, s, t - 1);
    }
}

/// The position of the hand that the exchange of two suits makes of the
/// hand at `at`; `None` where the list does not hold it. Where the suits are
/// interchangeable the list holds it, and the values of a hand after the
/// deal of a card are the values of this hand after the deal that stands
/// for it.
pub fn swapped_position(hands: &Vec<Hand>, at: usize, a: u8, b: u8) -> (to: Option<usize>)
    requires
        at < hands@.len(),
        a < 4,
        b < 4,
    ensures
        match to {
            Some(i) => i < hands@.len() && hands@[i as int].holds(
                swapped(hands@[at as int].first as int, a as int, b as int) as u8,
            ) && hands@[i as int].holds(
                swapped(hands@[at as int].second as int, a as int, b as int) as u8,
            ) && forall|j: int|
                0 <= j < i ==> !(hands@[j].holds(
                    swapped(hands@[at as int].first as int, a as int, b as int) as u8,
                ) && hands@[j].holds(
                    swapped(hands@[at as int].second as int, a as int, b as int) as u8,
                )),
            None => forall|j: int|
                0 <= j < hands@.len() ==> !(hands@[j].holds(
                    swapped(hands@[at as int].first as int, a as int, b as int) as u8,
                ) && hands@[j].holds(
                    swapped(hands@[at as int].second as int, a as int, b as int) as u8,
                )),
        },
{
    let h = hands[at];
    let x = swap_card(h.first, a, b);
    let y = swap_card(h.second, a, b);
    let mut i: usize = 0;
    while i < hands.len()
        invariant
            i <= hands@.len(),
            at < hands@.len(),
            x == swapped(hands@[at as int].first as int, a as int, b as int),
            y == swapped(hands@[at as int].second as int, a as int, b as int),
            forall|j: int| 0 <= j < i ==> !(hands@[j].holds(x) && hands@[j].holds(y)),
        decreases hands@.len() - i,
    {
        let o = hands[i];
        if (o.first == x || o.second == x) && (o.first == y || o.second == y) {
            return Some(i);
        }
        i += 1;
    }
    None
}

/// Where two suits are interchangeable, the hand that the exchange makes of
/// a hand of an enumeration is in the enumeration, with the same weight.
pub proof fn lemma_swapped_hand_is_listed(
    hands: Seq<Hand>,
    w: Seq<u8>,
    board: Seq<u8>,
    a: int,
    b: int,
    at: int,
)
    requires
        0 <= a < 4,
        0 <= b < 4,
        is_weights(w),
        is_enumeration(hands, w, board),
        board_keeps(board, a, b),
        range_keeps(w, a, b),
        0 <= at < hands.len(),
    ensures
        exists|i: int|
            0 <= i < hands.len() && (#[trigger] hands[i]).holds(
                swapped(hands[at].first as int, a, b) as u8,
            ) && hands[i].holds(swapped(hands[at].second as int, a, b) as u8) && hands[i].weight
                == hands[at].weight,
{
    let h = hands[at];
    assert(is_live(w, board, h.first as int, h.second as int));
    lemma_swap_keeps_live(w, board, a, b, h.first as int, h.second as int);
    let x = swapped(h.first as int, a, b);
    let y = swapped(h.second as int, a, b);
    let lo = if x < y {
        x
    } else {
        y
    };
    let hi = if x < y {
        y
    } else {
        x
    };
    assert(lists(hands, lo, hi));
    let i = choose|i: int| 0 <= i < hands.len() && (#[trigger] hands[i]).first == lo && hands[i].second == hi;
    assert(is_live(w, board, hands[i].first as int, hands[i].second as int));
    assert(hands[i].weight == w[hands[i].index()]);
}

} // verus!
