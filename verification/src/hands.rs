//! Enumeration of the private hands of a range, with card removal.
//!
//! The hands of a range come out in ascending canonical index, which makes a
//! hand's position in the list a stable name for it.

use vstd::prelude::*;
use crate::card::{Card};
use crate::range::{is_combo, slot, Range};

verus! {

/// A private hand: two distinct cards in ascending order, and the weight the
/// range gives it, in percent.
#[derive(Clone, Copy, PartialEq, Eq, Debug, Structural)]
pub struct Hand {
    pub first: Card,
    pub second: Card,
    pub weight: u8,
}

impl Hand {
    /// The canonical index of the hand.
    pub open spec fn index(self) -> int {
        slot(self.first as int, self.second as int)
    }

    /// Whether the hand holds the card `c`.
    pub open spec fn holds(self, c: u8) -> bool {
        self.first == c || self.second == c
    }
}

/// Whether the combination `(c1, c2)` has weight in `w` and shares no card
/// with `dead`.
pub open spec fn is_live(w: Seq<u8>, dead: Seq<u8>, c1: int, c2: int) -> bool {
    &&& is_combo(c1, c2)
    &&& w[slot(c1, c2)] > 0
    &&& !dead.contains(c1 as u8)
    &&& !dead.contains(c2 as u8)
}

/// Whether `hands` lists the combination `(c1, c2)`.
pub open spec fn lists(hands: Seq<Hand>, c1: int, c2: int) -> bool {
    exists|k: int| 0 <= k < hands.len() && (#[trigger] hands[k]).first == c1 && hands[k].second == c2
}

/// Whether `hands` is the enumeration of the weights `w` without the cards of
/// `dead`: exactly the live combinations, each with its weight, in strictly
/// ascending canonical index.
pub open spec fn is_enumeration(hands: Seq<Hand>, w: Seq<u8>, dead: Seq<u8>) -> bool {
    &&& forall|k: int|
        0 <= k < hands.len() ==> {
            &&& is_live(w, dead, (#[trigger] hands[k]).first as int, hands[k].second as int)
            &&& hands[k].weight == w[hands[k].index()]
        }
    &&& forall|j: int, k: int|
        0 <= j < k < hands.len() ==> (#[trigger] hands[j]).index() < (#[trigger] hands[k]).index()
    &&& forall|c1: int, c2: int| #[trigger] is_live(w, dead, c1, c2) ==> lists(hands, c1, c2)
}

/// Whether `hands` lists exactly the live combinations whose canonical index
/// is below `bound`.
pub open spec fn is_enumeration_below(
    hands: Seq<Hand>,
    w: Seq<u8>,
    dead: Seq<u8>,
    bound: int,
) -> bool {
    &&& forall|k: int|
        0 <= k < hands.len() ==> {
            &&& is_live(w, dead, (#[trigger] hands[k]).first as int, hands[k].second as int)
            &&& hands[k].weight == w[hands[k].index()]
            &&& hands[k].index() < bound
        }
    &&& forall|j: int, k: int|
        0 <= j < k < hands.len() ==> (#[trigger] hands[j]).index() < (#[trigger] hands[k]).index()
    &&& forall|c1: int, c2: int|
        #[trigger] is_live(w, dead, c1, c2) && slot(c1, c2) < bound ==> lists(hands, c1, c2)
}

/// Whether `c` is one of the cards of `dead`.
pub fn is_blocked(dead: &[Card], c: Card) -> (r: bool)
    ensures
        r == dead@.contains(c),
{
    let mut i: usize = 0;
    while i < dead.len()
        invariant
            i <= dead@.len(),
            forall|j: int| 0 <= j < i ==> dead@[j] != c,
        decreases dead@.len() - i,
    {
        if dead[i] == c {
            return true;
        }
        i += 1;
    }
    false
}

/// The hands of `range` that share no card with `dead`, in ascending
/// canonical index, each with its weight. Entries of `dead` that are no card
/// of the deck, such as `NOT_DEALT`, block nothing.
pub fn live_hands(range: &Range, dead: &[Card]) -> (hands: Vec<Hand>)
    ensures
        is_enumeration(hands@, range@, dead@),
        hands@.len() <= 1326,
{
    let mut hands: Vec<Hand> = Vec::new();
    let mut c1: u8 = 0;
    while c1 < 52
        invariant
            c1 <= 52,
            is_enumeration_below(hands@, range@, dead@, 52 * c1),
            2 * hands@.len() <= c1 * (103 - c1),
        decreases 52 - c1,
    {
        let mut c2: u8 = c1 + 1;
        assert((c1 + 1) * (103 - (c1 + 1)) == c1 * (103 - c1) + 2 * (51 - c1)) by (nonlinear_arith);
        if is_blocked(dead, c1) {
            c1 += 1;
            continue;
        }
        while c2 < 52
            invariant
                c1 < c2 <= 52,
                !dead@.contains(c1),
                is_enumeration_below(hands@, range@, dead@, 52 * c1 + c2),
                2 * hands@.len() <= c1 * (103 - c1) + 2 * (c2 - c1 - 1),
                (c1 + 1) * (103 - (c1 + 1)) == c1 * (103 - c1) + 2 * (51 - c1),
            decreases 52 - c2,
        {
            let w = range.weight(c1, c2);
            if w > 0 && !is_blocked(dead, c2) {
                let ghost before = hands@;
                let hand = Hand { first: c1, second: c2, weight: w };
                hands.push(hand);
                proof {
                    assert(hands@[before.len() as int] == hand);
                    assert forall|a: int, b: int|
                        #[trigger] is_live(range@, dead@, a, b) && slot(a, b) < 52 * c1 + c2
                            + 1 implies lists(hands@, a, b) by {
                        if slot(a, b) < 52 * c1 + c2 {
                            let k = choose|k: int|
                                0 <= k < before.len() && (#[trigger] before[k]).first == a
                                    && before[k].second == b;
                            assert(hands@[k] == before[k]);
                        } else {
                            assert(hands@[before.len() as int].first == a);
                        }
                    }
                    assert forall|j: int, k: int| 0 <= j < k < hands@.len() implies (
                    #[trigger] hands@[j]).index() < (#[trigger] hands@[k]).index() by {
                        assert(hands@[j] == before[j]);
                        if k < before.len() {
                            assert(hands@[k] == before[k]);
                        }
                    }
                }
            }
            c2 += 1;
        }
        c1 += 1;
    }
    hands
}

/// The private hands of both players on a board: for each range, its hands
/// that share no card with the board, in ascending canonical index. Each
/// range is enumerated on its own; the other player's cards are not removed.
pub fn enumerate_hands(oop: &Range, ip: &Range, board: &[Card; 5]) -> (hands: (
    Vec<Hand>,
    Vec<Hand>,
))
    ensures
        is_enumeration(hands.0@, oop@, board@),
        is_enumeration(hands.1@, ip@, board@),
{
    let dead = board.as_slice();
    (live_hands(oop, dead), live_hands(ip, dead))
}

/// The hands of `range` that a player can hold when the board is `board` and
/// the other player holds the cards `held_a` and `held_b`: no hand of the
/// result holds a card of the board or one of the two held cards.
pub fn enumerate_against(range: &Range, board: &[Card; 5], held_a: Card, held_b: Card) -> (hands:
    Vec<Hand>)
    ensures
        is_enumeration(hands@, range@, board@ + seq![held_a, held_b]),
        forall|k: int|
            0 <= k < hands@.len() ==> !(#[trigger] hands@[k]).holds(held_a) && !hands@[k].holds(
                held_b,
            ),
        forall|k: int, i: int|
            0 <= k < hands@.len() && 0 <= i < 5 ==> !(#[trigger] hands@[k]).holds(
                #[trigger] board@[i],
            ),
{
    let mut dead: Vec<Card> = Vec::new();
    let mut i: usize = 0;
    while i < 5
        invariant
            i <= 5,
            dead@ =~= board@.subrange(0, i as int),
        decreases 5 - i,
    {
        dead.push(board[i]);
        i += 1;
    }
    dead.push(held_a);
    dead.push(held_b);
    assert(dead@ =~= board@ + seq![held_a, held_b]);
    let hands = live_hands(range, dead.as_slice());
    proof {
        assert(dead@[5] == held_a && dead@[6] == held_b);
        assert forall|k: int, i: int| 0 <= k < hands@.len() && 0 <= i < 5 implies !(
        #[trigger] hands@[k]).holds(#[trigger] board@[i]) by {
            assert(dead@[i] == board@[i]);
        }
    }
    hands
}

/// The position of the hand made of the cards `a` and `b`, in either order,
/// in an enumeration; `None` where the enumeration does not list it.
pub fn position_of(hands: &[Hand], a: Card, b: Card) -> (at: Option<usize>)
    ensures
        match at {
            Some(i) => i < hands@.len() && hands@[i as int].holds(a) && hands@[i as int].holds(b)
                && forall|j: int| 0 <= j < i ==> !(hands@[j].holds(a) && hands@[j].holds(b)),
            None => forall|j: int| 0 <= j < hands@.len() ==> !(hands@[j].holds(a) && hands@[j].holds(b)),
        },
{
    let mut i: usize = 0;
    while i < hands.len()
        invariant
            i <= hands@.len(),
            forall|j: int| 0 <= j < i ==> !(hands@[j].holds(a) && hands@[j].holds(b)),
        decreases hands@.len() - i,
    {
        let h = hands[i];
        if (h.first == a || h.second == a) && (h.first == b || h.second == b) {
            return Some(i);
        }
        i += 1;
    }
    None
}

/// An enumeration lists every live combination, whatever its index.
pub proof fn lemma_enumeration_is_below(x: Seq<Hand>, w: Seq<u8>, dead: Seq<u8>)
    ensures
        is_enumeration(x, w, dead) <==> is_enumeration_below(x, w, dead, 2704),
{
    if is_enumeration(x, w, dead) {
        assert forall|k: int| 0 <= k < x.len() implies (#[trigger] x[k]).index() < 2704 by {
            assert(is_live(w, dead, x[k].first as int, x[k].second as int));
        }
    }
    if is_enumeration_below(x, w, dead, 2704) {
        assert forall|c1: int, c2: int| #[trigger] is_live(w, dead, c1, c2) implies lists(
            x,
            c1,
            c2,
        ) by {
            assert(slot(c1, c2) < 2704);
        }
    }
}

/// An enumeration is determined by the weights and the dead cards: two
/// enumerations of the same range without the same cards are equal.
pub proof fn lemma_enumeration_unique(x: Seq<Hand>, y: Seq<Hand>, w: Seq<u8>, dead: Seq<u8>)
    requires
        is_enumeration(x, w, dead),
        is_enumeration(y, w, dead),
    ensures
        x == y,
{
    lemma_enumeration_is_below(x, w, dead);
    lemma_enumeration_is_below(y, w, dead);
    lemma_enumeration_below_unique(x, y, w, dead, 2704);
}

/// Two lists of the live combinations below one bound are equal.
proof fn lemma_enumeration_below_unique(
    x: Seq<Hand>,
    y: Seq<Hand>,
    w: Seq<u8>,
    dead: Seq<u8>,
    bound: int,
)
    requires
        is_enumeration_below(x, w, dead, bound),
        is_enumeration_below(y, w, dead, bound),
    ensures
        x == y,
    decreases x.len(),
{
    if x.len() == 0 {
        if y.len() > 0 {
            let h = y[0];
            assert(is_live(w, dead, h.first as int, h.second as int));
            assert(lists(x, h.first as int, h.second as int));
        }
        assert(x =~= y);
    } else if y.len() == 0 {
        let h = x[0];
        assert(is_live(w, dead, h.first as int, h.second as int));
        assert(lists(y, h.first as int, h.second as int));
    } else {
        // The last hand of each list is the live combination of greatest index.
        let hx = x.last();
        let hy = y.last();
        assert(is_live(w, dead, hx.first as int, hx.second as int));
        assert(is_live(w, dead, hy.first as int, hy.second as int));
        assert(lists(y, hx.first as int, hx.second as int));
        assert(lists(x, hy.first as int, hy.second as int));
        let kx = choose|k: int|
            0 <= k < y.len() && (#[trigger] y[k]).first == hx.first as int && y[k].second
                == hx.second as int;
        let ky = choose|k: int|
            0 <= k < x.len() && (#[trigger] x[k]).first == hy.first as int && x[k].second
                == hy.second as int;
        assert(y[kx].index() == hx.index());
        assert(x[ky].index() == hy.index());
        assert(hx.index() <= hy.index()) by {
            if kx < y.len() - 1 {
                assert(y[kx].index() < y[y.len() - 1].index());
            }
        }
        assert(hy.index() <= hx.index()) by {
            if ky < x.len() - 1 {
                assert(x[ky].index() < x[x.len() - 1].index());
            }
        }
        assert(hx.first == hy.first && hx.second == hy.second);
        assert(hx == hy);
        let xs = x.drop_last();
        let ys = y.drop_last();
        lemma_enumeration_drop_last(x, w, dead, bound);
        lemma_enumeration_drop_last(y, w, dead, bound);
        lemma_enumeration_below_unique(xs, ys, w, dead, hx.index());
        assert(x =~= xs.push(hx));
        assert(y =~= ys.push(hy));
    }
}

/// Without its last hand, a list of the live combinations below a bound is
/// the list of those below the last hand.
proof fn lemma_enumeration_drop_last(x: Seq<Hand>, w: Seq<u8>, dead: Seq<u8>, bound: int)
    requires
        is_enumeration_below(x, w, dead, bound),
        x.len() > 0,
    ensures
        is_enumeration_below(x.drop_last(), w, dead, x.last().index()),
{
    let h = x.last();
    let xs = x.drop_last();
    assert(is_live(w, dead, h.first as int, h.second as int));
    assert forall|k: int| 0 <= k < xs.len() implies {
        &&& is_live(w, dead, (#[trigger] xs[k]).first as int, xs[k].second as int)
        &&& xs[k].weight == w[xs[k].index()]
        &&& xs[k].index() < h.index()
    } by {
        assert(xs[k] == x[k]);
        assert(x[k].index() < x[x.len() - 1].index());
    }
    assert forall|j: int, k: int| 0 <= j < k < xs.len() implies (#[trigger] xs[j]).index() < (
    #[trigger] xs[k]).index() by {
        assert(xs[j] == x[j] && xs[k] == x[k]);
    }
    assert forall|c1: int, c2: int| #[trigger]
        is_live(w, dead, c1, c2) && slot(c1, c2) < h.index() implies lists(xs, c1, c2) by {
        let k = choose|k: int|
            0 <= k < x.len() && (#[trigger] x[k]).first == c1 && x[k].second == c2;
        assert(k < x.len() - 1);
        assert(xs[k] == x[k]);
    }
}

} // verus!
