//! Weighted ranges of two-card hands, and the text grammar that describes them.
//!
//! A range text is a comma-separated list of entries. An entry is an optional
//! weight prefix (`"50@"`, a whole percentage from 0 to 100) followed by one of
//!
//! * a hand class: a pair `"TT"`, a suited hand `"AKs"`, an offsuit hand `"AKo"`,
//!   the higher rank first;
//! * a class with `+`: `"66+"` is every pair from sixes up, `"T9s+"` every suited
//!   connector from ten-nine up, `"A8s+"` every suited ace from the eight up to
//!   the king;
//! * two classes of one kind joined by `-`, the higher first: `"QQ-22"`,
//!   `"AKo-AJo"`, `"T9s-65s"`;
//! * one combination of two distinct cards: `"AsKh"`.
//!
//! Entries are read from left to right and a later entry overrides an earlier
//! one, except that two single-combination entries for the same two cards must
//! agree on the weight.

use vstd::prelude::*;
use vstd::string::StringSliceAdditionalSpecFns;
use crate::card::{card_at, card_of_bytes, parse_rank, rank_of_byte, Card};

verus! {

/// Whether `(c1, c2)` is a combination: two cards in ascending order.
pub open spec fn is_combo(c1: int, c2: int) -> bool {
    0 <= c1 < c2 < 52
}

/// The canonical index of a combination, ascending in `(c1, c2)`. It is the
/// combination's slot in a weight table of 52 times 52 slots.
pub open spec fn slot(c1: int, c2: int) -> int {
    52 * c1 + c2
}

/// Whether `w` is a weight table: a percentage on every combination's slot and
/// zero on the slots that stand for no combination.
pub open spec fn is_weights(w: Seq<u8>) -> bool {
    &&& w.len() == 2704
    &&& forall|i: int| 0 <= i < 2704 ==> #[trigger] w[i] <= 100
    &&& forall|i: int| 0 <= i < 2704 && !is_combo(i / 52, i % 52) ==> #[trigger] w[i] == 0
}

/// The table of the range that holds no hand.
pub open spec fn empty_weights() -> Seq<u8> {
    Seq::new(2704, |i: int| 0u8)
}

/// How the two cards of a hand relate.
#[derive(Clone, Copy, PartialEq, Eq, Debug, Structural)]
pub enum HandKind {
    Pair,
    Suited,
    Offsuit,
}

/// The kind of the hand made of the cards `c1` and `c2`.
pub open spec fn kind_of(c1: int, c2: int) -> HandKind {
    if c1 / 4 == c2 / 4 {
        HandKind::Pair
    } else if c1 % 4 == c2 % 4 {
        HandKind::Suited
    } else {
        HandKind::Offsuit
    }
}

/// A hand class: the two ranks, the higher first, and the kind.
#[derive(Clone, Copy, PartialEq, Eq, Debug, Structural)]
pub struct HandClass {
    pub high: u8,
    pub low: u8,
    pub kind: HandKind,
}

/// The set of combinations that one entry names.
#[derive(Clone, Copy, PartialEq, Eq, Debug, Structural)]
pub enum Shape {
    /// The single combination of the cards `first < second`.
    Combo { first: Card, second: Card },
    /// The classes whose ranks lie `gap` apart, the higher rank in `from..=to`.
    Ladder { kind: HandKind, gap: u8, from: u8, to: u8 },
    /// The classes with the higher rank `high` and the lower rank in `from..=to`.
    Column { kind: HandKind, high: u8, from: u8, to: u8 },
}

impl Shape {
    /// Whether the combination `(c1, c2)` belongs to the shape.
    pub open spec fn covers(self, c1: int, c2: int) -> bool {
        match self {
            Shape::Combo { first, second } => c1 == first && c2 == second,
            Shape::Ladder { kind, gap, from, to } => {
                &&& kind_of(c1, c2) == kind
                &&& c2 / 4 - c1 / 4 == gap
                &&& from <= c2 / 4 <= to
            },
            Shape::Column { kind, high, from, to } => {
                &&& kind_of(c1, c2) == kind
                &&& c2 / 4 == high
                &&& from <= c1 / 4 <= to
            },
        }
    }

    /// A single combination is made of two cards in ascending order.
    pub open spec fn wf(self) -> bool {
        match self {
            Shape::Combo { first, second } => is_combo(first as int, second as int),
            _ => true,
        }
    }
}

/// One entry of a range text: a shape and the weight it gets.
#[derive(Clone, Copy, PartialEq, Eq, Debug, Structural)]
pub struct Entry {
    pub weight: u8,
    pub shape: Shape,
}

/// Why a range text was refused.
#[derive(Clone, Copy, PartialEq, Eq, Debug, Structural)]
pub enum RangeErrorKind {
    /// The entry is not of the grammar.
    MalformedToken,
    /// A single combination was given two different weights.
    ConflictingWeight,
    /// The weight prefix is above 100.
    WeightOutOfBounds,
}

/// A refused range text: the reason, and the position of the offending entry
/// in the comma-separated list, counted from zero.
#[derive(Clone, Copy, PartialEq, Eq, Debug, Structural)]
pub struct RangeParseError {
    pub kind: RangeErrorKind,
    pub token: usize,
}

/// Whether `b` is an ASCII digit.
pub open spec fn is_digit(b: u8) -> bool {
    0x30 <= b <= 0x39
}

/// Whether `b` continues a run: of digits, or of bytes other than a comma.
pub open spec fn in_run(b: u8, digits: bool) -> bool {
    if digits {
        is_digit(b)
    } else {
        b != 0x2c
    }
}

/// Length of the longest prefix of `s` that is a run.
pub open spec fn run_len(s: Seq<u8>, digits: bool) -> int
    decreases s.len(),
{
    if s.len() > 0 && in_run(s[0], digits) {
        1 + run_len(s.drop_first(), digits)
    } else {
        0
    }
}

/// The number that a text of digits stands for.
pub open spec fn decimal_value(s: Seq<u8>) -> nat
    decreases s.len(),
{
    if s.len() == 0 {
        0
    } else {
        (10 * decimal_value(s.drop_last()) + (s.last() - 0x30)) as nat
    }
}

/// The hand class that a text stands for.
pub open spec fn class_of_bytes(s: Seq<u8>) -> Option<HandClass> {
    if s.len() == 2 {
        match (rank_of_byte(s[0]), rank_of_byte(s[1])) {
            (Some(a), Some(b)) => if a == b {
                Some(HandClass { high: a, low: b, kind: HandKind::Pair })
            } else {
                None
            },
            _ => None,
        }
    } else if s.len() == 3 {
        match (rank_of_byte(s[0]), rank_of_byte(s[1])) {
            (Some(a), Some(b)) => if a > b && s[2] == 0x73 {
                Some(HandClass { high: a, low: b, kind: HandKind::Suited })
            } else if a > b && s[2] == 0x6f {
                Some(HandClass { high: a, low: b, kind: HandKind::Offsuit })
            } else {
                None
            },
            _ => None,
        }
    } else {
        None
    }
}

/// The shape of a class on its own.
pub open spec fn single_shape(c: HandClass) -> Shape {
    Shape::Column { kind: c.kind, high: c.high, from: c.low, to: c.low }
}

/// The shape of a class followed by `+`: pairs and connectors climb together
/// up to the ace, any other class keeps its higher rank and raises the lower
/// one up to the rank below it.
pub open spec fn plus_shape(c: HandClass) -> Shape {
    if c.high - c.low <= 1 {
        Shape::Ladder { kind: c.kind, gap: (c.high - c.low) as u8, from: c.high, to: 12 }
    } else {
        Shape::Column { kind: c.kind, high: c.high, from: c.low, to: (c.high - 1) as u8 }
    }
}

/// The shape of two classes joined by `-`, the higher one first: both of one
/// kind, and either the same distance between their ranks or the same higher
/// rank.
pub open spec fn dash_shape(a: HandClass, b: HandClass) -> Option<Shape> {
    if a.kind != b.kind {
        None
    } else if a.high - a.low == b.high - b.low {
        if a.high > b.high {
            Some(
                Shape::Ladder {
                    kind: a.kind,
                    gap: (a.high - a.low) as u8,
                    from: b.high,
                    to: a.high,
                },
            )
        } else {
            None
        }
    } else if a.high == b.high {
        if a.low > b.low {
            Some(Shape::Column { kind: a.kind, high: a.high, from: b.low, to: a.low })
        } else {
            None
        }
    } else {
        None
    }
}

/// The shape of two cards written one after the other.
pub open spec fn combo_shape(a: Option<Card>, b: Option<Card>) -> Option<Shape> {
    match (a, b) {
        (Some(x), Some(y)) => if x < y {
            Some(Shape::Combo { first: x, second: y })
        } else if y < x {
            Some(Shape::Combo { first: y, second: x })
        } else {
            None
        },
        _ => None,
    }
}

/// The shape that an entry without its weight prefix stands for.
pub open spec fn shape_of_bytes(s: Seq<u8>) -> Option<Shape> {
    let n = s.len();
    if n == 2 || (n == 3 && s[2] != 0x2b) {
        match class_of_bytes(s) {
            Some(c) => Some(single_shape(c)),
            None => None,
        }
    } else if n == 3 || (n == 4 && s[3] == 0x2b) {
        match class_of_bytes(s.drop_last()) {
            Some(c) => Some(plus_shape(c)),
            None => None,
        }
    } else if n == 4 {
        combo_shape(card_of_bytes(s.subrange(0, 2)), card_of_bytes(s.subrange(2, 4)))
    } else if n == 5 && s[2] == 0x2d {
        match (class_of_bytes(s.subrange(0, 2)), class_of_bytes(s.subrange(3, 5))) {
            (Some(a), Some(b)) => dash_shape(a, b),
            _ => None,
        }
    } else if n == 7 && s[3] == 0x2d {
        match (class_of_bytes(s.subrange(0, 3)), class_of_bytes(s.subrange(4, 7))) {
            (Some(a), Some(b)) => dash_shape(a, b),
            _ => None,
        }
    } else {
        None
    }
}

/// What one entry of a range text stands for. Digits followed by `@` are a
/// weight prefix; without one the weight is 100.
pub open spec fn entry_of_bytes(tok: Seq<u8>) -> Result<Entry, RangeErrorKind> {
    let d = run_len(tok, true);
    if 1 <= d < tok.len() && tok[d] == 0x40 {
        if decimal_value(tok.subrange(0, d)) > 100 {
            Err(RangeErrorKind::WeightOutOfBounds)
        } else {
            match shape_of_bytes(tok.subrange(d + 1, tok.len() as int)) {
                Some(shape) => Ok(
                    Entry { weight: decimal_value(tok.subrange(0, d)) as u8, shape },
                ),
                None => Err(RangeErrorKind::MalformedToken),
            }
        }
    } else {
        match shape_of_bytes(tok) {
            Some(shape) => Ok(Entry { weight: 100, shape }),
            None => Err(RangeErrorKind::MalformedToken),
        }
    }
}

/// The state of reading a range text: the weights so far, and for each slot
/// the weight that a single-combination entry gave it, or 255 for none.
pub ghost struct Reading {
    pub weights: Seq<u8>,
    pub pinned: Seq<u8>,
}

/// The table before the first entry.
pub open spec fn empty_reading() -> Reading {
    Reading { weights: empty_weights(), pinned: Seq::new(2704, |i: int| 255u8) }
}

/// The weights after every combination of `shape` got the weight `weight`.
pub open spec fn paint(w: Seq<u8>, shape: Shape, weight: u8) -> Seq<u8> {
    Seq::new(
        2704,
        |i: int|
            if is_combo(i / 52, i % 52) && shape.covers(i / 52, i % 52) {
                weight
            } else {
                w[i]
            },
    )
}

/// The table after one more entry, or the reason why the entry is refused.
pub open spec fn apply_entry(t: Reading, e: Entry) -> Result<Reading, RangeErrorKind> {
    match e.shape {
        Shape::Combo { first, second } => {
            let s = slot(first as int, second as int);
            if t.pinned[s] != 255 && t.pinned[s] != e.weight {
                Err(RangeErrorKind::ConflictingWeight)
            } else {
                Ok(
                    Reading {
                        weights: paint(t.weights, e.shape, e.weight),
                        pinned: t.pinned.update(s, e.weight),
                    },
                )
            }
        },
        _ => Ok(Reading { weights: paint(t.weights, e.shape, e.weight), pinned: t.pinned }),
    }
}

/// The table after one more entry given as text.
pub open spec fn apply_token(t: Reading, tok: Seq<u8>) -> Result<Reading, RangeErrorKind> {
    match entry_of_bytes(tok) {
        Ok(e) => apply_entry(t, e),
        Err(kind) => Err(kind),
    }
}

/// Reads the entries of `text` from left to right into `t`; the first entry
/// of `text` is entry number `n` of the whole list.
pub open spec fn parse_tokens(text: Seq<u8>, t: Reading, n: nat) -> Result<Reading, RangeParseError>
    decreases text.len(),
{
    let k = run_len(text, false);
    if 0 <= k <= text.len() {
        match apply_token(t, text.subrange(0, k)) {
            Err(kind) => Err(RangeParseError { kind, token: n as usize }),
            Ok(t2) => if k == text.len() {
                Ok(t2)
            } else {
                parse_tokens(text.subrange(k + 1, text.len() as int), t2, n + 1)
            },
        }
    } else {
        Ok(t)
    }
}

/// The weights that a range text stands for. The empty text is the empty range.
pub open spec fn parse_range_spec(text: Seq<u8>) -> Result<Seq<u8>, RangeParseError> {
    if text.len() == 0 {
        Ok(empty_weights())
    } else {
        match parse_tokens(text, empty_reading(), 0) {
            Ok(t) => Ok(t.weights),
            Err(e) => Err(e),
        }
    }
}

/// A run ends at the first byte that does not continue it.
pub proof fn lemma_run_len(s: Seq<u8>, digits: bool, k: int)
    requires
        0 <= k <= s.len(),
        forall|j: int| 0 <= j < k ==> in_run(#[trigger] s[j], digits),
        k == s.len() || !in_run(s[k], digits),
    ensures
        run_len(s, digits) == k,
    decreases s.len(),
{
    if k > 0 {
        let t = s.drop_first();
        assert forall|j: int| 0 <= j < k - 1 implies in_run(#[trigger] t[j], digits) by {
            assert(t[j] == s[j + 1]);
        }
        lemma_run_len(t, digits, k - 1);
    }
}

/// A run is made of bytes that continue it and stops at one that does not.
pub proof fn lemma_run_len_bounds(s: Seq<u8>, digits: bool)
    ensures
        0 <= run_len(s, digits) <= s.len(),
        forall|j: int| 0 <= j < run_len(s, digits) ==> in_run(#[trigger] s[j], digits),
        run_len(s, digits) == s.len() || !in_run(s[run_len(s, digits)], digits),
    decreases s.len(),
{
    if s.len() > 0 && in_run(s[0], digits) {
        let t = s.drop_first();
        lemma_run_len_bounds(t, digits);
        assert forall|j: int| 0 <= j < run_len(s, digits) implies in_run(
            #[trigger] s[j],
            digits,
        ) by {
            if j > 0 {
                assert(s[j] == t[j - 1]);
            }
        }
    }
}

/// Painting a weight of at most 100 onto a weight table gives a weight table.
pub proof fn lemma_paint_is_weights(w: Seq<u8>, shape: Shape, weight: u8)
    requires
        is_weights(w),
        weight <= 100,
    ensures
        is_weights(paint(w, shape, weight)),
{
}

/// Whether `b` continues a run.
fn continues_run(b: u8, digits: bool) -> (r: bool)
    ensures
        r == in_run(b, digits),
{
    if digits {
        0x30 <= b && b <= 0x39
    } else {
        b != 0x2c
    }
}

/// Finds the end of the run that starts at `from` and ends at `to` at the latest.
pub(crate) fn scan_run(text: &[u8], from: usize, to: usize, digits: bool) -> (end: usize)
    requires
        from <= to <= text@.len(),
    ensures
        from <= end <= to,
        end - from == run_len(text@.subrange(from as int, to as int), digits),
{
    let mut i = from;
    while i < to && continues_run(text[i], digits)
        invariant
            from <= i <= to <= text@.len(),
            forall|j: int| from <= j < i ==> in_run(#[trigger] text@[j], digits),
        decreases to - i,
    {
        i += 1;
    }
    proof {
        let s = text@.subrange(from as int, to as int);
        assert forall|j: int| 0 <= j < i - from implies in_run(#[trigger] s[j], digits) by {
            assert(s[j] == text@[from + j]);
        }
        if i < to {
            assert(s[i - from] == text@[i as int]);
        }
        lemma_run_len(s, digits, i - from);
    }
    i
}

/// Reads the digits `text[from..to]` as a number; 101 stands for every number
/// above 100.
fn read_weight(text: &[u8], from: usize, to: usize) -> (w: u8)
    requires
        from <= to <= text@.len(),
        forall|j: int| from <= j < to ==> is_digit(#[trigger] text@[j]),
    ensures
        w <= 101,
        w <= 100 ==> decimal_value(text@.subrange(from as int, to as int)) == w,
        w == 101 ==> decimal_value(text@.subrange(from as int, to as int)) > 100,
{
    let mut acc: u32 = 0;
    let mut i = from;
    while i < to
        invariant
            from <= i <= to <= text@.len(),
            forall|j: int| from <= j < to ==> is_digit(#[trigger] text@[j]),
            acc <= 101,
            acc <= 100 ==> decimal_value(text@.subrange(from as int, i as int)) == acc,
            acc == 101 ==> decimal_value(text@.subrange(from as int, i as int)) > 100,
        decreases to - i,
    {
        assert(is_digit(text@[i as int]));
        let d: u32 = (text[i] - 0x30) as u32;
        proof {
            let s = text@.subrange(from as int, i + 1);
            assert(s.drop_last() =~= text@.subrange(from as int, i as int));
            assert(s.last() == text@[i as int]);
        }
        let next: u32 = acc * 10 + d;
        acc = if next > 100 { 101 } else { next };
        i += 1;
    }
    acc as u8
}

/// Reads the hand class `text[from..to]`.
fn parse_class(text: &[u8], from: usize, to: usize) -> (c: Option<HandClass>)
    requires
        from <= to <= text@.len(),
    ensures
        c == class_of_bytes(text@.subrange(from as int, to as int)),
{
    let n = to - from;
    if n != 2 && n != 3 {
        return None;
    }
    let ghost s = text@.subrange(from as int, to as int);
    assert(s[0] == text@[from as int] && s[1] == text@[from + 1]);
    let a = parse_rank(text[from]);
    let b = parse_rank(text[from + 1]);
    match (a, b) {
        (Some(a), Some(b)) => {
            if n == 2 {
                if a == b {
                    Some(HandClass { high: a, low: b, kind: HandKind::Pair })
                } else {
                    None
                }
            } else {
                assert(s[2] == text@[from + 2]);
                let q = text[from + 2];
                if a > b && q == 0x73 {
                    Some(HandClass { high: a, low: b, kind: HandKind::Suited })
                } else if a > b && q == 0x6f {
                    Some(HandClass { high: a, low: b, kind: HandKind::Offsuit })
                } else {
                    None
                }
            }
        },
        _ => None,
    }
}

/// The shape of a class followed by `+`.
fn plus_of(c: HandClass) -> (s: Shape)
    requires
        c.low <= c.high,
    ensures
        s == plus_shape(c),
{
    if c.high - c.low <= 1 {
        Shape::Ladder { kind: c.kind, gap: c.high - c.low, from: c.high, to: 12 }
    } else {
        Shape::Column { kind: c.kind, high: c.high, from: c.low, to: c.high - 1 }
    }
}

/// The shape of two classes joined by `-`.
fn dash_of(a: HandClass, b: HandClass) -> (s: Option<Shape>)
    requires
        a.low <= a.high,
        b.low <= b.high,
    ensures
        s == dash_shape(a, b),
{
    if a.kind != b.kind {
        None
    } else if a.high - a.low == b.high - b.low {
        if a.high > b.high {
            Some(Shape::Ladder { kind: a.kind, gap: a.high - a.low, from: b.high, to: a.high })
        } else {
            None
        }
    } else if a.high == b.high {
        if a.low > b.low {
            Some(Shape::Column { kind: a.kind, high: a.high, from: b.low, to: a.low })
        } else {
            None
        }
    } else {
        None
    }
}

/// The shape of two cards written one after the other.
fn combo_of(a: Option<Card>, b: Option<Card>) -> (s: Option<Shape>)
    ensures
        s == combo_shape(a, b),
{
    match (a, b) {
        (Some(x), Some(y)) => {
            if x < y {
                Some(Shape::Combo { first: x, second: y })
            } else if y < x {
                Some(Shape::Combo { first: y, second: x })
            } else {
                None
            }
        },
        _ => None,
    }
}

/// A class that was read has its ranks in order.
pub proof fn lemma_class_ranks(s: Seq<u8>)
    ensures
        class_of_bytes(s) matches Some(c) ==> c.low <= c.high < 13,
{
}

/// Reads `text[from..to]` as an entry without its weight prefix.
fn parse_shape(text: &[u8], from: usize, to: usize) -> (r: Option<Shape>)
    requires
        from <= to <= text@.len(),
    ensures
        r == shape_of_bytes(text@.subrange(from as int, to as int)),
        r matches Some(s) ==> s.wf(),
{
    let n = to - from;
    let ghost s = text@.subrange(from as int, to as int);
    if n == 2 || (n == 3 && text[from + 2] != 0x2b) {
        assert(n == 3 ==> s[2] == text@[from + 2]);
        match parse_class(text, from, to) {
            Some(c) => Some(Shape::Column { kind: c.kind, high: c.high, from: c.low, to: c.low }),
            None => None,
        }
    } else if n == 3 || (n == 4 && text[from + 3] == 0x2b) {
        assert(n == 3 ==> s[2] == text@[from + 2]);
        assert(n == 4 ==> s[3] == text@[from + 3]);
        assert(s.drop_last() =~= text@.subrange(from as int, to - 1));
        proof {
            lemma_class_ranks(s.drop_last());
        }
        match parse_class(text, from, to - 1) {
            Some(c) => Some(plus_of(c)),
            None => None,
        }
    } else if n == 4 {
        assert(s[3] == text@[from + 3]);
        assert(s.subrange(0, 2) =~= text@.subrange(from as int, from + 2));
        assert(s.subrange(2, 4) =~= text@.subrange(from + 2, from + 4));
        let a = card_at(text, from);
        let b = card_at(text, from + 2);
        combo_of(a, b)
    } else if n == 5 && text[from + 2] == 0x2d {
        assert(s[2] == text@[from + 2]);
        assert(s.subrange(0, 2) =~= text@.subrange(from as int, from + 2));
        assert(s.subrange(3, 5) =~= text@.subrange(from + 3, from + 5));
        proof {
            lemma_class_ranks(s.subrange(0, 2));
            lemma_class_ranks(s.subrange(3, 5));
        }
        match (parse_class(text, from, from + 2), parse_class(text, from + 3, from + 5)) {
            (Some(a), Some(b)) => dash_of(a, b),
            _ => None,
        }
    } else if n == 7 && text[from + 3] == 0x2d {
        assert(s[3] == text@[from + 3]);
        assert(s.subrange(0, 3) =~= text@.subrange(from as int, from + 3));
        assert(s.subrange(4, 7) =~= text@.subrange(from + 4, from + 7));
        proof {
            lemma_class_ranks(s.subrange(0, 3));
            lemma_class_ranks(s.subrange(4, 7));
        }
        match (parse_class(text, from, from + 3), parse_class(text, from + 4, from + 7)) {
            (Some(a), Some(b)) => dash_of(a, b),
            _ => None,
        }
    } else {
        assert(n == 5 ==> s[2] == text@[from + 2]);
        assert(n == 7 ==> s[3] == text@[from + 3]);
        None
    }
}

/// Reads `text[from..to]` as one entry of a range text.
fn parse_entry(text: &[u8], from: usize, to: usize) -> (r: Result<Entry, RangeErrorKind>)
    requires
        from <= to <= text@.len(),
    ensures
        r == entry_of_bytes(text@.subrange(from as int, to as int)),
        r matches Ok(e) ==> e.weight <= 100 && e.shape.wf(),
{
    let ghost tok = text@.subrange(from as int, to as int);
    let mid = scan_run(text, from, to, true);
    let ghost d = mid - from;
    proof {
        lemma_run_len_bounds(tok, true);
        if mid < to {
            assert(tok[d] == text@[mid as int]);
        }
    }
    if mid > from && mid < to && text[mid] == 0x40 {
        proof {
            assert forall|j: int| from <= j < mid implies is_digit(#[trigger] text@[j]) by {
                assert(in_run(tok[j - from], true));
            }
            assert(tok.subrange(0, d) =~= text@.subrange(from as int, mid as int));
            assert(tok.subrange(d + 1, tok.len() as int) =~= text@.subrange(mid + 1, to as int));
        }
        let w = read_weight(text, from, mid);
        if w > 100 {
            Err(RangeErrorKind::WeightOutOfBounds)
        } else {
            match parse_shape(text, mid + 1, to) {
                Some(shape) => Ok(Entry { weight: w, shape }),
                None => Err(RangeErrorKind::MalformedToken),
            }
        }
    } else {
        match parse_shape(text, from, to) {
            Some(shape) => Ok(Entry { weight: 100, shape }),
            None => Err(RangeErrorKind::MalformedToken),
        }
    }
}

/// The kind of the hand made of two cards.
pub fn hand_kind(c1: Card, c2: Card) -> (k: HandKind)
    ensures
        k == kind_of(c1 as int, c2 as int),
{
    if c1 / 4 == c2 / 4 {
        HandKind::Pair
    } else if c1 % 4 == c2 % 4 {
        HandKind::Suited
    } else {
        HandKind::Offsuit
    }
}

/// Whether the combination `(c1, c2)` belongs to `shape`.
pub fn shape_covers(shape: &Shape, c1: Card, c2: Card) -> (r: bool)
    requires
        is_combo(c1 as int, c2 as int),
    ensures
        r == shape.covers(c1 as int, c2 as int),
{
    match *shape {
        Shape::Combo { first, second } => c1 == first && c2 == second,
        Shape::Ladder { kind, gap, from, to } => {
            hand_kind(c1, c2) == kind && c2 / 4 - c1 / 4 == gap && from <= c2 / 4 && c2 / 4 <= to
        },
        Shape::Column { kind, high, from, to } => {
            hand_kind(c1, c2) == kind && c2 / 4 == high && from <= c1 / 4 && c1 / 4 <= to
        },
    }
}

/// Gives every combination of `shape` the weight `weight`.
fn paint_weights(weights: &mut Vec<u8>, shape: &Shape, weight: u8)
    requires
        old(weights)@.len() == 2704,
    ensures
        final(weights)@ == paint(old(weights)@, *shape, weight),
{
    let ghost before = weights@;
    let mut i: usize = 0;
    while i < 2704
        invariant
            i <= 2704,
            weights@.len() == 2704,
            before.len() == 2704,
            forall|j: int| 0 <= j < i ==> weights@[j] == #[trigger] paint(before, *shape, weight)[j],
            forall|j: int| i <= j < 2704 ==> #[trigger] weights@[j] == before[j],
        decreases 2704 - i,
    {
        let c1: u8 = (i / 52) as u8;
        let c2: u8 = (i % 52) as u8;
        if c1 < c2 && shape_covers(shape, c1, c2) {
            weights[i] = weight;
        }
        i += 1;
    }
    assert(weights@ =~= paint(before, *shape, weight));
}

/// A weighted range: for every combination of two cards, the percentage of
/// the time the player holds it.
pub struct Range {
    weights: Vec<u8>,
}

impl View for Range {
    type V = Seq<u8>;

    /// The weight table, indexed by `slot`.
    closed spec fn view(&self) -> Seq<u8> {
        self.weights@
    }
}

impl Range {
    #[verifier::type_invariant]
    spec fn inv(self) -> bool {
        is_weights(self.weights@)
    }

    /// The weight of the combination `(c1, c2)` in the table `w`, in either
    /// order of the cards; zero for anything that is no combination.
    pub open spec fn weight_in(w: Seq<u8>, c1: int, c2: int) -> int {
        if is_combo(c1, c2) {
            w[slot(c1, c2)] as int
        } else if is_combo(c2, c1) {
            w[slot(c2, c1)] as int
        } else {
            0
        }
    }

    /// The range that holds no hand.
    pub fn new() -> (r: Range)
        ensures
            r@ == empty_weights(),
            is_weights(r@),
    {
        let weights = vec![0u8; 2704];
        assert(weights@ =~= empty_weights());
        Range { weights }
    }

    /// The weight, in percent, of the hand made of `c1` and `c2`, in either
    /// order; zero where the two are not two distinct cards.
    pub fn weight(&self, c1: Card, c2: Card) -> (w: u8)
        ensures
            w == Range::weight_in(self@, c1 as int, c2 as int),
            w <= 100,
            is_weights(self@),
    {
        proof {
            use_type_invariant(self);
        }
        if c1 < c2 && c2 < 52 {
            self.weights[52 * (c1 as usize) + (c2 as usize)]
        } else if c2 < c1 && c1 < 52 {
            self.weights[52 * (c2 as usize) + (c1 as usize)]
        } else {
            0
        }
    }
}

/// Reading entries goes entry by entry.
pub proof fn lemma_parse_tokens_step(text: Seq<u8>, t: Reading, n: nat)
    ensures
        0 <= run_len(text, false) <= text.len(),
        parse_tokens(text, t, n) == match apply_token(
            t,
            text.subrange(0, run_len(text, false)),
        ) {
            Err(kind) => Err::<Reading, RangeParseError>(RangeParseError { kind, token: n as usize }),
            Ok(t2) => if run_len(text, false) == text.len() {
                Ok::<Reading, RangeParseError>(t2)
            } else {
                parse_tokens(
                    text.subrange(run_len(text, false) + 1, text.len() as int),
                    t2,
                    n + 1,
                )
            },
        },
{
    lemma_run_len_bounds(text, false);
}

/// Reading entries into a weight table gives a weight table.
pub proof fn lemma_parse_tokens_weights(text: Seq<u8>, t: Reading, n: nat)
    requires
        is_weights(t.weights),
        parse_tokens(text, t, n) is Ok,
    ensures
        is_weights(parse_tokens(text, t, n).unwrap().weights),
    decreases text.len(),
{
    lemma_parse_tokens_step(text, t, n);
    let k = run_len(text, false);
    let tok = text.subrange(0, k);
    let e = entry_of_bytes(tok).unwrap();
    lemma_paint_is_weights(t.weights, e.shape, e.weight);
    let t2 = apply_token(t, tok).unwrap();
    if k < text.len() {
        lemma_parse_tokens_weights(text.subrange(k + 1, text.len() as int), t2, n + 1);
    }
}

/// Every range text that is accepted stands for a weight table.
pub proof fn lemma_parse_gives_weights(text: Seq<u8>)
    requires
        parse_range_spec(text) is Ok,
    ensures
        is_weights(parse_range_spec(text).unwrap()),
{
    if text.len() > 0 {
        lemma_parse_tokens_weights(text, empty_reading(), 0);
    }
}

/// Applies one entry to the table held in `weights` and `pinned`.
fn apply_to(weights: &mut Vec<u8>, pinned: &mut Vec<u8>, entry: &Entry) -> (r: Result<
    (),
    RangeErrorKind,
>)
    requires
        is_weights(old(weights)@),
        old(pinned)@.len() == 2704,
        entry.weight <= 100,
        entry.shape.wf(),
    ensures
        is_weights(final(weights)@),
        final(pinned)@.len() == 2704,
        match r {
            Ok(_) => apply_entry(
                Reading { weights: old(weights)@, pinned: old(pinned)@ },
                *entry,
            ) == Ok::<Reading, RangeErrorKind>(
                Reading { weights: final(weights)@, pinned: final(pinned)@ },
            ),
            Err(kind) => apply_entry(
                Reading { weights: old(weights)@, pinned: old(pinned)@ },
                *entry,
            ) == Err::<Reading, RangeErrorKind>(kind),
        },
{
    match entry.shape {
        Shape::Combo { first, second } => {
            let s: usize = 52 * (first as usize) + (second as usize);
            if pinned[s] != 255 && pinned[s] != entry.weight {
                return Err(RangeErrorKind::ConflictingWeight);
            }
            pinned[s] = entry.weight;
        },
        _ => {},
    }
    proof {
        lemma_paint_is_weights(weights@, entry.shape, entry.weight);
    }
    paint_weights(weights, &entry.shape, entry.weight);
    Ok(())
}

/// Reads a range text.
///
/// The result is the weight table that `parse_range_spec` gives for the bytes
/// of the text, or the error it gives: the kind, and the number of the first
/// entry that is refused.
pub fn parse_range(text: &str) -> (res: Result<Range, RangeParseError>)
    ensures
        match res {
            Ok(r) => parse_range_spec(text.spec_bytes()) == Ok::<Seq<u8>, RangeParseError>(r@)
                && is_weights(r@),
            Err(e) => parse_range_spec(text.spec_bytes()) == Err::<Seq<u8>, RangeParseError>(e),
        },
{
    let bytes = text.as_bytes();
    let n = bytes.len();
    if n == 0 {
        return Ok(Range::new());
    }
    let mut weights = vec![0u8; 2704];
    let mut pinned = vec![255u8; 2704];
    assert(weights@ =~= empty_weights());
    assert(pinned@ =~= empty_reading().pinned);
    assert(bytes@.subrange(0, n as int) =~= bytes@);
    let mut pos: usize = 0;
    let mut token: usize = 0;
    loop
        invariant
            pos <= n,
            token <= pos,
            n == bytes@.len(),
            n > 0,
            is_weights(weights@),
            pinned@.len() == 2704,
            parse_tokens(bytes@, empty_reading(), 0) == parse_tokens(
                bytes@.subrange(pos as int, n as int),
                Reading { weights: weights@, pinned: pinned@ },
                token as nat,
            ),
            bytes@ == text.spec_bytes(),
        decreases n - pos,
    {
        let ghost rest = bytes@.subrange(pos as int, n as int);
        let ghost table = Reading { weights: weights@, pinned: pinned@ };
        let end = scan_run(bytes, pos, n, false);
        proof {
            lemma_parse_tokens_step(rest, table, token as nat);
            assert(rest.subrange(0, end - pos) =~= bytes@.subrange(pos as int, end as int));
            if end < n {
                assert(rest.subrange(end - pos + 1, rest.len() as int) =~= bytes@.subrange(
                    end + 1,
                    n as int,
                ));
            }
        }
        let entry = match parse_entry(bytes, pos, end) {
            Ok(entry) => entry,
            Err(kind) => {
                return Err(RangeParseError { kind, token });
            },
        };
        match apply_to(&mut weights, &mut pinned, &entry) {
            Ok(_) => {},
            Err(kind) => {
                return Err(RangeParseError { kind, token });
            },
        }
        if end == n {
            return Ok(Range { weights });
        }
        pos = end + 1;
        token += 1;
    }
}

} // verus!
