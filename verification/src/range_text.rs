//! The canonical text of a range: one weighted single-combination entry for
//! each hand of the range, in ascending canonical index, such as
//! `"100@3c2c,50@AsKs"`. Reading the canonical text gives the range back.

use vstd::prelude::*;
use vstd::string::{StringExecFns, StringSliceAdditionalSpecFns};
use vstd::utf8::{encode_utf8, is_ascii_chars, is_ascii_chars_encode_utf8};
use crate::card::{
    card_at, card_bytes, card_of_bytes, lemma_card_bytes_round_trip, rank_byte, suit_byte, Card,
};
use crate::hands::Hand;
use crate::range::{
    apply_entry, apply_token, decimal_value, empty_reading, empty_weights, entry_of_bytes, in_run,
    is_combo, is_weights, lemma_parse_gives_weights, lemma_parse_tokens_step, lemma_run_len, lemma_run_len_bounds, paint,
    parse_range_spec, parse_tokens, run_len, shape_of_bytes, slot, Entry, Range, RangeErrorKind,
    RangeParseError, Shape, Reading,
};

verus! {

/// The digits of a weight from 1 to 100, without leading zeros.
pub open spec fn weight_digits(w: int) -> Seq<u8> {
    if w >= 100 {
        seq![0x31u8, 0x30u8, 0x30u8]
    } else if w >= 10 {
        seq![(0x30 + w / 10) as u8, (0x30 + w % 10) as u8]
    } else {
        seq![(0x30 + w) as u8]
    }
}

/// The canonical entry of one combination: the weight, `@`, the higher card,
/// the lower card.
pub open spec fn combo_token(c1: int, c2: int, w: int) -> Seq<u8> {
    weight_digits(w) + seq![0x40u8] + card_bytes(c2) + card_bytes(c1)
}

/// The canonical text of the combinations whose canonical index is below `i`.
pub open spec fn canonical_upto(w: Seq<u8>, i: int) -> Seq<u8>
    decreases i,
{
    if i <= 0 {
        Seq::<u8>::empty()
    } else {
        let before = canonical_upto(w, i - 1);
        let c = i - 1;
        if w[c] == 0 {
            before
        } else if before.len() == 0 {
            combo_token(c / 52, c % 52, w[c] as int)
        } else {
            before + seq![0x2cu8] + combo_token(c / 52, c % 52, w[c] as int)
        }
    }
}

/// The canonical text of a weight table.
pub open spec fn canonical_bytes(w: Seq<u8>) -> Seq<u8> {
    canonical_upto(w, 2704)
}

/// The characters that a text of ASCII bytes stands for.
pub open spec fn text_of(bytes: Seq<u8>) -> Seq<char> {
    Seq::new(bytes.len(), |i: int| bytes[i] as char)
}

/// The table `w` with every slot from `i` on set to zero.
pub open spec fn masked(w: Seq<u8>, i: int) -> Seq<u8> {
    Seq::new(2704, |j: int| if j < i { w[j] } else { 0u8 })
}

/// The canonical entry of a combination reads as that combination with its
/// weight, and holds no comma.
pub proof fn lemma_combo_token(c1: int, c2: int, w: int)
    requires
        is_combo(c1, c2),
        1 <= w <= 100,
    ensures
        entry_of_bytes(combo_token(c1, c2, w)) == Ok::<Entry, RangeErrorKind>(
            Entry { weight: w as u8, shape: Shape::Combo { first: c1 as u8, second: c2 as u8 } },
        ),
        combo_token(c1, c2, w).len() > 0,
        forall|j: int|
            0 <= j < combo_token(c1, c2, w).len() ==> 0 < #[trigger] combo_token(c1, c2, w)[j]
                < 128 && combo_token(c1, c2, w)[j] != 0x2c,
{
    let dg = weight_digits(w);
    let tok = combo_token(c1, c2, w);
    let d = dg.len() as int;
    assert(forall|j: int| 0 <= j < d ==> tok[j] == dg[j]);
    assert(tok[d] == 0x40);
    assert(forall|j: int| 0 <= j < 2 ==> tok[d + 1 + j] == card_bytes(c2)[j]);
    assert(forall|j: int| 0 <= j < 2 ==> tok[d + 3 + j] == card_bytes(c1)[j]);
    lemma_run_len(tok, true, d);
    assert(tok.subrange(0, d) =~= dg);
    assert(decimal_value(dg) == w) by {
        reveal_with_fuel(decimal_value, 4);
        if w >= 100 {
            assert(dg.drop_last() =~= seq![0x31u8, 0x30u8]);
            assert(dg.drop_last().drop_last() =~= seq![0x31u8]);
            assert(dg.drop_last().drop_last().drop_last() =~= Seq::<u8>::empty());
        } else if w >= 10 {
            assert(dg.drop_last() =~= seq![(0x30 + w / 10) as u8]);
            assert(dg.drop_last().drop_last() =~= Seq::<u8>::empty());
        } else {
            assert(dg.drop_last() =~= Seq::<u8>::empty());
        }
    }
    let body = tok.subrange(d + 1, tok.len() as int);
    assert(body =~= card_bytes(c2) + card_bytes(c1));
    assert(body.subrange(0, 2) =~= card_bytes(c2));
    assert(body.subrange(2, 4) =~= card_bytes(c1));
    lemma_card_bytes_round_trip(c1);
    lemma_card_bytes_round_trip(c2);
    assert(body[3] == suit_byte(c1 % 4));
    assert(shape_of_bytes(body) == Some(Shape::Combo { first: c1 as u8, second: c2 as u8 }));
}

/// Reading a list and then one more entry is reading the list with the entry
/// appended.
pub proof fn lemma_parse_append(text: Seq<u8>, tok: Seq<u8>, t: Reading, n: nat)
    requires
        forall|j: int| 0 <= j < tok.len() ==> #[trigger] tok[j] != 0x2c,
        parse_tokens(text, t, n) is Ok,
        apply_token(parse_tokens(text, t, n).unwrap(), tok) is Ok,
    ensures
        parse_tokens(text + seq![0x2cu8] + tok, t, n) == Ok::<Reading, RangeParseError>(
            apply_token(parse_tokens(text, t, n).unwrap(), tok).unwrap(),
        ),
    decreases text.len(),
{
    let full = text + seq![0x2cu8] + tok;
    let k = run_len(text, false);
    lemma_run_len_bounds(text, false);
    assert forall|j: int| 0 <= j < k implies in_run(#[trigger] full[j], false) by {
        assert(full[j] == text[j]);
    }
    assert(!in_run(full[k], false)) by {
        if k < text.len() {
            assert(full[k] == text[k]);
        }
    }
    lemma_run_len(full, false, k);
    assert(full.subrange(0, k) =~= text.subrange(0, k));
    lemma_parse_tokens_step(text, t, n);
    lemma_parse_tokens_step(full, t, n);
    let t1 = apply_token(t, text.subrange(0, k)).unwrap();
    if k == text.len() {
        assert(full.subrange(k + 1, full.len() as int) =~= tok);
        lemma_run_len(tok, false, tok.len() as int);
        lemma_parse_tokens_step(tok, t1, n + 1);
        assert(tok.subrange(0, tok.len() as int) =~= tok);
    } else {
        let rest = text.subrange(k + 1, text.len() as int);
        assert(full.subrange(k + 1, full.len() as int) =~= rest + seq![0x2cu8] + tok);
        lemma_parse_append(rest, tok, t1, n + 1);
    }
}

/// Whether `t` is the table after reading the canonical text of the slots
/// below `i`: the weights of those slots, and no slot from `i` on set.
pub open spec fn is_read_upto(t: Reading, w: Seq<u8>, i: int) -> bool {
    &&& t.weights == masked(w, i)
    &&& t.pinned.len() == 2704
    &&& forall|j: int| i <= j < 2704 ==> #[trigger] t.pinned[j] == 255
}

/// Painting one combination sets its slot.
pub proof fn lemma_paint_combo(weights: Seq<u8>, c: int, weight: u8)
    requires
        weights.len() == 2704,
        0 <= c < 2704,
        is_combo(c / 52, c % 52),
    ensures
        paint(weights, Shape::Combo { first: (c / 52) as u8, second: (c % 52) as u8 }, weight)
            == weights.update(c, weight),
{
    let shape = Shape::Combo { first: (c / 52) as u8, second: (c % 52) as u8 };
    assert forall|j: int| 0 <= j < 2704 implies #[trigger] paint(weights, shape, weight)[j]
        == weights.update(c, weight)[j] by {
        if is_combo(j / 52, j % 52) && shape.covers(j / 52, j % 52) {
            assert(j == c);
        }
    }
    assert(paint(weights, shape, weight) =~= weights.update(c, weight));
}

/// Reading the canonical entry of the slot `c` after the slots below it
/// gives the table of the slots up to `c`.
pub proof fn lemma_canonical_step(w: Seq<u8>, c: int, t: Reading)
    requires
        is_weights(w),
        0 <= c < 2704,
        w[c] > 0,
        is_read_upto(t, w, c),
    ensures
        is_combo(c / 52, c % 52),
        apply_token(t, combo_token(c / 52, c % 52, w[c] as int)) is Ok,
        is_read_upto(apply_token(t, combo_token(c / 52, c % 52, w[c] as int)).unwrap(), w, c + 1),
{
    let c1 = c / 52;
    let c2 = c % 52;
    assert(is_combo(c1, c2));
    let shape = Shape::Combo { first: c1 as u8, second: c2 as u8 };
    let entry = Entry { weight: w[c], shape };
    lemma_combo_token(c1, c2, w[c] as int);
    assert(slot(c1, c2) == c);
    lemma_paint_combo(t.weights, c, w[c]);
    assert(t.pinned[c] == 255);
    let t2 = Reading { weights: t.weights.update(c, w[c]), pinned: t.pinned.update(c, w[c]) };
    assert(apply_entry(t, entry) == Ok::<Reading, RangeErrorKind>(t2));
    assert(t2.weights =~= masked(w, c + 1));
}

/// The canonical text holds ASCII bytes only.
pub proof fn lemma_canonical_is_ascii(w: Seq<u8>, i: int)
    requires
        is_weights(w),
        0 <= i <= 2704,
    ensures
        forall|j: int| 0 <= j < canonical_upto(w, i).len() ==> #[trigger] canonical_upto(w, i)[j] < 128,
    decreases i,
{
    if i > 0 {
        let c = i - 1;
        lemma_canonical_is_ascii(w, c);
        let before = canonical_upto(w, c);
        let all = canonical_upto(w, i);
        if w[c] != 0 {
            assert(is_combo(c / 52, c % 52));
            let tok = combo_token(c / 52, c % 52, w[c] as int);
            lemma_combo_token(c / 52, c % 52, w[c] as int);
            assert forall|j: int| 0 <= j < all.len() implies #[trigger] all[j] < 128 by {
                if before.len() == 0 {
                    assert(all[j] == tok[j]);
                } else if j < before.len() {
                    assert(all[j] == before[j]);
                } else if j == before.len() {
                    assert(all[j] == 0x2c);
                } else {
                    assert(all[j] == tok[j - before.len() - 1]);
                }
            }
        }
    }
}

/// The canonical text of the slots below `i` reads as the table with the
/// other slots set to zero.
pub proof fn lemma_canonical_upto(w: Seq<u8>, i: int)
    requires
        is_weights(w),
        0 <= i <= 2704,
    ensures
        canonical_upto(w, i).len() == 0 ==> masked(w, i) =~= empty_weights(),
        canonical_upto(w, i).len() > 0 ==> parse_tokens(canonical_upto(w, i), empty_reading(), 0)
            is Ok && is_read_upto(
            parse_tokens(canonical_upto(w, i), empty_reading(), 0).unwrap(),
            w,
            i,
        ),
    decreases i,
{
    if i > 0 {
        let c = i - 1;
        lemma_canonical_upto(w, c);
        let before = canonical_upto(w, c);
        if w[c] == 0 {
            assert(masked(w, i) =~= masked(w, c));
        } else {
            let tok = combo_token(c / 52, c % 52, w[c] as int);
            assert(is_combo(c / 52, c % 52));
            lemma_combo_token(c / 52, c % 52, w[c] as int);
            if before.len() == 0 {
                let t = empty_reading();
                assert(t.weights =~= masked(w, c));
                assert(is_read_upto(t, w, c));
                lemma_canonical_step(w, c, t);
                lemma_run_len(tok, false, tok.len() as int);
                lemma_parse_tokens_step(tok, t, 0);
                assert(tok.subrange(0, tok.len() as int) =~= tok);
            } else {
                let t = parse_tokens(before, empty_reading(), 0).unwrap();
                lemma_canonical_step(w, c, t);
                lemma_parse_append(before, tok, empty_reading(), 0);
            }
        }
    }
}

/// Reading the canonical text of a weight table gives the table back.
pub proof fn lemma_canonical_round_trip(w: Seq<u8>)
    requires
        is_weights(w),
    ensures
        parse_range_spec(canonical_bytes(w)) == Ok::<Seq<u8>, RangeParseError>(w),
{
    lemma_canonical_upto(w, 2704);
    assert(masked(w, 2704) =~= w);
    if canonical_bytes(w).len() == 0 {
        assert(w =~= empty_weights());
    }
}

/// Reading a range, writing its canonical text and reading that again gives
/// the same weights for every combination.
pub proof fn lemma_parse_is_idempotent(text: Seq<u8>)
    requires
        parse_range_spec(text) is Ok,
    ensures
        parse_range_spec(canonical_bytes(parse_range_spec(text).unwrap())) == parse_range_spec(
            text,
        ),
{
    lemma_parse_gives_weights(text);
    lemma_canonical_round_trip(parse_range_spec(text).unwrap());
}

/// The bytes of a text of ASCII characters are the characters' codes.
pub proof fn lemma_text_of_bytes(bytes: Seq<u8>)
    requires
        forall|j: int| 0 <= j < bytes.len() ==> #[trigger] bytes[j] < 128,
    ensures
        encode_utf8(text_of(bytes)) == bytes,
{
    let chars = text_of(bytes);
    assert(is_ascii_chars(chars));
    is_ascii_chars_encode_utf8(chars);
    assert(encode_utf8(chars) =~= bytes);
}

/// Whether `b` is a byte that the canonical text is made of.
pub open spec fn is_symbol(b: u8) -> bool {
    ||| 0x30 <= b <= 0x39
    ||| b == 0x2c
    ||| b == 0x40
    ||| b == 0x54
    ||| b == 0x4a
    ||| b == 0x51
    ||| b == 0x4b
    ||| b == 0x41
    ||| b == 0x63
    ||| b == 0x64
    ||| b == 0x68
    ||| b == 0x73
}

/// The one-character text of a byte of the canonical text.
fn symbol(b: u8) -> (s: &'static str)
    requires
        is_symbol(b),
    ensures
        s@ =~= seq![b as char],
{
    proof {
        reveal_strlit("0");
        reveal_strlit("1");
        reveal_strlit("2");
        reveal_strlit("3");
        reveal_strlit("4");
        reveal_strlit("5");
        reveal_strlit("6");
        reveal_strlit("7");
        reveal_strlit("8");
        reveal_strlit("9");
        reveal_strlit(",");
        reveal_strlit("@");
        reveal_strlit("T");
        reveal_strlit("J");
        reveal_strlit("Q");
        reveal_strlit("K");
        reveal_strlit("A");
        reveal_strlit("c");
        reveal_strlit("d");
        reveal_strlit("h");
        reveal_strlit("s");
    }
    if b == 0x30 {
        "0"
    } else if b == 0x31 {
        "1"
    } else if b == 0x32 {
        "2"
    } else if b == 0x33 {
        "3"
    } else if b == 0x34 {
        "4"
    } else if b == 0x35 {
        "5"
    } else if b == 0x36 {
        "6"
    } else if b == 0x37 {
        "7"
    } else if b == 0x38 {
        "8"
    } else if b == 0x39 {
        "9"
    } else if b == 0x2c {
        ","
    } else if b == 0x40 {
        "@"
    } else if b == 0x54 {
        "T"
    } else if b == 0x4a {
        "J"
    } else if b == 0x51 {
        "Q"
    } else if b == 0x4b {
        "K"
    } else if b == 0x41 {
        "A"
    } else if b == 0x63 {
        "c"
    } else if b == 0x64 {
        "d"
    } else if b == 0x68 {
        "h"
    } else {
        "s"
    }
}

/// Appends the character of the byte `b` to `out`.
fn push_symbol(out: &mut String, b: u8, Ghost(bytes): Ghost<Seq<u8>>)
    requires
        is_symbol(b),
        old(out)@ =~= text_of(bytes),
    ensures
        final(out)@ =~= text_of(bytes.push(b)),
{
    out.append(symbol(b));
}

/// The text byte of a rank.
fn rank_symbol(r: u8) -> (b: u8)
    requires
        r < 13,
    ensures
        b == rank_byte(r as int),
        is_symbol(b),
{
    if r <= 7 {
        0x32 + r
    } else if r == 8 {
        0x54
    } else if r == 9 {
        0x4a
    } else if r == 10 {
        0x51
    } else if r == 11 {
        0x4b
    } else {
        0x41
    }
}

/// The text byte of a suit.
fn suit_symbol(u: u8) -> (b: u8)
    requires
        u < 4,
    ensures
        b == suit_byte(u as int),
        is_symbol(b),
{
    if u == 0 {
        0x63
    } else if u == 1 {
        0x64
    } else if u == 2 {
        0x68
    } else {
        0x73
    }
}

/// Appends the two characters of the card `c` to `out`.
fn push_card(out: &mut String, c: u8, Ghost(bytes): Ghost<Seq<u8>>)
    requires
        c < 52,
        old(out)@ =~= text_of(bytes),
    ensures
        final(out)@ =~= text_of(bytes + card_bytes(c as int)),
{
    let r = rank_symbol(c / 4);
    let u = suit_symbol(c % 4);
    push_symbol(out, r, Ghost(bytes));
    push_symbol(out, u, Ghost(bytes.push(r)));
    assert(bytes.push(r).push(u) =~= bytes + card_bytes(c as int));
}

/// Appends the canonical entry of the combination `(c1, c2)` to `out`.
fn push_combo(out: &mut String, c1: u8, c2: u8, w: u8, Ghost(bytes): Ghost<Seq<u8>>)
    requires
        is_combo(c1 as int, c2 as int),
        1 <= w <= 100,
        old(out)@ =~= text_of(bytes),
    ensures
        final(out)@ =~= text_of(bytes + combo_token(c1 as int, c2 as int, w as int)),
{
    let ghost mut done = bytes;
    if w >= 100 {
        push_symbol(out, 0x31, Ghost(done));
        push_symbol(out, 0x30, Ghost(done.push(0x31)));
        push_symbol(out, 0x30, Ghost(done.push(0x31).push(0x30)));
        proof {
            done = done.push(0x31).push(0x30).push(0x30);
        }
    } else if w >= 10 {
        let hi: u8 = 0x30 + w / 10;
        let lo: u8 = 0x30 + w % 10;
        push_symbol(out, hi, Ghost(done));
        push_symbol(out, lo, Ghost(done.push(hi)));
        proof {
            done = done.push(hi).push(lo);
        }
    } else {
        let lo: u8 = 0x30 + w;
        push_symbol(out, lo, Ghost(done));
        proof {
            done = done.push(lo);
        }
    }
    assert(done =~= bytes + weight_digits(w as int));
    push_symbol(out, 0x40, Ghost(done));
    push_card(out, c2, Ghost(done.push(0x40)));
    push_card(out, c1, Ghost(done.push(0x40) + card_bytes(c2 as int)));
    assert(done.push(0x40) + card_bytes(c2 as int) + card_bytes(c1 as int) =~= bytes
        + combo_token(c1 as int, c2 as int, w as int));
}

impl Range {
    /// The canonical text of the range. Reading it gives the range back.
    pub fn to_text(&self) -> (text: String)
        ensures
            text@ == text_of(canonical_bytes(self@)),
            encode_utf8(text@) == canonical_bytes(self@),
            parse_range_spec(encode_utf8(text@)) == Ok::<Seq<u8>, RangeParseError>(self@),
    {
        let mut out = String::new();
        let ghost mut bytes = Seq::<u8>::empty();
        assert(out@ =~= text_of(bytes));
        let mut any = false;
        let mut i: usize = 0;
        let _ = self.weight(0, 1);
        while i < 2704
            invariant
                i <= 2704,
                is_weights(self@),
                bytes == canonical_upto(self@, i as int),
                out@ =~= text_of(bytes),
                any == (bytes.len() > 0),
            decreases 2704 - i,
        {
            let c1: u8 = (i / 52) as u8;
            let c2: u8 = (i % 52) as u8;
            assert(52 * (i / 52) + i % 52 == i);
            let w = if c1 < c2 {
                self.weight(c1, c2)
            } else {
                0
            };
            assert(self@[i as int] == w) by {
                if c1 < c2 {
                    assert(slot(c1 as int, c2 as int) == i);
                } else {
                    assert(!is_combo(i as int / 52, i as int % 52));
                }
            }
            if w > 0 {
                proof {
                    lemma_combo_token(c1 as int, c2 as int, w as int);
                }
                if any {
                    push_symbol(&mut out, 0x2c, Ghost(bytes));
                    push_combo(&mut out, c1, c2, w, Ghost(bytes.push(0x2c)));
                    proof {
                        assert(bytes.push(0x2c) + combo_token(c1 as int, c2 as int, w as int)
                            =~= bytes + seq![0x2cu8] + combo_token(
                            c1 as int,
                            c2 as int,
                            w as int,
                        ));
                        bytes = bytes + seq![0x2cu8] + combo_token(c1 as int, c2 as int, w as int);
                    }
                } else {
                    assert(bytes.len() == 0);
                    push_combo(&mut out, c1, c2, w, Ghost(bytes));
                    proof {
                        assert(bytes + combo_token(c1 as int, c2 as int, w as int) =~= combo_token(
                            c1 as int,
                            c2 as int,
                            w as int,
                        ));
                        bytes = combo_token(c1 as int, c2 as int, w as int);
                    }
                }
                any = true;
            }
            i += 1;
        }
        proof {
            lemma_canonical_is_ascii(self@, 2704);
            lemma_canonical_round_trip(self@);
            lemma_text_of_bytes(bytes);
        }
        out
    }
}

/// The text of a hand: the higher card, then the lower, such as `"KsJs"`.
pub open spec fn hand_bytes(hand: Hand) -> Seq<u8> {
    card_bytes(hand.second as int) + card_bytes(hand.first as int)
}

/// The two cards that a text of four characters stands for, the lower card
/// first, if it is two distinct cards in either order.
pub open spec fn hole_of_bytes(text: Seq<u8>) -> Option<(Card, Card)> {
    if text.len() != 4 {
        None
    } else {
        match (card_of_bytes(text.subrange(0, 2)), card_of_bytes(text.subrange(2, 4))) {
            (Some(a), Some(b)) => if a < b {
                Some((a, b))
            } else if b < a {
                Some((b, a))
            } else {
                None
            },
            _ => None,
        }
    }
}

/// The text of a hand, the higher card first.
pub fn hand_to_string(hand: &Hand) -> (text: String)
    requires
        is_combo(hand.first as int, hand.second as int),
    ensures
        text@ == text_of(hand_bytes(*hand)),
        encode_utf8(text@) == hand_bytes(*hand),
        hole_of_bytes(encode_utf8(text@)) == Some((hand.first, hand.second)),
{
    let mut out = String::new();
    let ghost none = Seq::<u8>::empty();
    assert(out@ =~= text_of(none));
    push_card(&mut out, hand.second, Ghost(none));
    push_card(&mut out, hand.first, Ghost(none + card_bytes(hand.second as int)));
    proof {
        let bytes = hand_bytes(*hand);
        assert(none + card_bytes(hand.second as int) + card_bytes(hand.first as int) =~= bytes);
        lemma_text_of_bytes(bytes);
        assert(bytes.subrange(0, 2) =~= card_bytes(hand.second as int));
        assert(bytes.subrange(2, 4) =~= card_bytes(hand.first as int));
        lemma_card_bytes_round_trip(hand.first as int);
        lemma_card_bytes_round_trip(hand.second as int);
    }
    out
}

/// Reads a hand from its text, such as `"KsJs"`: two distinct cards in
/// either order. The result holds the lower card first.
pub fn hand_from_str(text: &str) -> (hole: Option<(Card, Card)>)
    ensures
        hole == hole_of_bytes(text.spec_bytes()),
        hole matches Some(h) ==> is_combo(h.0 as int, h.1 as int),
{
    let bytes = text.as_bytes();
    if bytes.len() != 4 {
        return None;
    }
    match (card_at(bytes, 0), card_at(bytes, 2)) {
        (Some(a), Some(b)) => {
            if a < b {
                Some((a, b))
            } else if b < a {
                Some((b, a))
            } else {
                None
            }
        },
        _ => None,
    }
}

/// The texts of hands, in the order of the hands.
pub fn holes_to_strings(hands: &Vec<Hand>) -> (texts: Vec<String>)
    requires
        forall|i: int|
            0 <= i < hands@.len() ==> is_combo(
                (#[trigger] hands@[i]).first as int,
                hands@[i].second as int,
            ),
    ensures
        texts@.len() == hands@.len(),
        forall|i: int|
            0 <= i < hands@.len() ==> (#[trigger] texts@[i])@ == text_of(hand_bytes(hands@[i])),
{
    let mut texts: Vec<String> = Vec::new();
    let mut i: usize = 0;
    while i < hands.len()
        invariant
            i <= hands@.len(),
            texts@.len() == i,
            forall|j: int|
                0 <= j < hands@.len() ==> is_combo(
                    (#[trigger] hands@[j]).first as int,
                    hands@[j].second as int,
                ),
            forall|j: int| 0 <= j < i ==> (#[trigger] texts@[j])@ == text_of(hand_bytes(hands@[j])),
        decreases hands@.len() - i,
    {
        let text = hand_to_string(&hands[i]);
        texts.push(text);
        i += 1;
    }
    texts
}

} // verus!
