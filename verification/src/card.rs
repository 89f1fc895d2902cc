//! The 52-card deck as integers, and the two-character text form of a card.

use vstd::prelude::*;
use vstd::string::StringSliceAdditionalSpecFns;

verus! {

/// A card is `4 * rank + suit`, with the ranks deuce to ace as `0..13` and the
/// suits clubs, diamonds, hearts, spades as `0..4`.
pub type Card = u8;

/// Marks a board slot whose card has not been dealt.
pub const NOT_DEALT: Card = 255;

/// Whether `c` names a card of the deck.
pub open spec fn is_card(c: int) -> bool {
    0 <= c < 52
}

/// The rank that a text byte stands for: `'2'..'9'`, `'T'`, `'J'`, `'Q'`, `'K'`, `'A'`.
pub open spec fn rank_of_byte(b: u8) -> Option<u8> {
    if 0x32 <= b <= 0x39 {
        Some((b - 0x32) as u8)
    } else if b == 0x54 {
        Some(8u8)
    } else if b == 0x4a {
        Some(9u8)
    } else if b == 0x51 {
        Some(10u8)
    } else if b == 0x4b {
        Some(11u8)
    } else if b == 0x41 {
        Some(12u8)
    } else {
        None
    }
}

/// The suit that a text byte stands for: `'c'`, `'d'`, `'h'`, `'s'`.
pub open spec fn suit_of_byte(b: u8) -> Option<u8> {
    if b == 0x63 {
        Some(0u8)
    } else if b == 0x64 {
        Some(1u8)
    } else if b == 0x68 {
        Some(2u8)
    } else if b == 0x73 {
        Some(3u8)
    } else {
        None
    }
}

/// The text byte of a rank below 13.
pub open spec fn rank_byte(r: int) -> u8 {
    if 0 <= r <= 7 {
        (0x32 + r) as u8
    } else if r == 8 {
        0x54
    } else if r == 9 {
        0x4a
    } else if r == 10 {
        0x51
    } else if r == 11 {
        0x4b
    } else {
        0x41
    }
}

/// The text byte of a suit below 4.
pub open spec fn suit_byte(s: int) -> u8 {
    if s == 0 {
        0x63
    } else if s == 1 {
        0x64
    } else if s == 2 {
        0x68
    } else {
        0x73
    }
}

/// The card that a text stands for: a rank byte followed by a suit byte.
pub open spec fn card_of_bytes(s: Seq<u8>) -> Option<Card> {
    if s.len() != 2 {
        None
    } else {
        match (rank_of_byte(s[0]), suit_of_byte(s[1])) {
            (Some(r), Some(u)) => Some((4 * r + u) as u8),
            _ => None,
        }
    }
}

/// The two text bytes of a card.
pub open spec fn card_bytes(c: int) -> Seq<u8> {
    seq![rank_byte(c / 4), suit_byte(c % 4)]
}

/// Rank of a card, `0` for a deuce up to `12` for an ace.
pub fn rank_of(c: Card) -> (r: u8)
    requires
        is_card(c as int),
    ensures
        r == c / 4,
        r < 13,
{
    c / 4
}

/// Suit of a card: clubs `0`, diamonds `1`, hearts `2`, spades `3`.
pub fn suit_of(c: Card) -> (s: u8)
    requires
        is_card(c as int),
    ensures
        s == c % 4,
        s < 4,
{
    c % 4
}

/// Reads a rank byte.
pub fn parse_rank(b: u8) -> (r: Option<u8>)
    ensures
        r == rank_of_byte(b),
        r matches Some(v) ==> v < 13,
{
    if 0x32 <= b && b <= 0x39 {
        Some(b - 0x32)
    } else if b == 0x54 {
        Some(8)
    } else if b == 0x4a {
        Some(9)
    } else if b == 0x51 {
        Some(10)
    } else if b == 0x4b {
        Some(11)
    } else if b == 0x41 {
        Some(12)
    } else {
        None
    }
}

/// Reads a suit byte.
pub fn parse_suit(b: u8) -> (s: Option<u8>)
    ensures
        s == suit_of_byte(b),
        s matches Some(v) ==> v < 4,
{
    if b == 0x63 {
        Some(0)
    } else if b == 0x64 {
        Some(1)
    } else if b == 0x68 {
        Some(2)
    } else if b == 0x73 {
        Some(3)
    } else {
        None
    }
}

/// Reads the card at `text[at..at + 2]`.
pub fn card_at(text: &[u8], at: usize) -> (c: Option<Card>)
    requires
        at + 2 <= text@.len(),
    ensures
        c == card_of_bytes(text@.subrange(at as int, at + 2)),
        c matches Some(v) ==> is_card(v as int),
{
    let r = parse_rank(text[at]);
    let u = parse_suit(text[at + 1]);
    match (r, u) {
        (Some(r), Some(u)) => Some(4 * r + u),
        _ => None,
    }
}

/// Reads a card from its two-character text, such as `"Qc"`.
///
/// The result is `None` unless the text is exactly a rank character followed
/// by a suit character.
pub fn card_from_str(text: &str) -> (c: Option<Card>)
    ensures
        c == card_of_bytes(text.spec_bytes()),
        c matches Some(v) ==> is_card(v as int),
{
    let bytes = text.as_bytes();
    if bytes.len() != 2 {
        None
    } else {
        assert(bytes@.subrange(0, 2) =~= bytes@);
        card_at(bytes, 0)
    }
}

/// Reading the text of a card gives the card back.
pub proof fn lemma_card_bytes_round_trip(c: int)
    requires
        is_card(c),
    ensures
        card_of_bytes(card_bytes(c)) == Some(c as u8),
{
}

/// Only a card's own text reads as that card.
pub proof fn lemma_card_of_bytes_unique(s: Seq<u8>)
    requires
        card_of_bytes(s) is Some,
    ensures
        is_card(card_of_bytes(s).unwrap() as int),
        s =~= card_bytes(card_of_bytes(s).unwrap() as int),
{
}

} // verus!
