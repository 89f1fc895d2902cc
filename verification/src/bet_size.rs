//! Bet-size options and their text grammar.
//!
//! A size list is a comma-separated text; spaces around an entry are ignored
//! and a text of spaces only is the empty list. An entry is one of
//!
//! * `"60%"`: a fraction of the pot;
//! * `"2.5x"`: a multiple of the bet that is raised, in a raise list only;
//! * `"e"`: the geometric size, which makes the pot grow by the same factor
//!   on every street left and ends all in;
//! * `"a"`: all in.
//!
//! A number has one to four digits and at most two decimals.

use vstd::prelude::*;
use vstd::string::StringSliceAdditionalSpecFns;
use crate::range::{
    decimal_value, is_digit, lemma_run_len_bounds, run_len, scan_run,
};

verus! {

/// One sizing rule.
#[derive(Clone, Copy, PartialEq, Eq, Debug, Structural)]
pub enum BetSize {
    /// A fraction of the pot, in hundredths of a percent: `6000` is 60%.
    PotRelative(u32),
    /// A multiple of the bet that is raised, in hundredths: `250` is 2.5 times.
    PrevBetRelative(u32),
    /// The geometric size.
    Geometric,
    /// All in.
    AllIn,
}

/// The sizes a player may bet and raise with on one street.
#[derive(Clone, Debug)]
pub struct BetSizeOptions {
    pub bet: Vec<BetSize>,
    pub raise: Vec<BetSize>,
}

/// The sizes the out-of-position player may lead with after calling on the
/// street before.
#[derive(Clone, Debug)]
pub struct DonkSizeOptions {
    pub donk: Vec<BetSize>,
}

/// Why a size text was refused.
#[derive(Clone, Copy, PartialEq, Eq, Debug, Structural)]
pub enum BetSizeErrorKind {
    /// The entry is not of the grammar.
    UnknownToken,
    /// The size is zero or negative.
    NonPositiveSize,
    /// A multiple of the previous bet where there is no bet to raise.
    MultiplierWithoutBet,
}

/// A refused size text: the reason, and the position of the offending entry
/// in the comma-separated list, counted from zero.
#[derive(Clone, Copy, PartialEq, Eq, Debug, Structural)]
pub struct BetSizeParseError {
    pub kind: BetSizeErrorKind,
    pub token: usize,
}

/// `s` without its leading spaces.
pub open spec fn trim_start(s: Seq<u8>) -> Seq<u8>
    decreases s.len(),
{
    if s.len() > 0 && s[0] == 0x20 {
        trim_start(s.drop_first())
    } else {
        s
    }
}

/// `s` without its trailing spaces.
pub open spec fn trim_end(s: Seq<u8>) -> Seq<u8>
    decreases s.len(),
{
    if s.len() > 0 && s.last() == 0x20 {
        trim_end(s.drop_last())
    } else {
        s
    }
}

/// `s` without the spaces around it.
pub open spec fn trim(s: Seq<u8>) -> Seq<u8> {
    trim_end(trim_start(s))
}

/// A hundred times the number that a text stands for: one to four digits,
/// then optionally a point and one or two digits.
pub open spec fn hundredths(s: Seq<u8>) -> Option<nat> {
    let d = run_len(s, true);
    if d < 1 || d > 4 {
        None
    } else if d == s.len() {
        Some(100 * decimal_value(s))
    } else if s[d] != 0x2e {
        None
    } else if s.len() == d + 2 && is_digit(s[d + 1]) {
        Some((100 * decimal_value(s.subrange(0, d)) + 10 * (s[d + 1] - 0x30)) as nat)
    } else if s.len() == d + 3 && is_digit(s[d + 1]) && is_digit(s[d + 2]) {
        Some(
            (100 * decimal_value(s.subrange(0, d)) + 10 * (s[d + 1] - 0x30) + (s[d + 2]
                - 0x30)) as nat,
        )
    } else {
        None
    }
}

/// The sizing rule that an entry without the spaces around it stands for.
/// `raise` tells whether the entry belongs to a raise list.
pub open spec fn size_of_bytes(tok: Seq<u8>, raise: bool) -> Result<BetSize, BetSizeErrorKind> {
    if tok =~= seq![0x61u8] {
        Ok(BetSize::AllIn)
    } else if tok =~= seq![0x65u8] {
        Ok(BetSize::Geometric)
    } else {
        let negative = tok.len() > 0 && tok[0] == 0x2d;
        let body = if negative {
            tok.drop_first()
        } else {
            tok
        };
        if body.len() < 2 || (body.last() != 0x25 && body.last() != 0x78) {
            Err(BetSizeErrorKind::UnknownToken)
        } else {
            match hundredths(body.drop_last()) {
                None => Err(BetSizeErrorKind::UnknownToken),
                Some(v) => if negative || v == 0 {
                    Err(BetSizeErrorKind::NonPositiveSize)
                } else if body.last() == 0x25 {
                    Ok(BetSize::PotRelative(v as u32))
                } else if raise {
                    Ok(BetSize::PrevBetRelative(v as u32))
                } else {
                    Err(BetSizeErrorKind::MultiplierWithoutBet)
                },
            }
        }
    }
}

/// The sizing rules of the entries of `text`, whose first entry is entry
/// number `n` of the whole list.
pub open spec fn sizes_from(text: Seq<u8>, raise: bool, n: nat) -> Result<
    Seq<BetSize>,
    BetSizeParseError,
>
    decreases text.len(),
{
    let k = run_len(text, false);
    if 0 <= k <= text.len() {
        match size_of_bytes(trim(text.subrange(0, k)), raise) {
            Err(kind) => Err(BetSizeParseError { kind, token: n as usize }),
            Ok(size) => if k == text.len() {
                Ok(seq![size])
            } else {
                match sizes_from(text.subrange(k + 1, text.len() as int), raise, n + 1) {
                    Ok(rest) => Ok(seq![size] + rest),
                    Err(e) => Err(e),
                }
            },
        }
    } else {
        Ok(Seq::<BetSize>::empty())
    }
}

/// The size list that a text stands for.
pub open spec fn sizes_of_bytes(text: Seq<u8>, raise: bool) -> Result<
    Seq<BetSize>,
    BetSizeParseError,
> {
    if trim(text).len() == 0 {
        Ok(Seq::<BetSize>::empty())
    } else {
        sizes_from(text, raise, 0)
    }
}

/// Whether a sizing rule has a size above zero.
pub open spec fn is_size(size: BetSize) -> bool {
    match size {
        BetSize::PotRelative(v) => 0 < v <= 999999,
        BetSize::PrevBetRelative(v) => 0 < v <= 999999,
        _ => true,
    }
}

/// Whether every rule of a list has a size above zero.
pub open spec fn are_sizes(sizes: Seq<BetSize>) -> bool {
    forall|i: int| 0 <= i < sizes.len() ==> is_size(#[trigger] sizes[i])
}

/// The leading spaces end at the first byte that is no space.
pub proof fn lemma_trim_start(s: Seq<u8>, k: int)
    requires
        0 <= k <= s.len(),
        forall|j: int| 0 <= j < k ==> #[trigger] s[j] == 0x20,
        k == s.len() || s[k] != 0x20,
    ensures
        trim_start(s) == s.subrange(k, s.len() as int),
    decreases s.len(),
{
    if k > 0 {
        let t = s.drop_first();
        assert forall|j: int| 0 <= j < k - 1 implies #[trigger] t[j] == 0x20 by {
            assert(t[j] == s[j + 1]);
        }
        lemma_trim_start(t, k - 1);
        assert(t.subrange(k - 1, t.len() as int) =~= s.subrange(k, s.len() as int));
    } else {
        assert(s.subrange(0, s.len() as int) =~= s);
    }
}

/// The trailing spaces start after the last byte that is no space.
pub proof fn lemma_trim_end(s: Seq<u8>, k: int)
    requires
        0 <= k <= s.len(),
        forall|j: int| k <= j < s.len() ==> #[trigger] s[j] == 0x20,
        k == 0 || s[k - 1] != 0x20,
    ensures
        trim_end(s) == s.subrange(0, k),
    decreases s.len(),
{
    if k < s.len() {
        let t = s.drop_last();
        assert(s.last() == s[s.len() - 1]);
        assert forall|j: int| k <= j < t.len() implies #[trigger] t[j] == 0x20 by {
            assert(t[j] == s[j]);
        }
        lemma_trim_end(t, k);
        assert(t.subrange(0, k) =~= s.subrange(0, k));
    } else {
        assert(s.subrange(0, s.len() as int) =~= s);
    }
}

/// Finds the part of `text[from..to]` that is left without the spaces around it.
fn trim_bounds(text: &[u8], from: usize, to: usize) -> (r: (usize, usize))
    requires
        from <= to <= text@.len(),
    ensures
        from <= r.0 <= r.1 <= to,
        text@.subrange(r.0 as int, r.1 as int) == trim(text@.subrange(from as int, to as int)),
{
    let mut a = from;
    while a < to && text[a] == 0x20
        invariant
            from <= a <= to <= text@.len(),
            forall|j: int| from <= j < a ==> #[trigger] text@[j] == 0x20,
        decreases to - a,
    {
        a += 1;
    }
    let mut b = to;
    while b > a && text[b - 1] == 0x20
        invariant
            a <= b <= to <= text@.len(),
            forall|j: int| b <= j < to ==> #[trigger] text@[j] == 0x20,
        decreases b - a,
    {
        b -= 1;
    }
    proof {
        let s = text@.subrange(from as int, to as int);
        assert forall|j: int| 0 <= j < a - from implies #[trigger] s[j] == 0x20 by {
            assert(s[j] == text@[from + j]);
        }
        if a < to {
            assert(s[a - from] == text@[a as int]);
        }
        lemma_trim_start(s, a - from);
        let t = text@.subrange(a as int, to as int);
        assert(s.subrange(a - from, s.len() as int) =~= t);
        assert forall|j: int| b - a <= j < t.len() implies #[trigger] t[j] == 0x20 by {
            assert(t[j] == text@[a + j]);
        }
        if b > a {
            assert(t[b - a - 1] == text@[b - 1]);
        }
        lemma_trim_end(t, b - a);
        assert(t.subrange(0, b - a) =~= text@.subrange(a as int, b as int));
    }
    (a, b)
}

/// Reads the digits `text[from..to]`, four at most, as a number.
fn read_digits(text: &[u8], from: usize, to: usize) -> (v: u32)
    requires
        from <= to <= text@.len(),
        to - from <= 4,
        forall|j: int| from <= j < to ==> is_digit(#[trigger] text@[j]),
    ensures
        v == decimal_value(text@.subrange(from as int, to as int)),
        v <= 9999,
{
    let mut acc: u32 = 0;
    let mut i = from;
    while i < to
        invariant
            from <= i <= to <= text@.len(),
            to - from <= 4,
            forall|j: int| from <= j < to ==> is_digit(#[trigger] text@[j]),
            acc == decimal_value(text@.subrange(from as int, i as int)),
            i - from == 0 ==> acc == 0,
            i - from == 1 ==> acc <= 9,
            i - from == 2 ==> acc <= 99,
            i - from == 3 ==> acc <= 999,
            i - from == 4 ==> acc <= 9999,
        decreases to - i,
    {
        assert(is_digit(text@[i as int]));
        let d: u32 = (text[i] - 0x30) as u32;
        proof {
            let s = text@.subrange(from as int, i + 1);
            assert(s.drop_last() =~= text@.subrange(from as int, i as int));
            assert(s.last() == text@[i as int]);
        }
        acc = acc * 10 + d;
        i += 1;
    }
    acc
}

/// Reads `text[from..to]` as a number with at most two decimals.
fn read_hundredths(text: &[u8], from: usize, to: usize) -> (r: Option<u32>)
    requires
        from <= to <= text@.len(),
    ensures
        match r {
            Some(v) => hundredths(text@.subrange(from as int, to as int)) == Some(v as nat) && v
                <= 999999,
            None => hundredths(text@.subrange(from as int, to as int)) is None,
        },
{
    let ghost s = text@.subrange(from as int, to as int);
    let mid = scan_run(text, from, to, true);
    let ghost d = mid - from;
    proof {
        lemma_run_len_bounds(s, true);
        assert forall|j: int| from <= j < mid implies is_digit(#[trigger] text@[j]) by {
            assert(s[j - from] == text@[j]);
        }
        assert(s.subrange(0, d) =~= text@.subrange(from as int, mid as int));
        if mid == to {
            assert(s.subrange(0, d) =~= s);
        }
    }
    if mid == from || mid - from > 4 {
        return None;
    }
    let whole = read_digits(text, from, mid);
    if mid == to {
        return Some(100 * whole);
    }
    assert(s[d] == text@[mid as int]);
    if text[mid] != 0x2e {
        return None;
    }
    if to - mid == 2 {
        assert(s[d + 1] == text@[mid + 1]);
        let a = text[mid + 1];
        if 0x30 <= a && a <= 0x39 {
            return Some(100 * whole + 10 * ((a - 0x30) as u32));
        }
        None
    } else if to - mid == 3 {
        assert(s[d + 1] == text@[mid + 1]);
        assert(s[d + 2] == text@[mid + 2]);
        let a = text[mid + 1];
        let b = text[mid + 2];
        if 0x30 <= a && a <= 0x39 && 0x30 <= b && b <= 0x39 {
            return Some(100 * whole + 10 * ((a - 0x30) as u32) + ((b - 0x30) as u32));
        }
        None
    } else {
        None
    }
}

/// Reads `text[from..to]`, an entry without the spaces around it.
fn parse_size(text: &[u8], from: usize, to: usize, raise: bool) -> (r: Result<
    BetSize,
    BetSizeErrorKind,
>)
    requires
        from <= to <= text@.len(),
    ensures
        r == size_of_bytes(text@.subrange(from as int, to as int), raise),
        r matches Ok(size) ==> is_size(size),
{
    let ghost tok = text@.subrange(from as int, to as int);
    let n = to - from;
    if n >= 1 {
        assert(tok[0] == text@[from as int]);
        assert(tok.last() == text@[to - 1]);
    }
    if n == 1 && text[from] == 0x61 {
        assert(tok =~= seq![0x61u8]);
        return Ok(BetSize::AllIn);
    }
    if n == 1 && text[from] == 0x65 {
        assert(tok =~= seq![0x65u8]);
        return Ok(BetSize::Geometric);
    }
    let negative = n > 0 && text[from] == 0x2d;
    let start = if negative {
        from + 1
    } else {
        from
    };
    let ghost body = text@.subrange(start as int, to as int);
    proof {
        if negative {
            assert(tok.drop_first() =~= body);
        }
    }
    if to - start < 2 {
        return Err(BetSizeErrorKind::UnknownToken);
    }
    assert(body.last() == text@[to - 1]);
    let unit = text[to - 1];
    if unit != 0x25 && unit != 0x78 {
        return Err(BetSizeErrorKind::UnknownToken);
    }
    assert(body.drop_last() =~= text@.subrange(start as int, to - 1));
    match read_hundredths(text, start, to - 1) {
        None => Err(BetSizeErrorKind::UnknownToken),
        Some(v) => {
            if negative || v == 0 {
                Err(BetSizeErrorKind::NonPositiveSize)
            } else if unit == 0x25 {
                Ok(BetSize::PotRelative(v))
            } else if raise {
                Ok(BetSize::PrevBetRelative(v))
            } else {
                Err(BetSizeErrorKind::MultiplierWithoutBet)
            }
        },
    }
}

/// What is read of a list once the entries before `rest` are `done`.
pub open spec fn after(done: Seq<BetSize>, rest: Result<Seq<BetSize>, BetSizeParseError>) -> Result<
    Seq<BetSize>,
    BetSizeParseError,
> {
    match rest {
        Ok(sizes) => Ok(done + sizes),
        Err(e) => Err(e),
    }
}

/// Reads a size list from its bytes.
fn parse_sizes(bytes: &[u8], raise: bool) -> (res: Result<Vec<BetSize>, BetSizeParseError>)
    ensures
        match res {
            Ok(sizes) => sizes_of_bytes(bytes@, raise) == Ok::<Seq<BetSize>, BetSizeParseError>(
                sizes@,
            ) && are_sizes(sizes@),
            Err(e) => sizes_of_bytes(bytes@, raise) == Err::<Seq<BetSize>, BetSizeParseError>(e),
        },
{
    let n = bytes.len();
    let mut sizes: Vec<BetSize> = Vec::new();
    assert(bytes@.subrange(0, n as int) =~= bytes@);
    let (a, b) = trim_bounds(bytes, 0, n);
    if a == b {
        return Ok(sizes);
    }
    let mut pos: usize = 0;
    let mut token: usize = 0;
    assert(sizes@ + sizes_from(bytes@, raise, 0).unwrap() =~= sizes_from(bytes@, raise, 0).unwrap());
    loop
        invariant
            pos <= n,
            token <= pos,
            n == bytes@.len(),
            trim(bytes@).len() != 0,
            are_sizes(sizes@),
            sizes_from(bytes@, raise, 0) == after(
                sizes@,
                sizes_from(bytes@.subrange(pos as int, n as int), raise, token as nat),
            ),
        decreases n - pos,
    {
        let ghost rest = bytes@.subrange(pos as int, n as int);
        let ghost done = sizes@;
        let end = scan_run(bytes, pos, n, false);
        proof {
            lemma_run_len_bounds(rest, false);
            assert(rest.subrange(0, end - pos) =~= bytes@.subrange(pos as int, end as int));
            if end < n {
                assert(rest.subrange(end - pos + 1, rest.len() as int) =~= bytes@.subrange(
                    end + 1,
                    n as int,
                ));
            }
        }
        let (a, b) = trim_bounds(bytes, pos, end);
        let size = match parse_size(bytes, a, b, raise) {
            Ok(size) => size,
            Err(kind) => {
                return Err(BetSizeParseError { kind, token });
            },
        };
        sizes.push(size);
        if end == n {
            assert(done + seq![size] =~= sizes@);
            return Ok(sizes);
        }
        proof {
            let tail = sizes_from(bytes@.subrange(end + 1, n as int), raise, (token + 1) as nat);
            if tail is Ok {
                assert(done + (seq![size] + tail.unwrap()) =~= sizes@ + tail.unwrap());
            }
        }
        pos = end + 1;
        token += 1;
    }
}

/// Reads the sizes of one player on one street: the list to bet with and the
/// list to raise with.
///
/// The bet list is read first; the result is the first fault of the bet list,
/// else the first fault of the raise list, else both lists.
pub fn parse_bet_sizes(bet: &str, raise: &str) -> (res: Result<BetSizeOptions, BetSizeParseError>)
    ensures
        match sizes_of_bytes(bet.spec_bytes(), false) {
            Err(e) => res == Err::<BetSizeOptions, BetSizeParseError>(e),
            Ok(b) => match sizes_of_bytes(raise.spec_bytes(), true) {
                Err(e) => res == Err::<BetSizeOptions, BetSizeParseError>(e),
                Ok(r) => res is Ok && res.unwrap().bet@ == b && res.unwrap().raise@ == r
                    && are_sizes(b) && are_sizes(r),
            },
        },
{
    let bet_sizes = match parse_sizes(bet.as_bytes(), false) {
        Ok(sizes) => sizes,
        Err(e) => {
            return Err(e);
        },
    };
    let raise_sizes = match parse_sizes(raise.as_bytes(), true) {
        Ok(sizes) => sizes,
        Err(e) => {
            return Err(e);
        },
    };
    Ok(BetSizeOptions { bet: bet_sizes, raise: raise_sizes })
}

/// Reads the sizes the out-of-position player may lead with.
pub fn parse_donk_sizes(donk: &str) -> (res: Result<DonkSizeOptions, BetSizeParseError>)
    ensures
        match sizes_of_bytes(donk.spec_bytes(), false) {
            Err(e) => res == Err::<DonkSizeOptions, BetSizeParseError>(e),
            Ok(d) => res is Ok && res.unwrap().donk@ == d && are_sizes(d),
        },
{
    match parse_sizes(donk.as_bytes(), false) {
        Ok(sizes) => Ok(DonkSizeOptions { donk: sizes }),
        Err(e) => Err(e),
    }
}

} // verus!
