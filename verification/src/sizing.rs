//! Chip arithmetic of the sizing rules: fractions rounded to the nearest
//! chip, the geometric size, and lists of distinct amounts in ascending
//! order.

use vstd::prelude::*;

verus! {

/// `x * ratio / unit`, rounded to the nearest whole, a half upwards.
pub open spec fn scaled(x: int, ratio: int, unit: int) -> int {
    (x * ratio + unit / 2) / unit
}

/// `x * ratio / unit`, rounded to the nearest whole, a half upwards.
pub fn scale(x: u64, ratio: u32, unit: u32) -> (r: u128)
    requires
        unit > 0,
    ensures
        r == scaled(x as int, ratio as int, unit as int),
        r <= 0xffff_ffff_ffff_ffff * 0xffff_ffff + 0xffff_ffff,
{
    assert(0 <= x * ratio <= 0xffff_ffff_ffff_ffff * 0xffff_ffff) by (nonlinear_arith)
        requires
            0 <= x <= 0xffff_ffff_ffff_ffff,
            0 <= ratio <= 0xffff_ffff,
    ;
    let product: u128 = (x as u128) * (ratio as u128);
    (product + (unit / 2) as u128) / (unit as u128)
}

/// Whether `a * b <= c * d`.
pub fn product_at_most(a: u64, b: u64, c: u64, d: u64) -> (r: bool)
    ensures
        r == (a * b <= c * d),
{
    assert(0 <= a * b <= 0xffff_ffff_ffff_ffff * 0xffff_ffff_ffff_ffff) by (nonlinear_arith)
        requires
            0 <= a <= 0xffff_ffff_ffff_ffff,
            0 <= b <= 0xffff_ffff_ffff_ffff,
    ;
    assert(0 <= c * d <= 0xffff_ffff_ffff_ffff * 0xffff_ffff_ffff_ffff) by (nonlinear_arith)
        requires
            0 <= c <= 0xffff_ffff_ffff_ffff,
            0 <= d <= 0xffff_ffff_ffff_ffff,
    ;
    (a as u128) * (b as u128) <= (c as u128) * (d as u128)
}

/// Whether a bet of `g` into a pot of `p` keeps the pot, once called, within
/// the growth that reaches `p + 2 * r` in `n` equal steps.
pub open spec fn grows_within(p: int, r: int, n: int, g: int) -> bool {
    if n <= 1 {
        g <= r
    } else if n == 2 {
        (p + 2 * g) * (p + 2 * g) <= p * (p + 2 * r)
    } else {
        (p + 2 * g) * (p + 2 * g) * (p + 2 * g) <= p * p * (p + 2 * r)
    }
}

/// The largest bet up to `g` that `grows_within` admits, or zero.
pub open spec fn geometric_upto(p: int, r: int, n: int, g: int) -> int
    decreases g,
{
    if g <= 0 {
        0
    } else if grows_within(p, r, n, g) {
        g
    } else {
        geometric_upto(p, r, n, g - 1)
    }
}

/// The geometric bet into a pot of `p` with `r` chips behind and `n` streets
/// to play: the largest `g <= r` with `(p + 2g)^n <= p^(n-1) * (p + 2r)`.
/// Betting it on every street left puts the last chip in on the river.
pub open spec fn geometric(p: int, r: int, n: int) -> int {
    geometric_upto(p, r, n, r)
}

/// A smaller bet grows the pot less.
pub proof fn lemma_grows_within_monotone(p: int, r: int, n: int, h: int, g: int)
    requires
        0 <= p,
        0 <= h <= g,
        grows_within(p, r, n, g),
    ensures
        grows_within(p, r, n, h),
{
    if n == 2 {
        assert((p + 2 * h) * (p + 2 * h) <= (p + 2 * g) * (p + 2 * g)) by (nonlinear_arith)
            requires
                0 <= p,
                0 <= h <= g,
        ;
    } else if n > 2 {
        let a = p + 2 * h;
        let b = p + 2 * g;
        assert(a * a <= b * b) by (nonlinear_arith)
            requires
                0 <= a <= b,
        ;
        assert(a * a * a <= b * b * b) by (nonlinear_arith)
            requires
                0 <= a <= b,
                0 <= a * a <= b * b,
        ;
    }
}

/// The geometric bet is the admitted bet whose successor is not admitted.
pub proof fn lemma_geometric_upto(p: int, r: int, n: int, g: int, best: int)
    requires
        0 <= p,
        0 <= best <= g,
        best == 0 || grows_within(p, r, n, best),
        best == g || !grows_within(p, r, n, best + 1),
    ensures
        geometric_upto(p, r, n, g) == best,
    decreases g,
{
    if g > best {
        if grows_within(p, r, n, g) {
            lemma_grows_within_monotone(p, r, n, best + 1, g);
        }
        lemma_geometric_upto(p, r, n, g - 1, best);
    }
}

/// Whether a bet of `g` is admitted.
fn admits(p: u64, r: u64, n: u8, g: u64) -> (ok: bool)
    requires
        p <= 0x7_ffff_ffff,
        r <= 0xffff_ffff,
        g <= r,
    ensures
        ok == grows_within(p as int, r as int, n as int, g as int),
{
    if n <= 1 {
        true
    } else {
        let a: u128 = (p + 2 * g) as u128;
        let b: u128 = (p + 2 * r) as u128;
        let q: u128 = p as u128;
        assert(0 <= a * a <= 0xf_ffff_ffff * 0xf_ffff_ffff) by (nonlinear_arith)
            requires
                0 <= a <= 0xf_ffff_ffff,
        ;
        assert(0 <= q * b <= 0xf_ffff_ffff * 0xf_ffff_ffff) by (nonlinear_arith)
            requires
                0 <= q <= 0xf_ffff_ffff,
                0 <= b <= 0xf_ffff_ffff,
        ;
        if n == 2 {
            a * a <= q * b
        } else {
            assert(0 <= q * q <= 0xf_ffff_ffff * 0xf_ffff_ffff) by (nonlinear_arith)
                requires
                    0 <= q <= 0xf_ffff_ffff,
            ;
            let aa: u128 = a * a;
            let qq: u128 = q * q;
            assert(0 <= aa * a <= 0xf_ffff_ffff * 0xf_ffff_ffff * 0xf_ffff_ffff)
                by (nonlinear_arith)
                requires
                    0 <= a <= 0xf_ffff_ffff,
                    0 <= aa <= 0xf_ffff_ffff * 0xf_ffff_ffff,
            ;
            assert(0 <= qq * b <= 0xf_ffff_ffff * 0xf_ffff_ffff * 0xf_ffff_ffff)
                by (nonlinear_arith)
                requires
                    0 <= b <= 0xf_ffff_ffff,
                    0 <= qq <= 0xf_ffff_ffff * 0xf_ffff_ffff,
            ;
            aa * a <= qq * b
        }
    }
}

/// The geometric bet into a pot of `p` with `r` chips behind and `n` streets
/// to play.
pub fn geometric_bet(p: u64, r: u64, n: u8) -> (g: u64)
    requires
        p <= 0x7_ffff_ffff,
        r <= 0xffff_ffff,
    ensures
        g == geometric(p as int, r as int, n as int),
        g <= r,
{
    let mut lo: u64 = 0;
    let mut hi: u64 = r;
    while lo < hi
        invariant
            lo <= hi <= r,
            p <= 0x7_ffff_ffff,
            r <= 0xffff_ffff,
            lo == 0 || grows_within(p as int, r as int, n as int, lo as int),
            hi == r || !grows_within(p as int, r as int, n as int, hi + 1),
        decreases hi - lo,
    {
        let mid = lo + (hi - lo + 1) / 2;
        if admits(p, r, n, mid) {
            lo = mid;
        } else {
            hi = mid - 1;
        }
    }
    proof {
        lemma_geometric_upto(p as int, r as int, n as int, r as int, lo as int);
    }
    lo
}

/// Whether `s` is strictly ascending.
pub open spec fn is_ascending(s: Seq<u32>) -> bool {
    forall|i: int, j: int| 0 <= i < j < s.len() ==> #[trigger] s[i] < #[trigger] s[j]
}

/// The ascending list `s` with the amount `x` added, unless it holds it.
pub open spec fn inserted(s: Seq<u32>, x: u32) -> Seq<u32>
    decreases s.len(),
{
    if s.len() == 0 {
        seq![x]
    } else if s.last() < x {
        s.push(x)
    } else if s.last() == x {
        s
    } else {
        inserted(s.drop_last(), x).push(s.last())
    }
}

/// Where an amount goes into a list whose tail from `i` on is above it.
pub proof fn lemma_inserted_at(s: Seq<u32>, x: u32, i: int)
    requires
        0 <= i <= s.len(),
        forall|j: int| i <= j < s.len() ==> #[trigger] s[j] > x,
        i == 0 || s[i - 1] <= x,
    ensures
        inserted(s, x) == if i > 0 && s[i - 1] == x {
            s
        } else {
            s.subrange(0, i).push(x) + s.subrange(i, s.len() as int)
        },
    decreases s.len() - i,
{
    if i < s.len() {
        let t = s.drop_last();
        assert(s.last() == s[s.len() - 1]);
        lemma_inserted_at(t, x, i);
        if i > 0 && s[i - 1] == x {
            assert(t.push(s.last()) =~= s);
        } else {
            assert((t.subrange(0, i).push(x) + t.subrange(i, t.len() as int)).push(s.last())
                =~= s.subrange(0, i).push(x) + s.subrange(i, s.len() as int));
        }
    } else {
        if s.len() > 0 && s.last() < x {
            assert(s.subrange(0, i).push(x) + s.subrange(i, s.len() as int) =~= s.push(x));
        } else if s.len() == 0 {
            assert(s.subrange(0, i).push(x) + s.subrange(i, s.len() as int) =~= seq![x]);
        }
    }
}

/// Adding an amount keeps a list ascending, keeps what it held and adds
/// nothing but the amount.
pub proof fn lemma_inserted_ascending(s: Seq<u32>, x: u32)
    requires
        is_ascending(s),
    ensures
        is_ascending(inserted(s, x)),
        inserted(s, x).contains(x),
        forall|y: u32| #[trigger] s.contains(y) ==> inserted(s, x).contains(y),
        forall|y: u32| #[trigger] inserted(s, x).contains(y) ==> y == x || s.contains(y),
        s.len() <= inserted(s, x).len() <= s.len() + 1,
    decreases s.len(),
{
    let r = inserted(s, x);
    if s.len() == 0 {
        assert(r[0] == x);
    } else if s.last() < x {
        assert(r[s.len() as int] == x);
        assert forall|y: u32| #[trigger] s.contains(y) implies r.contains(y) by {
            let k = choose|k: int| 0 <= k < s.len() && s[k] == y;
            assert(r[k] == y);
        }
        assert forall|i: int, j: int| 0 <= i < j < r.len() implies #[trigger] r[i] < #[trigger] r[j] by {
            if j == s.len() {
                if i < s.len() - 1 {
                    assert(s[i] < s[s.len() - 1]);
                }
            } else {
                assert(s[i] < s[j]);
            }
        }
    } else if s.last() == x {
        assert(s[s.len() - 1] == x);
    } else {
        let t = s.drop_last();
        assert(is_ascending(t)) by {
            assert forall|i: int, j: int| 0 <= i < j < t.len() implies #[trigger] t[i] < #[trigger] t[j] by {
                assert(s[i] < s[j]);
            }
        }
        lemma_inserted_ascending(t, x);
        let u = inserted(t, x);
        assert(r == u.push(s.last()));
        let kx = choose|k: int| 0 <= k < u.len() && u[k] == x;
        assert(r[kx] == x);
        assert forall|y: u32| #[trigger] s.contains(y) implies r.contains(y) by {
            let k = choose|k: int| 0 <= k < s.len() && s[k] == y;
            if k == s.len() - 1 {
                assert(r[u.len() as int] == y);
            } else {
                assert(t[k] == y);
                assert(t.contains(y));
                let m = choose|m: int| 0 <= m < u.len() && u[m] == y;
                assert(r[m] == y);
            }
        }
        assert forall|y: u32| #[trigger] r.contains(y) implies y == x || s.contains(y) by {
            let k = choose|k: int| 0 <= k < r.len() && r[k] == y;
            if k == u.len() {
                assert(s[s.len() - 1] == y);
            } else {
                assert(u[k] == y);
                assert(inserted(t, x).contains(y));
                if y != x {
                    assert(t.contains(y));
                    let m = choose|m: int| 0 <= m < t.len() && t[m] == y;
                    assert(s[m] == y);
                }
            }
        }
        assert forall|i: int, j: int| 0 <= i < j < r.len() implies #[trigger] r[i] < #[trigger] r[j] by {
            if j == u.len() {
                assert(inserted(t, x).contains(u[i]));
                if u[i] != x {
                    assert(t.contains(u[i]));
                    let m = choose|m: int| 0 <= m < t.len() && t[m] == u[i];
                    assert(s[m] == t[m]);
                    assert(s[m] < s[s.len() - 1]);
                }
            } else {
                assert(u[i] < u[j]);
            }
        }
    }
}

/// Adds the amount `x` to the ascending list `v`, unless it holds it.
pub fn insert_amount(v: &mut Vec<u32>, x: u32)
    ensures
        final(v)@ == inserted(old(v)@, x),
{
    let mut i = v.len();
    while i > 0 && v[i - 1] > x
        invariant
            i <= v@.len(),
            forall|j: int| i <= j < v@.len() ==> #[trigger] v@[j] > x,
        decreases i,
    {
        i -= 1;
    }
    proof {
        lemma_inserted_at(v@, x, i as int);
    }
    if i > 0 && v[i - 1] == x {
        return ;
    }
    let ghost before = v@;
    v.insert(i, x);
    assert(v@ =~= before.subrange(0, i as int).push(x) + before.subrange(
        i as int,
        before.len() as int,
    ));
}

/// Whether the amounts `a` and `k` lie further apart than the fraction `t`
/// of the larger of the two, in hundredths of a percent.
pub open spec fn is_apart(a: int, k: int, t: int) -> bool {
    if a <= k {
        (k - a) * 10000 > t * k
    } else {
        (a - k) * 10000 > t * a
    }
}

/// The amounts of `s` that are kept below the kept amount `k`: from the
/// largest down, each amount that lies apart from the one kept last.
pub open spec fn kept_below(s: Seq<u32>, k: u32, t: int) -> Seq<u32>
    decreases s.len(),
{
    if s.len() == 0 {
        s
    } else if is_apart(s.last() as int, k as int, t) {
        kept_below(s.drop_last(), s.last(), t).push(s.last())
    } else {
        kept_below(s.drop_last(), k, t)
    }
}

/// The ascending list `s` with close amounts merged: the largest amount is
/// kept, and going down each amount is dropped unless it lies apart from the
/// amount kept last by more than the fraction `t`.
pub open spec fn merged(s: Seq<u32>, t: int) -> Seq<u32> {
    if s.len() == 0 {
        s
    } else {
        kept_below(s.drop_last(), s.last(), t).push(s.last())
    }
}

/// Whether `a` lies apart from `k`.
fn apart(a: u32, k: u32, t: u32) -> (r: bool)
    ensures
        r == is_apart(a as int, k as int, t as int),
{
    let (low, high) = if a <= k {
        (a, k)
    } else {
        (k, a)
    };
    assert(0 <= t * high <= 0xffff_ffff * 0xffff_ffff) by (nonlinear_arith)
        requires
            0 <= t <= 0xffff_ffff,
            0 <= high <= 0xffff_ffff,
    ;
    ((high - low) as u128) * 10000 > (t as u128) * (high as u128)
}

/// Merges the close amounts of the list `v`, which is meant to be ascending.
pub fn merge_amounts(v: &Vec<u32>, t: u32) -> (out: Vec<u32>)
    ensures
        out@ == merged(v@, t as int),
{
    let mut out: Vec<u32> = Vec::new();
    let n = v.len();
    if n == 0 {
        assert(out@ =~= v@);
        return out;
    }
    let mut k = v[n - 1];
    out.push(k);
    let mut i = n - 1;
    assert(v@.drop_last() =~= v@.subrange(0, i as int));
    assert(kept_below(v@.subrange(0, i as int), k, t as int) + out@ =~= kept_below(
        v@.subrange(0, i as int),
        k,
        t as int,
    ).push(k));
    while i > 0
        invariant
            i < n == v@.len(),
            merged(v@, t as int) == kept_below(v@.subrange(0, i as int), k, t as int) + out@,
        decreases i,
    {
        let a = v[i - 1];
        let ghost s = v@.subrange(0, i as int);
        assert(s.last() == a);
        assert(s.drop_last() =~= v@.subrange(0, i - 1));
        let ghost before = out@;
        if apart(a, k, t) {
            out.insert(0, a);
            assert(kept_below(s.drop_last(), a, t as int).push(a) + before =~= kept_below(
                s.drop_last(),
                a,
                t as int,
            ) + out@);
            k = a;
        }
        i -= 1;
    }
    assert(kept_below(v@.subrange(0, 0), k, t as int) + out@ =~= out@);
    out
}

/// Whether every amount of `s` lies in `lo..=hi`.
pub open spec fn all_within(s: Seq<u32>, lo: int, hi: int) -> bool {
    forall|i: int| 0 <= i < s.len() ==> lo <= #[trigger] s[i] <= hi
}

/// Adding an amount of a span to a list of the span keeps the list in it.
pub proof fn lemma_inserted_within(s: Seq<u32>, x: u32, lo: int, hi: int)
    requires
        all_within(s, lo, hi),
        lo <= x <= hi,
    ensures
        all_within(inserted(s, x), lo, hi),
    decreases s.len(),
{
    if s.len() > 0 && s.last() > x {
        let t = s.drop_last();
        assert forall|i: int| 0 <= i < t.len() implies lo <= #[trigger] t[i] <= hi by {
            assert(t[i] == s[i]);
        }
        lemma_inserted_within(t, x, lo, hi);
        let u = inserted(t, x);
        assert forall|i: int| 0 <= i < u.push(s.last()).len() implies lo <= #[trigger] u.push(
            s.last(),
        )[i] <= hi by {
            if i < u.len() {
                assert(u[i] == u.push(s.last())[i]);
            } else {
                assert(s[s.len() - 1] == s.last());
            }
        }
    }
}

/// What is kept of an ascending list of a span is an ascending list of it.
pub proof fn lemma_kept_below(s: Seq<u32>, k: u32, t: int, lo: int, hi: int)
    requires
        is_ascending(s),
        all_within(s, lo, hi),
        forall|i: int| 0 <= i < s.len() ==> #[trigger] s[i] < k,
    ensures
        is_ascending(kept_below(s, k, t)),
        all_within(kept_below(s, k, t), lo, hi),
        forall|i: int| 0 <= i < kept_below(s, k, t).len() ==> #[trigger] kept_below(s, k, t)[i] < k,
        kept_below(s, k, t).len() <= s.len(),
    decreases s.len(),
{
    if s.len() > 0 {
        let d = s.drop_last();
        let a = s.last();
        assert(a == s[s.len() - 1]);
        assert(is_ascending(d)) by {
            assert forall|i: int, j: int| 0 <= i < j < d.len() implies #[trigger] d[i] < #[trigger] d[j] by {
                assert(s[i] < s[j]);
            }
        }
        assert forall|i: int| 0 <= i < d.len() implies lo <= #[trigger] d[i] <= hi by {
            assert(d[i] == s[i]);
        }
        assert forall|i: int| 0 <= i < d.len() implies #[trigger] d[i] < a by {
            assert(s[i] < s[s.len() - 1]);
        }
        if is_apart(a as int, k as int, t) {
            lemma_kept_below(d, a, t, lo, hi);
            let u = kept_below(d, a, t);
            let r = u.push(a);
            assert forall|i: int, j: int| 0 <= i < j < r.len() implies #[trigger] r[i] < #[trigger] r[j] by {
                if j < u.len() {
                    assert(u[i] < u[j]);
                } else {
                    assert(u[i] < a);
                }
            }
        } else {
            assert forall|i: int| 0 <= i < d.len() implies #[trigger] d[i] < k by {
                assert(d[i] == s[i]);
            }
            lemma_kept_below(d, k, t, lo, hi);
        }
    }
}

/// Merging an ascending list of a span gives an ascending list of the span,
/// empty only if the list is.
pub proof fn lemma_merged(s: Seq<u32>, t: int, lo: int, hi: int)
    requires
        is_ascending(s),
        all_within(s, lo, hi),
    ensures
        is_ascending(merged(s, t)),
        all_within(merged(s, t), lo, hi),
        merged(s, t).len() <= s.len(),
        s.len() > 0 ==> merged(s, t).len() > 0 && merged(s, t).last() == s.last(),
{
    if s.len() > 0 {
        let d = s.drop_last();
        let a = s.last();
        assert(a == s[s.len() - 1]);
        assert(is_ascending(d)) by {
            assert forall|i: int, j: int| 0 <= i < j < d.len() implies #[trigger] d[i] < #[trigger] d[j] by {
                assert(s[i] < s[j]);
            }
        }
        assert forall|i: int| 0 <= i < d.len() implies lo <= #[trigger] d[i] <= hi by {
            assert(d[i] == s[i]);
        }
        assert forall|i: int| 0 <= i < d.len() implies #[trigger] d[i] < a by {
            assert(s[i] < s[s.len() - 1]);
        }
        lemma_kept_below(d, a, t, lo, hi);
        let u = kept_below(d, a, t);
        let r = u.push(a);
        assert forall|i: int, j: int| 0 <= i < j < r.len() implies #[trigger] r[i] < #[trigger] r[j] by {
            if j < u.len() {
                assert(u[i] < u[j]);
            } else {
                assert(u[i] < a);
            }
        }
    }
}

} // verus!
