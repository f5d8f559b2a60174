//! Properties that relate the tracker's operations.
use crate::comparison::{higher_inflation, InflationComparison};
use crate::series::{has_year, with_rate};
use crate::tracker::{
    compounded, compounding_fits, greatest_year, in_window, inserted, is_max_at, is_min_at,
    least_year, InflationTracker, RATE_SCALE,
};
use vstd::prelude::*;

verus! {

/// `b` raised to the `n`-th power.
pub open spec fn power(b: int, n: nat) -> int
    decreases n,
{
    if n == 0 {
        1
    } else {
        b * power(b, (n - 1) as nat)
    }
}

/// Inserting a year that is present, twice with different rates, leaves the
/// year at the place it had, with the later rate, and touches no other entry.
pub proof fn lemma_reinsert_keeps_position(
    s: Seq<(usize, i64)>,
    year: usize,
    first: i64,
    second: i64,
    i: int,
)
    requires
        0 <= i < s.len(),
        s[i].0 == year,
    ensures
        inserted(inserted(s, year, first), year, second).len() == s.len(),
        inserted(inserted(s, year, first), year, second)[i] == (year, second),
        forall|j: int|
            0 <= j < s.len() && s[j].0 != year ==> #[trigger] inserted(
                inserted(s, year, first),
                year,
                second,
            )[j] == s[j],
{
    assert(has_year(s, year));
    let once = with_rate(s, year, first);
    assert(once[i].0 == year);
    assert(has_year(once, year));
}

/// After `clear` the tracker holds no entry: `describe` yields nothing, the
/// precondition of `get_max` and `get_min` fails, and no entry could be either extreme.
pub proof fn lemma_cleared_tracker_has_no_extremes(t: InflationTracker)
    requires
        t.entries() == Seq::<(usize, i64)>::empty(),
    ensures
        t.entries().len() == 0,
        !(t.entries().len() > 0),
        forall|i: int| !is_max_at(t.entries(), i) && !is_min_at(t.entries(), i),
{
}

/// `least_year` and `greatest_year` of a non-empty series are stored years that
/// no stored year lies below, or above, respectively.
pub proof fn lemma_year_bounds(s: Seq<(usize, i64)>)
    requires
        s.len() > 0,
    ensures
        exists|i: int| 0 <= i < s.len() && (#[trigger] s[i]).0 == least_year(s),
        exists|i: int| 0 <= i < s.len() && (#[trigger] s[i]).0 == greatest_year(s),
        forall|i: int| 0 <= i < s.len() ==> least_year(s) <= (#[trigger] s[i]).0 <= greatest_year(s),
    decreases s.len(),
{
    if s.len() > 1 {
        let t = s.drop_last();
        lemma_year_bounds(t);
        assert(s.last() == s[s.len() - 1]);
        let lo = choose|i: int| 0 <= i < t.len() && (#[trigger] t[i]).0 == least_year(t);
        let hi = choose|i: int| 0 <= i < t.len() && (#[trigger] t[i]).0 == greatest_year(t);
        assert(t[lo] == s[lo] && t[hi] == s[hi]);
        assert forall|i: int| 0 <= i < s.len() implies least_year(s) <= (#[trigger] s[i]).0
            <= greatest_year(s) by {
            if i < t.len() {
                assert(t[i] == s[i]);
            }
        }
    } else {
        assert(s[0] == s[0]);
    }
}

/// Over an empty range of years the amount is left unchanged.
pub proof fn lemma_empty_range_keeps_money(s: Seq<(usize, i64)>, money: i64, year: usize)
    ensures
        compounded(s, money as int, year, year) == money,
        compounding_fits(s, money as int, year, year),
{
    lemma_nothing_in_range(s, money as int, year);
    assert forall|k: int| 0 <= k <= s.len() implies i64::MIN <= #[trigger] compounded(
        s.take(k),
        money as int,
        year,
        year,
    ) <= i64::MAX by {
        lemma_nothing_in_range(s.take(k), money as int, year);
    }
}

proof fn lemma_nothing_in_range(s: Seq<(usize, i64)>, money: int, year: usize)
    ensures
        compounded(s, money, year, year) == money,
    decreases s.len(),
{
    if s.len() > 0 {
        lemma_nothing_in_range(s.drop_last(), money, year);
    }
}

/// How many entries of `s` lie in `[start, end)`.
pub open spec fn window_count(s: Seq<(usize, i64)>, start: usize, end: usize) -> nat
    decreases s.len(),
{
    if s.len() == 0 {
        0
    } else if in_window(s.last().0, start, end) {
        window_count(s.drop_last(), start, end) + 1
    } else {
        window_count(s.drop_last(), start, end)
    }
}

/// With every entry in `[start, end)` at one rate `r` between 0 and 100 %, the
/// result `v` after those `n` entries meets `money * (1 - r)^n` up to the `n` units
/// lost to rounding: `v * S^n <= money * (S - r)^n <= (v + n) * S^n`, where `S` is
/// `RATE_SCALE`. Entries outside the range play no part.
pub proof fn lemma_uniform_rate(
    s: Seq<(usize, i64)>,
    money: int,
    start: usize,
    end: usize,
    r: i64,
)
    requires
        money >= 0,
        0 <= r <= RATE_SCALE,
        forall|i: int| 0 <= i < s.len() && in_window((#[trigger] s[i]).0, start, end) ==> s[i].1 == r,
    ensures
        compounded(s, money, start, end) * power(RATE_SCALE as int, window_count(s, start, end))
            <= money * power(RATE_SCALE - r, window_count(s, start, end)),
        money * power(RATE_SCALE - r, window_count(s, start, end)) <= (compounded(
            s,
            money,
            start,
            end,
        ) + window_count(s, start, end)) * power(RATE_SCALE as int, window_count(s, start, end)),
    decreases s.len(),
{
    if s.len() > 0 {
        let t = s.drop_last();
        assert forall|i: int| 0 <= i < t.len() && in_window((#[trigger] t[i]).0, start, end)
            implies t[i].1 == r by {
            assert(t[i] == s[i]);
        }
        lemma_uniform_rate(t, money, start, end, r);
        assert(s.last() == s[s.len() - 1]);
        if in_window(s.last().0, start, end) {
            let k = window_count(t, start, end);
            let n = window_count(s, start, end);
            let v = compounded(t, money, start, end);
            let w = compounded(s, money, start, end);
            let sc = RATE_SCALE as int;
            let m = RATE_SCALE - r;
            let sk = power(sc, k);
            let mk = power(m, k);
            assert(w == (v * m) / sc);
            lemma_power_nonnegative(sc, k);
            lemma_power_nonnegative(m, k);
            lemma_compounded_nonnegative(t, money, start, end);
            assert(n == k + 1);
            assert(power(sc, n) == sc * sk);
            assert(power(m, n) == m * mk);
            vstd::arithmetic::div_mod::lemma_fundamental_div_mod(v * m, sc);
            let rem = (v * m) % sc;
            assert(v * m == sc * w + rem && 0 <= rem < sc);
            assert(w * (sc * sk) <= money * (m * mk)) by (nonlinear_arith)
                requires
                    v * m == sc * w + rem,
                    0 <= rem,
                    v * sk <= money * mk,
                    0 <= m,
                    0 <= sk,
            ;
            assert(money * (m * mk) <= (w + n) * (sc * sk)) by (nonlinear_arith)
                requires
                    v * m == sc * w + rem,
                    rem < sc,
                    money * mk <= (v + k) * sk,
                    0 <= m <= sc,
                    0 <= sk,
                    0 <= k,
                    n == k + 1,
            ;
        }
    }
}

/// Two series over the same years, where each year in `[start, end)` has a rate
/// of at most 100 % and the first series' rate is never below the second's:
/// a non-negative amount ends no larger under the first, so the comparison
/// never names the second as having the higher inflation.
pub proof fn lemma_higher_rates_leave_no_more(
    a: Seq<(usize, i64)>,
    b: Seq<(usize, i64)>,
    money: int,
    start: usize,
    end: usize,
)
    requires
        money >= 0,
        a.len() == b.len(),
        forall|i: int| 0 <= i < a.len() ==> (#[trigger] a[i]).0 == b[i].0,
        forall|i: int|
            0 <= i < a.len() && in_window((#[trigger] a[i]).0, start, end) ==> b[i].1 <= a[i].1
                <= RATE_SCALE,
    ensures
        compounded(a, money, start, end) <= compounded(b, money, start, end),
        higher_inflation(compounded(a, money, start, end), compounded(b, money, start, end))
            != InflationComparison::SecondHigher,
    decreases a.len(),
{
    if a.len() > 0 {
        let ta = a.drop_last();
        let tb = b.drop_last();
        assert forall|i: int| 0 <= i < ta.len() implies (#[trigger] ta[i]).0 == tb[i].0 by {
            assert(ta[i] == a[i] && tb[i] == b[i]);
        }
        assert forall|i: int| 0 <= i < ta.len() && in_window((#[trigger] ta[i]).0, start, end)
            implies tb[i].1 <= ta[i].1 <= RATE_SCALE by {
            assert(ta[i] == a[i] && tb[i] == b[i]);
        }
        lemma_higher_rates_leave_no_more(ta, tb, money, start, end);
        lemma_compounded_nonnegative(ta, money, start, end);
        let va = compounded(ta, money, start, end);
        let vb = compounded(tb, money, start, end);
        assert(a.last() == a[a.len() - 1] && b.last() == b[b.len() - 1]);
        if in_window(a.last().0, start, end) {
            let ma = RATE_SCALE - a.last().1;
            let mb = RATE_SCALE - b.last().1;
            assert(va * ma <= vb * mb) by (nonlinear_arith)
                requires
                    0 <= va <= vb,
                    0 <= ma <= mb,
            ;
            vstd::arithmetic::div_mod::lemma_div_is_ordered(va * ma, vb * mb, RATE_SCALE as int);
        }
    }
}

proof fn lemma_power_nonnegative(b: int, n: nat)
    requires
        b >= 0,
    ensures
        power(b, n) >= 0,
    decreases n,
{
    if n > 0 {
        lemma_power_nonnegative(b, (n - 1) as nat);
        assert(b * power(b, (n - 1) as nat) >= 0) by (nonlinear_arith)
            requires
                b >= 0,
                power(b, (n - 1) as nat) >= 0,
        ;
    }
}

/// A non-negative amount stays non-negative while no rate in range exceeds 100 %.
proof fn lemma_compounded_nonnegative(s: Seq<(usize, i64)>, money: int, start: usize, end: usize)
    requires
        money >= 0,
        forall|i: int|
            0 <= i < s.len() && in_window((#[trigger] s[i]).0, start, end) ==> s[i].1
                <= RATE_SCALE,
    ensures
        compounded(s, money, start, end) >= 0,
    decreases s.len(),
{
    if s.len() > 0 {
        let t = s.drop_last();
        assert forall|i: int| 0 <= i < t.len() && in_window((#[trigger] t[i]).0, start, end)
            implies t[i].1 <= RATE_SCALE by {
            assert(t[i] == s[i]);
        }
        lemma_compounded_nonnegative(t, money, start, end);
        let v = compounded(t, money, start, end);
        assert(s.last() == s[s.len() - 1]);
        if in_window(s.last().0, start, end) {
            assert(v * (RATE_SCALE - s.last().1) >= 0) by (nonlinear_arith)
                requires
                    v >= 0,
                    RATE_SCALE - s.last().1 >= 0,
            ;
        }
    }
}

} // verus!
