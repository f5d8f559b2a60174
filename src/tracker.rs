//! The inflation tracker: a labelled, ordered series of yearly rates.
use crate::series::{
    append_entry, clear_map, empty_map, entry_list, has_year, map_len,
    overwrite_entry, with_rate, year_entries,
};
use linked_hash_map::LinkedHashMap;
use vstd::prelude::*;

verus! {

/// One whole rate (100 %) in the millionths that rates are written in.
pub const RATE_SCALE: i64 = 1_000_000;

/// No two entries of `s` share a year.
pub open spec fn keys_unique(s: Seq<(usize, i64)>) -> bool {
    forall|i: int, j: int| 0 <= i < j < s.len() ==> (#[trigger] s[i]).0 != (#[trigger] s[j]).0
}

/// The series after `insert(year, rate)`: a present year keeps its place and
/// takes the new rate, a new year goes to the back.
pub open spec fn inserted(s: Seq<(usize, i64)>, year: usize, rate: i64) -> Seq<(usize, i64)> {
    if has_year(s, year) {
        with_rate(s, year, rate)
    } else {
        s.push((year, rate))
    }
}

/// Entry `i` holds the greatest rate of `s`, and no earlier entry holds it.
pub open spec fn is_max_at(s: Seq<(usize, i64)>, i: int) -> bool {
    &&& 0 <= i < s.len()
    &&& forall|j: int| 0 <= j < s.len() ==> (#[trigger] s[j]).1 <= s[i].1
    &&& forall|j: int| 0 <= j < i ==> (#[trigger] s[j]).1 < s[i].1
}

/// Entry `i` holds the least rate of `s`, and no earlier entry holds it.
pub open spec fn is_min_at(s: Seq<(usize, i64)>, i: int) -> bool {
    &&& 0 <= i < s.len()
    &&& forall|j: int| 0 <= j < s.len() ==> s[i].1 <= (#[trigger] s[j]).1
    &&& forall|j: int| 0 <= j < i ==> s[i].1 < (#[trigger] s[j]).1
}

/// One year of decay: `money * (1 - rate)`, rounded down to a whole unit.
pub open spec fn decayed(money: int, rate: i64) -> int {
    (money * (RATE_SCALE - rate)) / (RATE_SCALE as int)
}

/// The earliest year stored in `s`.
pub open spec fn least_year(s: Seq<(usize, i64)>) -> int
    decreases s.len(),
{
    if s.len() == 0 {
        0
    } else if s.len() == 1 {
        s[0].0 as int
    } else {
        let rest = least_year(s.drop_last());
        if s.last().0 < rest {
            s.last().0 as int
        } else {
            rest
        }
    }
}

/// The latest year stored in `s`.
pub open spec fn greatest_year(s: Seq<(usize, i64)>) -> int
    decreases s.len(),
{
    if s.len() == 0 {
        0
    } else if s.len() == 1 {
        s[0].0 as int
    } else {
        let rest = greatest_year(s.drop_last());
        if s.last().0 > rest {
            s.last().0 as int
        } else {
            rest
        }
    }
}

/// The earliest and the latest year of a non-empty list of entries.
fn year_bounds(entries: &Vec<(usize, i64)>) -> (r: (usize, usize))
    requires
        entries@.len() > 0,
    ensures
        r.0 == least_year(entries@),
        r.1 == greatest_year(entries@),
{
    let ghost s = entries@;
    let mut earliest: usize = entries[0].0;
    let mut latest: usize = entries[0].0;
    let mut i: usize = 1;
    proof {
        assert(s.take(1).len() == 1);
    }
    while i < entries.len()
        invariant
            entries@ == s,
            1 <= i <= s.len(),
            earliest == least_year(s.take(i as int)),
            latest == greatest_year(s.take(i as int)),
        decreases s.len() - i,
    {
        let year = entries[i].0;
        proof {
            assert(s.take(i + 1).drop_last() =~= s.take(i as int));
            assert(s.take(i + 1).last() == s[i as int]);
        }
        if year < earliest {
            earliest = year;
        }
        if year > latest {
            latest = year;
        }
        i = i + 1;
    }
    proof {
        assert(s.take(s.len() as int) =~= s);
    }
    (earliest, latest)
}

/// Whether `year` lies in the half-open range `[start, end)`.
pub open spec fn in_window(year: usize, start: usize, end: usize) -> bool {
    start <= year && year < end
}

/// `money` after every entry of `s` in `[start, end)` has been applied, in order.
pub open spec fn compounded(s: Seq<(usize, i64)>, money: int, start: usize, end: usize) -> int
    decreases s.len(),
{
    if s.len() == 0 {
        money
    } else {
        let before = compounded(s.drop_last(), money, start, end);
        if in_window(s.last().0, start, end) {
            decayed(before, s.last().1)
        } else {
            before
        }
    }
}

/// Every intermediate amount of the compounding fits in an `i64`.
pub open spec fn compounding_fits(s: Seq<(usize, i64)>, money: int, start: usize, end: usize) -> bool {
    forall|k: int|
        0 <= k <= s.len() ==> i64::MIN <= #[trigger] compounded(s.take(k), money, start, end)
            <= i64::MAX
}

/// `a` and `b` below these bounds multiply within `i128`.
proof fn lemma_product_bound(a: int, b: int)
    requires
        -0x8000_0000_0000_0000 <= a < 0x8000_0000_0000_0000,
        -0x8000_0000_0000_0000 - 1_000_000 <= b <= 0x8000_0000_0000_0000 + 1_000_000,
    ensures
        -0x7fff_ffff_ffff_ffff_ffff_ffff_ffff_ffff <= a * b <= 0x7fff_ffff_ffff_ffff_ffff_ffff_ffff_ffff,
{
    let ab = if a < 0 { -a } else { a };
    let bb = if b < 0 { -b } else { b };
    assert(ab <= 0x8000_0000_0000_0000);
    assert(bb < 0x1_0000_0000_0000_0000);
    assert(ab * bb <= 0x8000_0000_0000_0000 * bb) by (nonlinear_arith)
        requires 0 <= ab <= 0x8000_0000_0000_0000, 0 <= bb;
    assert(0x8000_0000_0000_0000 * bb < 0x8000_0000_0000_0000 * 0x1_0000_0000_0000_0000) by (nonlinear_arith)
        requires 0 <= bb < 0x1_0000_0000_0000_0000;
    assert(ab * bb == if a * b < 0 { -(a * b) } else { a * b }) by (nonlinear_arith)
        requires ab == if a < 0 { -a } else { a }, bb == if b < 0 { -b } else { b };
}

/// `a / d` rounded towards negative infinity.
fn floor_div(a: i128, d: i128) -> (q: i128)
    requires
        d > 0,
    ensures
        q == a as int / d as int,
{
    if a >= 0 {
        a / d
    } else {
        let up: i128 = (-(a + 1)) / d;
        proof {
            lemma_floor_negative(a as int, d as int);
        }
        -up - 1
    }
}

/// For negative `a`, floor division goes through the quotient of `-(a + 1)`.
proof fn lemma_floor_negative(a: int, d: int)
    requires
        a < 0,
        d > 0,
    ensures
        a / d == -((-(a + 1)) / d) - 1,
{
    let n = -(a + 1);
    let q = n / d;
    let r = n % d;
    vstd::arithmetic::div_mod::lemma_fundamental_div_mod(n, d);
    assert(a == d * (-q - 1) + (d - 1 - r)) by (nonlinear_arith)
        requires
            n == d * q + r,
            a == -n - 1,
    ;
    vstd::arithmetic::div_mod::lemma_fundamental_div_mod_converse(a, d, -q - 1, d - 1 - r);
}

/// What a projection of money over a range of years found.
pub struct FutureValue {
    /// The compounded amount, or `None` where an intermediate amount leaves `i64`.
    pub value: Option<i64>,
    /// The series holds no entry.
    pub no_data: bool,
    /// The start year precedes the earliest stored year.
    pub start_out_of_range: bool,
    /// The year before the end year follows the latest stored year.
    pub end_out_of_range: bool,
    /// The start year is not before the end year.
    pub start_not_before_end: bool,
}

/// A country's name with its yearly inflation rates, in insertion order.
pub struct InflationTracker {
    country_name: String,
    yearly_val: LinkedHashMap<usize, i64>,
}

impl InflationTracker {
    /// Well-formed: every year appears at most once.
    pub open spec fn wf(&self) -> bool {
        keys_unique(self.entries())
    }

    /// The (year, rate) entries, in iteration order.
    pub closed spec fn entries(&self) -> Seq<(usize, i64)> {
        year_entries(self.yearly_val)
    }

    /// The country's name.
    pub closed spec fn name(&self) -> Seq<char> {
        self.country_name@
    }

    /// A tracker named `name` with no entries.
    pub fn new(name: &str) -> (t: Self)
        ensures
            t.name() == name@,
            t.entries() == Seq::<(usize, i64)>::empty(),
            t.wf(),
    {
        InflationTracker { country_name: name.to_string(), yearly_val: empty_map() }
    }

    /// Sets the rate of `year`: in place where the year is present, at the back where not.
    pub fn insert(&mut self, year: usize, value: i64)
        requires
            old(self).wf(),
        ensures
            final(self).wf(),
            final(self).entries() == inserted(old(self).entries(), year, value),
            final(self).name() == old(self).name(),
    {
        let ghost before = self.entries();
        let found = overwrite_entry(&mut self.yearly_val, year, value);
        proof {
            let now = self.entries();
            assert forall|i: int| 0 <= i < now.len() implies (#[trigger] now[i]).0 == before[i].0 by {}
        }
        if !found {
            append_entry(&mut self.yearly_val, year, value);
            proof {
                let now = self.entries();
                assert forall|i: int| 0 <= i < before.len() implies (#[trigger] now[i]).0 != year by {
                    assert(before[i].0 != year);
                }
            }
        }
    }

    /// Removes every entry; the name stays.
    pub fn clear(&mut self)
        ensures
            final(self).entries() == Seq::<(usize, i64)>::empty(),
            final(self).name() == old(self).name(),
            final(self).wf(),
    {
        clear_map(&mut self.yearly_val);
    }

    /// Replaces the country's name; the entries stay.
    pub fn change_country_name(&mut self, new_name: &str)
        ensures
            final(self).name() == new_name@,
            final(self).entries() == old(self).entries(),
    {
        self.country_name = new_name.to_string();
    }

    /// The country's name.
    pub fn country_name(&self) -> (r: &str)
        ensures
            r@ == self.name(),
    {
        self.country_name.as_str()
    }

    /// The entry with the greatest rate; among equal rates the first in iteration order.
    pub fn get_max(&self) -> (r: (usize, i64))
        requires
            self.entries().len() > 0,
        ensures
            exists|i: int| is_max_at(self.entries(), i) && r == self.entries()[i],
    {
        let entries = entry_list(&self.yearly_val);
        let ghost s = entries@;
        let mut best: usize = 0;
        let mut i: usize = 1;
        while i < entries.len()
            invariant
                entries@ == s,
                s == self.entries(),
                s.len() > 0,
                0 <= best < i <= s.len(),
                forall|j: int| 0 <= j < i ==> (#[trigger] s[j]).1 <= s[best as int].1,
                forall|j: int| 0 <= j < best ==> (#[trigger] s[j]).1 < s[best as int].1,
            decreases s.len() - i,
        {
            if entries[i].1 > entries[best].1 {
                best = i;
            }
            i = i + 1;
        }
        assert(is_max_at(s, best as int));
        entries[best]
    }

    /// The entry with the least rate; among equal rates the first in iteration order.
    pub fn get_min(&self) -> (r: (usize, i64))
        requires
            self.entries().len() > 0,
        ensures
            exists|i: int| is_min_at(self.entries(), i) && r == self.entries()[i],
    {
        let entries = entry_list(&self.yearly_val);
        let ghost s = entries@;
        let mut best: usize = 0;
        let mut i: usize = 1;
        while i < entries.len()
            invariant
                entries@ == s,
                s == self.entries(),
                s.len() > 0,
                0 <= best < i <= s.len(),
                forall|j: int| 0 <= j < i ==> s[best as int].1 <= (#[trigger] s[j]).1,
                forall|j: int| 0 <= j < best ==> s[best as int].1 < (#[trigger] s[j]).1,
            decreases s.len() - i,
        {
            if entries[i].1 < entries[best].1 {
                best = i;
            }
            i = i + 1;
        }
        assert(is_min_at(s, best as int));
        entries[best]
    }

    /// Applies every entry in `[start_year, end_year)`, in iteration order, to `money`:
    /// each turns the amount into `money * (1 - rate)`, rounded down to a whole unit.
    /// The four flags are advisory and never stop the computation.
    pub fn get_future_val(&self, money: i64, start_year: usize, end_year: usize) -> (r: FutureValue)
        ensures
            r.value == (if compounding_fits(self.entries(), money as int, start_year, end_year) {
                Some(compounded(self.entries(), money as int, start_year, end_year) as i64)
            } else {
                None
            }),
            r.no_data == (self.entries().len() == 0),
            r.start_out_of_range == (self.entries().len() > 0 && start_year < least_year(
                self.entries(),
            )),
            r.end_out_of_range == (self.entries().len() > 0 && end_year - 1 > greatest_year(
                self.entries(),
            )),
            r.start_not_before_end == (start_year >= end_year),
    {
        let ghost s = self.entries();
        let no_data = map_len(&self.yearly_val) == 0;
        let entries = entry_list(&self.yearly_val);
        let mut start_out_of_range = false;
        let mut end_out_of_range = false;
        if entries.len() > 0 {
            let (earliest, latest) = year_bounds(&entries);
            start_out_of_range = start_year < earliest;
            end_out_of_range = end_year >= 1 && end_year - 1 > latest;
        }
        let start_not_before_end = start_year >= end_year;
        let mut final_value: i64 = money;
        let mut i: usize = 0;
        let mut fits = true;
        proof {
            assert(s.take(0) =~= Seq::<(usize, i64)>::empty());
        }
        while i < entries.len()
            invariant
                entries@ == s,
                0 <= i <= s.len(),
                fits ==> final_value == compounded(s.take(i as int), money as int, start_year, end_year),
                fits ==> forall|k: int| 0 <= k <= i ==> i64::MIN <= #[trigger] compounded(s.take(k), money as int, start_year, end_year) <= i64::MAX,
                !fits ==> !compounding_fits(s, money as int, start_year, end_year),
            decreases s.len() - i,
        {
            let (year, rate) = entries[i];
            proof {
                assert(s.take(i + 1).drop_last() =~= s.take(i as int));
                assert(s.take(i + 1).last() == s[i as int]);
            }
            if fits && start_year <= year && year < end_year {
                let factor: i128 = RATE_SCALE as i128 - rate as i128;
                proof {
                    assert(-0x8000_0000_0000_0000 - 1_000_000 <= factor <= 0x8000_0000_0000_0000 + 1_000_000);
                    lemma_product_bound(final_value as int, factor as int);
                }
                let product: i128 = final_value as i128 * factor;
                let next: i128 = floor_div(product, RATE_SCALE as i128);
                if next < i64::MIN as i128 || next > i64::MAX as i128 {
                    fits = false;
                    assert(!(i64::MIN <= compounded(s.take(i + 1), money as int, start_year, end_year) <= i64::MAX));
                } else {
                    final_value = next as i64;
                }
            }
            i = i + 1;
        }
        proof {
            if fits {
                assert(s.take(s.len() as int) =~= s);
            }
        }
        FutureValue {
            value: if fits { Some(final_value) } else { None },
            no_data,
            start_out_of_range,
            end_out_of_range,
            start_not_before_end,
        }
    }

    /// Every entry, in iteration order.
    pub fn describe(&self) -> (r: Vec<(usize, i64)>)
        ensures
            r@ == self.entries(),
    {
        entry_list(&self.yearly_val)
    }
}

} // verus!
