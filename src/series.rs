//! The ordered year-to-rate store, kept in a `linked_hash_map::LinkedHashMap`.
use linked_hash_map::LinkedHashMap;
use vstd::prelude::*;

verus! {

#[verifier::external_type_specification]
#[verifier::external_body]
#[verifier::reject_recursive_types(K)]
#[verifier::reject_recursive_types(V)]
#[verifier::reject_recursive_types(S)]
pub struct ExLinkedHashMap<K, V, S>(LinkedHashMap<K, V, S>);

/// The entries of a map, as (year, rate) pairs in iteration order.
pub uninterp spec fn year_entries(m: LinkedHashMap<usize, i64>) -> Seq<(usize, i64)>;

/// Whether some entry of `s` has the key `year`.
pub open spec fn has_year(s: Seq<(usize, i64)>, year: usize) -> bool {
    exists|i: int| 0 <= i < s.len() && (#[trigger] s[i]).0 == year
}

/// `s` with the rate of every entry keyed by `year` replaced by `rate`.
pub open spec fn with_rate(s: Seq<(usize, i64)>, year: usize, rate: i64) -> Seq<(usize, i64)> {
    s.map_values(|e: (usize, i64)| if e.0 == year { (year, rate) } else { e })
}

/// Relies on `LinkedHashMap::new`: a map with no entries.
#[verifier::external_body]
pub(crate) fn empty_map() -> (m: LinkedHashMap<usize, i64>)
    ensures
        year_entries(m) == Seq::<(usize, i64)>::empty(),
{
    LinkedHashMap::new()
}

/// Relies on `LinkedHashMap::insert`: a key not yet present goes to the back.
#[verifier::external_body]
pub(crate) fn append_entry(m: &mut LinkedHashMap<usize, i64>, year: usize, rate: i64)
    requires
        !has_year(year_entries(*old(m)), year),
    ensures
        year_entries(*final(m)) == year_entries(*old(m)).push((year, rate)),
{
    m.insert(year, rate);
}

/// Relies on `LinkedHashMap::get_mut`: the value of a present key is replaced
/// where it stands, and a missing key leaves the map as it was.
#[verifier::external_body]
pub(crate) fn overwrite_entry(m: &mut LinkedHashMap<usize, i64>, year: usize, rate: i64) -> (found: bool)
    ensures
        found == has_year(year_entries(*old(m)), year),
        year_entries(*final(m)) == with_rate(year_entries(*old(m)), year, rate),
{
    match m.get_mut(&year) {
        Some(slot) => {
            *slot = rate;
            true
        },
        None => false,
    }
}

/// Relies on `LinkedHashMap::clear`: no entries are left.
#[verifier::external_body]
pub(crate) fn clear_map(m: &mut LinkedHashMap<usize, i64>)
    ensures
        year_entries(*final(m)) == Seq::<(usize, i64)>::empty(),
{
    m.clear();
}

/// Relies on `LinkedHashMap::len`: the number of entries.
#[verifier::external_body]
pub(crate) fn map_len(m: &LinkedHashMap<usize, i64>) -> (n: usize)
    ensures
        n == year_entries(*m).len(),
{
    m.len()
}

/// Relies on `LinkedHashMap::iter`: every entry, in iteration order.
#[verifier::external_body]
pub(crate) fn entry_list(m: &LinkedHashMap<usize, i64>) -> (r: Vec<(usize, i64)>)
    ensures
        r@ == year_entries(*m),
{
    m.iter().map(|(k, v)| (*k, *v)).collect()
}

} // verus!
