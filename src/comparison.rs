//! Which of two countries lost more purchasing power over the same years.
use vstd::prelude::*;

verus! {

/// The verdict on two amounts left after compounding over the same years.
#[derive(Debug, Clone, Copy, PartialEq, Eq, Structural)]
pub enum InflationComparison {
    /// The first country kept less, so its inflation was higher.
    FirstHigher,
    /// The second country kept less, so its inflation was higher.
    SecondHigher,
    /// Both kept the same amount.
    Same,
}

/// A larger amount left after decay means a lower effective inflation.
pub open spec fn higher_inflation(first_end: int, second_end: int) -> InflationComparison {
    if first_end > second_end {
        InflationComparison::SecondHigher
    } else if first_end < second_end {
        InflationComparison::FirstHigher
    } else {
        InflationComparison::Same
    }
}

/// The verdict with the two countries' roles exchanged.
pub open spec fn mirrored(c: InflationComparison) -> InflationComparison {
    match c {
        InflationComparison::FirstHigher => InflationComparison::SecondHigher,
        InflationComparison::SecondHigher => InflationComparison::FirstHigher,
        InflationComparison::Same => InflationComparison::Same,
    }
}

/// Compares what two countries kept of the same starting amount.
pub fn compare_inflation(first_end: i64, second_end: i64) -> (r: InflationComparison)
    ensures
        r == higher_inflation(first_end as int, second_end as int),
{
    if first_end > second_end {
        InflationComparison::SecondHigher
    } else if first_end < second_end {
        InflationComparison::FirstHigher
    } else {
        InflationComparison::Same
    }
}

/// Exchanging the two countries exchanges the verdict, and the country that
/// kept the larger amount is never the one named as having higher inflation.
pub proof fn lemma_comparison_swaps(first_end: int, second_end: int)
    ensures
        higher_inflation(second_end, first_end) == mirrored(higher_inflation(first_end, second_end)),
        first_end > second_end ==> higher_inflation(first_end, second_end)
            == InflationComparison::SecondHigher,
        first_end < second_end ==> higher_inflation(first_end, second_end)
            == InflationComparison::FirstHigher,
{
}

} // verus!
