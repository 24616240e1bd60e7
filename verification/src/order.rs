use rayon::slice::ParallelSliceMut;
use std::cmp::Ordering;
use vstd::prelude::*;

verus! {

/// Compares two order keys.
pub fn compare_keys(a: i64, b: i64) -> (o: Ordering)
    ensures
        (o == Ordering::Less) == (a < b),
        (o == Ordering::Equal) == (a == b),
        (o == Ordering::Greater) == (a > b),
{
    if a < b {
        Ordering::Less
    } else if a == b {
        Ordering::Equal
    } else {
        Ordering::Greater
    }
}

/// Calls `par_sort_unstable_by` of `rayon` with [`compare_keys`] on the
/// slots' keys. The slots are rearranged so that their keys do not fall;
/// which of two slots of one key comes first is left open.
#[verifier::external_body]
pub(crate) fn sort_slots(slots: &mut Vec<(i64, usize)>)
    ensures
        final(slots)@.to_multiset() == old(slots)@.to_multiset(),
        forall|i: int, j: int|
            0 <= i <= j < final(slots)@.len() ==> final(slots)@[i].0 <= final(slots)@[j].0,
{
    slots.par_sort_unstable_by(|a, b| compare_keys(a.0, b.0));
}

} // verus!
