//! Facts about sequences.

use vstd::prelude::*;

verus! {

/// As many different numbers below a bound as the bound allows are all of them.
pub proof fn lemma_all_positions_occur(values: Seq<int>, p: int)
    requires
        values.no_duplicates(),
        forall|k: int| 0 <= k < values.len() ==> 0 <= #[trigger] values[k] < values.len(),
        0 <= p < values.len(),
    ensures
        values.contains(p),
{
    let all = vstd::set_lib::set_int_range(0, values.len() as int);
    vstd::set_lib::lemma_int_range(0, values.len() as int);
    values.unique_seq_to_set();
    assert(values.to_set().subset_of(all));
    vstd::set_lib::lemma_subset_equality(values.to_set(), all);
    assert(all.contains(p));
    assert(values.to_set().contains(p));
}

} // verus!
