use vstd::prelude::*;

use crate::devices::stamp::NodeVoltageSourceStamp;
use crate::solver::matrix::builder::EntryMapping;

verus! {

/// The entry numbers of the pair `p`, if any, are below `m`.
pub open spec fn pair_in(p: Option<(usize, usize)>, m: int) -> bool {
    p matches Some((a, b)) ==> a < m && b < m
}

/// `q` is the pair `p` with both entry numbers mapped by `map`.
pub open spec fn pair_mapped(p: Option<(usize, usize)>, q: Option<(usize, usize)>, map: Seq<usize>) -> bool {
    match p {
        Some((a, b)) => q == Some((map[a as int], map[b as int])),
        None => q is None,
    }
}

/// The pair `p` with both entry numbers mapped to their positions.
fn map_pair(p: Option<(usize, usize)>, entry_mapping: &EntryMapping) -> (q: Option<(usize, usize)>)
    requires
        pair_in(p, entry_mapping@.len() as int),
    ensures
        pair_mapped(p, q, entry_mapping@),
{
    match p {
        Some((a, b)) => Some((entry_mapping.get(a), entry_mapping.get(b))),
        None => None,
    }
}

/// Replaces the entry numbers of the voltage-source stamps (given out when
/// their entries were pushed to the pattern) by the entries' positions in
/// the compressed matrix.
pub fn finialize_voltage_sources(stamps: &mut [NodeVoltageSourceStamp], entry_mapping: &EntryMapping)
    requires
        forall|k: int|
            0 <= k < old(stamps)@.len() ==> pair_in(#[trigger] old(stamps)@[k].pos_branch, entry_mapping@.len() as int)
                && pair_in(old(stamps)@[k].neg_branch, entry_mapping@.len() as int),
    ensures
        final(stamps)@.len() == old(stamps)@.len(),
        forall|k: int|
            0 <= k < old(stamps)@.len() ==> pair_mapped(old(stamps)@[k].pos_branch, #[trigger] final(stamps)@[k].pos_branch, entry_mapping@)
                && pair_mapped(old(stamps)@[k].neg_branch, final(stamps)@[k].neg_branch, entry_mapping@),
{
    let mut k: usize = 0;
    while k < stamps.len()
        invariant
            k <= stamps@.len(),
            stamps@.len() == old(stamps)@.len(),
            forall|j: int| k <= j < stamps@.len() ==> #[trigger] stamps@[j] == old(stamps)@[j],
            forall|j: int|
                0 <= j < old(stamps)@.len() ==> pair_in(#[trigger] old(stamps)@[j].pos_branch, entry_mapping@.len() as int)
                    && pair_in(old(stamps)@[j].neg_branch, entry_mapping@.len() as int),
            forall|j: int|
                0 <= j < k ==> pair_mapped(old(stamps)@[j].pos_branch, #[trigger] stamps@[j].pos_branch, entry_mapping@)
                    && pair_mapped(old(stamps)@[j].neg_branch, stamps@[j].neg_branch, entry_mapping@),
        decreases stamps@.len() - k,
    {
        let pos_branch = map_pair(stamps[k].pos_branch, entry_mapping);
        let neg_branch = map_pair(stamps[k].neg_branch, entry_mapping);
        stamps[k] = NodeVoltageSourceStamp { pos_branch, neg_branch };
        k = k + 1;
    }
}

} // verus!
