//! Reconciliation entries: for one relative path, the canonical identifier
//! that must replace the stale one, and lookup of a stale identifier among
//! the entries of a run.

use vstd::prelude::*;
use crate::guid::is_guid;

verus! {

/// One reconciliation entry: the asset at `relative_path` carries
/// `stale_id` in the subordinate tree and `canonical_id` in the canonical
/// tree.
pub struct GuidMapping {
    pub relative_path: Vec<u8>,
    pub canonical_id: Vec<u8>,
    pub stale_id: Vec<u8>,
}

/// Both identifiers of an entry are well-formed.
pub open spec fn wf_mapping(m: GuidMapping) -> bool {
    is_guid(m.canonical_id@) && is_guid(m.stale_id@)
}

pub open spec fn wf_mappings(ms: Seq<GuidMapping>) -> bool {
    forall|i: int| 0 <= i < ms.len() ==> wf_mapping(#[trigger] ms[i])
}

/// The canonical identifier that replaces `stale`: the first entry whose
/// stale identifier equals it, if any.
pub open spec fn lookup_canonical(ms: Seq<GuidMapping>, stale: Seq<u8>) -> Option<Seq<u8>>
    decreases ms.len(),
{
    if ms.len() == 0 {
        None
    } else if ms[0].stale_id@ == stale {
        Some(ms[0].canonical_id@)
    } else {
        lookup_canonical(ms.skip(1), stale)
    }
}

/// An identifier that is some entry's stale identifier always resolves.
pub proof fn lemma_lookup_some(ms: Seq<GuidMapping>, m: int)
    requires
        0 <= m < ms.len(),
    ensures
        lookup_canonical(ms, ms[m].stale_id@) is Some,
    decreases ms.len(),
{
    if ms[0].stale_id@ == ms[m].stale_id@ {
    } else {
        assert(m != 0);
        assert(ms.skip(1)[m - 1] == ms[m]);
        lemma_lookup_some(ms.skip(1), m - 1);
    }
}

/// An identifier that resolves to nothing is no entry's stale identifier.
pub proof fn lemma_lookup_none(ms: Seq<GuidMapping>, stale: Seq<u8>)
    requires
        lookup_canonical(ms, stale) is None,
    ensures
        forall|m: int| 0 <= m < ms.len() ==> (#[trigger] ms[m]).stale_id@ != stale,
    decreases ms.len(),
{
    if ms.len() > 0 {
        lemma_lookup_none(ms.skip(1), stale);
        assert(forall|m: int| 1 <= m < ms.len() ==> #[trigger] ms[m] == ms.skip(1)[m - 1]);
    }
}

/// Whatever a lookup returns among well-formed entries is a well-formed
/// identifier.
pub proof fn lemma_lookup_wf(ms: Seq<GuidMapping>, stale: Seq<u8>)
    requires
        wf_mappings(ms),
        lookup_canonical(ms, stale) is Some,
    ensures
        is_guid(lookup_canonical(ms, stale).unwrap()),
    decreases ms.len(),
{
    if ms.len() > 0 && ms[0].stale_id@ != stale {
        assert(forall|m: int| 1 <= m < ms.len() ==> #[trigger] ms[m] == ms.skip(1)[m - 1]);
        assert(wf_mappings(ms.skip(1)));
        lemma_lookup_wf(ms.skip(1), stale);
    }
}

/// Runtime lookup: the index of the first entry whose stale identifier is
/// `stale`.
pub fn lookup(ms: &Vec<GuidMapping>, stale: &Vec<u8>) -> (r: Option<usize>)
    ensures
        match r {
            Some(m) => m < ms@.len() && ms@[m as int].stale_id@ == stale@
                && lookup_canonical(ms@, stale@) == Some(ms@[m as int].canonical_id@),
            None => lookup_canonical(ms@, stale@) is None,
        },
{
    let mut j: usize = 0;
    proof {
        assert(ms@.skip(0) =~= ms@);
    }
    while j < ms.len()
        invariant
            0 <= j <= ms@.len(),
            lookup_canonical(ms@, stale@) == lookup_canonical(ms@.skip(j as int), stale@),
        decreases ms@.len() - j,
    {
        proof {
            assert(ms@.skip(j as int)[0] == ms@[j as int]);
            assert(ms@.skip(j as int).skip(1) =~= ms@.skip(j as int + 1));
        }
        if crate::bytes::bytes_eq(&ms[j].stale_id, stale) {
            return Some(j);
        }
        j = j + 1;
    }
    None
}

} // verus!
