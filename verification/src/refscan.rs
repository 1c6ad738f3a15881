//! Scanning and rewriting of identifier references inside structured text
//! files.
//!
//! A reference occurrence is the token `guid:` followed by any run of
//! whitespace and exactly 32 hex bytes; the composite token
//! `{fileID: <digits>, guid: <hex32>, type: <digits>}` embeds one such
//! occurrence and is rewritten and counted through it, so every occurrence
//! is handled exactly once. Rewriting replaces only the 32 identifier bytes
//! of each occurrence whose identifier is some entry's stale identifier;
//! every other byte of the file is left as it was.

use vstd::prelude::*;
use crate::guid::{is_hex_byte, hex_byte, GUID_LEN};
use crate::mapping::{GuidMapping, wf_mappings, lookup_canonical, lookup};
use crate::mapping::{lemma_lookup_none, lemma_lookup_wf};
use crate::bytes::copy_range;

verus! {

/// Whitespace accepted between `guid:` and the identifier: space, tab, line
/// feed, vertical tab, form feed, carriage return.
pub open spec fn is_space_byte(b: u8) -> bool {
    b == 32 || b == 9 || b == 10 || b == 11 || b == 12 || b == 13
}

/// Runtime test for a whitespace byte.
pub fn space_byte(b: u8) -> (r: bool)
    ensures
        r == is_space_byte(b),
{
    b == 32 || b == 9 || b == 10 || b == 11 || b == 12 || b == 13
}

/// The five marker bytes `guid:` stand at position `i`.
pub open spec fn marker_at(s: Seq<u8>, i: int) -> bool {
    &&& 0 <= i
    &&& i + 5 <= s.len()
    &&& s[i] == 103u8
    &&& s[i + 1] == 117u8
    &&& s[i + 2] == 105u8
    &&& s[i + 3] == 100u8
    &&& s[i + 4] == 58u8
}

/// First position at or after `i` that does not hold a whitespace byte.
pub open spec fn skip_spaces(s: Seq<u8>, i: int) -> int
    decreases s.len() - i,
        when 0 <= i <= s.len()
{
    if i >= s.len() {
        i
    } else if is_space_byte(s[i]) {
        skip_spaces(s, i + 1)
    } else {
        i
    }
}

pub proof fn lemma_skip_spaces(s: Seq<u8>, i: int)
    requires
        0 <= i <= s.len(),
    ensures
        i <= skip_spaces(s, i) <= s.len(),
        forall|k: int| i <= k < skip_spaces(s, i) ==> is_space_byte(#[trigger] s[k]),
        skip_spaces(s, i) < s.len() ==> !is_space_byte(s[skip_spaces(s, i)]),
    decreases s.len() - i,
{
    if i < s.len() && is_space_byte(s[i]) {
        lemma_skip_spaces(s, i + 1);
    }
}

/// A reference occurrence starts at `i`: the marker, a whitespace run, and
/// 32 hex bytes.
pub open spec fn match_at(s: Seq<u8>, i: int) -> bool {
    marker_at(s, i) && {
        let h = skip_spaces(s, i + 5);
        h + 32 <= s.len() && (forall|k: int| h <= k < h + 32 ==> is_hex_byte(#[trigger] s[k]))
    }
}

/// Position of the first identifier byte of the occurrence at `i`.
pub open spec fn hex_start(s: Seq<u8>, i: int) -> int {
    skip_spaces(s, i + 5)
}

/// Position just past the identifier of the occurrence at `i`.
pub open spec fn match_end(s: Seq<u8>, i: int) -> int {
    hex_start(s, i) + 32
}

/// The identifier captured by the occurrence at `i`.
pub open spec fn guid_at(s: Seq<u8>, i: int) -> Seq<u8> {
    s.subrange(hex_start(s, i), match_end(s, i))
}

/// Two occurrences never overlap: a later one starts at or past the end of
/// an earlier one.
pub proof fn lemma_match_separation(s: Seq<u8>, i1: int, i2: int)
    requires
        match_at(s, i1),
        match_at(s, i2),
        i1 < i2,
    ensures
        i2 >= match_end(s, i1),
{
    lemma_skip_spaces(s, i1 + 5);
    let h = hex_start(s, i1);
    if i2 < i1 + 5 {
        // the marker bytes after position i1 are not the byte `g`
        assert(s[i2] == 103);
        assert(i2 == i1 + 1 || i2 == i1 + 2 || i2 == i1 + 3 || i2 == i1 + 4);
        assert(false);
    } else if i2 < h {
        // a whitespace byte is not the byte `g`
        assert(is_space_byte(s[i2]));
        assert(false);
    } else if i2 < h + 32 {
        // a hex byte is not the byte `g`
        assert(is_hex_byte(s[i2]));
        assert(false);
    }
}

/// The occurrence at `i` (if any) covers byte `k` of the file with a stale
/// identifier that resolves to a canonical one.
pub open spec fn mapped_cover(s: Seq<u8>, ms: Seq<GuidMapping>, k: int, i: int) -> bool {
    match_at(s, i) && lookup_canonical(ms, guid_at(s, i)) is Some
        && hex_start(s, i) <= k < match_end(s, i)
}

/// Byte `k` lies inside the identifier of some occurrence that is being
/// replaced.
pub open spec fn mapped_span(s: Seq<u8>, ms: Seq<GuidMapping>, k: int) -> bool {
    exists|i: int| mapped_cover(s, ms, k, i)
}

/// Byte `k` of the rewritten file: inside a replaced identifier it comes
/// from the canonical identifier, elsewhere it is the original byte.
pub open spec fn rewritten_byte(s: Seq<u8>, ms: Seq<GuidMapping>, k: int) -> u8 {
    if mapped_span(s, ms, k) {
        let i = choose|i: int| mapped_cover(s, ms, k, i);
        lookup_canonical(ms, guid_at(s, i)).unwrap()[k - hex_start(s, i)]
    } else {
        s[k]
    }
}

/// The whole rewritten file. It always has the length of the original.
pub open spec fn rewritten(s: Seq<u8>, ms: Seq<GuidMapping>) -> Seq<u8> {
    Seq::new(s.len(), |k: int| rewritten_byte(s, ms, k))
}

/// At most one occurrence covers any byte.
pub proof fn lemma_cover_unique(s: Seq<u8>, i1: int, i2: int, k: int)
    requires
        match_at(s, i1),
        match_at(s, i2),
        hex_start(s, i1) <= k < match_end(s, i1),
        hex_start(s, i2) <= k < match_end(s, i2),
    ensures
        i1 == i2,
{
    if i1 < i2 {
        lemma_match_separation(s, i1, i2);
        lemma_skip_spaces(s, i2 + 5);
        assert(false);
    } else if i2 < i1 {
        lemma_match_separation(s, i2, i1);
        lemma_skip_spaces(s, i1 + 5);
        assert(false);
    }
}

/// Inside the identifier of a replaced occurrence, the rewritten byte is
/// the corresponding canonical byte.
pub proof fn lemma_rewritten_in_span(s: Seq<u8>, ms: Seq<GuidMapping>, i: int, k: int)
    requires
        match_at(s, i),
        lookup_canonical(ms, guid_at(s, i)) is Some,
        hex_start(s, i) <= k < match_end(s, i),
    ensures
        mapped_span(s, ms, k),
        rewritten_byte(s, ms, k) == lookup_canonical(ms, guid_at(s, i)).unwrap()[k - hex_start(
            s,
            i,
        )],
{
    assert(mapped_cover(s, ms, k, i));
    let i2 = choose|i2: int| mapped_cover(s, ms, k, i2);
    lemma_cover_unique(s, i, i2, k);
}

/// Inside the identifier of an occurrence whose identifier is stale for no
/// entry, bytes are unchanged.
pub proof fn lemma_rewritten_unmapped(s: Seq<u8>, ms: Seq<GuidMapping>, i: int, k: int)
    requires
        match_at(s, i),
        lookup_canonical(ms, guid_at(s, i)) is None,
        hex_start(s, i) <= k < match_end(s, i),
    ensures
        !mapped_span(s, ms, k),
        rewritten_byte(s, ms, k) == s[k],
{
    if mapped_span(s, ms, k) {
        let i2 = choose|i2: int| mapped_cover(s, ms, k, i2);
        lemma_cover_unique(s, i, i2, k);
        assert(false);
    }
}

/// A byte at or before the frontier of a left-to-right scan is covered by
/// no occurrence, provided every occurrence before the frontier ends by it:
/// either the byte sits before the identifier of the occurrence at the
/// frontier, or the frontier matches nothing and the byte is the frontier
/// itself.
pub proof fn lemma_rewritten_plain(s: Seq<u8>, ms: Seq<GuidMapping>, f: int, k: int)
    requires
        forall|i0: int| 0 <= i0 < f && #[trigger] match_at(s, i0) ==> match_end(s, i0) <= f,
        0 <= f <= k < s.len(),
        (match_at(s, f) && f <= k < hex_start(s, f)) || (!match_at(s, f) && k == f),
    ensures
        !mapped_span(s, ms, k),
        rewritten_byte(s, ms, k) == s[k],
{
    if mapped_span(s, ms, k) {
        let i0 = choose|i0: int| mapped_cover(s, ms, k, i0);
        lemma_skip_spaces(s, i0 + 5);
        if i0 < f {
            assert(match_end(s, i0) <= f);
            assert(false);
        } else if i0 == f {
            assert(false);
        } else {
            if match_at(s, f) {
                lemma_match_separation(s, f, i0);
                lemma_skip_spaces(s, f + 5);
                assert(false);
            } else {
                assert(false);
            }
        }
    }
}

/// Number of occurrences from position `i` on whose identifier resolves to
/// a canonical one — the occurrences a rewrite replaces.
pub open spec fn replaced_count(s: Seq<u8>, ms: Seq<GuidMapping>, i: int) -> nat
    decreases s.len() - i,
        when 0 <= i
{
    if i >= s.len() {
        0nat
    } else {
        (if match_at(s, i) && lookup_canonical(ms, guid_at(s, i)) is Some {
            1nat
        } else {
            0nat
        }) + replaced_count(s, ms, i + 1)
    }
}

/// Number of occurrences from position `i` on whose identifier is exactly
/// `stale`.
pub open spec fn stale_count(s: Seq<u8>, stale: Seq<u8>, i: int) -> nat
    decreases s.len() - i,
        when 0 <= i
{
    if i >= s.len() {
        0nat
    } else {
        (if match_at(s, i) && guid_at(s, i) == stale {
            1nat
        } else {
            0nat
        }) + stale_count(s, stale, i + 1)
    }
}

pub proof fn lemma_replaced_count_le(s: Seq<u8>, ms: Seq<GuidMapping>, i: int)
    requires
        0 <= i <= s.len(),
    ensures
        replaced_count(s, ms, i) <= s.len() - i,
    decreases s.len() - i,
{
    if i < s.len() {
        lemma_replaced_count_le(s, ms, i + 1);
    }
}

pub proof fn lemma_stale_count_le(s: Seq<u8>, stale: Seq<u8>, i: int)
    requires
        0 <= i <= s.len(),
    ensures
        stale_count(s, stale, i) <= s.len() - i,
    decreases s.len() - i,
{
    if i < s.len() {
        lemma_stale_count_le(s, stale, i + 1);
    }
}

/// A stale identifier's occurrences are among the replaced occurrences, as
/// long as the identifier resolves.
pub proof fn lemma_stale_le_replaced(s: Seq<u8>, ms: Seq<GuidMapping>, stale: Seq<u8>, i: int)
    requires
        0 <= i <= s.len(),
        lookup_canonical(ms, stale) is Some,
    ensures
        stale_count(s, stale, i) <= replaced_count(s, ms, i),
    decreases s.len() - i,
{
    if i < s.len() {
        lemma_stale_le_replaced(s, ms, stale, i + 1);
    }
}

/// Over a stretch with no occurrence the replaced count does not change.
pub proof fn lemma_replaced_count_range(s: Seq<u8>, ms: Seq<GuidMapping>, a: int, b: int)
    requires
        0 <= a <= b <= s.len(),
        forall|j: int| a <= j < b ==> !#[trigger] match_at(s, j),
    ensures
        replaced_count(s, ms, a) == replaced_count(s, ms, b),
    decreases b - a,
{
    if a < b {
        lemma_replaced_count_range(s, ms, a + 1, b);
    }
}

/// Over a stretch with no occurrence a stale identifier's count does not
/// change.
pub proof fn lemma_stale_count_range(s: Seq<u8>, stale: Seq<u8>, a: int, b: int)
    requires
        0 <= a <= b <= s.len(),
        forall|j: int| a <= j < b ==> !#[trigger] match_at(s, j),
    ensures
        stale_count(s, stale, a) == stale_count(s, stale, b),
    decreases b - a,
{
    if a < b {
        lemma_stale_count_range(s, stale, a + 1, b);
    }
}

/// What a rewrite returns: the rewritten file, one count per entry for the
/// occurrences of that entry's stale identifier, and the total number of
/// replaced occurrences.
pub struct RewriteOutcome {
    pub content: Vec<u8>,
    pub counts: Vec<usize>,
    pub total: usize,
}

/// Rewrite every replaced occurrence of `s` in one left-to-right pass and
/// tally the occurrences, without touching any other byte.
#[verifier::loop_isolation(false)]
pub fn rewrite_references(s: &Vec<u8>, ms: &Vec<GuidMapping>) -> (r: RewriteOutcome)
    requires
        wf_mappings(ms@),
    ensures
        r.content@ == rewritten(s@, ms@),
        r.total as nat == replaced_count(s@, ms@, 0),
        r.counts@.len() == ms@.len(),
        forall|m: int| 0 <= m < ms@.len() ==> r.counts@[m] as nat == stale_count(
            s@,
            (#[trigger] ms@[m]).stale_id@,
            0,
        ),
{
    let n = s.len();
    let mut out: Vec<u8> = Vec::new();
    let mut counts: Vec<usize> = Vec::new();
    while counts.len() < ms.len()
        invariant
            counts@.len() <= ms@.len(),
            forall|m: int| 0 <= m < counts@.len() ==> counts@[m] == 0usize,
        decreases ms@.len() - counts@.len(),
    {
        counts.push(0);
    }
    let mut total: usize = 0;
    let mut i: usize = 0;
    proof {
        lemma_replaced_count_le(s@, ms@, 0);
    }
    while i < n
        invariant
            0 <= i <= n,
            out@.len() == i,
            counts@.len() == ms@.len(),
            forall|k: int| 0 <= k < i ==> out@[k] == rewritten_byte(s@, ms@, k),
            forall|i0: int|
                0 <= i0 < i && #[trigger] match_at(s@, i0) ==> match_end(s@, i0) <= i,
            total as nat + replaced_count(s@, ms@, i as int) == replaced_count(s@, ms@, 0),
            forall|m: int|
                0 <= m < ms@.len() ==> #[trigger] counts@[m] as nat + stale_count(
                    s@,
                    ms@[m].stale_id@,
                    i as int,
                ) == stale_count(s@, ms@[m].stale_id@, 0),
        decreases n - i,
    {
        let found = try_match(s, i);
        match found {
            None => {
                proof {
                    lemma_rewritten_plain(s@, ms@, i as int, i as int);
                }
                out.push(s[i]);
                i = i + 1;
            },
            Some(h) => {
                let ghost i_m: int = i as int;
                proof {
                    assert forall|j: int| i_m < j < match_end(s@, i_m) implies !match_at(
                        s@,
                        j,
                    ) by {
                        if match_at(s@, j) {
                            lemma_match_separation(s@, i_m, j);
                        }
                    }
                    lemma_skip_spaces(s@, i_m + 5);
                }
                // bytes before the identifier are copied unchanged
                let mut k = i;
                while k < h
                    invariant
                        i <= k <= h,
                        out@.len() == k,
                        forall|k2: int| 0 <= k2 < k ==> out@[k2] == rewritten_byte(s@, ms@, k2),
                    decreases h - k,
                {
                    proof {
                        lemma_rewritten_plain(s@, ms@, i as int, k as int);
                    }
                    out.push(s[k]);
                    k = k + 1;
                }
                let g = copy_range(s, h, h + GUID_LEN);
                proof {
                    assert(g@ == guid_at(s@, i as int));
                }
                let hit = lookup(ms, &g);
                match hit {
                    Some(mi) => {
                        proof {
                            lemma_lookup_wf(ms@, g@);
                        }
                        let mut t: usize = 0;
                        while t < GUID_LEN
                            invariant
                                0 <= t <= 32,
                                out@.len() == h + t,
                                forall|k2: int|
                                    0 <= k2 < h + t ==> out@[k2] == rewritten_byte(s@, ms@, k2),
                            decreases 32 - t,
                        {
                            proof {
                                lemma_rewritten_in_span(s@, ms@, i as int, (h + t) as int);
                            }
                            out.push(ms[mi].canonical_id[t]);
                            t = t + 1;
                        }
                        // tally the replaced occurrence
                        proof {
                            assert(replaced_count(s@, ms@, i as int) == 1 + replaced_count(
                                s@,
                                ms@,
                                i as int + 1,
                            ));
                            lemma_replaced_count_range(s@, ms@, i as int + 1, match_end(s@, i as int));
                            lemma_replaced_count_le(s@, ms@, 0);
                        }
                        total = total + 1;
                        let ghost counts0 = counts@;
                        let mut m: usize = 0;
                        while m < ms.len()
                            invariant
                                0 <= m <= ms@.len(),
                                counts@.len() == counts0.len() == ms@.len(),
                                forall|mm: int|
                                    0 <= mm < m ==> #[trigger] counts@[mm] as nat == counts0[mm]
                                        + (if ms@[mm].stale_id@ == g@ {
                                        1nat
                                    } else {
                                        0nat
                                    }),
                                forall|mm: int|
                                    m <= mm < ms@.len() ==> #[trigger] counts@[mm] == counts0[mm],
                            decreases ms@.len() - m,
                        {
                            if crate::bytes::bytes_eq(&ms[m].stale_id, &g) {
                                proof {
                                    assert(stale_count(s@, ms@[m as int].stale_id@, i as int)
                                        >= 1);
                                    lemma_stale_count_le(s@, ms@[m as int].stale_id@, 0);
                                }
                                let c = counts[m];
                                counts.set(m, c + 1);
                            }
                            m = m + 1;
                        }
                        proof {
                            let e = match_end(s@, i as int);
                            assert forall|mm: int| 0 <= mm < ms@.len() implies #[trigger] counts@[mm]
                                as nat + stale_count(s@, ms@[mm].stale_id@, e) == stale_count(
                                s@,
                                ms@[mm].stale_id@,
                                0,
                            ) by {
                                let st = ms@[mm].stale_id@;
                                assert(stale_count(s@, st, i as int) == (if guid_at(s@, i as int)
                                    == st {
                                    1nat
                                } else {
                                    0nat
                                }) + stale_count(s@, st, i as int + 1));
                                lemma_stale_count_range(s@, st, i as int + 1, e);
                            }
                        }
                        i = h + GUID_LEN;
                    },
                    None => {
                        let mut t: usize = 0;
                        while t < GUID_LEN
                            invariant
                                0 <= t <= 32,
                                out@.len() == h + t,
                                forall|k2: int|
                                    0 <= k2 < h + t ==> out@[k2] == rewritten_byte(s@, ms@, k2),
                            decreases 32 - t,
                        {
                            proof {
                                lemma_rewritten_unmapped(s@, ms@, i as int, (h + t) as int);
                            }
                            out.push(s[h + t]);
                            t = t + 1;
                        }
                        proof {
                            let e = match_end(s@, i as int);
                            assert(replaced_count(s@, ms@, i as int) == replaced_count(
                                s@,
                                ms@,
                                i as int + 1,
                            ));
                            lemma_replaced_count_range(s@, ms@, i as int + 1, e);
                            lemma_lookup_none(ms@, g@);
                            assert forall|mm: int| 0 <= mm < ms@.len() implies #[trigger] counts@[mm]
                                as nat + stale_count(s@, ms@[mm].stale_id@, e) == stale_count(
                                s@,
                                ms@[mm].stale_id@,
                                0,
                            ) by {
                                let st = ms@[mm].stale_id@;
                                assert(st != guid_at(s@, i as int));
                                assert(stale_count(s@, st, i as int) == stale_count(
                                    s@,
                                    st,
                                    i as int + 1,
                                ));
                                lemma_stale_count_range(s@, st, i as int + 1, e);
                            }
                        }
                        i = h + GUID_LEN;
                    },
                }
            },
        }
    }
    proof {
        assert(out@ =~= rewritten(s@, ms@));
    }
    RewriteOutcome { content: out, counts, total }
}

/// Count the occurrences whose identifier is exactly `stale`, without
/// rewriting anything.
#[verifier::loop_isolation(false)]
pub fn count_stale(s: &Vec<u8>, stale: &Vec<u8>) -> (c: usize)
    ensures
        c as nat == stale_count(s@, stale@, 0),
{
    let n = s.len();
    let mut c: usize = 0;
    let mut i: usize = 0;
    proof {
        lemma_stale_count_le(s@, stale@, 0);
    }
    while i < n
        invariant
            0 <= i <= n,
            c as nat + stale_count(s@, stale@, i as int) == stale_count(s@, stale@, 0),
        decreases n - i,
    {
        let found = try_match(s, i);
        match found {
            None => {
                i = i + 1;
            },
            Some(h) => {
                proof {
                    assert forall|j: int| i < j < match_end(s@, i as int) implies !match_at(
                        s@,
                        j,
                    ) by {
                        if match_at(s@, j) {
                            lemma_match_separation(s@, i as int, j);
                        }
                    }
                    lemma_stale_count_range(s@, stale@, i as int + 1, match_end(s@, i as int));
                }
                let g = copy_range(s, h, h + GUID_LEN);
                proof {
                    assert(g@ == guid_at(s@, i as int));
                }
                if crate::bytes::bytes_eq(&g, stale) {
                    c = c + 1;
                }
                i = h + GUID_LEN;
            },
        }
    }
    c
}

/// Find a reference occurrence starting exactly at `i`: on success the
/// returned position is the first identifier byte.
#[verifier::loop_isolation(false)]
pub fn try_match(s: &Vec<u8>, i: usize) -> (r: Option<usize>)
    requires
        i < s@.len(),
    ensures
        match r {
            Some(h) => match_at(s@, i as int) && h as int == hex_start(s@, i as int) && i + 5 <= h
                && h + 32 <= s@.len(),
            None => !match_at(s@, i as int),
        },
{
    let n = s.len();
    if n - i < 5 {
        return None;
    }
    if !(s[i] == 103 && s[i + 1] == 117 && s[i + 2] == 105 && s[i + 3] == 100 && s[i + 4] == 58) {
        return None;
    }
    let mut h = i + 5;
    while h < n && space_byte(s[h])
        invariant
            i + 5 <= h <= n,
            n == s@.len(),
            skip_spaces(s@, i as int + 5) == skip_spaces(s@, h as int),
        decreases n - h,
    {
        h = h + 1;
    }
    proof {
        assert(skip_spaces(s@, h as int) == h as int);
    }
    if n - h < 32 {
        return None;
    }
    let mut t: usize = 0;
    while t < 32
        invariant
            0 <= t <= 32,
            h + 32 <= n == s@.len(),
            forall|k: int| h <= k < h + t ==> is_hex_byte(#[trigger] s@[k]),
        decreases 32 - t,
    {
        if !hex_byte(s[h + t]) {
            return None;
        }
        t = t + 1;
    }
    Some(h)
}

/// The first line of the file begins with one of the recognized document
/// markers, `%YAML` or `---`. Both markers are free of line breaks, so this
/// is a property of the file's leading bytes.
pub open spec fn has_document_marker(s: Seq<u8>) -> bool {
    (s.len() >= 5 && s[0] == 37u8 && s[1] == 89u8 && s[2] == 65u8 && s[3] == 77u8 && s[4]
        == 76u8) || (s.len() >= 3 && s[0] == 45u8 && s[1] == 45u8 && s[2] == 45u8)
}

/// Runtime test for the document marker heuristic.
pub fn document_marker(s: &Vec<u8>) -> (r: bool)
    ensures
        r == has_document_marker(s@),
{
    if s.len() >= 5 && s[0] == 37 && s[1] == 89 && s[2] == 65 && s[3] == 77 && s[4] == 76 {
        return true;
    }
    s.len() >= 3 && s[0] == 45 && s[1] == 45 && s[2] == 45
}

/// Bytes covered by no replaced identifier are byte-identical after a
/// rewrite.
pub proof fn lemma_rewrite_preserves_unmatched(s: Seq<u8>, ms: Seq<GuidMapping>, k: int)
    requires
        0 <= k < s.len(),
        !mapped_span(s, ms, k),
    ensures
        rewritten(s, ms)[k] == s[k],
{
}

proof fn lemma_replaced_count_empty(s: Seq<u8>, ms: Seq<GuidMapping>, i: int)
    requires
        ms.len() == 0,
        0 <= i <= s.len(),
    ensures
        replaced_count(s, ms, i) == 0,
    decreases s.len() - i,
{
    if i < s.len() {
        lemma_replaced_count_empty(s, ms, i + 1);
    }
}

/// With no reconciliation entries a rewrite replaces nothing: the file is
/// unchanged byte for byte and the total is zero.
pub proof fn lemma_rewrite_empty(s: Seq<u8>, ms: Seq<GuidMapping>)
    requires
        ms.len() == 0,
    ensures
        rewritten(s, ms) == s,
        replaced_count(s, ms, 0) == 0,
{
    assert forall|k: int| 0 <= k < s.len() implies rewritten_byte(s, ms, k) == s[k] by {
        if mapped_span(s, ms, k) {
            let i = choose|i: int| mapped_cover(s, ms, k, i);
            assert(lookup_canonical(ms, guid_at(s, i)) is None);
        }
    }
    assert(rewritten(s, ms) =~= s);
    lemma_replaced_count_empty(s, ms, 0);
}

} // verus!
