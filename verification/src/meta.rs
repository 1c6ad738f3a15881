//! Descriptor files: extraction and in-place rewriting of the single
//! identifier declaration line.
//!
//! A declaration line is `guid:` at the start of a line, a run of blanks,
//! an optionally quoted 32-hex identifier, and nothing else but blanks to
//! the end of the line. Rewriting replaces only the 32 identifier bytes of
//! every declaration line: prefix, quoting, trailing blanks and the file's
//! newline convention survive byte for byte.

use vstd::prelude::*;
use crate::guid::{is_hex_byte, hex_byte, is_guid, GUID_LEN};
use crate::refscan::marker_at;
use crate::bytes::copy_range;

verus! {

/// Blank bytes that may appear inside a declaration line: space, tab,
/// vertical tab, form feed, carriage return — every whitespace byte but the
/// line feed.
pub open spec fn is_blank_byte(b: u8) -> bool {
    b == 32 || b == 9 || b == 11 || b == 12 || b == 13
}

pub fn blank_byte(b: u8) -> (r: bool)
    ensures
        r == is_blank_byte(b),
{
    b == 32 || b == 9 || b == 11 || b == 12 || b == 13
}

/// A single or double quote.
pub open spec fn is_quote_byte(b: u8) -> bool {
    b == 34 || b == 39
}

pub fn quote_byte(b: u8) -> (r: bool)
    ensures
        r == is_quote_byte(b),
{
    b == 34 || b == 39
}

/// Position `i` starts a line: the file's start, or just after a line feed.
pub open spec fn is_line_start(s: Seq<u8>, i: int) -> bool {
    0 <= i < s.len() && (i == 0 || s[i - 1] == 10u8)
}

/// First position at or after `i` holding a line feed, or the file's end.
pub open spec fn line_end(s: Seq<u8>, i: int) -> int
    decreases s.len() - i,
        when 0 <= i <= s.len()
{
    if i >= s.len() {
        i
    } else if s[i] == 10u8 {
        i
    } else {
        line_end(s, i + 1)
    }
}

pub proof fn lemma_line_end(s: Seq<u8>, i: int)
    requires
        0 <= i <= s.len(),
    ensures
        i <= line_end(s, i) <= s.len(),
        forall|k: int| i <= k < line_end(s, i) ==> s[k] != 10u8,
        line_end(s, i) < s.len() ==> s[line_end(s, i)] == 10u8,
    decreases s.len() - i,
{
    if i < s.len() && s[i] != 10u8 {
        lemma_line_end(s, i + 1);
    }
}

/// First position at or after `i` that does not hold a blank byte.
pub open spec fn skip_blanks(s: Seq<u8>, i: int) -> int
    decreases s.len() - i,
        when 0 <= i <= s.len()
{
    if i >= s.len() {
        i
    } else if is_blank_byte(s[i]) {
        skip_blanks(s, i + 1)
    } else {
        i
    }
}

pub proof fn lemma_skip_blanks(s: Seq<u8>, i: int)
    requires
        0 <= i <= s.len(),
    ensures
        i <= skip_blanks(s, i) <= s.len(),
        forall|k: int| i <= k < skip_blanks(s, i) ==> is_blank_byte(#[trigger] s[k]),
        skip_blanks(s, i) < s.len() ==> !is_blank_byte(s[skip_blanks(s, i)]),
    decreases s.len() - i,
{
    if i < s.len() && is_blank_byte(s[i]) {
        lemma_skip_blanks(s, i + 1);
    }
}

/// Position of the first identifier byte of the declaration on the line
/// starting at `i`: past the marker, the blanks, and an opening quote if
/// one is there.
pub open spec fn desc_hex_start(s: Seq<u8>, i: int) -> int {
    let j = skip_blanks(s, i + 5);
    if j < s.len() && is_quote_byte(s[j]) {
        j + 1
    } else {
        j
    }
}

/// The line starting at `i` is an identifier declaration: `guid:`, blanks,
/// an optional quote, 32 hex bytes, an optional quote, then blanks to the
/// end of the line.
pub open spec fn desc_match_at(s: Seq<u8>, i: int) -> bool {
    &&& is_line_start(s, i)
    &&& marker_at(s, i)
    &&& {
        let e = line_end(s, i);
        let h = desc_hex_start(s, i);
        &&& h + 32 <= e
        &&& (forall|k: int| h <= k < h + 32 ==> is_hex_byte(#[trigger] s[k]))
        &&& {
            let t = h + 32;
            let t2 = if t < s.len() && is_quote_byte(s[t]) {
                t + 1
            } else {
                t
            };
            skip_blanks(s, t2) == e
        }
    }
}

/// The identifier declared on the line starting at `i`.
pub open spec fn desc_guid_at(s: Seq<u8>, i: int) -> Seq<u8> {
    s.subrange(desc_hex_start(s, i), desc_hex_start(s, i) + 32)
}

/// Some line of the file declares an identifier.
pub open spec fn has_desc_line(s: Seq<u8>) -> bool {
    exists|i: int| desc_match_at(s, i)
}

/// The start of the first declaration line, when one exists.
pub open spec fn first_desc_line(s: Seq<u8>) -> int {
    choose|i: int|
        (#[trigger] desc_match_at(s, i)) && forall|j: int| 0 <= j < i ==> !desc_match_at(s, j)
}

/// The identifier the file declares: that of its first declaration line.
#[verifier::opaque]
pub open spec fn extracted_guid(s: Seq<u8>) -> Option<Seq<u8>> {
    if has_desc_line(s) {
        Some(desc_guid_at(s, first_desc_line(s)))
    } else {
        None
    }
}

proof fn lemma_first_exists_from(s: Seq<u8>, i0: int)
    requires
        desc_match_at(s, i0),
    ensures
        exists|i: int|
            (#[trigger] desc_match_at(s, i)) && forall|j: int| 0 <= j < i ==> !desc_match_at(s, j),
    decreases i0,
{
    if exists|j: int| 0 <= j < i0 && #[trigger] desc_match_at(s, j) {
        let j = choose|j: int| 0 <= j < i0 && #[trigger] desc_match_at(s, j);
        lemma_first_exists_from(s, j);
    } else {
        assert((#[trigger] desc_match_at(s, i0)) && forall|j: int|
            0 <= j < i0 ==> !desc_match_at(s, j));
    }
}

/// The identifier of the first declaration line is what the file declares.
pub proof fn lemma_extracted_guid(s: Seq<u8>, i: int)
    requires
        desc_match_at(s, i),
        forall|j: int| 0 <= j < i ==> !desc_match_at(s, j),
    ensures
        extracted_guid(s) == Some(desc_guid_at(s, i)),
{
    reveal(extracted_guid);
    assert(has_desc_line(s));
    assert((#[trigger] desc_match_at(s, i)) && forall|j: int| 0 <= j < i ==> !desc_match_at(s, j));
    let i2 = first_desc_line(s);
    assert(desc_match_at(s, i2) && forall|j: int| 0 <= j < i2 ==> !desc_match_at(s, j));
    if i2 < i {
        assert(!desc_match_at(s, i2));
        assert(false);
    } else if i < i2 {
        assert(!desc_match_at(s, i));
        assert(false);
    }
}

/// A file with no declaration line declares no identifier.
pub proof fn lemma_extracted_none(s: Seq<u8>)
    requires
        !has_desc_line(s),
    ensures
        extracted_guid(s) is None,
{
    reveal(extracted_guid);
}

/// The declaration on the line at `i` covers byte `k` with its identifier.
pub open spec fn desc_cover(s: Seq<u8>, k: int, i: int) -> bool {
    desc_match_at(s, i) && desc_hex_start(s, i) <= k < desc_hex_start(s, i) + 32
}

/// Byte `k` lies inside the identifier of some declaration line.
pub open spec fn desc_span(s: Seq<u8>, k: int) -> bool {
    exists|i: int| desc_cover(s, k, i)
}

/// Byte `k` of the rewritten descriptor: inside a declared identifier it
/// comes from the new identifier, elsewhere it is the original byte.
pub open spec fn updated_byte(s: Seq<u8>, g: Seq<u8>, k: int) -> u8 {
    if desc_span(s, k) {
        let i = choose|i: int| desc_cover(s, k, i);
        g[k - desc_hex_start(s, i)]
    } else {
        s[k]
    }
}

/// The whole rewritten descriptor. It always has the length of the
/// original, so the final-newline convention is untouched.
pub open spec fn updated_content(s: Seq<u8>, g: Seq<u8>) -> Seq<u8> {
    Seq::new(s.len(), |k: int| updated_byte(s, g, k))
}

/// Within one line, the identifier bytes of its declaration lie between
/// the marker and the line's end.
pub proof fn lemma_desc_bounds(s: Seq<u8>, i: int)
    requires
        desc_match_at(s, i),
    ensures
        i + 5 <= desc_hex_start(s, i),
        desc_hex_start(s, i) + 32 <= line_end(s, i),
        line_end(s, i) <= s.len(),
{
    lemma_skip_blanks(s, i + 5);
    lemma_line_end(s, i);
}

/// Declarations on different lines cover disjoint bytes: at most one
/// declaration covers any byte.
pub proof fn lemma_desc_cover_unique(s: Seq<u8>, i1: int, i2: int, k: int)
    requires
        desc_cover(s, k, i1),
        desc_cover(s, k, i2),
    ensures
        i1 == i2,
{
    lemma_desc_bounds(s, i1);
    lemma_desc_bounds(s, i2);
    lemma_line_end(s, i1);
    lemma_line_end(s, i2);
    if i1 < i2 {
        // i2 starts a later line, so the first line feed at or after i1
        // comes before i2; the identifier of line i1 ends before it
        assert(s[i2 - 1] == 10u8);
        assert(line_end(s, i1) <= i2 - 1);
        assert(false);
    } else if i2 < i1 {
        assert(s[i1 - 1] == 10u8);
        assert(line_end(s, i2) <= i1 - 1);
        assert(false);
    }
}

/// Inside the identifier of a declaration line the rewritten byte comes
/// from the new identifier.
pub proof fn lemma_updated_in_span(s: Seq<u8>, g: Seq<u8>, i: int, k: int)
    requires
        desc_match_at(s, i),
        desc_hex_start(s, i) <= k < desc_hex_start(s, i) + 32,
    ensures
        desc_span(s, k),
        updated_byte(s, g, k) == g[k - desc_hex_start(s, i)],
{
    assert(desc_cover(s, k, i));
    let i2 = choose|i2: int| desc_cover(s, k, i2);
    lemma_desc_cover_unique(s, i, i2, k);
}

/// A byte of the line starting at `i` that lies outside that line's
/// declared identifier (or anywhere in the line, when the line declares
/// nothing) is unchanged by a rewrite.
pub proof fn lemma_updated_plain(s: Seq<u8>, g: Seq<u8>, i: int, k: int)
    requires
        is_line_start(s, i),
        i <= k <= line_end(s, i),
        k < s.len(),
        !(desc_match_at(s, i) && desc_hex_start(s, i) <= k < desc_hex_start(s, i) + 32),
    ensures
        !desc_span(s, k),
        updated_byte(s, g, k) == s[k],
{
    lemma_line_end(s, i);
    if desc_span(s, k) {
        let i0 = choose|i0: int| desc_cover(s, k, i0);
        lemma_desc_bounds(s, i0);
        lemma_line_end(s, i0);
        if i0 < i {
            assert(s[i - 1] == 10u8);
            assert(line_end(s, i0) <= i - 1);
            assert(false);
        } else if i0 > i {
            // i0 starts past the line feed that ends the line at i
            assert(s[i0 - 1] == 10u8);
            assert(line_end(s, i) <= i0 - 1);
            assert(false);
        } else {
            assert(false);
        }
    }
}

/// Byte classes before and after a rewrite: bytes outside every declared
/// identifier are unchanged, bytes inside are hexadecimal on both sides.
proof fn lemma_updated_agreements(s: Seq<u8>, g: Seq<u8>)
    requires
        is_guid(g),
    ensures
        updated_content(s, g).len() == s.len(),
        forall|k: int|
            0 <= k < s.len() && !desc_span(s, k) ==> updated_content(s, g)[k] == s[k],
        forall|k: int|
            0 <= k < s.len() && #[trigger] desc_span(s, k) ==> is_hex_byte(s[k]) && is_hex_byte(
                updated_content(s, g)[k],
            ),
        forall|k: int|
            0 <= k < s.len() ==> ((s[k] == 10u8) <==> (updated_content(s, g)[k] == 10u8)),
        forall|k: int|
            0 <= k < s.len() ==> (is_blank_byte(s[k]) <==> is_blank_byte(
                updated_content(s, g)[k],
            )),
        forall|k: int|
            0 <= k < s.len() ==> (is_quote_byte(s[k]) <==> is_quote_byte(
                updated_content(s, g)[k],
            )),
{
    let t = updated_content(s, g);
    assert forall|k: int|
        0 <= k < s.len() && #[trigger] desc_span(s, k) implies is_hex_byte(s[k]) && is_hex_byte(
        t[k],
    ) by {
        let i0 = choose|i0: int| desc_cover(s, k, i0);
        assert(is_hex_byte(s[k]));
        assert(t[k] == g[k - desc_hex_start(s, i0)]);
    }
    assert forall|k: int| 0 <= k < s.len() implies ((s[k] == 10u8) <==> (t[k] == 10u8)) && (
    is_blank_byte(s[k]) <==> is_blank_byte(t[k])) && (is_quote_byte(s[k]) <==> is_quote_byte(
        t[k],
    )) by {
        if desc_span(s, k) {
            assert(is_hex_byte(s[k]) && is_hex_byte(t[k]));
        }
    }
}

proof fn lemma_line_end_agree(s: Seq<u8>, t: Seq<u8>, i: int)
    requires
        s.len() == t.len(),
        forall|k: int| 0 <= k < s.len() ==> ((s[k] == 10u8) <==> (t[k] == 10u8)),
        0 <= i <= s.len(),
    ensures
        line_end(t, i) == line_end(s, i),
    decreases s.len() - i,
{
    if i < s.len() && s[i] != 10u8 {
        lemma_line_end_agree(s, t, i + 1);
    }
}

proof fn lemma_skip_blanks_agree(s: Seq<u8>, t: Seq<u8>, i: int)
    requires
        s.len() == t.len(),
        forall|k: int| 0 <= k < s.len() ==> (is_blank_byte(s[k]) <==> is_blank_byte(t[k])),
        0 <= i <= s.len(),
    ensures
        skip_blanks(t, i) == skip_blanks(s, i),
    decreases s.len() - i,
{
    if i < s.len() && is_blank_byte(s[i]) {
        lemma_skip_blanks_agree(s, t, i + 1);
    }
}

/// A declaration line of the original stays a declaration line of the
/// rewritten descriptor, in the same shape, and now declares `g`.
proof fn lemma_desc_line_preserved_fwd(s: Seq<u8>, g: Seq<u8>, i: int)
    requires
        is_guid(g),
        desc_match_at(s, i),
    ensures
        desc_match_at(updated_content(s, g), i),
        desc_guid_at(updated_content(s, g), i) == g,
{
    let t = updated_content(s, g);
    lemma_updated_agreements(s, g);
    lemma_desc_bounds(s, i);
    lemma_line_end(s, i);
    lemma_skip_blanks(s, i + 5);
    let e = line_end(s, i);
    let h = desc_hex_start(s, i);
    let j = skip_blanks(s, i + 5);
    lemma_line_end_agree(s, t, i);
    lemma_skip_blanks_agree(s, t, i + 5);
    // bytes of this line outside its identifier are unchanged
    assert forall|k: int| i <= k <= e && k < s.len() && !(h <= k < h + 32) implies t[k]
        == s[k] by {
        lemma_updated_plain(s, g, i, k);
    }
    assert(marker_at(t, i));
    assert(is_line_start(t, i));
    assert(skip_blanks(t, i + 5) == j);
    assert(desc_hex_start(t, i) == h) by {
        if j < s.len() {
            assert(is_quote_byte(t[j]) <==> is_quote_byte(s[j]));
        }
    }
    assert forall|k: int| h <= k < h + 32 implies is_hex_byte(t[k]) && t[k] == g[k - h] by {
        lemma_updated_in_span(s, g, i, k);
    }
    let t1 = h + 32;
    assert(t1 < s.len() ==> (is_quote_byte(t[t1]) <==> is_quote_byte(s[t1])));
    let t2 = if t1 < s.len() && is_quote_byte(s[t1]) {
        t1 + 1
    } else {
        t1
    };
    lemma_skip_blanks_agree(s, t, t2);
    assert(skip_blanks(t, t2) == line_end(t, i));
    assert(desc_match_at(t, i));
    assert(desc_guid_at(t, i) =~= g);
}

/// A declaration line of the rewritten descriptor was already one of the
/// original, in the same shape.
proof fn lemma_desc_line_preserved_bwd(s: Seq<u8>, g: Seq<u8>, i: int)
    requires
        is_guid(g),
        desc_match_at(updated_content(s, g), i),
    ensures
        desc_match_at(s, i),
{
    let t = updated_content(s, g);
    lemma_updated_agreements(s, g);
    // the marker bytes of the rewritten line stand unchanged in the
    // original: four of them are no hex byte and so sit outside every
    // identifier; the `d` cannot sit inside one either, or its non-hex
    // neighbours would have to sit inside the same identifier
    assert(t[i] == 103u8 && t[i + 1] == 117u8 && t[i + 2] == 105u8 && t[i + 3] == 100u8 && t[i + 4]
        == 58u8);
    assert(!desc_span(s, i) && !desc_span(s, i + 1) && !desc_span(s, i + 2) && !desc_span(
        s,
        i + 4,
    ));
    assert(!desc_span(s, i + 3)) by {
        if desc_span(s, i + 3) {
            let p3 = i + 3;
            let i0 = choose|i0: int| desc_cover(s, p3, i0);
            let h0 = desc_hex_start(s, i0);
            if i + 4 < h0 + 32 {
                assert(desc_cover(s, i + 4, i0));
                assert(desc_span(s, i + 4));
                assert(is_hex_byte(t[i + 4]));
                assert(false);
            } else {
                assert(i + 3 == h0 + 31);
                assert(desc_cover(s, i + 2, i0));
                assert(desc_span(s, i + 2));
                assert(is_hex_byte(t[i + 2]));
                assert(false);
            }
        }
    }
    assert(marker_at(s, i));
    assert(is_line_start(s, i));
    lemma_line_end_agree(s, t, i);
    lemma_skip_blanks_agree(s, t, i + 5);
    lemma_skip_blanks(t, i + 5);
    let e = line_end(s, i);
    let j = skip_blanks(s, i + 5);
    assert(j < s.len() ==> (is_quote_byte(s[j]) <==> is_quote_byte(t[j])));
    let h = desc_hex_start(t, i);
    assert(desc_hex_start(s, i) == h);
    lemma_desc_bounds(t, i);
    lemma_line_end(t, i);
    assert(h + 32 <= s.len());
    assert forall|k: int| h <= k < h + 32 implies is_hex_byte(s[k]) by {
        if desc_span(s, k) {
        } else {
            assert(s[k] == t[k]);
        }
    }
    let t1 = h + 32;
    assert(t1 < s.len() ==> (is_quote_byte(s[t1]) <==> is_quote_byte(t[t1])));
    let t2 = if t1 < s.len() && is_quote_byte(s[t1]) {
        t1 + 1
    } else {
        t1
    };
    lemma_skip_blanks_agree(s, t, t2);
    assert(skip_blanks(s, t2) == e);
    assert(desc_match_at(s, i));
}

/// Round trip: extracting the identifier of a rewritten descriptor yields
/// exactly the identifier it was rewritten to. The rewrite also keeps a
/// declaration line in place, so a rewritten descriptor still declares.
pub proof fn lemma_descriptor_round_trip(s: Seq<u8>, g: Seq<u8>)
    requires
        is_guid(g),
        has_desc_line(s),
    ensures
        has_desc_line(updated_content(s, g)),
        extracted_guid(updated_content(s, g)) == Some(g),
{
    let t = updated_content(s, g);
    let iw = choose|iw: int| desc_match_at(s, iw);
    lemma_first_exists_from(s, iw);
    let i = choose|i: int|
        (#[trigger] desc_match_at(s, i)) && forall|j: int| 0 <= j < i ==> !desc_match_at(s, j);
    lemma_desc_line_preserved_fwd(s, g, i);
    assert(has_desc_line(t));
    assert forall|j: int| 0 <= j < i implies !desc_match_at(t, j) by {
        if desc_match_at(t, j) {
            lemma_desc_line_preserved_bwd(s, g, j);
            assert(false);
        }
    }
    lemma_extracted_guid(t, i);
}

/// First line feed at or after `i`, as a runtime scan.
pub fn find_line_end(s: &Vec<u8>, i: usize) -> (e: usize)
    requires
        i <= s@.len(),
    ensures
        e as int == line_end(s@, i as int),
        i <= e <= s@.len(),
{
    let n = s.len();
    let mut e = i;
    while e < n && s[e] != 10
        invariant
            i <= e <= n,
            n == s@.len(),
            line_end(s@, i as int) == line_end(s@, e as int),
        decreases n - e,
    {
        e = e + 1;
    }
    proof {
        assert(line_end(s@, e as int) == e as int);
    }
    e
}

/// Check the line `[i, e)` for an identifier declaration; on success the
/// returned position is the first identifier byte.
#[verifier::loop_isolation(false)]
fn desc_try_line(s: &Vec<u8>, i: usize, e: usize) -> (r: Option<usize>)
    requires
        is_line_start(s@, i as int),
        e as int == line_end(s@, i as int),
        e <= s@.len(),
    ensures
        match r {
            Some(h) => desc_match_at(s@, i as int) && h as int == desc_hex_start(s@, i as int)
                && i + 5 <= h && h + 32 <= e,
            None => !desc_match_at(s@, i as int),
        },
{
    let n = s.len();
    proof {
        lemma_line_end(s@, i as int);
    }
    if n - i < 5 {
        return None;
    }
    if !(s[i] == 103 && s[i + 1] == 117 && s[i + 2] == 105 && s[i + 3] == 100 && s[i + 4] == 58) {
        return None;
    }
    // skip the blanks after the marker
    let mut j = i + 5;
    while j < n && blank_byte(s[j])
        invariant
            i + 5 <= j <= n,
            skip_blanks(s@, i as int + 5) == skip_blanks(s@, j as int),
        decreases n - j,
    {
        j = j + 1;
    }
    proof {
        assert(skip_blanks(s@, j as int) == j as int);
        lemma_skip_blanks(s@, i as int + 5);
    }
    // an opening quote, if any
    let h = if j < n && quote_byte(s[j]) {
        j + 1
    } else {
        j
    };
    proof {
        assert(h as int == desc_hex_start(s@, i as int));
    }
    if e < h || e - h < 32 {
        return None;
    }
    let mut t: usize = 0;
    while t < 32
        invariant
            0 <= t <= 32,
            forall|k: int| h <= k < h + t ==> is_hex_byte(#[trigger] s@[k]),
        decreases 32 - t,
    {
        if !hex_byte(s[h + t]) {
            return None;
        }
        t = t + 1;
    }
    // a closing quote, if any
    let t1 = h + 32;
    let t2 = if t1 < n && quote_byte(s[t1]) {
        t1 + 1
    } else {
        t1
    };
    // nothing but blanks may remain on the line
    let mut j2 = t2;
    while j2 < n && blank_byte(s[j2])
        invariant
            t2 <= j2 <= n,
            skip_blanks(s@, t2 as int) == skip_blanks(s@, j2 as int),
        decreases n - j2,
    {
        j2 = j2 + 1;
    }
    proof {
        assert(skip_blanks(s@, j2 as int) == j2 as int);
    }
    if j2 == e {
        Some(h)
    } else {
        None
    }
}

/// A descriptor file, handled through its content: the caller reads and
/// writes the bytes, the library finds and rewrites the declaration.
pub struct MetaFile;

impl MetaFile {
    /// Extract the identifier declared by the first declaration line of a
    /// descriptor's content, if one is there.
    #[verifier::loop_isolation(false)]
    pub fn get_guid_from_content(content: &Vec<u8>) -> (r: Option<Vec<u8>>)
        ensures
            match r {
                Some(g) => is_guid(g@) && extracted_guid(content@) == Some(g@),
                None => !has_desc_line(content@),
            },
    {
        let n = content.len();
        let mut i: usize = 0;
        while i < n
            invariant
                0 <= i <= n,
                i < n ==> is_line_start(content@, i as int),
                forall|j: int| 0 <= j < i ==> !desc_match_at(content@, j),
            decreases n - i,
        {
            let e = find_line_end(content, i);
            proof {
                lemma_line_end(content@, i as int);
            }
            let hit = desc_try_line(content, i, e);
            match hit {
                Some(h) => {
                    let g = copy_range(content, h, h + GUID_LEN);
                    proof {
                        lemma_desc_bounds(content@, i as int);
                        assert(g@ == desc_guid_at(content@, i as int));
                        assert forall|k: int| 0 <= k < g@.len() implies is_hex_byte(g@[k]) by {
                            assert(g@[k] == content@[h + k]);
                        }
                        lemma_extracted_guid(content@, i as int);
                    }
                    return Some(g);
                },
                None => {
                    proof {
                        assert forall|j: int| i < j < e + 1 && j < n implies !desc_match_at(
                            content@,
                            j,
                        ) by {
                            assert(content@[j - 1] != 10u8);
                        }
                    }
                    if e == n {
                        i = n;
                    } else {
                        i = e + 1;
                    }
                },
            }
        }
        None
    }

    /// Rewrite the identifier of every declaration line to `new_guid`,
    /// changing no other byte. Returns nothing when the content has no
    /// declaration line.
    #[verifier::loop_isolation(false)]
    pub fn update_guid_in_content(content: &Vec<u8>, new_guid: &Vec<u8>) -> (r: Option<Vec<u8>>)
        requires
            is_guid(new_guid@),
        ensures
            match r {
                Some(out) => has_desc_line(content@) && out@ == updated_content(
                    content@,
                    new_guid@,
                ),
                None => !has_desc_line(content@),
            },
    {
        let n = content.len();
        let mut out: Vec<u8> = Vec::new();
        let mut found = false;
        let ghost mut witness: int = 0;
        let mut i: usize = 0;
        while i < n
            invariant
                0 <= i <= n,
                i < n ==> is_line_start(content@, i as int),
                out@.len() == i,
                forall|k: int| 0 <= k < i ==> out@[k] == updated_byte(content@, new_guid@, k),
                found ==> desc_match_at(content@, witness),
                !found ==> forall|j: int| 0 <= j < i ==> !desc_match_at(content@, j),
            decreases n - i,
        {
            let e = find_line_end(content, i);
            proof {
                lemma_line_end(content@, i as int);
            }
            let hit = desc_try_line(content, i, e);
            match hit {
                Some(h) => {
                    proof {
                        lemma_desc_bounds(content@, i as int);
                    }
                    let mut k = i;
                    while k < h
                        invariant
                            i <= k <= h,
                            out@.len() == k,
                            forall|k2: int|
                                0 <= k2 < k ==> out@[k2] == updated_byte(content@, new_guid@, k2),
                        decreases h - k,
                    {
                        proof {
                            lemma_updated_plain(content@, new_guid@, i as int, k as int);
                        }
                        out.push(content[k]);
                        k = k + 1;
                    }
                    let mut t: usize = 0;
                    while t < GUID_LEN
                        invariant
                            0 <= t <= 32,
                            out@.len() == h + t,
                            forall|k2: int|
                                0 <= k2 < h + t ==> out@[k2] == updated_byte(
                                    content@,
                                    new_guid@,
                                    k2,
                                ),
                        decreases 32 - t,
                    {
                        proof {
                            lemma_updated_in_span(content@, new_guid@, i as int, (h + t) as int);
                        }
                        out.push(new_guid[t]);
                        t = t + 1;
                    }
                    // the rest of the line, and its line feed if one is
                    // there, are unchanged
                    let stop = if e == n {
                        n
                    } else {
                        e + 1
                    };
                    let mut k2 = h + GUID_LEN;
                    while k2 < stop
                        invariant
                            h + 32 <= k2 <= stop,
                            out@.len() == k2,
                            forall|k3: int|
                                0 <= k3 < k2 ==> out@[k3] == updated_byte(content@, new_guid@, k3),
                        decreases stop - k2,
                    {
                        proof {
                            lemma_updated_plain(content@, new_guid@, i as int, k2 as int);
                        }
                        out.push(content[k2]);
                        k2 = k2 + 1;
                    }
                    proof {
                        witness = i as int;
                    }
                    found = true;
                    i = stop;
                },
                None => {
                    let stop = if e == n {
                        n
                    } else {
                        e + 1
                    };
                    let mut k = i;
                    while k < stop
                        invariant
                            i <= k <= stop,
                            out@.len() == k,
                            forall|k2: int|
                                0 <= k2 < k ==> out@[k2] == updated_byte(content@, new_guid@, k2),
                        decreases stop - k,
                    {
                        proof {
                            lemma_updated_plain(content@, new_guid@, i as int, k as int);
                        }
                        out.push(content[k]);
                        k = k + 1;
                    }
                    proof {
                        assert forall|j: int| i < j < e + 1 && j < n implies !desc_match_at(
                            content@,
                            j,
                        ) by {
                            assert(content@[j - 1] != 10u8);
                        }
                    }
                    i = stop;
                },
            }
        }
        if found {
            proof {
                assert(out@ =~= updated_content(content@, new_guid@));
            }
            Some(out)
        } else {
            proof {
                if has_desc_line(content@) {
                    let j = choose|j: int| desc_match_at(content@, j);
                    assert(false);
                }
            }
            None
        }
    }
}

} // verus!
