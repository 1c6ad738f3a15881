//! The detailed operations report: one operation per reconciliation entry,
//! joined with every reference occurrence of its stale identifier across
//! the subordinate tree's known document files, ordered by reference
//! volume, with an overall summary.

use vstd::prelude::*;
use crate::bytes::{lex_lt, lex_less, lemma_lex_total, lemma_lex_trans, bytes_eq, clone_bytes,
    copy_range};
use crate::index::{ScannedFile, ext_matches, has_extension, under_root, rel_path, strip_root};
use crate::mapping::GuidMapping;
use crate::refscan::{stale_count, count_stale};
use crate::syncer::{GuidSyncer, sorted_by_path, paths_view};

verus! {

/// The descriptor file an operation rewrites.
pub struct MetaFileUpdate {
    pub path: Vec<u8>,
}

/// One file's occurrences of one stale identifier: where, what kind of
/// file, and how many.
pub struct ReferenceUpdate {
    pub file_path: Vec<u8>,
    pub file_type: Vec<u8>,
    pub reference_count: usize,
}

/// One planned identifier swap with everything it touches.
pub struct SyncOperation {
    pub old_guid: Vec<u8>,
    pub new_guid: Vec<u8>,
    pub asset_path: Vec<u8>,
    pub asset_name: Vec<u8>,
    pub meta_file_update: MetaFileUpdate,
    pub reference_updates: Vec<ReferenceUpdate>,
    pub total_references: usize,
}

/// The overall numbers of a planned run.
pub struct SyncSummary {
    pub total_guid_differences: usize,
    pub total_meta_files_to_update: usize,
    pub total_files_with_references: usize,
    pub total_reference_updates: usize,
}

/// The full operations report: summary and operations, most referenced
/// first.
pub struct SyncOperationsReport {
    pub summary: SyncSummary,
    pub operations: Vec<SyncOperation>,
}

/// The document file extensions the report scans.
pub open spec fn unity_ext() -> Seq<u8> {
    seq![117u8, 110u8, 105u8, 116u8, 121u8]
}

pub open spec fn prefab_ext() -> Seq<u8> {
    seq![112u8, 114u8, 101u8, 102u8, 97u8, 98u8]
}

pub open spec fn asset_ext() -> Seq<u8> {
    seq![97u8, 115u8, 115u8, 101u8, 116u8]
}

pub open spec fn mat_ext() -> Seq<u8> {
    seq![109u8, 97u8, 116u8]
}

pub open spec fn controller_ext() -> Seq<u8> {
    seq![99u8, 111u8, 110u8, 116u8, 114u8, 111u8, 108u8, 108u8, 101u8, 114u8]
}

/// The file kind the report records for a path, when the path carries one
/// of the recognized document extensions.
pub open spec fn report_ext(p: Seq<u8>) -> Option<Seq<u8>> {
    if ext_matches(p, unity_ext()) {
        Some(unity_ext())
    } else if ext_matches(p, prefab_ext()) {
        Some(prefab_ext())
    } else if ext_matches(p, asset_ext()) {
        Some(asset_ext())
    } else if ext_matches(p, mat_ext()) {
        Some(mat_ext())
    } else if ext_matches(p, controller_ext()) {
        Some(controller_ext())
    } else {
        None
    }
}

fn unity_ext_exec() -> (r: Vec<u8>)
    ensures
        r@ == unity_ext(),
{
    let mut v: Vec<u8> = Vec::new();
    v.push(117);
    v.push(110);
    v.push(105);
    v.push(116);
    v.push(121);
    proof {
        assert(v@ =~= unity_ext());
    }
    v
}

fn prefab_ext_exec() -> (r: Vec<u8>)
    ensures
        r@ == prefab_ext(),
{
    let mut v: Vec<u8> = Vec::new();
    v.push(112);
    v.push(114);
    v.push(101);
    v.push(102);
    v.push(97);
    v.push(98);
    proof {
        assert(v@ =~= prefab_ext());
    }
    v
}

fn asset_ext_exec() -> (r: Vec<u8>)
    ensures
        r@ == asset_ext(),
{
    let mut v: Vec<u8> = Vec::new();
    v.push(97);
    v.push(115);
    v.push(115);
    v.push(101);
    v.push(116);
    proof {
        assert(v@ =~= asset_ext());
    }
    v
}

fn mat_ext_exec() -> (r: Vec<u8>)
    ensures
        r@ == mat_ext(),
{
    let mut v: Vec<u8> = Vec::new();
    v.push(109);
    v.push(97);
    v.push(116);
    proof {
        assert(v@ =~= mat_ext());
    }
    v
}

fn controller_ext_exec() -> (r: Vec<u8>)
    ensures
        r@ == controller_ext(),
{
    let mut v: Vec<u8> = Vec::new();
    v.push(99);
    v.push(111);
    v.push(110);
    v.push(116);
    v.push(114);
    v.push(111);
    v.push(108);
    v.push(108);
    v.push(101);
    v.push(114);
    proof {
        assert(v@ =~= controller_ext());
    }
    v
}

/// The recognized document extension of a path, if any.
fn candidate_ext(p: &Vec<u8>) -> (r: Option<Vec<u8>>)
    ensures
        match r {
            Some(e) => report_ext(p@) == Some(e@),
            None => report_ext(p@) is None,
        },
{
    let u = unity_ext_exec();
    if has_extension(p, &u) {
        return Some(u);
    }
    let pf = prefab_ext_exec();
    if has_extension(p, &pf) {
        return Some(pf);
    }
    let a = asset_ext_exec();
    if has_extension(p, &a) {
        return Some(a);
    }
    let m = mat_ext_exec();
    if has_extension(p, &m) {
        return Some(m);
    }
    let c = controller_ext_exec();
    if has_extension(p, &c) {
        return Some(c);
    }
    None
}

/// The path relative to the root when it lies under it, else the path
/// itself.
pub open spec fn rel_or_self(p: Seq<u8>, root: Seq<u8>) -> Seq<u8> {
    if under_root(p, root) {
        rel_path(p, root)
    } else {
        p
    }
}

fn rel_or_self_exec(p: &Vec<u8>, root: &Vec<u8>) -> (r: Vec<u8>)
    ensures
        r@ == rel_or_self(p@, root@),
{
    let stripped = strip_root(p, root);
    match stripped {
        Some(rel) => rel,
        None => clone_bytes(p),
    }
}

/// Start of the final path component: the position after the last
/// separator before `i`.
pub open spec fn last_sep(p: Seq<u8>, i: int) -> int
    decreases i,
        when 0 <= i <= p.len()
{
    if i <= 0 {
        0
    } else if p[i - 1] == 47u8 {
        i
    } else {
        last_sep(p, i - 1)
    }
}

/// Position of the last dot of the final component that does not lead it:
/// the component's start when there is none.
pub open spec fn last_dot(p: Seq<u8>, i: int, cs: int) -> int
    decreases i - cs,
        when 0 <= cs <= i <= p.len()
{
    if i <= cs + 1 {
        cs
    } else if p[i - 1] == 46u8 {
        i - 1
    } else {
        last_dot(p, i - 1, cs)
    }
}

/// The file stem of a path: its final component, without the extension
/// that a trailing dot introduces.
pub open spec fn stem_of(p: Seq<u8>) -> Seq<u8> {
    let cs = last_sep(p, p.len() as int);
    let d = last_dot(p, p.len() as int, cs);
    if d == cs {
        p.subrange(cs, p.len() as int)
    } else {
        p.subrange(cs, d)
    }
}

fn comp_start_exec(p: &Vec<u8>) -> (r: usize)
    ensures
        r as int == last_sep(p@, p@.len() as int),
        r <= p@.len(),
{
    let mut i = p.len();
    while i > 0 && p[i - 1] != 47
        invariant
            0 <= i <= p@.len(),
            last_sep(p@, p@.len() as int) == last_sep(p@, i as int),
        decreases i,
    {
        i = i - 1;
    }
    proof {
        assert(last_sep(p@, i as int) == i as int);
    }
    i
}

fn last_dot_exec(p: &Vec<u8>, cs: usize) -> (r: usize)
    requires
        cs <= p@.len(),
    ensures
        r as int == last_dot(p@, p@.len() as int, cs as int),
        cs <= r <= p@.len(),
{
    if cs >= p.len() {
        return cs;
    }
    let mut i = p.len();
    while i > cs && i - 1 > cs && p[i - 1] != 46
        invariant
            cs < p@.len(),
            cs <= i <= p@.len(),
            last_dot(p@, p@.len() as int, cs as int) == last_dot(p@, i as int, cs as int),
        decreases i,
    {
        i = i - 1;
    }
    if i <= cs + 1 {
        proof {
            assert(last_dot(p@, i as int, cs as int) == cs as int);
        }
        cs
    } else {
        proof {
            assert(last_dot(p@, i as int, cs as int) == i - 1);
        }
        i - 1
    }
}

/// The file stem of a path, as a runtime scan.
pub fn stem_of_exec(p: &Vec<u8>) -> (r: Vec<u8>)
    ensures
        r@ == stem_of(p@),
{
    let cs = comp_start_exec(p);
    let d = last_dot_exec(p, cs);
    if d == cs {
        copy_range(p, cs, p.len())
    } else {
        copy_range(p, cs, d)
    }
}

/// The bytes `.meta`.
pub open spec fn dot_meta() -> Seq<u8> {
    seq![46u8, 109u8, 101u8, 116u8, 97u8]
}

/// The string with every occurrence of `.meta` removed, scanning from the
/// left and never rescanning what a removal exposes.
pub open spec fn strip_meta(s: Seq<u8>) -> Seq<u8>
    decreases s.len(),
{
    if s.len() >= 5 && s.subrange(0, 5) == dot_meta() {
        strip_meta(s.skip(5))
    } else if s.len() == 0 {
        Seq::empty()
    } else {
        seq![s[0]] + strip_meta(s.skip(1))
    }
}

/// Remove every `.meta` occurrence at runtime.
#[verifier::loop_isolation(false)]
pub fn strip_meta_exec(s: &Vec<u8>) -> (r: Vec<u8>)
    ensures
        r@ == strip_meta(s@),
{
    let n = s.len();
    let mut out: Vec<u8> = Vec::new();
    let mut i: usize = 0;
    proof {
        assert(s@.skip(0) =~= s@);
    }
    while i < n
        invariant
            0 <= i <= n,
            out@ + strip_meta(s@.skip(i as int)) == strip_meta(s@),
        decreases n - i,
    {
        let ghost suf = s@.skip(i as int);
        if n - i >= 5 && s[i] == 46 && s[i + 1] == 109 && s[i + 2] == 101 && s[i + 3] == 116 && s[i
            + 4] == 97 {
            proof {
                assert(suf.subrange(0, 5) =~= dot_meta());
                assert(suf.skip(5) =~= s@.skip(i as int + 5));
            }
            i = i + 5;
        } else {
            proof {
                if suf.len() >= 5 && suf.subrange(0, 5) == dot_meta() {
                    assert(suf.subrange(0, 5)[0] == s@[i as int]);
                    assert(suf.subrange(0, 5)[1] == s@[i as int + 1]);
                    assert(suf.subrange(0, 5)[2] == s@[i as int + 2]);
                    assert(suf.subrange(0, 5)[3] == s@[i as int + 3]);
                    assert(suf.subrange(0, 5)[4] == s@[i as int + 4]);
                    assert(false);
                }
                assert(suf[0] == s@[i as int]);
                assert(suf.skip(1) =~= s@.skip(i as int + 1));
            }
            let ghost out0 = out@;
            out.push(s[i]);
            proof {
                assert(out@ =~= out0 + seq![s@[i as int]]);
                assert(out@ + strip_meta(s@.skip(i as int + 1)) =~= strip_meta(s@));
            }
            i = i + 1;
        }
    }
    proof {
        assert(s@.skip(n as int) =~= Seq::<u8>::empty());
        assert(out@ + strip_meta(s@.skip(n as int)) =~= out@);
    }
    out
}

/// The display name of an asset: the relative path's file stem, with every
/// `.meta` occurrence removed.
pub open spec fn asset_name_of(p: Seq<u8>) -> Seq<u8> {
    strip_meta(stem_of(p))
}

pub fn asset_name_exec(p: &Vec<u8>) -> (r: Vec<u8>)
    ensures
        r@ == asset_name_of(p@),
{
    let stem = stem_of_exec(p);
    strip_meta_exec(&stem)
}

/// View of one reference update as plain values.
pub open spec fn ru_view(r: ReferenceUpdate) -> (Seq<u8>, Seq<u8>, nat) {
    (r.file_path@, r.file_type@, r.reference_count as nat)
}

pub open spec fn rus_view(rs: Seq<ReferenceUpdate>) -> Seq<(Seq<u8>, Seq<u8>, nat)> {
    rs.map_values(|r: ReferenceUpdate| ru_view(r))
}

/// The reference updates of one stale identifier: every document file with
/// at least one occurrence, in listing order, with its relative path, its
/// kind, and its count.
pub open spec fn ref_updates_for(files: Seq<ScannedFile>, root: Seq<u8>, stale: Seq<u8>) -> Seq<
    (Seq<u8>, Seq<u8>, nat),
>
    decreases files.len(),
{
    if files.len() == 0 {
        Seq::empty()
    } else {
        let rest = ref_updates_for(files.skip(1), root, stale);
        if report_ext(files[0].path@) is Some && stale_count(files[0].content@, stale, 0) > 0 {
            seq![
                (
                    rel_or_self(files[0].path@, root),
                    report_ext(files[0].path@).unwrap(),
                    stale_count(files[0].content@, stale, 0),
                ),
            ] + rest
        } else {
            rest
        }
    }
}

/// All occurrences of one stale identifier across the document files.
pub open spec fn report_total_for(files: Seq<ScannedFile>, stale: Seq<u8>) -> nat
    decreases files.len(),
{
    if files.len() == 0 {
        0nat
    } else {
        (if report_ext(files[0].path@) is Some {
            stale_count(files[0].content@, stale, 0)
        } else {
            0nat
        }) + report_total_for(files.skip(1), stale)
    }
}

/// The sum of every entry's occurrences: the report's grand total.
pub open spec fn grand_total(ms: Seq<GuidMapping>, files: Seq<ScannedFile>) -> nat
    decreases ms.len(),
{
    if ms.len() == 0 {
        0nat
    } else {
        report_total_for(files, ms[0].stale_id@) + grand_total(ms.skip(1), files)
    }
}

proof fn lemma_total_in_grand(ms: Seq<GuidMapping>, files: Seq<ScannedFile>, m: int)
    requires
        0 <= m < ms.len(),
    ensures
        report_total_for(files, ms[m].stale_id@) <= grand_total(ms, files),
    decreases ms.len(),
{
    if m > 0 {
        assert(ms.skip(1)[m - 1] == ms[m]);
        lemma_total_in_grand(ms.skip(1), files, m - 1);
    }
}

/// The file holds at least one occurrence of some entry's stale
/// identifier.
pub open spec fn any_stale_pos(ms: Seq<GuidMapping>, content: Seq<u8>) -> bool {
    exists|m: int| 0 <= m < ms.len() && stale_count(content, (#[trigger] ms[m]).stale_id@, 0) > 0
}

fn any_stale(ms: &Vec<GuidMapping>, content: &Vec<u8>) -> (r: bool)
    ensures
        r == any_stale_pos(ms@, content@),
{
    let mut m: usize = 0;
    while m < ms.len()
        invariant
            0 <= m <= ms@.len(),
            forall|m2: int|
                0 <= m2 < m ==> stale_count(content@, (#[trigger] ms@[m2]).stale_id@, 0) == 0,
        decreases ms@.len() - m,
    {
        let c = count_stale(content, &ms[m].stale_id);
        if c > 0 {
            return true;
        }
        m = m + 1;
    }
    false
}

/// The relative paths of the document files that reference some stale
/// identifier, in listing order, duplicates kept.
pub open spec fn ref_paths_all(
    ms: Seq<GuidMapping>,
    files: Seq<ScannedFile>,
    root: Seq<u8>,
) -> Seq<Seq<u8>>
    decreases files.len(),
{
    if files.len() == 0 {
        Seq::empty()
    } else {
        let rest = ref_paths_all(ms, files.skip(1), root);
        if report_ext(files[0].path@) is Some && any_stale_pos(ms, files[0].content@) {
            seq![rel_or_self(files[0].path@, root)] + rest
        } else {
            rest
        }
    }
}

/// How many distinct values a sequence holds.
pub open spec fn distinct_count(ps: Seq<Seq<u8>>) -> nat
    decreases ps.len(),
{
    if ps.len() == 0 {
        0nat
    } else {
        (if ps.skip(1).contains(ps[0]) {
            0nat
        } else {
            1nat
        }) + distinct_count(ps.skip(1))
    }
}

/// The report's order: by descending reference volume, ties by ascending
/// relative path.
#[verifier::opaque]
pub open spec fn op_order(a: SyncOperation, b: SyncOperation) -> bool {
    a.total_references > b.total_references || (a.total_references == b.total_references && lex_lt(
        a.asset_path@,
        b.asset_path@,
    ))
}

fn op_before(a: &SyncOperation, b: &SyncOperation) -> (r: bool)
    ensures
        r == op_order(*a, *b),
{
    proof {
        reveal(op_order);
    }
    if a.total_references > b.total_references {
        true
    } else if a.total_references == b.total_references {
        lex_less(&a.asset_path, &b.asset_path)
    } else {
        false
    }
}

proof fn lemma_op_total(a: SyncOperation, b: SyncOperation)
    requires
        a.asset_path@ != b.asset_path@,
    ensures
        op_order(a, b) || op_order(b, a),
{
    reveal(op_order);
    lemma_lex_total(a.asset_path@, b.asset_path@);
}

proof fn lemma_op_trans(a: SyncOperation, b: SyncOperation, c: SyncOperation)
    requires
        op_order(a, b),
        op_order(b, c),
    ensures
        op_order(a, c),
{
    reveal(op_order);
    if a.total_references == b.total_references && b.total_references == c.total_references {
        lemma_lex_trans(a.asset_path@, b.asset_path@, c.asset_path@);
    }
}

/// One operation carries exactly the data of one entry: the identifier
/// swap, the asset's path and display name, and every reference occurrence
/// of its stale identifier.
#[verifier::opaque]
pub open spec fn op_matches(
    op: SyncOperation,
    m: GuidMapping,
    files: Seq<ScannedFile>,
    root: Seq<u8>,
) -> bool {
    &&& op.old_guid@ == m.stale_id@
    &&& op.new_guid@ == m.canonical_id@
    &&& op.asset_path@ == m.relative_path@
    &&& op.asset_name@ == asset_name_of(m.relative_path@)
    &&& op.meta_file_update.path@ == m.relative_path@
    &&& rus_view(op.reference_updates@) == ref_updates_for(files, root, m.stale_id@)
    &&& op.total_references as nat == report_total_for(files, m.stale_id@)
}

/// The operation's asset path is its entry's relative path.
proof fn lemma_op_matches_path(
    op: SyncOperation,
    m: GuidMapping,
    files: Seq<ScannedFile>,
    root: Seq<u8>,
)
    requires
        op_matches(op, m, files, root),
    ensures
        op.asset_path@ == m.relative_path@,
        op.total_references as nat == report_total_for(files, m.stale_id@),
{
    reveal(op_matches);
}

proof fn lemma_suffix_order(r: Seq<SyncOperation>, op: SyncOperation, pos: int)
    requires
        0 <= pos < r.len(),
        !op_order(r[pos], op),
        forall|x: int, y: int|
            0 <= x < y < r.len() ==> op_order(#[trigger] r[x], #[trigger] r[y]),
        forall|x: int| 0 <= x < r.len() ==> (#[trigger] r[x]).asset_path@ != op.asset_path@,
    ensures
        forall|x: int| pos <= x < r.len() ==> op_order(op, #[trigger] r[x]),
{
    assert forall|x: int| pos <= x < r.len() implies op_order(op, #[trigger] r[x]) by {
        lemma_op_total(op, r[pos]);
        if x > pos {
            lemma_op_trans(op, r[pos], r[x]);
        }
    }
}

/// Inserting an operation in sorted position keeps the list sorted.
proof fn lemma_ops_sorted_insert(r0: Seq<SyncOperation>, op: SyncOperation, pos: int)
    requires
        0 <= pos <= r0.len(),
        forall|x: int| 0 <= x < pos ==> op_order(#[trigger] r0[x], op),
        forall|x: int| pos <= x < r0.len() ==> op_order(op, #[trigger] r0[x]),
        forall|x: int, y: int|
            0 <= x < y < r0.len() ==> op_order(#[trigger] r0[x], #[trigger] r0[y]),
    ensures
        forall|x: int, y: int|
            0 <= x < y < r0.insert(pos, op).len() ==> op_order(
                #[trigger] r0.insert(pos, op)[x],
                #[trigger] r0.insert(pos, op)[y],
            ),
{
    r0.insert_ensures(pos, op);
    let ins = r0.insert(pos, op);
    assert forall|x: int, y: int| 0 <= x < y < ins.len() implies op_order(
        #[trigger] ins[x],
        #[trigger] ins[y],
    ) by {
        if y == pos {
            assert(ins[x] == r0[x]);
            assert(ins[y] == op);
        } else if x == pos {
            assert(ins[y] == r0[y - 1]);
            assert(ins[x] == op);
        } else {
            let x0: int = if x < pos {
                x
            } else {
                x - 1
            };
            let y0: int = if y < pos {
                y
            } else {
                y - 1
            };
            assert(ins[x] == r0[x0]);
            assert(ins[y] == r0[y0]);
        }
    }
}

/// Inserting the operation of entry `m` extends the correspondence between
/// operations and entries by one.
proof fn lemma_ops_membership_insert(
    ops0: Seq<SyncOperation>,
    op: SyncOperation,
    pos: int,
    ms: Seq<GuidMapping>,
    files: Seq<ScannedFile>,
    root: Seq<u8>,
    m: int,
)
    requires
        0 <= pos <= ops0.len(),
        0 <= m < ms.len(),
        op_matches(op, ms[m], files, root),
        forall|x: int|
            0 <= x < ops0.len() ==> exists|m2: int|
                0 <= m2 < m && op_matches(#[trigger] ops0[x], ms[m2], files, root),
        forall|m2: int|
            0 <= m2 < m ==> exists|x: int|
                0 <= x < ops0.len() && op_matches(
                    #[trigger] ops0[x],
                    #[trigger] ms[m2],
                    files,
                    root,
                ),
    ensures
        forall|x: int|
            0 <= x < ops0.insert(pos, op).len() ==> exists|m2: int|
                0 <= m2 < m + 1 && op_matches(
                    #[trigger] ops0.insert(pos, op)[x],
                    ms[m2],
                    files,
                    root,
                ),
        forall|m2: int|
            0 <= m2 < m + 1 ==> exists|x: int|
                0 <= x < ops0.insert(pos, op).len() && op_matches(
                    #[trigger] ops0.insert(pos, op)[x],
                    #[trigger] ms[m2],
                    files,
                    root,
                ),
{
    ops0.insert_ensures(pos, op);
    let ins = ops0.insert(pos, op);
    assert forall|x: int| 0 <= x < ins.len() implies exists|m2: int|
        0 <= m2 < m + 1 && op_matches(#[trigger] ins[x], ms[m2], files, root) by {
        if x == pos {
            assert(ins[x] == op);
            assert(0 <= m < m + 1 && op_matches(ins[x], ms[m], files, root));
        } else {
            let x0: int = if x < pos {
                x
            } else {
                x - 1
            };
            assert(ins[x] == ops0[x0]);
            let m2 = choose|m2: int|
                0 <= m2 < m && op_matches(#[trigger] ops0[x0], ms[m2], files, root);
            assert(0 <= m2 < m + 1 && op_matches(ins[x], ms[m2], files, root));
        }
    }
    assert forall|m2: int| 0 <= m2 < m + 1 implies exists|x: int|
        0 <= x < ins.len() && op_matches(#[trigger] ins[x], #[trigger] ms[m2], files, root) by {
        if m2 == m {
            assert(ins[pos] == op);
            assert(0 <= pos < ins.len() && op_matches(ins[pos], ms[m2], files, root));
        } else {
            let x0 = choose|x0: int|
                0 <= x0 < ops0.len() && op_matches(
                    #[trigger] ops0[x0],
                    #[trigger] ms[m2],
                    files,
                    root,
                );
            let x: int = if x0 < pos {
                x0
            } else {
                x0 + 1
            };
            assert(ins[x] == ops0[x0]);
            assert(0 <= x < ins.len() && op_matches(ins[x], ms[m2], files, root));
        }
    }
}

/// Every placed operation's path differs from entry `m`'s relative path:
/// entry paths are strictly ordered.
proof fn lemma_new_path_distinct(
    ops0: Seq<SyncOperation>,
    ms: Seq<GuidMapping>,
    files: Seq<ScannedFile>,
    root: Seq<u8>,
    m: int,
)
    requires
        0 <= m < ms.len(),
        sorted_by_path(ms),
        forall|x: int|
            0 <= x < ops0.len() ==> exists|m2: int|
                0 <= m2 < m && op_matches(#[trigger] ops0[x], ms[m2], files, root),
    ensures
        forall|x: int|
            0 <= x < ops0.len() ==> (#[trigger] ops0[x]).asset_path@ != ms[m].relative_path@,
{
    assert forall|x: int| 0 <= x < ops0.len() implies (#[trigger] ops0[x]).asset_path@
        != ms[m].relative_path@ by {
        let m2 = choose|m2: int| 0 <= m2 < m && op_matches(#[trigger] ops0[x], ms[m2], files, root);
        lemma_op_matches_path(ops0[x], ms[m2], files, root);
        assert(lex_lt(ms[m2].relative_path@, ms[m].relative_path@));
        if ms[m2].relative_path@ == ms[m].relative_path@ {
            crate::bytes::lemma_lex_irrefl(ms[m].relative_path@);
            assert(false);
        }
    }
}

/// Does any later element of the path list equal the one at `t`?
fn contains_later(all: &Vec<Vec<u8>>, t: usize) -> (r: bool)
    requires
        t < all@.len(),
    ensures
        r == paths_view(all@).skip(t as int + 1).contains(paths_view(all@)[t as int]),
{
    let ghost pv = paths_view(all@);
    let n = all.len();
    let mut j = t + 1;
    while j < n
        invariant
            n == all@.len(),
            t + 1 <= j <= all@.len(),
            pv == paths_view(all@),
            pv.len() == all@.len(),
            t < all@.len(),
            forall|x: int| t + 1 <= x < j ==> pv[x] != pv[t as int],
        decreases all@.len() - j,
    {
        if bytes_eq(&all[j], &all[t]) {
            proof {
                assert(pv.skip(t as int + 1)[j - t - 1] == pv[j as int]);
                assert(pv.skip(t as int + 1).contains(pv[t as int]));
            }
            return true;
        }
        j = j + 1;
    }
    proof {
        if pv.skip(t as int + 1).contains(pv[t as int]) {
            let suf = pv.skip(t as int + 1);
            let target = pv[t as int];
            let x = choose|x: int| 0 <= x < suf.len() && #[trigger] suf[x] == target;
            assert(pv[x + t + 1] == pv[t as int]);
            assert(false);
        }
    }
    false
}

/// Count the distinct paths of a list.
#[verifier::loop_isolation(false)]
fn count_distinct(all: &Vec<Vec<u8>>) -> (c: usize)
    ensures
        c as nat == distinct_count(paths_view(all@)),
{
    let ghost pv = paths_view(all@);
    let n = all.len();
    let mut c: usize = 0;
    let mut t = n;
    proof {
        assert(pv.skip(n as int) =~= Seq::<Seq<u8>>::empty());
    }
    while t > 0
        invariant
            0 <= t <= n,
            c as nat == distinct_count(pv.skip(t as int)),
            c <= n - t,
        decreases t,
    {
        t = t - 1;
        let later = contains_later(all, t);
        proof {
            assert(pv.skip(t as int)[0] == pv[t as int]);
            assert(pv.skip(t as int).skip(1) =~= pv.skip(t as int + 1));
        }
        if !later {
            c = c + 1;
        }
    }
    proof {
        assert(pv.skip(0) =~= pv);
    }
    c
}

/// Collect one stale identifier's reference updates and total across the
/// document files.
#[verifier::loop_isolation(false)]
fn collect_updates_for(files: &Vec<ScannedFile>, sub_root: &Vec<u8>, stale: &Vec<u8>) -> (r: (
    Vec<ReferenceUpdate>,
    usize,
))
    requires
        report_total_for(files@, stale@) <= usize::MAX,
    ensures
        rus_view(r.0@) == ref_updates_for(files@, sub_root@, stale@),
        r.1 as nat == report_total_for(files@, stale@),
{
    let n = files.len();
    let mut rus: Vec<ReferenceUpdate> = Vec::new();
    let mut tm: usize = 0;
    let mut j: usize = 0;
    proof {
        assert(files@.skip(0) =~= files@);
    }
    while j < n
        invariant
            0 <= j <= n,
            rus_view(rus@) + ref_updates_for(files@.skip(j as int), sub_root@, stale@)
                == ref_updates_for(files@, sub_root@, stale@),
            tm as nat + report_total_for(files@.skip(j as int), stale@) == report_total_for(
                files@,
                stale@,
            ),
        decreases n - j,
    {
        proof {
            assert(files@.skip(j as int)[0] == files@[j as int]);
            assert(files@.skip(j as int).skip(1) =~= files@.skip(j as int + 1));
        }
        let f = &files[j];
        let found_ext = candidate_ext(&f.path);
        match found_ext {
            Some(ext) => {
                let c = count_stale(&f.content, stale);
                if c > 0 {
                    let ghost rus0 = rus@;
                    let rel = rel_or_self_exec(&f.path, sub_root);
                    rus.push(ReferenceUpdate { file_path: rel, file_type: ext, reference_count: c });
                    proof {
                        assert(rus@ == rus0.push(rus@[rus0.len() as int]));
                        assert(rus_view(rus@) =~= rus_view(rus0) + seq![
                            (
                                rel_or_self(files@[j as int].path@, sub_root@),
                                report_ext(files@[j as int].path@).unwrap(),
                                stale_count(files@[j as int].content@, stale@, 0),
                            ),
                        ]);
                        assert(rus_view(rus@) + ref_updates_for(
                            files@.skip(j as int + 1),
                            sub_root@,
                            stale@,
                        ) =~= ref_updates_for(files@, sub_root@, stale@));
                    }
                } else {
                    proof {
                        assert(rus_view(rus@) + ref_updates_for(
                            files@.skip(j as int + 1),
                            sub_root@,
                            stale@,
                        ) =~= ref_updates_for(files@, sub_root@, stale@));
                    }
                }
                tm = tm + c;
            },
            None => {
                proof {
                    assert(rus_view(rus@) + ref_updates_for(
                        files@.skip(j as int + 1),
                        sub_root@,
                        stale@,
                    ) =~= ref_updates_for(files@, sub_root@, stale@));
                }
            },
        }
        j = j + 1;
    }
    proof {
        assert(files@.skip(n as int) =~= Seq::<ScannedFile>::empty());
        assert(rus_view(rus@) + ref_updates_for(files@.skip(n as int), sub_root@, stale@)
            =~= rus_view(rus@));
    }
    (rus, tm)
}

/// Collect the relative paths of the document files that reference some
/// stale identifier, in listing order.
#[verifier::loop_isolation(false)]
fn collect_ref_paths(ms: &Vec<GuidMapping>, files: &Vec<ScannedFile>, sub_root: &Vec<u8>) -> (r:
    Vec<Vec<u8>>)
    ensures
        paths_view(r@) == ref_paths_all(ms@, files@, sub_root@),
{
    let n = files.len();
    let mut all_paths: Vec<Vec<u8>> = Vec::new();
    let mut j: usize = 0;
    proof {
        assert(files@.skip(0) =~= files@);
    }
    while j < n
        invariant
            0 <= j <= n,
            paths_view(all_paths@) + ref_paths_all(ms@, files@.skip(j as int), sub_root@)
                == ref_paths_all(ms@, files@, sub_root@),
        decreases n - j,
    {
        proof {
            assert(files@.skip(j as int)[0] == files@[j as int]);
            assert(files@.skip(j as int).skip(1) =~= files@.skip(j as int + 1));
        }
        let f = &files[j];
        let found_ext = candidate_ext(&f.path);
        let mut pushed = false;
        match found_ext {
            Some(_ext) => {
                if any_stale(ms, &f.content) {
                    let ghost ap0 = all_paths@;
                    all_paths.push(rel_or_self_exec(&f.path, sub_root));
                    pushed = true;
                    proof {
                        assert(all_paths@ == ap0.push(all_paths@[ap0.len() as int]));
                        assert(paths_view(all_paths@) =~= paths_view(ap0) + seq![
                            rel_or_self(files@[j as int].path@, sub_root@),
                        ]);
                        assert(paths_view(all_paths@) + ref_paths_all(
                            ms@,
                            files@.skip(j as int + 1),
                            sub_root@,
                        ) =~= ref_paths_all(ms@, files@, sub_root@));
                    }
                }
            },
            None => {},
        }
        if !pushed {
            proof {
                assert(paths_view(all_paths@) + ref_paths_all(
                    ms@,
                    files@.skip(j as int + 1),
                    sub_root@,
                ) =~= ref_paths_all(ms@, files@, sub_root@));
            }
        }
        j = j + 1;
    }
    proof {
        assert(files@.skip(n as int) =~= Seq::<ScannedFile>::empty());
        assert(paths_view(all_paths@) + ref_paths_all(ms@, files@.skip(n as int), sub_root@)
            =~= paths_view(all_paths@));
    }
    all_paths
}

impl GuidSyncer {
    /// Build the detailed operations report: one operation per entry,
    /// joined with every occurrence of its stale identifier across the
    /// subordinate tree's document files, ordered by descending reference
    /// volume with ties by ascending path, under an exact summary.
    #[verifier::loop_isolation(false)]
    #[verifier::rlimit(100)]
    #[verifier::spinoff_prover]
    pub fn generate_sync_operations_report(&self, files: &Vec<ScannedFile>) -> (r:
        SyncOperationsReport)
        requires
            self.wf(),
            sorted_by_path(self.guid_mappings@),
            grand_total(self.guid_mappings@, files@) <= usize::MAX,
        ensures
            r.operations@.len() == self.guid_mappings@.len(),
            forall|x: int|
                0 <= x < r.operations@.len() ==> exists|m: int|
                    0 <= m < self.guid_mappings@.len() && op_matches(
                        #[trigger] r.operations@[x],
                        self.guid_mappings@[m],
                        files@,
                        self.subordinate_project@,
                    ),
            forall|m: int|
                0 <= m < self.guid_mappings@.len() ==> exists|x: int|
                    0 <= x < r.operations@.len() && op_matches(
                        #[trigger] r.operations@[x],
                        #[trigger] self.guid_mappings@[m],
                        files@,
                        self.subordinate_project@,
                    ),
            forall|x: int, y: int|
                0 <= x < y < r.operations@.len() ==> op_order(
                    #[trigger] r.operations@[x],
                    #[trigger] r.operations@[y],
                ),
            r.summary.total_guid_differences == self.guid_mappings@.len(),
            r.summary.total_meta_files_to_update == self.guid_mappings@.len(),
            r.summary.total_reference_updates as nat == grand_total(self.guid_mappings@, files@),
            r.summary.total_files_with_references as nat == distinct_count(
                ref_paths_all(self.guid_mappings@, files@, self.subordinate_project@),
            ),
    {
        let ghost ms = self.guid_mappings@;
        let ghost root = self.subordinate_project@;
        let mut ops: Vec<SyncOperation> = Vec::new();
        let mut acc: usize = 0;
        let mut m: usize = 0;
        proof {
            assert(ms.skip(0) =~= ms);
        }
        while m < self.guid_mappings.len()
            invariant
                0 <= m <= ms.len(),
                ms == self.guid_mappings@,
                root == self.subordinate_project@,
                ops@.len() == m,
                forall|x: int|
                    0 <= x < ops@.len() ==> exists|m2: int|
                        0 <= m2 < m && op_matches(#[trigger] ops@[x], ms[m2], files@, root),
                forall|m2: int|
                    0 <= m2 < m ==> exists|x: int|
                        0 <= x < ops@.len() && op_matches(
                            #[trigger] ops@[x],
                            #[trigger] ms[m2],
                            files@,
                            root,
                        ),
                forall|x: int, y: int|
                    0 <= x < y < ops@.len() ==> op_order(#[trigger] ops@[x], #[trigger] ops@[y]),
                acc as nat + grand_total(ms.skip(m as int), files@) == grand_total(ms, files@),
            decreases ms.len() - m,
        {
            proof {
                assert(ms.skip(m as int)[0] == ms[m as int]);
                assert(ms.skip(m as int).skip(1) =~= ms.skip(m as int + 1));
                lemma_total_in_grand(ms, files@, m as int);
            }
            let entry = &self.guid_mappings[m];
            let collected = collect_updates_for(files, &self.subordinate_project, &entry.stale_id);
            let rus = collected.0;
            let tm = collected.1;
            let rel_path_copy = clone_bytes(&entry.relative_path);
            let name = asset_name_exec(&entry.relative_path);
            let op = SyncOperation {
                old_guid: clone_bytes(&entry.stale_id),
                new_guid: clone_bytes(&entry.canonical_id),
                asset_path: clone_bytes(&entry.relative_path),
                asset_name: name,
                meta_file_update: MetaFileUpdate { path: rel_path_copy },
                reference_updates: rus,
                total_references: tm,
            };
            proof {
                assert(op_matches(op, ms[m as int], files@, root)) by {
                    reveal(op_matches);
                }
                lemma_new_path_distinct(ops@, ms, files@, root, m as int);
                lemma_op_matches_path(op, ms[m as int], files@, root);
            }
            let mut pos: usize = 0;
            while pos < ops.len() && op_before(&ops[pos], &op)
                invariant
                    0 <= pos <= ops@.len(),
                    forall|x: int| 0 <= x < pos ==> op_order(#[trigger] ops@[x], op),
                decreases ops@.len() - pos,
            {
                pos = pos + 1;
            }
            proof {
                if pos < ops@.len() {
                    lemma_suffix_order(ops@, op, pos as int);
                }
                lemma_ops_sorted_insert(ops@, op, pos as int);
                lemma_ops_membership_insert(ops@, op, pos as int, ms, files@, root, m as int);
            }
            let ghost ops0 = ops@;
            ops.insert(pos, op);
            proof {
                assert(ops@ == ops0.insert(pos as int, op));
            }
            acc = acc + tm;
            m = m + 1;
        }
        proof {
            assert(ms.skip(ms.len() as int) =~= Seq::<GuidMapping>::empty());
        }
        // the distinct document files that reference anything at all
        let all_paths = collect_ref_paths(&self.guid_mappings, files, &self.subordinate_project);
        let distinct = count_distinct(&all_paths);
        let summary = SyncSummary {
            total_guid_differences: self.guid_mappings.len(),
            total_meta_files_to_update: self.guid_mappings.len(),
            total_files_with_references: distinct,
            total_reference_updates: acc,
        };
        SyncOperationsReport { summary, operations: ops }
    }
}

} // verus!
