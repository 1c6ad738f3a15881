//! The reconciliation driver: comparing the two trees' indices and
//! planning the rewrite of the subordinate tree.

use vstd::prelude::*;
use crate::bytes::{lex_lt, lex_less, lemma_lex_total, lemma_lex_trans, bytes_eq, clone_bytes};
use crate::guid::is_guid;
use crate::index::{IndexEntry, ScannedFile, index_has, paths_unique, ids_wf, file_entry,
    distinct_paths, build_index, index_of_prefix, root_prefix, root_prefix_exec, is_meta_path,
    meta_ext, has_extension};
use crate::mapping::{GuidMapping, wf_mappings};
use crate::meta::{MetaFile, has_desc_line, updated_content};
use crate::refscan::{replaced_count, rewritten, stale_count, lemma_stale_le_replaced,
    rewrite_references, document_marker, has_document_marker};

verus! {

/// The entries hold (`p`, `c`, `st`): some entry reconciles relative path
/// `p` from stale identifier `st` to canonical identifier `c`.
pub open spec fn mapping_has(entries: Seq<GuidMapping>, p: Seq<u8>, c: Seq<u8>, st: Seq<u8>) -> bool {
    exists|x: int|
        0 <= x < entries.len() && (#[trigger] entries[x]).relative_path@ == p
            && entries[x].canonical_id@ == c && entries[x].stale_id@ == st
}

/// The reconciliation entries are exactly the paths both indices share
/// with differing identifiers.
pub open spec fn entry_set_ok(
    entries: Seq<GuidMapping>,
    main: Seq<IndexEntry>,
    sub: Seq<IndexEntry>,
) -> bool {
    forall|p: Seq<u8>, c: Seq<u8>, st: Seq<u8>|
        #[trigger] mapping_has(entries, p, c, st) <==> (index_has(main, p, c) && index_has(
            sub,
            p,
            st,
        ) && c != st)
}

/// Entries are strictly ordered by relative path.
pub open spec fn sorted_by_path(entries: Seq<GuidMapping>) -> bool {
    forall|x: int, y: int|
        0 <= x < y < entries.len() ==> lex_lt(
            (#[trigger] entries[x]).relative_path@,
            (#[trigger] entries[y]).relative_path@,
        )
}

/// The resolver's characterization over the first `k` entries of the main
/// index.
pub open spec fn resolve_prefix_ok(
    entries: Seq<GuidMapping>,
    main: Seq<IndexEntry>,
    sub: Seq<IndexEntry>,
    k: int,
) -> bool {
    forall|p: Seq<u8>, c: Seq<u8>, st: Seq<u8>|
        #[trigger] mapping_has(entries, p, c, st) <==> ((exists|k2: int|
            0 <= k2 < k && (#[trigger] main[k2]).relative_path@ == p && main[k2].identifier@ == c)
            && index_has(sub, p, st) && c != st)
}

/// The path `p` is the relative path of one of the first `k` entries of
/// the index.
pub open spec fn path_in_prefix(main: Seq<IndexEntry>, k: int, p: Seq<u8>) -> bool {
    exists|k2: int| 0 <= k2 < k && (#[trigger] main[k2]).relative_path@ == p
}

proof fn lemma_path_in_prefix_widen(main: Seq<IndexEntry>, k: int, p: Seq<u8>)
    requires
        path_in_prefix(main, k, p),
    ensures
        path_in_prefix(main, k + 1, p),
{
    let k2 = choose|k2: int| 0 <= k2 < k && (#[trigger] main[k2]).relative_path@ == p;
    assert(0 <= k2 < k + 1 && main[k2].relative_path@ == p);
}

/// Entry paths all come from the first `k` entries of the main index.
pub open spec fn entry_paths_from(
    entries: Seq<GuidMapping>,
    main: Seq<IndexEntry>,
    k: int,
) -> bool {
    forall|x: int|
        0 <= x < entries.len() ==> #[trigger] path_in_prefix(
            main,
            k,
            entries[x].relative_path@,
        )
}

/// In an index with unique paths, the entry at `k` settles what the index
/// holds at its path.
pub proof fn lemma_index_unique(idx: Seq<IndexEntry>, k: int)
    requires
        paths_unique(idx),
        0 <= k < idx.len(),
    ensures
        forall|g: Seq<u8>|
            #[trigger] index_has(idx, idx[k].relative_path@, g) <==> g == idx[k].identifier@,
{
    assert forall|g: Seq<u8>| #[trigger] index_has(idx, idx[k].relative_path@, g) implies g
        == idx[k].identifier@ by {
        let k2 = choose|k2: int|
            0 <= k2 < idx.len() && (#[trigger] idx[k2]).relative_path@ == idx[k].relative_path@
                && idx[k2].identifier@ == g;
        assert(k2 == k);
    }
    assert(index_has(idx, idx[k].relative_path@, idx[k].identifier@));
}

proof fn lemma_mapping_has_insert(
    entries: Seq<GuidMapping>,
    pos: int,
    e: GuidMapping,
    p: Seq<u8>,
    c: Seq<u8>,
    st: Seq<u8>,
)
    requires
        0 <= pos <= entries.len(),
    ensures
        mapping_has(entries.insert(pos, e), p, c, st) <==> (mapping_has(entries, p, c, st) || (
        e.relative_path@ == p && e.canonical_id@ == c && e.stale_id@ == st)),
{
    entries.insert_ensures(pos, e);
    let ins = entries.insert(pos, e);
    if mapping_has(ins, p, c, st) {
        let x = choose|x: int|
            0 <= x < ins.len() && (#[trigger] ins[x]).relative_path@ == p && ins[x].canonical_id@
                == c && ins[x].stale_id@ == st;
        if x < pos {
            assert(ins[x] == entries[x]);
            assert(mapping_has(entries, p, c, st));
        } else if x == pos {
            assert(ins[x] == e);
        } else {
            assert(ins[x] == entries[x - 1]);
            assert(mapping_has(entries, p, c, st));
        }
    }
    if mapping_has(entries, p, c, st) {
        let x = choose|x: int|
            0 <= x < entries.len() && (#[trigger] entries[x]).relative_path@ == p
                && entries[x].canonical_id@ == c && entries[x].stale_id@ == st;
        if x < pos {
            assert(ins[x] == entries[x]);
        } else {
            assert(ins[x + 1] == entries[x]);
        }
        assert(mapping_has(ins, p, c, st));
    }
    if e.relative_path@ == p && e.canonical_id@ == c && e.stale_id@ == st {
        assert(ins[pos] == e);
        assert(mapping_has(ins, p, c, st));
    }
}

proof fn lemma_resolve_step_insert(
    entries: Seq<GuidMapping>,
    pos: int,
    e: GuidMapping,
    main: Seq<IndexEntry>,
    sub: Seq<IndexEntry>,
    k: int,
)
    requires
        0 <= k < main.len(),
        0 <= pos <= entries.len(),
        resolve_prefix_ok(entries, main, sub, k),
        entry_paths_from(entries, main, k),
        e.relative_path@ == main[k].relative_path@,
        e.canonical_id@ == main[k].identifier@,
        forall|g: Seq<u8>| #[trigger] index_has(sub, e.relative_path@, g) <==> g == e.stale_id@,
        e.canonical_id@ != e.stale_id@,
    ensures
        resolve_prefix_ok(entries.insert(pos, e), main, sub, k + 1),
        entry_paths_from(entries.insert(pos, e), main, k + 1),
{
    entries.insert_ensures(pos, e);
    let ins = entries.insert(pos, e);
    assert forall|p: Seq<u8>, c: Seq<u8>, st: Seq<u8>|
        #[trigger] mapping_has(ins, p, c, st) <==> ((exists|k2: int|
            0 <= k2 < k + 1 && (#[trigger] main[k2]).relative_path@ == p && main[k2].identifier@
                == c) && index_has(sub, p, st) && c != st) by {
        lemma_mapping_has_insert(entries, pos, e, p, c, st);
        if mapping_has(entries, p, c, st) {
            let k2 = choose|k2: int|
                0 <= k2 < k && (#[trigger] main[k2]).relative_path@ == p && main[k2].identifier@
                    == c;
            assert(0 <= k2 < k + 1 && main[k2].relative_path@ == p && main[k2].identifier@ == c);
        }
        if e.relative_path@ == p && e.canonical_id@ == c && e.stale_id@ == st {
            assert(0 <= k < k + 1 && main[k].relative_path@ == p && main[k].identifier@ == c);
            assert(index_has(sub, p, st));
        }
        if (exists|k2: int|
            0 <= k2 < k + 1 && (#[trigger] main[k2]).relative_path@ == p && main[k2].identifier@
                == c) && index_has(sub, p, st) && c != st {
            let k2 = choose|k2: int|
                0 <= k2 < k + 1 && (#[trigger] main[k2]).relative_path@ == p
                    && main[k2].identifier@ == c;
            if k2 == k {
                assert(st == e.stale_id@);
                assert(mapping_has(ins, p, c, st));
            } else {
                assert(exists|k3: int|
                    0 <= k3 < k && (#[trigger] main[k3]).relative_path@ == p
                        && main[k3].identifier@ == c);
                assert(mapping_has(entries, p, c, st));
            }
        }
    }
    assert forall|x: int| 0 <= x < ins.len() implies #[trigger] path_in_prefix(
        main,
        k + 1,
        ins[x].relative_path@,
    ) by {
        if x < pos {
            assert(ins[x] == entries[x]);
            lemma_path_in_prefix_widen(main, k, entries[x].relative_path@);
        } else if x == pos {
            assert(ins[x] == e);
            assert(0 <= k < k + 1 && main[k].relative_path@ == ins[x].relative_path@);
        } else {
            assert(ins[x] == entries[x - 1]);
            lemma_path_in_prefix_widen(main, k, entries[x - 1].relative_path@);
        }
    }
}

proof fn lemma_resolve_step_no_insert(
    entries: Seq<GuidMapping>,
    main: Seq<IndexEntry>,
    sub: Seq<IndexEntry>,
    k: int,
)
    requires
        0 <= k < main.len(),
        resolve_prefix_ok(entries, main, sub, k),
        entry_paths_from(entries, main, k),
        // at the path of main[k], the sub index misses the path or agrees
        forall|st: Seq<u8>|
            #[trigger] index_has(sub, main[k].relative_path@, st) ==> st == main[k].identifier@,
    ensures
        resolve_prefix_ok(entries, main, sub, k + 1),
        entry_paths_from(entries, main, k + 1),
{
    assert forall|p: Seq<u8>, c: Seq<u8>, st: Seq<u8>|
        #[trigger] mapping_has(entries, p, c, st) <==> ((exists|k2: int|
            0 <= k2 < k + 1 && (#[trigger] main[k2]).relative_path@ == p && main[k2].identifier@
                == c) && index_has(sub, p, st) && c != st) by {
        if mapping_has(entries, p, c, st) {
            let k2 = choose|k2: int|
                0 <= k2 < k && (#[trigger] main[k2]).relative_path@ == p && main[k2].identifier@
                    == c;
            assert(0 <= k2 < k + 1 && main[k2].relative_path@ == p && main[k2].identifier@ == c);
        }
        if (exists|k2: int|
            0 <= k2 < k + 1 && (#[trigger] main[k2]).relative_path@ == p && main[k2].identifier@
                == c) && index_has(sub, p, st) && c != st {
            let k2 = choose|k2: int|
                0 <= k2 < k + 1 && (#[trigger] main[k2]).relative_path@ == p
                    && main[k2].identifier@ == c;
            if k2 == k {
                assert(st == main[k].identifier@);
                assert(false);
            } else {
                assert(exists|k3: int|
                    0 <= k3 < k && (#[trigger] main[k3]).relative_path@ == p
                        && main[k3].identifier@ == c);
                assert(mapping_has(entries, p, c, st));
            }
        }
    }
    assert forall|x: int| 0 <= x < entries.len() implies #[trigger] path_in_prefix(
        main,
        k + 1,
        entries[x].relative_path@,
    ) by {
        lemma_path_in_prefix_widen(main, k, entries[x].relative_path@);
    }
}

/// Look a relative path up in an index.
fn index_lookup(idx: &Vec<IndexEntry>, p: &Vec<u8>) -> (r: Option<usize>)
    ensures
        match r {
            Some(k) => k < idx@.len() && idx@[k as int].relative_path@ == p@,
            None => forall|k: int|
                0 <= k < idx@.len() ==> (#[trigger] idx@[k]).relative_path@ != p@,
        },
{
    let mut k: usize = 0;
    while k < idx.len()
        invariant
            0 <= k <= idx@.len(),
            forall|k2: int| 0 <= k2 < k ==> (#[trigger] idx@[k2]).relative_path@ != p@,
        decreases idx@.len() - k,
    {
        if bytes_eq(&idx[k].relative_path, p) {
            return Some(k);
        }
        k = k + 1;
    }
    None
}

/// Compute the reconciliation entries of two indices: one entry per path
/// both trees hold with differing identifiers, ordered by relative path.
#[verifier::loop_isolation(false)]
#[verifier::rlimit(30)]
fn resolve_mappings(main: &Vec<IndexEntry>, sub: &Vec<IndexEntry>) -> (entries: Vec<GuidMapping>)
    requires
        paths_unique(main@),
        paths_unique(sub@),
        ids_wf(main@),
        ids_wf(sub@),
    ensures
        entry_set_ok(entries@, main@, sub@),
        wf_mappings(entries@),
        sorted_by_path(entries@),
{
    let mut entries: Vec<GuidMapping> = Vec::new();
    let mut k: usize = 0;
    while k < main.len()
        invariant
            0 <= k <= main@.len(),
            resolve_prefix_ok(entries@, main@, sub@, k as int),
            entry_paths_from(entries@, main@, k as int),
            sorted_by_path(entries@),
            wf_mappings(entries@),
        decreases main@.len() - k,
    {
        let hit = index_lookup(sub, &main[k].relative_path);
        match hit {
            Some(sk) => {
                if !bytes_eq(&sub[sk].identifier, &main[k].identifier) {
                    let entry = GuidMapping {
                        relative_path: clone_bytes(&main[k].relative_path),
                        canonical_id: clone_bytes(&main[k].identifier),
                        stale_id: clone_bytes(&sub[sk].identifier),
                    };
                    proof {
                        lemma_index_unique(sub@, sk as int);
                    }
                    // find the sorted position for the new path
                    let mut pos: usize = 0;
                    while pos < entries.len() && lex_less(&entries[pos].relative_path, &entry.relative_path)
                        invariant
                            0 <= pos <= entries@.len(),
                            forall|x: int|
                                0 <= x < pos ==> lex_lt(
                                    (#[trigger] entries@[x]).relative_path@,
                                    entry.relative_path@,
                                ),
                        decreases entries@.len() - pos,
                    {
                        pos = pos + 1;
                    }
                    proof {
                        // the new path stands strictly after the prefix and
                        // strictly before the suffix
                        assert forall|x: int| pos <= x < entries@.len() implies lex_lt(
                            entry.relative_path@,
                            (#[trigger] entries@[x]).relative_path@,
                        ) by {
                            if entries@[x].relative_path@ == entry.relative_path@ {
                                assert(path_in_prefix(main@, k as int, entries@[x].relative_path@));
                                let k2 = choose|k2: int|
                                    0 <= k2 < k && (#[trigger] main@[k2]).relative_path@
                                        == entries@[x].relative_path@;
                                assert(main@[k2].relative_path@ == main@[k as int].relative_path@);
                                assert(false);
                            }
                            if x == pos as int {
                                lemma_lex_total(
                                    entries@[x].relative_path@,
                                    entry.relative_path@,
                                );
                            } else {
                                lemma_lex_total(
                                    entries@[pos as int].relative_path@,
                                    entry.relative_path@,
                                );
                                if entries@[pos as int].relative_path@ == entry.relative_path@ {
                                    assert(path_in_prefix(
                                        main@,
                                        k as int,
                                        entries@[pos as int].relative_path@,
                                    ));
                                    let k2 = choose|k2: int|
                                        0 <= k2 < k && (#[trigger] main@[k2]).relative_path@
                                            == entries@[pos as int].relative_path@;
                                    assert(main@[k2].relative_path@ == main@[k as int].relative_path@);
                                    assert(false);
                                }
                                lemma_lex_trans(
                                    entry.relative_path@,
                                    entries@[pos as int].relative_path@,
                                    entries@[x].relative_path@,
                                );
                            }
                        }
                        lemma_resolve_step_insert(
                            entries@,
                            pos as int,
                            entry,
                            main@,
                            sub@,
                            k as int,
                        );
                        entries@.insert_ensures(pos as int, entry);
                    }
                    let ghost entries0 = entries@;
                    entries.insert(pos, entry);
                    proof {
                        assert(entries@ == entries0.insert(pos as int, entry));
                        assert forall|x: int, y: int| 0 <= x < y < entries@.len() implies lex_lt(
                            (#[trigger] entries@[x]).relative_path@,
                            (#[trigger] entries@[y]).relative_path@,
                        ) by {
                            entries0.insert_ensures(pos as int, entry);
                        }
                        assert(wf_mappings(entries@)) by {
                            entries0.insert_ensures(pos as int, entry);
                            assert(is_guid(entry.canonical_id@));
                            assert(is_guid(entry.stale_id@));
                        }
                    }
                } else {
                    proof {
                        lemma_index_unique(sub@, sk as int);
                        lemma_resolve_step_no_insert(entries@, main@, sub@, k as int);
                    }
                }
            },
            None => {
                proof {
                    assert forall|st: Seq<u8>|
                        #[trigger] index_has(sub@, main@[k as int].relative_path@, st) implies st
                        == main@[k as int].identifier@ by {
                        let k2 = choose|k2: int|
                            0 <= k2 < sub@.len() && (#[trigger] sub@[k2]).relative_path@
                                == main@[k as int].relative_path@ && sub@[k2].identifier@ == st;
                        assert(false);
                    }
                    lemma_resolve_step_no_insert(entries@, main@, sub@, k as int);
                }
            },
        }
        k = k + 1;
    }
    proof {
        assert(entry_set_ok(entries@, main@, sub@)) by {
            assert forall|p: Seq<u8>, c: Seq<u8>, st: Seq<u8>|
                #[trigger] mapping_has(entries@, p, c, st) <==> (index_has(main@, p, c)
                    && index_has(sub@, p, st) && c != st) by {
                if index_has(main@, p, c) {
                    let k2 = choose|k2: int|
                        0 <= k2 < main@.len() && (#[trigger] main@[k2]).relative_path@ == p
                            && main@[k2].identifier@ == c;
                    assert(0 <= k2 < main@.len() && main@[k2].relative_path@ == p
                        && main@[k2].identifier@ == c);
                }
                if exists|k2: int|
                    0 <= k2 < main@.len() && (#[trigger] main@[k2]).relative_path@ == p
                        && main@[k2].identifier@ == c {
                    assert(index_has(main@, p, c));
                }
            }
        }
    }
    entries
}

/// A path joined under a root: the root as a directory prefix, then the
/// relative path.
pub open spec fn joined(root: Seq<u8>, rel: Seq<u8>) -> Seq<u8> {
    root_prefix(root) + rel
}

/// Join a root and a relative path at runtime.
pub fn join_path(root: &Vec<u8>, rel: &Vec<u8>) -> (r: Vec<u8>)
    ensures
        r@ == joined(root@, rel@),
{
    let mut r = root_prefix_exec(root);
    let mut k: usize = 0;
    while k < rel.len()
        invariant
            0 <= k <= rel@.len(),
            r@ == root_prefix(root@) + rel@.subrange(0, k as int),
        decreases rel@.len() - k,
    {
        r.push(rel[k]);
        proof {
            assert(r@ =~= root_prefix(root@) + rel@.subrange(0, k as int + 1));
        }
        k = k + 1;
    }
    proof {
        assert(rel@.subrange(0, rel@.len() as int) =~= rel@);
    }
    r
}

/// The content of the first file at path `p`, if the listing holds one.
pub open spec fn find_file(files: Seq<ScannedFile>, p: Seq<u8>) -> Option<Seq<u8>>
    decreases files.len(),
{
    if files.len() == 0 {
        None
    } else if files[0].path@ == p {
        Some(files[0].content@)
    } else {
        find_file(files.skip(1), p)
    }
}

fn find_file_exec(files: &Vec<ScannedFile>, p: &Vec<u8>) -> (r: Option<usize>)
    ensures
        match r {
            Some(ci) => ci < files@.len() && files@[ci as int].path@ == p@ && find_file(files@, p@)
                == Some(files@[ci as int].content@),
            None => find_file(files@, p@) is None,
        },
{
    let mut j: usize = 0;
    proof {
        assert(files@.skip(0) =~= files@);
    }
    while j < files.len()
        invariant
            0 <= j <= files@.len(),
            find_file(files@, p@) == find_file(files@.skip(j as int), p@),
        decreases files@.len() - j,
    {
        proof {
            assert(files@.skip(j as int)[0] == files@[j as int]);
            assert(files@.skip(j as int).skip(1) =~= files@.skip(j as int + 1));
        }
        if bytes_eq(&files[j].path, p) {
            return Some(j);
        }
        j = j + 1;
    }
    None
}

/// Every entry's descriptor file is present in the listing and carries an
/// identifier declaration line.
pub open spec fn metas_ok(ms: Seq<GuidMapping>, files: Seq<ScannedFile>, sub_root: Seq<u8>) -> bool {
    forall|m: int|
        0 <= m < ms.len() ==> {
            let c = find_file(files, joined(sub_root, (#[trigger] ms[m]).relative_path@));
            c is Some && has_desc_line(c.unwrap())
        }
}

/// A file the reference pass looks at: any file but a descriptor whose
/// first line begins with a recognized document marker.
pub open spec fn eligible_ref_file(f: ScannedFile) -> bool {
    !is_meta_path(f.path@) && has_document_marker(f.content@)
}

/// The descriptor rewrites of a run, one per entry, in entry order.
pub open spec fn meta_write_list(
    ms: Seq<GuidMapping>,
    files: Seq<ScannedFile>,
    sub_root: Seq<u8>,
) -> Seq<(Seq<u8>, Seq<u8>)>
    decreases ms.len(),
{
    if ms.len() == 0 {
        Seq::empty()
    } else {
        seq![
            (
                joined(sub_root, ms[0].relative_path@),
                updated_content(
                    find_file(files, joined(sub_root, ms[0].relative_path@)).unwrap(),
                    ms[0].canonical_id@,
                ),
            ),
        ] + meta_write_list(ms.skip(1), files, sub_root)
    }
}

/// The reference rewrites of a run: every eligible file with at least one
/// replaced occurrence, in listing order, with its rewritten content.
pub open spec fn ref_write_list(files: Seq<ScannedFile>, ms: Seq<GuidMapping>) -> Seq<
    (Seq<u8>, Seq<u8>),
>
    decreases files.len(),
{
    if files.len() == 0 {
        Seq::empty()
    } else {
        let rest = ref_write_list(files.skip(1), ms);
        if eligible_ref_file(files[0]) && replaced_count(files[0].content@, ms, 0) > 0 {
            seq![(files[0].path@, rewritten(files[0].content@, ms))] + rest
        } else {
            rest
        }
    }
}

/// The grand total of replaced occurrences across the eligible files.
pub open spec fn total_refs(files: Seq<ScannedFile>, ms: Seq<GuidMapping>) -> nat
    decreases files.len(),
{
    if files.len() == 0 {
        0nat
    } else {
        (if eligible_ref_file(files[0]) {
            replaced_count(files[0].content@, ms, 0)
        } else {
            0nat
        }) + total_refs(files.skip(1), ms)
    }
}

/// Occurrences of one stale identifier across the eligible files.
pub open spec fn stale_total(files: Seq<ScannedFile>, stale: Seq<u8>) -> nat
    decreases files.len(),
{
    if files.len() == 0 {
        0nat
    } else {
        (if eligible_ref_file(files[0]) {
            stale_count(files[0].content@, stale, 0)
        } else {
            0nat
        }) + stale_total(files.skip(1), stale)
    }
}

/// The per-identifier tallies of a run: one pair per entry whose stale
/// identifier was replaced at least once, in entry order.
pub open spec fn count_pairs(ms: Seq<GuidMapping>, files: Seq<ScannedFile>) -> Seq<(Seq<u8>, nat)>
    decreases ms.len(),
{
    if ms.len() == 0 {
        Seq::empty()
    } else {
        let rest = count_pairs(ms.skip(1), files);
        if stale_total(files, ms[0].stale_id@) > 0 {
            seq![(ms[0].stale_id@, stale_total(files, ms[0].stale_id@))] + rest
        } else {
            rest
        }
    }
}

proof fn lemma_stale_total_le(files: Seq<ScannedFile>, ms: Seq<GuidMapping>, m: int)
    requires
        0 <= m < ms.len(),
    ensures
        stale_total(files, ms[m].stale_id@) <= total_refs(files, ms),
    decreases files.len(),
{
    if files.len() > 0 {
        crate::mapping::lemma_lookup_some(ms, m);
        lemma_stale_le_replaced(files[0].content@, ms, ms[m].stale_id@, 0);
        lemma_stale_total_le(files.skip(1), ms, m);
    }
}

/// One pending write: the file at `path` is to be overwritten with
/// `content`.
pub struct FileWrite {
    pub path: Vec<u8>,
    pub content: Vec<u8>,
}

/// The run report: how many descriptors change, which files hold replaced
/// references, the grand total of replacements, and the per-identifier
/// tallies.
pub struct SyncReport {
    pub meta_files_changed: usize,
    pub files_with_references: Vec<Vec<u8>>,
    pub total_references_replaced: usize,
    pub guid_reference_counts: Vec<(Vec<u8>, usize)>,
}

/// Everything a run would change, computed without touching a file: the
/// caller applies the writes in live mode and skips them in simulation
/// mode; the report is the same either way.
pub struct SyncPlan {
    pub writes: Vec<FileWrite>,
    pub report: SyncReport,
}

/// Why a descriptor update cannot be planned. Each error names the file.
#[derive(Debug)]
pub enum SyncError {
    /// The entry's descriptor file is not in the listing.
    DescriptorMissing { path: Vec<u8> },
    /// The descriptor holds no identifier declaration line.
    DescriptorLineMissing { path: Vec<u8> },
}

pub open spec fn write_view(w: FileWrite) -> (Seq<u8>, Seq<u8>) {
    (w.path@, w.content@)
}

pub open spec fn writes_view(ws: Seq<FileWrite>) -> Seq<(Seq<u8>, Seq<u8>)> {
    ws.map_values(|w: FileWrite| write_view(w))
}

pub open spec fn paths_view(ps: Seq<Vec<u8>>) -> Seq<Seq<u8>> {
    ps.map_values(|p: Vec<u8>| p@)
}

pub open spec fn pairs_view(ps: Seq<(Vec<u8>, usize)>) -> Seq<(Seq<u8>, nat)> {
    ps.map_values(|pr: (Vec<u8>, usize)| (pr.0@, pr.1 as nat))
}

struct RefPass {
    writes: Vec<FileWrite>,
    paths: Vec<Vec<u8>>,
    total: usize,
    sums: Vec<usize>,
}

/// No entry is produced for a path on which the trees agree.
pub proof fn lemma_no_entry_for_equal_ids(
    entries: Seq<GuidMapping>,
    main: Seq<IndexEntry>,
    sub: Seq<IndexEntry>,
    p: Seq<u8>,
    g: Seq<u8>,
)
    requires
        entry_set_ok(entries, main, sub),
        paths_unique(main),
        paths_unique(sub),
        index_has(main, p, g),
        index_has(sub, p, g),
    ensures
        forall|c: Seq<u8>, st: Seq<u8>| !mapping_has(entries, p, c, st),
{
    assert forall|c: Seq<u8>, st: Seq<u8>| !mapping_has(entries, p, c, st) by {
        if mapping_has(entries, p, c, st) {
            let k1 = choose|k1: int|
                0 <= k1 < main.len() && (#[trigger] main[k1]).relative_path@ == p
                    && main[k1].identifier@ == g;
            lemma_index_unique(main, k1);
            let k2 = choose|k2: int|
                0 <= k2 < sub.len() && (#[trigger] sub[k2]).relative_path@ == p
                    && sub[k2].identifier@ == g;
            lemma_index_unique(sub, k2);
            assert(c == g && st == g);
            assert(false);
        }
    }
}

/// No entry is produced for a path present in only one tree.
pub proof fn lemma_no_entry_for_unshared_path(
    entries: Seq<GuidMapping>,
    main: Seq<IndexEntry>,
    sub: Seq<IndexEntry>,
    p: Seq<u8>,
)
    requires
        entry_set_ok(entries, main, sub),
        (forall|g: Seq<u8>| !index_has(main, p, g)) || (forall|g: Seq<u8>| !index_has(sub, p, g)),
    ensures
        forall|c: Seq<u8>, st: Seq<u8>| !mapping_has(entries, p, c, st),
{
}

/// When the trees agree on every shared path, no entry at all is produced:
/// in particular, a second run right after a completed one resolves to
/// nothing.
pub proof fn lemma_agreeing_trees_resolve_to_nothing(
    entries: Seq<GuidMapping>,
    main: Seq<IndexEntry>,
    sub: Seq<IndexEntry>,
)
    requires
        entry_set_ok(entries, main, sub),
        forall|p: Seq<u8>, c: Seq<u8>, st: Seq<u8>|
            index_has(main, p, c) && index_has(sub, p, st) ==> c == st,
    ensures
        entries.len() == 0,
{
    if entries.len() > 0 {
        let e = entries[0];
        assert(mapping_has(entries, e.relative_path@, e.canonical_id@, e.stale_id@));
        assert(false);
    }
}

/// Tree `files`, walked from `root`, declares identifier `g` at relative
/// path `p` through one of its descriptor files.
pub open spec fn tree_declares(
    files: Seq<ScannedFile>,
    root: Seq<u8>,
    p: Seq<u8>,
    g: Seq<u8>,
) -> bool {
    exists|j: int| 0 <= j < files.len() && file_entry(#[trigger] files[j], root, p, g)
}

/// The reconciliation entries are exactly the relative paths both trees'
/// descriptors declare, with differing identifiers, carrying the canonical
/// and the stale identifier.
pub open spec fn reconciliation_ok(
    entries: Seq<GuidMapping>,
    main_files: Seq<ScannedFile>,
    sub_files: Seq<ScannedFile>,
    main_root: Seq<u8>,
    sub_root: Seq<u8>,
) -> bool {
    forall|p: Seq<u8>, c: Seq<u8>, st: Seq<u8>|
        #[trigger] mapping_has(entries, p, c, st) <==> (tree_declares(main_files, main_root, p, c)
            && tree_declares(sub_files, sub_root, p, st) && c != st)
}

/// The reconciliation driver: the two tree roots and, once the trees are
/// scanned, the reconciliation entries.
pub struct GuidSyncer {
    pub main_project: Vec<u8>,
    pub subordinate_project: Vec<u8>,
    pub guid_mappings: Vec<GuidMapping>,
}

impl GuidSyncer {
    /// Both identifiers of every entry are well-formed.
    pub open spec fn wf(&self) -> bool {
        wf_mappings(self.guid_mappings@)
    }

    /// A driver for the two roots, with no entries yet.
    pub fn new(main_project: Vec<u8>, subordinate_project: Vec<u8>) -> (s: Self)
        ensures
            s.main_project@ == main_project@,
            s.subordinate_project@ == subordinate_project@,
            s.guid_mappings@.len() == 0,
            s.wf(),
    {
        GuidSyncer { main_project, subordinate_project, guid_mappings: Vec::new() }
    }

    /// How many identifier differences the scan found.
    pub fn get_difference_count(&self) -> (n: usize)
        ensures
            n == self.guid_mappings@.len(),
    {
        self.guid_mappings.len()
    }

    /// Index both trees and resolve their differences into the
    /// reconciliation entries, ordered by relative path.
    pub fn scan_projects(&mut self, main_files: &Vec<ScannedFile>, sub_files: &Vec<ScannedFile>)
        requires
            distinct_paths(main_files@),
            distinct_paths(sub_files@),
        ensures
            final(self).main_project@ == old(self).main_project@,
            final(self).subordinate_project@ == old(self).subordinate_project@,
            final(self).wf(),
            sorted_by_path(final(self).guid_mappings@),
            reconciliation_ok(
                final(self).guid_mappings@,
                main_files@,
                sub_files@,
                old(self).main_project@,
                old(self).subordinate_project@,
            ),
    {
        let main_idx = build_index(&self.main_project, main_files);
        let sub_idx = build_index(&self.subordinate_project, sub_files);
        let entries = resolve_mappings(&main_idx, &sub_idx);
        proof {
            assert forall|p: Seq<u8>, c: Seq<u8>, st: Seq<u8>|
                #[trigger] mapping_has(entries@, p, c, st) <==> (tree_declares(
                    main_files@,
                    self.main_project@,
                    p,
                    c,
                ) && tree_declares(sub_files@, self.subordinate_project@, p, st) && c != st) by {
                assert(index_has(main_idx@, p, c) <==> tree_declares(
                    main_files@,
                    self.main_project@,
                    p,
                    c,
                ));
                assert(index_has(sub_idx@, p, st) <==> tree_declares(
                    sub_files@,
                    self.subordinate_project@,
                    p,
                    st,
                ));
            }
        }
        self.guid_mappings = entries;
    }

    /// Plan the descriptor rewrites: for every entry, the subordinate
    /// descriptor rewritten to the canonical identifier.
    #[verifier::loop_isolation(false)]
    fn plan_descriptor_updates(&self, files: &Vec<ScannedFile>) -> (r: Result<
        Vec<FileWrite>,
        SyncError,
    >)
        requires
            self.wf(),
        ensures
            (r is Ok) == metas_ok(self.guid_mappings@, files@, self.subordinate_project@),
            match r {
                Ok(ws) => writes_view(ws@) == meta_write_list(
                    self.guid_mappings@,
                    files@,
                    self.subordinate_project@,
                ),
                Err(e) => match e {
                    SyncError::DescriptorMissing { path } => exists|m: int|
                        0 <= m < self.guid_mappings@.len() && path@ == joined(
                            self.subordinate_project@,
                            (#[trigger] self.guid_mappings@[m]).relative_path@,
                        ) && find_file(files@, path@) is None,
                    SyncError::DescriptorLineMissing { path } => exists|m: int|
                        0 <= m < self.guid_mappings@.len() && path@ == joined(
                            self.subordinate_project@,
                            (#[trigger] self.guid_mappings@[m]).relative_path@,
                        ) && find_file(files@, path@) is Some && !has_desc_line(
                            find_file(files@, path@).unwrap(),
                        ),
                },
            },
    {
        let ghost ms = self.guid_mappings@;
        let ghost root = self.subordinate_project@;
        let mut writes: Vec<FileWrite> = Vec::new();
        let mut m: usize = 0;
        proof {
            assert(ms.skip(0) =~= ms);
        }
        while m < self.guid_mappings.len()
            invariant
                self.wf(),
                0 <= m <= ms.len(),
                ms == self.guid_mappings@,
                root == self.subordinate_project@,
                forall|m2: int|
                    0 <= m2 < m ==> {
                        let c = find_file(files@, joined(root, (#[trigger] ms[m2]).relative_path@));
                        c is Some && has_desc_line(c.unwrap())
                    },
                writes_view(writes@) + meta_write_list(ms.skip(m as int), files@, root)
                    == meta_write_list(ms, files@, root),
            decreases ms.len() - m,
        {
            proof {
                assert(ms.skip(m as int)[0] == ms[m as int]);
                assert(ms.skip(m as int).skip(1) =~= ms.skip(m as int + 1));
            }
            let target = join_path(&self.subordinate_project, &self.guid_mappings[m].relative_path);
            let hit = find_file_exec(files, &target);
            match hit {
                Some(ci) => {
                    let updated = MetaFile::update_guid_in_content(
                        &files[ci].content,
                        &self.guid_mappings[m].canonical_id,
                    );
                    match updated {
                        Some(out) => {
                            let ghost writes0 = writes@;
                            writes.push(FileWrite { path: target, content: out });
                            proof {
                                assert(writes@ == writes0.push(writes@[writes0.len() as int]));
                                assert(writes_view(writes@) =~= writes_view(writes0) + seq![
                                    (
                                        joined(root, ms[m as int].relative_path@),
                                        updated_content(
                                            find_file(
                                                files@,
                                                joined(root, ms[m as int].relative_path@),
                                            ).unwrap(),
                                            ms[m as int].canonical_id@,
                                        ),
                                    ),
                                ]);
                                assert(writes_view(writes@) + meta_write_list(
                                    ms.skip(m as int + 1),
                                    files@,
                                    root,
                                ) =~= meta_write_list(ms, files@, root));
                            }
                        },
                        None => {
                            return Err(SyncError::DescriptorLineMissing { path: target });
                        },
                    }
                },
                None => {
                    return Err(SyncError::DescriptorMissing { path: target });
                },
            }
            m = m + 1;
        }
        proof {
            assert(ms.skip(ms.len() as int) =~= Seq::<GuidMapping>::empty());
            assert(writes_view(writes@) + meta_write_list(
                ms.skip(ms.len() as int),
                files@,
                root,
            ) =~= writes_view(writes@));
        }
        Ok(writes)
    }

    /// Plan the reference rewrites: scan every eligible file, rewrite its
    /// replaced occurrences, and tally them in total and per entry.
    #[verifier::loop_isolation(false)]
    fn plan_reference_updates(&self, files: &Vec<ScannedFile>) -> (rp: RefPass)
        requires
            self.wf(),
            total_refs(files@, self.guid_mappings@) <= usize::MAX,
        ensures
            writes_view(rp.writes@) == ref_write_list(files@, self.guid_mappings@),
            paths_view(rp.paths@) == ref_write_list(files@, self.guid_mappings@).map_values(
                |w: (Seq<u8>, Seq<u8>)| w.0,
            ),
            rp.total as nat == total_refs(files@, self.guid_mappings@),
            rp.sums@.len() == self.guid_mappings@.len(),
            forall|m: int|
                0 <= m < self.guid_mappings@.len() ==> #[trigger] rp.sums@[m] as nat == stale_total(
                    files@,
                    self.guid_mappings@[m].stale_id@,
                ),
    {
        let ghost ms = self.guid_mappings@;
        let n = files.len();
        let mut writes: Vec<FileWrite> = Vec::new();
        let mut paths: Vec<Vec<u8>> = Vec::new();
        let mut total: usize = 0;
        let mut sums: Vec<usize> = Vec::new();
        while sums.len() < self.guid_mappings.len()
            invariant
                sums@.len() <= ms.len(),
                ms == self.guid_mappings@,
                forall|m: int| 0 <= m < sums@.len() ==> sums@[m] == 0usize,
            decreases ms.len() - sums@.len(),
        {
            sums.push(0);
        }
        let m_ext = meta_ext();
        let mut j: usize = 0;
        proof {
            assert(files@.skip(0) =~= files@);
        }
        while j < n
            invariant
                self.wf(),
                0 <= j <= n,
                n == files@.len(),
                ms == self.guid_mappings@,
                m_ext@ == crate::index::meta_ext_bytes(),
                sums@.len() == ms.len(),
                total_refs(files@, ms) <= usize::MAX,
                writes_view(writes@) + ref_write_list(files@.skip(j as int), ms) == ref_write_list(
                    files@,
                    ms,
                ),
                paths_view(paths@) == writes_view(writes@).map_values(|w: (Seq<u8>, Seq<u8>)| w.0),
                total as nat + total_refs(files@.skip(j as int), ms) == total_refs(files@, ms),
                forall|m: int|
                    0 <= m < ms.len() ==> #[trigger] sums@[m] as nat + stale_total(
                        files@.skip(j as int),
                        ms[m].stale_id@,
                    ) == stale_total(files@, ms[m].stale_id@),
            decreases n - j,
        {
            proof {
                assert(files@.skip(j as int)[0] == files@[j as int]);
                assert(files@.skip(j as int).skip(1) =~= files@.skip(j as int + 1));
            }
            let f = &files[j];
            let is_meta = has_extension(&f.path, &m_ext);
            let mut processed = false;
            if !is_meta {
                if document_marker(&f.content) {
                    processed = true;
                    let outcome = rewrite_references(&f.content, &self.guid_mappings);
                    if outcome.total > 0 {
                        let ghost writes0 = writes@;
                        let ghost paths0 = paths@;
                        writes.push(
                            FileWrite { path: clone_bytes(&f.path), content: outcome.content },
                        );
                        paths.push(clone_bytes(&f.path));
                        proof {
                            assert(writes@ == writes0.push(writes@[writes0.len() as int]));
                            assert(writes_view(writes@) =~= writes_view(writes0) + seq![
                                (files@[j as int].path@, rewritten(files@[j as int].content@, ms)),
                            ]);
                            assert(writes_view(writes@) + ref_write_list(
                                files@.skip(j as int + 1),
                                ms,
                            ) =~= ref_write_list(files@, ms));
                            assert(paths@ == paths0.push(paths@[paths0.len() as int]));
                            assert(paths_view(paths@) =~= paths_view(paths0) + seq![
                                files@[j as int].path@,
                            ]);
                            assert(writes_view(writes@).map_values(|w: (Seq<u8>, Seq<u8>)| w.0)
                                =~= writes_view(writes0).map_values(|w: (Seq<u8>, Seq<u8>)| w.0)
                                + seq![files@[j as int].path@]);
                            assert(paths_view(paths@) =~= writes_view(writes@).map_values(
                                |w: (Seq<u8>, Seq<u8>)| w.0,
                            ));
                        }
                    } else {
                        proof {
                            assert(writes_view(writes@) + ref_write_list(
                                files@.skip(j as int + 1),
                                ms,
                            ) =~= ref_write_list(files@, ms));
                        }
                    }
                    total = total + outcome.total;
                    let mut m: usize = 0;
                    let ghost sums0 = sums@;
                    while m < sums.len()
                        invariant
                            0 <= m <= sums@.len(),
                            sums@.len() == sums0.len() == ms.len() == outcome.counts@.len(),
                            forall|m2: int|
                                0 <= m2 < ms.len() ==> #[trigger] outcome.counts@[m2] as nat
                                    == stale_count(
                                    files@[j as int].content@,
                                    ms[m2].stale_id@,
                                    0,
                                ),
                            forall|m2: int|
                                0 <= m2 < ms.len() ==> #[trigger] sums0[m2] as nat + stale_total(
                                    files@.skip(j as int),
                                    ms[m2].stale_id@,
                                ) == stale_total(files@, ms[m2].stale_id@),
                            forall|m2: int|
                                0 <= m2 < m ==> #[trigger] sums@[m2] as nat == sums0[m2]
                                    + outcome.counts@[m2],
                            forall|m2: int| m <= m2 < ms.len() ==> sums@[m2] == sums0[m2],
                            eligible_ref_file(files@[j as int]),
                        decreases sums@.len() - m,
                    {
                        proof {
                            lemma_stale_total_le(files@, ms, m as int);
                            assert(stale_total(files@.skip(j as int), ms[m as int].stale_id@)
                                == stale_count(files@[j as int].content@, ms[m as int].stale_id@, 0)
                                + stale_total(files@.skip(j as int + 1), ms[m as int].stale_id@));
                            assert(sums0[m as int] as nat + stale_total(
                                files@.skip(j as int),
                                ms[m as int].stale_id@,
                            ) == stale_total(files@, ms[m as int].stale_id@));
                            assert(outcome.counts@[m as int] as nat == stale_count(
                                files@[j as int].content@,
                                ms[m as int].stale_id@,
                                0,
                            ));
                            assert(sums@[m as int] == sums0[m as int]);
                            assert(stale_total(files@, ms[m as int].stale_id@) <= total_refs(
                                files@,
                                ms,
                            ));
                            assert(total_refs(files@, ms) <= usize::MAX);
                        }
                        let c = sums[m];
                        sums.set(m, c + outcome.counts[m]);
                        m = m + 1;
                    }
                }
            }
            if !processed {
                proof {
                    assert(!eligible_ref_file(files@[j as int]));
                    assert(writes_view(writes@) + ref_write_list(files@.skip(j as int + 1), ms)
                        =~= ref_write_list(files@, ms));
                }
            }
            j = j + 1;
        }
        proof {
            assert(files@.skip(n as int) =~= Seq::<ScannedFile>::empty());
            assert(writes_view(writes@) + ref_write_list(files@.skip(n as int), ms) =~= writes_view(
                writes@,
            ));
            assert(paths_view(paths@) =~= ref_write_list(files@, ms).map_values(
                |w: (Seq<u8>, Seq<u8>)| w.0,
            ));
        }
        RefPass { writes, paths, total, sums }
    }

    /// Plan a whole run over the subordinate tree's files: every descriptor
    /// rewrite and every reference rewrite, with the run report. Succeeds
    /// exactly when every entry's descriptor is present and declares an
    /// identifier; no file is touched either way — the caller applies the
    /// writes, or none of them in simulation mode.
    #[verifier::loop_isolation(false)]
    pub fn sync_guids(&self, files: &Vec<ScannedFile>) -> (r: Result<SyncPlan, SyncError>)
        requires
            self.wf(),
            total_refs(files@, self.guid_mappings@) <= usize::MAX,
        ensures
            (r is Ok) == metas_ok(self.guid_mappings@, files@, self.subordinate_project@),
            match r {
                Ok(plan) => {
                    &&& writes_view(plan.writes@) == meta_write_list(
                        self.guid_mappings@,
                        files@,
                        self.subordinate_project@,
                    ) + ref_write_list(files@, self.guid_mappings@)
                    &&& plan.report.meta_files_changed == self.guid_mappings@.len()
                    &&& plan.report.total_references_replaced as nat == total_refs(
                        files@,
                        self.guid_mappings@,
                    )
                    &&& paths_view(plan.report.files_with_references@) == ref_write_list(
                        files@,
                        self.guid_mappings@,
                    ).map_values(|w: (Seq<u8>, Seq<u8>)| w.0)
                    &&& pairs_view(plan.report.guid_reference_counts@) == count_pairs(
                        self.guid_mappings@,
                        files@,
                    )
                },
                Err(e) => match e {
                    SyncError::DescriptorMissing { path } => exists|m: int|
                        0 <= m < self.guid_mappings@.len() && path@ == joined(
                            self.subordinate_project@,
                            (#[trigger] self.guid_mappings@[m]).relative_path@,
                        ) && find_file(files@, path@) is None,
                    SyncError::DescriptorLineMissing { path } => exists|m: int|
                        0 <= m < self.guid_mappings@.len() && path@ == joined(
                            self.subordinate_project@,
                            (#[trigger] self.guid_mappings@[m]).relative_path@,
                        ) && find_file(files@, path@) is Some && !has_desc_line(
                            find_file(files@, path@).unwrap(),
                        ),
                },
            },
    {
        let ghost ms = self.guid_mappings@;
        let planned = self.plan_descriptor_updates(files);
        match planned {
            Err(e) => Err(e),
            Ok(mut writes) => {
                let mut rp = self.plan_reference_updates(files);
                let ghost meta_writes = writes@;
                writes.append(&mut rp.writes);
                proof {
                    assert(writes_view(writes@) =~= meta_write_list(
                        ms,
                        files@,
                        self.subordinate_project@,
                    ) + ref_write_list(files@, ms));
                }
                // per-identifier tallies: entries replaced at least once
                let mut pairs: Vec<(Vec<u8>, usize)> = Vec::new();
                let mut m: usize = 0;
                proof {
                    assert(ms.skip(0) =~= ms);
                }
                while m < self.guid_mappings.len()
                    invariant
                        0 <= m <= ms.len(),
                        ms == self.guid_mappings@,
                        rp.sums@.len() == ms.len(),
                        forall|m2: int|
                            0 <= m2 < ms.len() ==> #[trigger] rp.sums@[m2] as nat == stale_total(
                                files@,
                                ms[m2].stale_id@,
                            ),
                        pairs_view(pairs@) + count_pairs(ms.skip(m as int), files@) == count_pairs(
                            ms,
                            files@,
                        ),
                    decreases ms.len() - m,
                {
                    proof {
                        assert(ms.skip(m as int)[0] == ms[m as int]);
                        assert(ms.skip(m as int).skip(1) =~= ms.skip(m as int + 1));
                    }
                    if sums_at(&rp.sums, m) > 0 {
                        let ghost pairs0 = pairs@;
                        let stale = clone_bytes(&self.guid_mappings[m].stale_id);
                        let cnt = sums_at(&rp.sums, m);
                        pairs.push((stale, cnt));
                        proof {
                            assert(pairs@ == pairs0.push(pairs@[pairs0.len() as int]));
                            assert(pairs_view(pairs@) =~= pairs_view(pairs0) + seq![
                                (ms[m as int].stale_id@, stale_total(files@, ms[m as int].stale_id@)),
                            ]);
                            assert(pairs_view(pairs@) + count_pairs(ms.skip(m as int + 1), files@)
                                =~= count_pairs(ms, files@));
                        }
                    } else {
                        proof {
                            assert(pairs_view(pairs@) + count_pairs(ms.skip(m as int + 1), files@)
                                =~= count_pairs(ms, files@));
                        }
                    }
                    m = m + 1;
                }
                proof {
                    assert(ms.skip(ms.len() as int) =~= Seq::<GuidMapping>::empty());
                    assert(pairs_view(pairs@) + count_pairs(ms.skip(ms.len() as int), files@)
                        =~= pairs_view(pairs@));
                }
                let report = SyncReport {
                    meta_files_changed: self.guid_mappings.len(),
                    files_with_references: rp.paths,
                    total_references_replaced: rp.total,
                    guid_reference_counts: pairs,
                };
                Ok(SyncPlan { writes, report })
            },
        }
    }
}

/// A run with no reconciliation entries plans no write at all and reports
/// zero replacements: right after a completed run, whose second scan
/// resolves to nothing, running again changes no file.
pub proof fn lemma_empty_run_writes_nothing(
    files: Seq<ScannedFile>,
    ms: Seq<GuidMapping>,
    sub_root: Seq<u8>,
)
    requires
        ms.len() == 0,
    ensures
        meta_write_list(ms, files, sub_root).len() == 0,
        ref_write_list(files, ms).len() == 0,
        total_refs(files, ms) == 0,
        count_pairs(ms, files).len() == 0,
    decreases files.len(),
{
    if files.len() > 0 {
        crate::refscan::lemma_rewrite_empty(files[0].content@, ms);
        lemma_empty_run_writes_nothing(files.skip(1), ms, sub_root);
    }
}

/// Read one tally out of the per-entry sums.
fn sums_at(sums: &Vec<usize>, m: usize) -> (r: usize)
    requires
        m < sums@.len(),
    ensures
        r == sums@[m as int],
{
    sums[m]
}

} // verus!
