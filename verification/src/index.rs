//! The identifier index of one tree: relative path to declared identifier,
//! built from the descriptor files found under a root.

use vstd::prelude::*;
use crate::guid::is_guid;
use crate::meta::{MetaFile, extracted_guid};
use crate::bytes::copy_range;

verus! {

/// One file of a tree, as the caller walked and read it: its path and its
/// raw content.
pub struct ScannedFile {
    pub path: Vec<u8>,
    pub content: Vec<u8>,
}

/// One index entry: a relative path and the identifier its descriptor
/// declares.
pub struct IndexEntry {
    pub relative_path: Vec<u8>,
    pub identifier: Vec<u8>,
}

/// The path ends in a dot, the given extension, and nothing more, with the
/// dot not the first byte of the file name — the cases in which the host
/// file system reports that extension.
pub open spec fn ext_matches(p: Seq<u8>, ext: Seq<u8>) -> bool {
    &&& p.len() > ext.len() + 1
    &&& p[p.len() - ext.len() - 1] == 46u8
    &&& p.subrange(p.len() - ext.len(), p.len() as int) == ext
    &&& p[p.len() - ext.len() - 2] != 47u8
}

/// Runtime test of `ext_matches`.
pub fn has_extension(p: &Vec<u8>, ext: &Vec<u8>) -> (r: bool)
    ensures
        r == ext_matches(p@, ext@),
{
    let pl = p.len();
    let el = ext.len();
    if pl < 2 || pl - 2 < el {
        return false;
    }
    if p[pl - el - 1] != 46 || p[pl - el - 2] == 47 {
        return false;
    }
    let mut k: usize = 0;
    while k < el
        invariant
            0 <= k <= el,
            pl == p@.len(),
            el == ext@.len(),
            pl >= el + 2,
            forall|x: int| 0 <= x < k ==> p@[pl - el + x] == ext@[x],
        decreases el - k,
    {
        if p[pl - el + k] != ext[k] {
            proof {
                assert(p@.subrange(pl - el, pl as int)[k as int] == p@[pl - el + k]);
            }
            return false;
        }
        k = k + 1;
    }
    proof {
        assert(p@.subrange(pl - el, pl as int) =~= ext@);
    }
    true
}

/// The bytes of the extension that marks a descriptor file.
pub fn meta_ext() -> (r: Vec<u8>)
    ensures
        r@ == meta_ext_bytes(),
{
    let mut v: Vec<u8> = Vec::new();
    v.push(109);
    v.push(101);
    v.push(116);
    v.push(97);
    proof {
        assert(v@ =~= meta_ext_bytes());
    }
    v
}

/// `meta`, the descriptor extension.
pub open spec fn meta_ext_bytes() -> Seq<u8> {
    seq![109u8, 101u8, 116u8, 97u8]
}

/// The path names a descriptor file.
pub open spec fn is_meta_path(p: Seq<u8>) -> bool {
    ext_matches(p, meta_ext_bytes())
}

/// `Library`, the reserved cache directory name.
pub open spec fn library_seg_bytes() -> Seq<u8> {
    seq![76u8, 105u8, 98u8, 114u8, 97u8, 114u8, 121u8]
}

/// Some component of the path is exactly the reserved cache directory
/// name.
pub open spec fn has_library_segment(p: Seq<u8>) -> bool {
    exists|i: int|
        {
            &&& 0 <= i
            &&& i + 7 <= p.len()
            &&& #[trigger] p.subrange(i, i + 7) == library_seg_bytes()
            &&& (i == 0 || p[i - 1] == 47u8)
            &&& (i + 7 == p.len() || p[i + 7] == 47u8)
        }
}

/// Runtime scan for a reserved cache directory component.
#[verifier::loop_isolation(false)]
pub fn library_segment(p: &Vec<u8>) -> (r: bool)
    ensures
        r == has_library_segment(p@),
{
    let n = p.len();
    if n < 7 {
        proof {
            if has_library_segment(p@) {
                let i = choose|i: int|
                    0 <= i && i + 7 <= p@.len() && #[trigger] p@.subrange(i, i + 7)
                        == library_seg_bytes() && (i == 0 || p@[i - 1] == 47u8) && (i + 7
                        == p@.len() || p@[i + 7] == 47u8);
                assert(false);
            }
        }
        return false;
    }
    let mut i: usize = 0;
    while i <= n - 7
        invariant
            0 <= i <= n,
            forall|i0: int|
                0 <= i0 < i && i0 + 7 <= p@.len() ==> !((#[trigger] p@.subrange(i0, i0 + 7)
                    == library_seg_bytes()) && (i0 == 0 || p@[i0 - 1] == 47u8) && (i0 + 7
                    == p@.len() || p@[i0 + 7] == 47u8)),
        decreases n - i,
    {
        let boundary_before = i == 0 || p[i - 1] == 47;
        let boundary_after = i + 7 == n || p[i + 7] == 47;
        if boundary_before && boundary_after {
            if p[i] == 76 && p[i + 1] == 105 && p[i + 2] == 98 && p[i + 3] == 114 && p[i + 4]
                == 97 && p[i + 5] == 114 && p[i + 6] == 121 {
                proof {
                    assert(p@.subrange(i as int, i as int + 7) =~= library_seg_bytes());
                }
                return true;
            }
            proof {
                if p@.subrange(i as int, i as int + 7) == library_seg_bytes() {
                    assert(p@[i as int] == p@.subrange(i as int, i as int + 7)[0]);
                    assert(p@[i as int + 1] == p@.subrange(i as int, i as int + 7)[1]);
                    assert(p@[i as int + 2] == p@.subrange(i as int, i as int + 7)[2]);
                    assert(p@[i as int + 3] == p@.subrange(i as int, i as int + 7)[3]);
                    assert(p@[i as int + 4] == p@.subrange(i as int, i as int + 7)[4]);
                    assert(p@[i as int + 5] == p@.subrange(i as int, i as int + 7)[5]);
                    assert(p@[i as int + 6] == p@.subrange(i as int, i as int + 7)[6]);
                    assert(false);
                }
            }
        }
        i = i + 1;
    }
    proof {
        if has_library_segment(p@) {
            let i0 = choose|i0: int|
                0 <= i0 && i0 + 7 <= p@.len() && #[trigger] p@.subrange(i0, i0 + 7)
                    == library_seg_bytes() && (i0 == 0 || p@[i0 - 1] == 47u8) && (i0 + 7
                    == p@.len() || p@[i0 + 7] == 47u8);
            assert(false);
        }
    }
    false
}

/// The root as a directory prefix: with a trailing separator, unless it
/// already ends in one or is empty.
pub open spec fn root_prefix(root: Seq<u8>) -> Seq<u8> {
    if root.len() == 0 || root[root.len() - 1] == 47u8 {
        root
    } else {
        root + seq![47u8]
    }
}

/// The path lies under the root.
pub open spec fn under_root(p: Seq<u8>, root: Seq<u8>) -> bool {
    p.len() > root_prefix(root).len() && p.subrange(0, root_prefix(root).len() as int)
        == root_prefix(root)
}

/// The path relative to the root: the bytes past the root prefix.
pub open spec fn rel_path(p: Seq<u8>, root: Seq<u8>) -> Seq<u8> {
    p.skip(root_prefix(root).len() as int)
}

/// Two distinct paths under one root have distinct relative paths.
pub proof fn lemma_rel_path_injective(p1: Seq<u8>, p2: Seq<u8>, root: Seq<u8>)
    requires
        under_root(p1, root),
        under_root(p2, root),
        rel_path(p1, root) == rel_path(p2, root),
    ensures
        p1 == p2,
{
    let pl = root_prefix(root).len() as int;
    assert(rel_path(p1, root).len() == p1.len() - pl);
    assert(rel_path(p2, root).len() == p2.len() - pl);
    assert(p1.len() == p2.len());
    assert forall|k: int| 0 <= k < p1.len() implies p1[k] == p2[k] by {
        if k < pl {
            assert(p1.subrange(0, pl)[k] == p1[k]);
            assert(p2.subrange(0, pl)[k] == p2[k]);
        } else {
            assert(rel_path(p1, root)[k - pl] == p1[k]);
            assert(rel_path(p2, root)[k - pl] == p2[k]);
        }
    }
    assert(p1 =~= p2);
}

/// The root as a runtime directory prefix.
pub fn root_prefix_exec(root: &Vec<u8>) -> (r: Vec<u8>)
    ensures
        r@ == root_prefix(root@),
{
    let mut r = copy_range(root, 0, root.len());
    if root.len() == 0 || root[root.len() - 1] == 47 {
        proof {
            assert(r@ =~= root_prefix(root@));
        }
        r
    } else {
        r.push(47);
        proof {
            assert(r@ =~= root_prefix(root@));
        }
        r
    }
}

/// Test whether `p` lies under the root, and hand back its relative path
/// when it does.
pub fn strip_root(p: &Vec<u8>, root: &Vec<u8>) -> (r: Option<Vec<u8>>)
    ensures
        match r {
            Some(rel) => under_root(p@, root@) && rel@ == rel_path(p@, root@),
            None => !under_root(p@, root@),
        },
{
    let prefix = root_prefix_exec(root);
    let pl = prefix.len();
    if p.len() <= pl {
        return None;
    }
    let mut k: usize = 0;
    while k < pl
        invariant
            0 <= k <= pl,
            pl == root_prefix(root@).len(),
            pl < p@.len(),
            prefix@ == root_prefix(root@),
            forall|x: int| 0 <= x < k ==> p@[x] == root_prefix(root@)[x],
        decreases pl - k,
    {
        if p[k] != prefix[k] {
            proof {
                if under_root(p@, root@) {
                    assert(p@.subrange(0, pl as int)[k as int] == p@[k as int]);
                }
            }
            return None;
        }
        k = k + 1;
    }
    proof {
        assert(p@.subrange(0, pl as int) =~= root_prefix(root@));
    }
    Some(copy_range(p, pl, p.len()))
}

/// A file whose descriptor declaration belongs in the index: a descriptor
/// path under the root with no reserved cache component, declaring `g` at
/// relative path `p`.
#[verifier::opaque]
pub open spec fn file_entry(f: ScannedFile, root: Seq<u8>, p: Seq<u8>, g: Seq<u8>) -> bool {
    &&& is_meta_path(f.path@)
    &&& !has_library_segment(f.path@)
    &&& under_root(f.path@, root)
    &&& rel_path(f.path@, root) == p
    &&& extracted_guid(f.content@) == Some(g)
}

/// The index holds identifier `g` at relative path `p`.
pub open spec fn index_has(idx: Seq<IndexEntry>, p: Seq<u8>, g: Seq<u8>) -> bool {
    exists|k: int|
        0 <= k < idx.len() && (#[trigger] idx[k]).relative_path@ == p && idx[k].identifier@ == g
}

/// No two entries share a relative path.
pub open spec fn paths_unique(idx: Seq<IndexEntry>) -> bool {
    forall|k1: int, k2: int|
        0 <= k1 < k2 < idx.len() ==> (#[trigger] idx[k1]).relative_path@ != (
        #[trigger] idx[k2]).relative_path@
}

/// Every entry's identifier is well-formed.
pub open spec fn ids_wf(idx: Seq<IndexEntry>) -> bool {
    forall|k: int| 0 <= k < idx.len() ==> is_guid((#[trigger] idx[k]).identifier@)
}

/// The input files have pairwise distinct paths, as one walk of one tree
/// yields them.
pub open spec fn distinct_paths(files: Seq<ScannedFile>) -> bool {
    forall|j1: int, j2: int|
        0 <= j1 < j2 < files.len() ==> (#[trigger] files[j1]).path@ != (#[trigger] files[j2]).path@
}

proof fn lemma_index_has_push(idx: Seq<IndexEntry>, e: IndexEntry, p: Seq<u8>, g: Seq<u8>)
    ensures
        index_has(idx.push(e), p, g) <==> (index_has(idx, p, g) || (e.relative_path@ == p
            && e.identifier@ == g)),
{
    if index_has(idx.push(e), p, g) {
        let k = choose|k: int|
            0 <= k < idx.push(e).len() && (#[trigger] idx.push(e)[k]).relative_path@ == p
                && idx.push(e)[k].identifier@ == g;
        if k < idx.len() {
            assert(idx.push(e)[k] == idx[k]);
            assert(index_has(idx, p, g));
        } else {
            assert(idx.push(e)[k] == e);
        }
    }
    if index_has(idx, p, g) {
        let k = choose|k: int|
            0 <= k < idx.len() && (#[trigger] idx[k]).relative_path@ == p && idx[k].identifier@
                == g;
        assert(idx.push(e)[k] == idx[k]);
        assert(index_has(idx.push(e), p, g));
    }
    if e.relative_path@ == p && e.identifier@ == g {
        assert(idx.push(e)[idx.len() as int] == e);
        assert(index_has(idx.push(e), p, g));
    }
}

/// The index characterization over the first `j` files.
pub open spec fn index_of_prefix(
    idx: Seq<IndexEntry>,
    files: Seq<ScannedFile>,
    root: Seq<u8>,
    j: int,
) -> bool {
    forall|p: Seq<u8>, g: Seq<u8>|
        #[trigger] index_has(idx, p, g) <==> exists|j2: int|
            0 <= j2 < j && file_entry(#[trigger] files[j2], root, p, g)
}

proof fn lemma_index_step_added(
    idx0: Seq<IndexEntry>,
    entry: IndexEntry,
    files: Seq<ScannedFile>,
    root: Seq<u8>,
    j: int,
)
    requires
        0 <= j < files.len(),
        distinct_paths(files),
        paths_unique(idx0),
        index_of_prefix(idx0, files, root, j),
        file_entry(files[j], root, entry.relative_path@, entry.identifier@),
    ensures
        index_of_prefix(idx0.push(entry), files, root, j + 1),
        paths_unique(idx0.push(entry)),
{
    // the new relative path is in no earlier entry
    assert forall|g2: Seq<u8>| !index_has(idx0, entry.relative_path@, g2) by {
        if index_has(idx0, entry.relative_path@, g2) {
            let j2 = choose|j2: int|
                0 <= j2 < j && file_entry(#[trigger] files[j2], root, entry.relative_path@, g2);
            reveal(file_entry);
            lemma_rel_path_injective(files[j2].path@, files[j].path@, root);
            assert(false);
        }
    }
    assert forall|p: Seq<u8>, g2: Seq<u8>|
        #[trigger] index_has(idx0.push(entry), p, g2) <==> exists|j2: int|
            0 <= j2 < j + 1 && file_entry(#[trigger] files[j2], root, p, g2) by {
        lemma_index_has_push(idx0, entry, p, g2);
        if entry.relative_path@ == p && entry.identifier@ == g2 {
            assert(file_entry(files[j], root, p, g2));
        }
        if index_has(idx0, p, g2) {
            let j2 = choose|j2: int| 0 <= j2 < j && file_entry(#[trigger] files[j2], root, p, g2);
            assert(0 <= j2 < j + 1 && file_entry(files[j2], root, p, g2));
        }
        if exists|j2: int| 0 <= j2 < j + 1 && file_entry(#[trigger] files[j2], root, p, g2) {
            let j2 = choose|j2: int|
                0 <= j2 < j + 1 && file_entry(#[trigger] files[j2], root, p, g2);
            if j2 == j {
                reveal(file_entry);
                assert(entry.relative_path@ == p && entry.identifier@ == g2);
            }
        }
    }
    assert forall|k1: int, k2: int| 0 <= k1 < k2 < idx0.push(entry).len() implies (
    #[trigger] idx0.push(entry)[k1]).relative_path@ != (
    #[trigger] idx0.push(entry)[k2]).relative_path@ by {
        if k2 == idx0.len() {
            assert(idx0.push(entry)[k2] == entry);
            assert(idx0.push(entry)[k1] == idx0[k1]);
            if idx0[k1].relative_path@ == entry.relative_path@ {
                assert(index_has(idx0, entry.relative_path@, idx0[k1].identifier@));
                assert(false);
            }
        } else {
            assert(idx0.push(entry)[k1] == idx0[k1]);
            assert(idx0.push(entry)[k2] == idx0[k2]);
        }
    }
}

proof fn lemma_index_step_skipped(
    idx: Seq<IndexEntry>,
    files: Seq<ScannedFile>,
    root: Seq<u8>,
    j: int,
)
    requires
        0 <= j < files.len(),
        index_of_prefix(idx, files, root, j),
        forall|p: Seq<u8>, g: Seq<u8>| !file_entry(files[j], root, p, g),
    ensures
        index_of_prefix(idx, files, root, j + 1),
{
    assert forall|p: Seq<u8>, g2: Seq<u8>|
        #[trigger] index_has(idx, p, g2) <==> exists|j2: int|
            0 <= j2 < j + 1 && file_entry(#[trigger] files[j2], root, p, g2) by {
        if index_has(idx, p, g2) {
            let j2 = choose|j2: int| 0 <= j2 < j && file_entry(#[trigger] files[j2], root, p, g2);
            assert(0 <= j2 < j + 1 && file_entry(files[j2], root, p, g2));
        }
        if exists|j2: int| 0 <= j2 < j + 1 && file_entry(#[trigger] files[j2], root, p, g2) {
            let j2 = choose|j2: int|
                0 <= j2 < j + 1 && file_entry(#[trigger] files[j2], root, p, g2);
            if j2 == j {
                assert(!file_entry(files[j2], root, p, g2));
                assert(false);
            }
        }
    }
}

/// Build the identifier index of one tree from its walked files: every
/// eligible descriptor contributes its relative path and identifier, and
/// nothing else enters the index.
#[verifier::loop_isolation(false)]
pub fn build_index(root: &Vec<u8>, files: &Vec<ScannedFile>) -> (idx: Vec<IndexEntry>)
    requires
        distinct_paths(files@),
    ensures
        index_of_prefix(idx@, files@, root@, files@.len() as int),
        paths_unique(idx@),
        ids_wf(idx@),
{
    let n = files.len();
    let mut idx: Vec<IndexEntry> = Vec::new();
    let m_ext = meta_ext();
    let mut j: usize = 0;
    while j < n
        invariant
            0 <= j <= n,
            index_of_prefix(idx@, files@, root@, j as int),
            paths_unique(idx@),
            ids_wf(idx@),
        decreases n - j,
    {
        let f = &files[j];
        let is_meta = has_extension(&f.path, &m_ext);
        let in_library = library_segment(&f.path);
        let mut added = false;
        if is_meta && !in_library {
            let stripped = strip_root(&f.path, root);
            match stripped {
                Some(rel) => {
                    let extracted = MetaFile::get_guid_from_content(&f.content);
                    match extracted {
                        Some(g) => {
                            let ghost idx0 = idx@;
                            let entry = IndexEntry { relative_path: rel, identifier: g };
                            proof {
                                assert(file_entry(
                                    files@[j as int],
                                    root@,
                                    entry.relative_path@,
                                    entry.identifier@,
                                )) by {
                                    reveal(file_entry);
                                }
                                lemma_index_step_added(idx0, entry, files@, root@, j as int);
                            }
                            idx.push(entry);
                            added = true;
                            proof {
                                assert(idx@ == idx0.push(entry));
                            }
                        },
                        None => {
                            proof {
                                crate::meta::lemma_extracted_none(files@[j as int].content@);
                                assert forall|p: Seq<u8>, g: Seq<u8>|
                                    !file_entry(files@[j as int], root@, p, g) by {
                                    reveal(file_entry);
                                }
                            }
                        },
                    }
                },
                None => {
                    proof {
                        assert forall|p: Seq<u8>, g: Seq<u8>|
                            !file_entry(files@[j as int], root@, p, g) by {
                            reveal(file_entry);
                        }
                    }
                },
            }
        } else {
            proof {
                assert forall|p: Seq<u8>, g: Seq<u8>|
                    !file_entry(files@[j as int], root@, p, g) by {
                    reveal(file_entry);
                }
            }
        }
        if !added {
            proof {
                lemma_index_step_skipped(idx@, files@, root@, j as int);
            }
        }
        j = j + 1;
    }
    idx
}

} // verus!
