use guid_sync::index::ScannedFile;
use guid_sync::meta::MetaFile;
use guid_sync::refscan::{rewrite_references, document_marker, count_stale};
use guid_sync::mapping::GuidMapping;
use guid_sync::syncer::{GuidSyncer, SyncError};

fn sf(path: &str, content: &[u8]) -> ScannedFile {
    ScannedFile { path: path.as_bytes().to_vec(), content: content.to_vec() }
}

fn g1() -> Vec<u8> {
    vec![b'1'; 32]
}

fn g2() -> Vec<u8> {
    vec![b'2'; 32]
}

fn mapping(path: &str, canonical: Vec<u8>, stale: Vec<u8>) -> GuidMapping {
    GuidMapping {
        relative_path: path.as_bytes().to_vec(),
        canonical_id: canonical,
        stale_id: stale,
    }
}

fn meta_content(guid: &[u8]) -> Vec<u8> {
    let mut c = b"fileFormatVersion: 2\nguid: ".to_vec();
    c.extend_from_slice(guid);
    c.push(b'\n');
    c
}

fn ref_file_content(guid: &[u8]) -> Vec<u8> {
    let mut c = b"%YAML 1.1\n--- !u!1 &1\nGameObject:\n  texture: {fileID: 2800000, guid: ".to_vec();
    c.extend_from_slice(guid);
    c.extend_from_slice(b", type: 3}\n  other:\n    guid: ");
    c.extend_from_slice(guid);
    c.extend_from_slice(b"\n    more: guid: ");
    c.extend_from_slice(guid);
    c.push(b'\n');
    c
}

#[test]
fn extracts_unquoted_guid() {
    let content = meta_content(&g1());
    let got = MetaFile::get_guid_from_content(&content).unwrap();
    assert_eq!(got, g1());
}

#[test]
fn extracts_quoted_guid() {
    let content = b"guid: '11111111111111111111111111111111'\n".to_vec();
    let got = MetaFile::get_guid_from_content(&content).unwrap();
    assert_eq!(got, g1());
}

#[test]
fn rejects_descriptor_without_guid_line() {
    let content = b"fileFormatVersion: 2\nfolderAsset: yes\n".to_vec();
    assert!(MetaFile::get_guid_from_content(&content).is_none());
}

#[test]
fn rejects_short_hex_token() {
    let content = b"guid: 1111\n".to_vec();
    assert!(MetaFile::get_guid_from_content(&content).is_none());
}

#[test]
fn descriptor_round_trip_returns_new_guid() {
    let content = meta_content(&g2());
    let updated = MetaFile::update_guid_in_content(&content, &g1()).unwrap();
    let got = MetaFile::get_guid_from_content(&updated).unwrap();
    assert_eq!(got, g1());
}

#[test]
fn quoted_descriptor_stays_quoted() {
    let content = b"guid: \"22222222222222222222222222222222\"\n".to_vec();
    let updated = MetaFile::update_guid_in_content(&content, &g1()).unwrap();
    assert_eq!(updated, b"guid: \"11111111111111111111111111111111\"\n".to_vec());
}

#[test]
fn unquoted_descriptor_stays_unquoted() {
    let content = meta_content(&g2());
    let updated = MetaFile::update_guid_in_content(&content, &g1()).unwrap();
    assert_eq!(updated, meta_content(&g1()));
}

#[test]
fn missing_final_newline_is_kept_missing() {
    let content = b"guid: 22222222222222222222222222222222".to_vec();
    let updated = MetaFile::update_guid_in_content(&content, &g1()).unwrap();
    assert_eq!(updated, b"guid: 11111111111111111111111111111111".to_vec());
}

#[test]
fn final_newline_is_kept() {
    let content = b"guid: 22222222222222222222222222222222\n".to_vec();
    let updated = MetaFile::update_guid_in_content(&content, &g1()).unwrap();
    assert_eq!(*updated.last().unwrap(), b'\n');
    assert_eq!(updated.len(), content.len());
}

#[test]
fn update_preserves_unrelated_bytes() {
    let content = meta_content(&g2());
    let updated = MetaFile::update_guid_in_content(&content, &g1()).unwrap();
    assert_eq!(updated.len(), content.len());
    for (k, (a, b)) in content.iter().zip(updated.iter()).enumerate() {
        if !(27..27 + 32).contains(&k) {
            assert_eq!(a, b, "byte {} changed", k);
        }
    }
}

#[test]
fn rewrite_replaces_every_occurrence_once() {
    let content = ref_file_content(&g2());
    let ms = vec![mapping("Textures/a.png.meta", g1(), g2())];
    let outcome = rewrite_references(&content, &ms);
    assert_eq!(outcome.total, 3);
    assert_eq!(outcome.counts, vec![3]);
    assert_eq!(outcome.content, ref_file_content(&g1()));
}

#[test]
fn rewrite_preserves_unrelated_bytes() {
    let content = ref_file_content(&g2());
    let ms = vec![mapping("Textures/a.png.meta", g1(), g2())];
    let outcome = rewrite_references(&content, &ms);
    assert_eq!(outcome.content.len(), content.len());
    for (a, b) in content.iter().zip(outcome.content.iter()) {
        if *a != b'2' {
            assert_eq!(a, b);
        }
    }
}

#[test]
fn rewrite_without_whitespace_after_marker() {
    let mut content = b"---\nguid:".to_vec();
    content.extend_from_slice(&g2());
    let ms = vec![mapping("x.meta", g1(), g2())];
    let outcome = rewrite_references(&content, &ms);
    assert_eq!(outcome.total, 1);
    let mut expected = b"---\nguid:".to_vec();
    expected.extend_from_slice(&g1());
    assert_eq!(outcome.content, expected);
}

#[test]
fn rewrite_leaves_unknown_guids_alone() {
    let content = ref_file_content(&g1());
    let ms = vec![mapping("x.meta", g1(), g2())];
    let outcome = rewrite_references(&content, &ms);
    assert_eq!(outcome.total, 0);
    assert_eq!(outcome.content, content);
}

#[test]
fn count_stale_counts_exactly() {
    let content = ref_file_content(&g2());
    assert_eq!(count_stale(&content, &g2()), 3);
    assert_eq!(count_stale(&content, &g1()), 0);
}

#[test]
fn marker_heuristic() {
    assert!(document_marker(&b"%YAML 1.1\nrest".to_vec()));
    assert!(document_marker(&b"--- header\n".to_vec()));
    assert!(!document_marker(&b"plain text with guid: inside".to_vec()));
    assert!(!document_marker(&b"".to_vec()));
}

#[test]
fn scan_finds_difference_only_on_shared_paths_with_differing_ids() {
    let main_files = vec![
        sf("main/Textures/a.png.meta", &meta_content(&g1())),
        sf("main/Textures/same.png.meta", &meta_content(&g1())),
        sf("main/OnlyMain/b.png.meta", &meta_content(&g1())),
    ];
    let sub_files = vec![
        sf("sub/Textures/a.png.meta", &meta_content(&g2())),
        sf("sub/Textures/same.png.meta", &meta_content(&g1())),
        sf("sub/OnlySub/c.png.meta", &meta_content(&g2())),
    ];
    let mut syncer = GuidSyncer::new(b"main".to_vec(), b"sub".to_vec());
    syncer.scan_projects(&main_files, &sub_files);
    // equal identifiers and unshared paths produce no entry
    assert_eq!(syncer.get_difference_count(), 1);
    assert_eq!(syncer.guid_mappings[0].relative_path, b"Textures/a.png.meta".to_vec());
    assert_eq!(syncer.guid_mappings[0].canonical_id, g1());
    assert_eq!(syncer.guid_mappings[0].stale_id, g2());
}

#[test]
fn scan_skips_cache_directory_and_non_descriptors() {
    let main_files = vec![
        sf("main/Library/a.png.meta", &meta_content(&g1())),
        sf("main/notes.txt", &meta_content(&g1())),
    ];
    let sub_files = vec![
        sf("sub/Library/a.png.meta", &meta_content(&g2())),
        sf("sub/notes.txt", &meta_content(&g2())),
    ];
    let mut syncer = GuidSyncer::new(b"main".to_vec(), b"sub".to_vec());
    syncer.scan_projects(&main_files, &sub_files);
    assert_eq!(syncer.get_difference_count(), 0);
}

fn scenario_syncer() -> (GuidSyncer, Vec<ScannedFile>) {
    let main_files = vec![sf("main/Textures/a.png.meta", &meta_content(&g1()))];
    let sub_files = vec![
        sf("sub/Textures/a.png.meta", &meta_content(&g2())),
        sf("sub/Scenes/s.unity", &ref_file_content(&g2())),
        sf("sub/notes.txt", b"no marker but guid: 22222222222222222222222222222222"),
    ];
    let mut syncer = GuidSyncer::new(b"main".to_vec(), b"sub".to_vec());
    syncer.scan_projects(&main_files, &sub_files);
    (syncer, sub_files)
}

#[test]
fn full_sync_scenario() {
    let (syncer, sub_files) = scenario_syncer();
    assert_eq!(syncer.get_difference_count(), 1);
    let plan = syncer.sync_guids(&sub_files).unwrap();
    // one descriptor write and one reference write
    assert_eq!(plan.writes.len(), 2);
    assert_eq!(plan.writes[0].path, b"sub/Textures/a.png.meta".to_vec());
    assert_eq!(plan.writes[0].content, meta_content(&g1()));
    assert_eq!(plan.writes[1].path, b"sub/Scenes/s.unity".to_vec());
    assert_eq!(plan.writes[1].content, ref_file_content(&g1()));
    // the report counts all three occurrences once each
    assert_eq!(plan.report.meta_files_changed, 1);
    assert_eq!(plan.report.total_references_replaced, 3);
    assert_eq!(plan.report.files_with_references, vec![b"sub/Scenes/s.unity".to_vec()]);
    assert_eq!(plan.report.guid_reference_counts, vec![(g2(), 3usize)]);
}

#[test]
fn file_without_marker_is_left_unmodified() {
    let (syncer, sub_files) = scenario_syncer();
    let plan = syncer.sync_guids(&sub_files).unwrap();
    for w in &plan.writes {
        assert_ne!(w.path, b"sub/notes.txt".to_vec());
    }
}

#[test]
fn second_run_is_a_no_op() {
    let (syncer, sub_files) = scenario_syncer();
    let plan = syncer.sync_guids(&sub_files).unwrap();
    // apply the writes in memory
    let mut synced: Vec<ScannedFile> = Vec::new();
    for f in &sub_files {
        let mut content = f.content.clone();
        for w in &plan.writes {
            if w.path == f.path {
                content = w.content.clone();
            }
        }
        synced.push(ScannedFile { path: f.path.clone(), content });
    }
    let main_files = vec![sf("main/Textures/a.png.meta", &meta_content(&g1()))];
    let mut second = GuidSyncer::new(b"main".to_vec(), b"sub".to_vec());
    second.scan_projects(&main_files, &synced);
    assert_eq!(second.get_difference_count(), 0);
    let plan2 = second.sync_guids(&synced).unwrap();
    assert_eq!(plan2.writes.len(), 0);
    assert_eq!(plan2.report.total_references_replaced, 0);
}

#[test]
fn synced_tree_indexes_like_canonical() {
    let (syncer, sub_files) = scenario_syncer();
    let plan = syncer.sync_guids(&sub_files).unwrap();
    let synced_meta = &plan.writes[0].content;
    assert_eq!(MetaFile::get_guid_from_content(synced_meta).unwrap(), g1());
}

#[test]
fn sync_fails_when_descriptor_is_absent() {
    let (syncer, _) = scenario_syncer();
    let files = vec![sf("sub/Scenes/s.unity", &ref_file_content(&g2()))];
    match syncer.sync_guids(&files) {
        Err(SyncError::DescriptorMissing { path }) => {
            assert_eq!(path, b"sub/Textures/a.png.meta".to_vec());
        },
        _ => panic!("expected a missing-descriptor error"),
    }
}

#[test]
fn sync_fails_when_descriptor_lost_its_line() {
    let (syncer, _) = scenario_syncer();
    let files = vec![sf("sub/Textures/a.png.meta", b"fileFormatVersion: 2\n")];
    match syncer.sync_guids(&files) {
        Err(SyncError::DescriptorLineMissing { path }) => {
            assert_eq!(path, b"sub/Textures/a.png.meta".to_vec());
        },
        _ => panic!("expected a missing-line error"),
    }
}

#[test]
fn empty_mapping_sync_succeeds_with_no_writes() {
    let syncer = GuidSyncer::new(b"main".to_vec(), b"sub".to_vec());
    let files = vec![sf("sub/Scenes/s.unity", &ref_file_content(&g2()))];
    let plan = syncer.sync_guids(&files).unwrap();
    assert_eq!(plan.writes.len(), 0);
    assert_eq!(plan.report.meta_files_changed, 0);
    assert_eq!(plan.report.total_references_replaced, 0);
}
