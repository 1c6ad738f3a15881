use guid_sync::index::ScannedFile;
use guid_sync::syncer::GuidSyncer;

fn sf(path: &str, content: &[u8]) -> ScannedFile {
    ScannedFile { path: path.as_bytes().to_vec(), content: content.to_vec() }
}

fn guid(b: u8) -> Vec<u8> {
    vec![b; 32]
}

fn meta_content(g: &[u8]) -> Vec<u8> {
    let mut c = b"fileFormatVersion: 2\nguid: ".to_vec();
    c.extend_from_slice(g);
    c.push(b'\n');
    c
}

fn ref_line(g: &[u8]) -> Vec<u8> {
    let mut c = b"ref: {fileID: 100, guid: ".to_vec();
    c.extend_from_slice(g);
    c.extend_from_slice(b", type: 2}\n");
    c
}

fn doc_with(g: &[u8], occurrences: usize) -> Vec<u8> {
    let mut c = b"%YAML 1.1\n".to_vec();
    for _ in 0..occurrences {
        c.extend_from_slice(&ref_line(g));
    }
    c
}

fn two_asset_setup() -> (GuidSyncer, Vec<ScannedFile>) {
    let main_files = vec![
        sf("main/Assets/a.png.meta", &meta_content(&guid(b'1'))),
        sf("main/Assets/b.png.meta", &meta_content(&guid(b'3'))),
    ];
    let mut both = doc_with(&guid(b'4'), 2);
    both.extend_from_slice(&ref_line(&guid(b'2')));
    let mut sub_files = vec![
        sf("sub/Assets/a.png.meta", &meta_content(&guid(b'2'))),
        sf("sub/Assets/b.png.meta", &meta_content(&guid(b'4'))),
        // `b` is referenced more often than `a`
        sf("sub/Scenes/one.unity", &doc_with(&guid(b'2'), 1)),
        sf("sub/Scenes/two.prefab", &doc_with(&guid(b'4'), 5)),
        sf("sub/Scenes/both.asset", &both),
    ];
    // a file without a recognized extension is not part of the report
    sub_files.push(sf("sub/Scenes/ignored.txt", &doc_with(&guid(b'2'), 7)));
    let mut syncer = GuidSyncer::new(b"main".to_vec(), b"sub".to_vec());
    syncer.scan_projects(&main_files, &sub_files);
    (syncer, sub_files)
}

#[test]
fn operations_are_ordered_by_reference_volume() {
    let (syncer, sub_files) = two_asset_setup();
    let report = syncer.generate_sync_operations_report(&sub_files);
    assert_eq!(report.operations.len(), 2);
    // the asset with 7 references comes before the one with 2
    assert_eq!(report.operations[0].old_guid, guid(b'4'));
    assert_eq!(report.operations[0].total_references, 7);
    assert_eq!(report.operations[1].old_guid, guid(b'2'));
    assert_eq!(report.operations[1].total_references, 2);
}

#[test]
fn operation_fields_carry_the_swap() {
    let (syncer, sub_files) = two_asset_setup();
    let report = syncer.generate_sync_operations_report(&sub_files);
    let op = &report.operations[1];
    assert_eq!(op.new_guid, guid(b'1'));
    assert_eq!(op.asset_path, b"Assets/a.png.meta".to_vec());
    assert_eq!(op.asset_name, b"a.png".to_vec());
    assert_eq!(op.meta_file_update.path, b"Assets/a.png.meta".to_vec());
    assert_eq!(op.reference_updates.len(), 2);
    assert_eq!(op.reference_updates[0].file_path, b"Scenes/one.unity".to_vec());
    assert_eq!(op.reference_updates[0].file_type, b"unity".to_vec());
    assert_eq!(op.reference_updates[0].reference_count, 1);
    assert_eq!(op.reference_updates[1].file_path, b"Scenes/both.asset".to_vec());
    assert_eq!(op.reference_updates[1].file_type, b"asset".to_vec());
    assert_eq!(op.reference_updates[1].reference_count, 1);
}

#[test]
fn summary_counts_are_exact() {
    let (syncer, sub_files) = two_asset_setup();
    let report = syncer.generate_sync_operations_report(&sub_files);
    assert_eq!(report.summary.total_guid_differences, 2);
    assert_eq!(report.summary.total_meta_files_to_update, 2);
    // one.unity, two.prefab and both.asset hold references
    assert_eq!(report.summary.total_files_with_references, 3);
    assert_eq!(report.summary.total_reference_updates, 9);
}

#[test]
fn empty_report_for_agreeing_trees() {
    let main_files = vec![sf("main/Assets/a.png.meta", &meta_content(&guid(b'1')))];
    let sub_files = vec![sf("sub/Assets/a.png.meta", &meta_content(&guid(b'1')))];
    let mut syncer = GuidSyncer::new(b"main".to_vec(), b"sub".to_vec());
    syncer.scan_projects(&main_files, &sub_files);
    let report = syncer.generate_sync_operations_report(&sub_files);
    assert_eq!(report.operations.len(), 0);
    assert_eq!(report.summary.total_guid_differences, 0);
    assert_eq!(report.summary.total_files_with_references, 0);
    assert_eq!(report.summary.total_reference_updates, 0);
}
