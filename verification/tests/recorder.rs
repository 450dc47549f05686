use luci::recorder::{KeyRecord, RecordLog};

#[test]
fn dump_indents_by_depth_and_skips_repeated_leaves() {
    let mut log = RecordLog::new();
    let root = log.recorder(0);
    let bind = log.write(root, 1, "process Bind".to_string());
    log.write(bind, 2, "fired X".to_string());
    log.write(bind, 3, "fired X".to_string());
    log.write(root, 4, "process Send".to_string());
    assert_eq!(log.dump(), "ROOT: KeyRecord(1v1)\nROOT\n process Bind\n  fired X\n process Send\n");
}

#[test]
fn an_empty_tree_after_another_shows_only_its_header() {
    let mut log = RecordLog::new();
    log.recorder(0);
    log.recorder(1);
    assert_eq!(log.dump(), "ROOT: KeyRecord(1v1)\nROOT\nROOT: KeyRecord(2v1)\n");
}

#[test]
fn a_repeated_record_with_records_under_it_is_kept() {
    let mut log = RecordLog::new();
    let root = log.recorder(0);
    let a = log.write(root, 1, "step".to_string());
    let b = log.write(a, 2, "step".to_string());
    log.write(b, 3, "leaf".to_string());
    assert_eq!(log.dump(), "ROOT: KeyRecord(1v1)\nROOT\n step\n  step\n   leaf\n");
}

#[test]
fn an_empty_log_dumps_nothing() {
    assert_eq!(RecordLog::new().dump(), "");
}

#[test]
fn each_record_follows_the_one_written_before_it_under_the_same_record() {
    let mut log = RecordLog::new();
    let root = log.recorder(0);
    let a = log.write(root, 1, "a".to_string());
    let b = log.write(root, 2, "b".to_string());
    let a1 = log.write(a, 3, "a1".to_string());
    let a2 = log.write(a, 4, "a2".to_string());
    assert_eq!(log.record(root).previous, None);
    assert_eq!(log.record(a).previous, Some(root.0));
    assert_eq!(log.record(b).previous, Some(a.0));
    assert_eq!(log.record(a1).previous, None);
    assert_eq!(log.record(a2).previous, Some(a1.0));
    assert_eq!(log.record(a2).parent, Some(a.0));
    assert_eq!(log.record(a).children, vec![a1.0, a2.0]);
    assert_eq!(b, KeyRecord(2));
}
