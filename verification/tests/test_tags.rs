use syslog_viewer::tags::{DataBoard, TagsData};

#[test]
fn test_tags_data() {
    let mut db = DataBoard::default();
    db.update_tag(b"test1");
    db.update_tag(b"test2");
    db.update_tag(b"test3");

    let mut true_tags: Vec<(Vec<u8>, bool)> = Vec::new();
    true_tags.push((b"test1".to_vec(), true));
    true_tags.push((b"test2".to_vec(), true));
    true_tags.push((b"test3".to_vec(), true));

    assert_eq!(db.get_tags().all(), &true_tags);
    assert_eq!(db.get_tags().get(b"test2"), true);

    db.get_tags_mut().unset(b"test3");
    assert_eq!(db.get_tags().get(b"test3"), false);
    db.get_tags_mut().set(b"test3");
    assert_eq!(db.get_tags().get(b"test3"), true);
    db.get_tags_mut().toggle(b"test3");
    assert_eq!(db.get_tags().get(b"test3"), false);
    db.get_tags_mut().toggle(b"test3");
    assert_eq!(db.get_tags().get(b"test3"), true);
}

#[test]
fn test_unknown_tags_are_not_recorded_by_set() {
    let mut tags = TagsData::new();
    tags.set(b"ghost");
    assert!(!tags.contains(b"ghost"));
    assert_eq!(tags.get(b"ghost"), false);
    tags.insert_new(b"real");
    assert!(tags.contains(b"real"));
    assert_eq!(tags.get(b"real"), true);
}

#[test]
fn test_version_and_updated() {
    let mut tags = TagsData::new();
    assert_eq!(tags.get_version(), 0);
    tags.update_version();
    tags.update_version();
    assert_eq!(tags.get_version(), 2);

    tags.insert_new(b"a");
    tags.insert_new(b"b");
    tags.insert_new(b"a");
    let updated = tags.take_updated();
    assert_eq!(updated, vec![b"a".to_vec(), b"b".to_vec()]);
    let drained = tags.take_updated();
    assert!(drained.is_empty());
    // Re-announcing an already known tag queues it again exactly once.
    tags.insert_new(b"a");
    assert_eq!(tags.take_updated(), vec![b"a".to_vec()]);
}

#[test]
fn test_board_root_path() {
    let db = DataBoard::new(b"/var/log".to_vec());
    assert_eq!(db.get_root_path(), b"/var/log".to_vec());
}

#[test]
fn test_mutation_bumps_version() {
    // Any change to the enabled set advances the filter version, lazily
    // invalidating every cached skip link.
    let mut tags = TagsData::new();
    tags.insert_new(b"a");
    tags.insert_new(b"b");
    let v0 = tags.get_version();
    tags.unset(b"a");
    assert_eq!(tags.get_version(), v0 + 1);
    tags.set(b"a");
    assert_eq!(tags.get_version(), v0 + 2);
    tags.toggle(b"b");
    assert_eq!(tags.get_version(), v0 + 3);
}

#[test]
fn test_bulk_operations() {
    let mut tags = TagsData::new();
    tags.insert_new(b"a");
    tags.insert_new(b"b");
    tags.unset(b"b");
    let v0 = tags.get_version();

    tags.unset_all();
    assert_eq!(tags.get_version(), v0 + 1);
    assert!(!tags.get(b"a"));
    assert!(!tags.get(b"b"));

    tags.set_all();
    assert_eq!(tags.get_version(), v0 + 2);
    assert!(tags.get(b"a"));
    assert!(tags.get(b"b"));

    tags.unset(b"a");
    tags.toggle_all();
    assert!(tags.get(b"a"));
    assert!(!tags.get(b"b"));
}
