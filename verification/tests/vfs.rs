use rcore_os::fs::vfs::{DirEntry, Inode};

fn dir() -> Inode {
    Inode { entries: Vec::new() }
}

#[test]
fn create_then_find() {
    let mut d = dir();
    assert_eq!(d.create("a", 5), Some(5));
    assert_eq!(d.create("b", 6), Some(6));
    assert_eq!(d.find("a"), Some(5));
    assert_eq!(d.find("b"), Some(6));
    assert_eq!(d.find("c"), None);
}

#[test]
fn create_refuses_existing_name() {
    let mut d = dir();
    d.create("a", 5);
    assert_eq!(d.create("a", 9), None);
    assert_eq!(d.entries.len(), 1);
    assert_eq!(d.find("a"), Some(5));
}

#[test]
fn ls_lists_names_in_order() {
    let mut d = dir();
    d.create("x", 1);
    d.create("y", 2);
    assert_eq!(d.ls(), vec!["x".to_string(), "y".to_string()]);
    assert!(dir().ls().is_empty());
}

#[test]
fn link_adds_a_name_for_the_same_inode() {
    let mut d = dir();
    d.create("a", 5);
    assert_eq!(d.link_count(5), 1);
    assert_eq!(d.link("a", "b"), Some(()));
    assert_eq!(d.find("b"), Some(5));
    assert_eq!(d.link_count(5), 2);
}

#[test]
fn link_refuses_missing_old_or_existing_new() {
    let mut d = dir();
    d.create("a", 5);
    d.create("b", 6);
    assert_eq!(d.link("zz", "c"), None);
    assert_eq!(d.link("a", "b"), None);
    assert_eq!(d.link("a", "a"), None);
    assert_eq!(d.entries.len(), 2);
}

#[test]
fn unlink_reports_remaining_links() {
    let mut d = dir();
    d.create("a", 5);
    d.link("a", "b");
    assert_eq!(d.unlink("a"), Some((5, 1)));
    assert_eq!(d.find("a"), None);
    assert_eq!(d.find("b"), Some(5));
    assert_eq!(d.link_count(5), 1);
    assert_eq!(d.unlink("b"), Some((5, 0)));
    assert_eq!(d.link_count(5), 0);
    assert_eq!(d.unlink("b"), None);
}

#[test]
fn unlink_leaves_an_empty_slot() {
    let mut d = dir();
    d.create("a", 5);
    d.create("b", 6);
    d.unlink("a");
    assert_eq!(d.entries.len(), 2);
    assert_eq!(d.entries[0].name, "");
    assert_eq!(d.entries[0].inode_id, 0);
    assert_eq!(d.ls(), vec!["b".to_string()]);
}

#[test]
fn empty_name_never_matches_a_cleared_slot() {
    let mut d = dir();
    d.create("a", 5);
    d.create("b", 6);
    d.unlink("a");
    assert_eq!(d.find(""), None);
    assert_eq!(d.unlink(""), None);
    assert_eq!(d.link("", "c"), None);
    assert_eq!(d.entries.len(), 2);
    assert_eq!(d.find("c"), None);
    assert_eq!(d.ls(), vec!["b".to_string()]);
}

#[test]
fn link_then_unlink_leaves_lookups_and_counts() {
    let mut d = dir();
    d.create("a", 5);
    assert_eq!(d.link("a", "b"), Some(()));
    assert_eq!(d.unlink("b"), Some((5, 1)));
    assert_eq!(d.find("a"), Some(5));
    assert_eq!(d.find("b"), None);
    assert_eq!(d.link_count(5), 1);
    assert_eq!(d.ls(), vec!["a".to_string()]);
}

#[test]
fn empty_slots_never_count_as_links() {
    let mut d = dir();
    d.create("a", 0);
    d.create("b", 7);
    d.unlink("b");
    // the cleared slot points at inode 0 but has no name
    assert_eq!(d.link_count(0), 1);
    assert_eq!(d.link_count(7), 0);
}

#[test]
fn empty_entry_is_nameless_inode_zero() {
    let e = DirEntry::empty();
    assert!(e.name.is_empty());
    assert_eq!(e.inode_id, 0);
}
