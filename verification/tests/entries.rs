use hibp_check::{common_prefix, remove_common_prefix, Entry};

fn entry(designator: &str, password: &str) -> Entry {
    Entry {
        designator: String::from(designator),
        password: String::from(password),
    }
}

fn labels(entries: &[Entry]) -> Vec<String> {
    entries.iter().map(|e| e.designator.clone()).collect()
}

#[test]
fn shared_folder_is_found() {
    let entries = vec![entry("a/b/x", "p1"), entry("a/b/y", "p2")];
    assert_eq!(common_prefix(&entries), Some(String::from("a/b/")));
}

#[test]
fn longest_shared_folder_wins() {
    let entries = vec![entry("a/b/x", "p1"), entry("a/c/y", "p2")];
    assert_eq!(common_prefix(&entries), Some(String::from("a/")));
}

#[test]
fn no_shared_folder_means_none() {
    let entries = vec![entry("a/x", "p1"), entry("b/y", "p2")];
    assert_eq!(common_prefix(&entries), None);
    let unsliced = vec![entry("plain", "p1"), entry("flat", "p2")];
    assert_eq!(common_prefix(&unsliced), None);
}

#[test]
fn empty_list_has_no_prefix() {
    let entries: Vec<Entry> = vec![];
    assert_eq!(common_prefix(&entries), None);
}

#[test]
fn single_entry_loses_its_folders() {
    let entries = vec![entry("group/title", "p1")];
    assert_eq!(common_prefix(&entries), Some(String::from("group/")));
}

#[test]
fn remove_strips_the_shared_part() {
    let mut entries = vec![entry("a/b/x", "p1"), entry("a/b/y", "p2")];
    remove_common_prefix(&mut entries);
    assert_eq!(labels(&entries), vec!["x", "y"]);
    assert_eq!(entries[0].password, "p1");
    assert_eq!(entries[1].password, "p2");
}

#[test]
fn remove_without_shared_part_changes_nothing() {
    let mut entries = vec![entry("a/x", "p1"), entry("b/y", "p2")];
    remove_common_prefix(&mut entries);
    assert_eq!(labels(&entries), vec!["a/x", "b/y"]);
}

#[test]
fn remove_on_empty_list_is_a_no_op() {
    let mut entries: Vec<Entry> = vec![];
    remove_common_prefix(&mut entries);
    assert!(entries.is_empty());
}

#[test]
fn remove_counts_characters_not_bytes() {
    let mut entries = vec![entry("groupé/a", "p1"), entry("groupé/b", "p2")];
    assert_eq!(common_prefix(&entries), Some(String::from("groupé/")));
    remove_common_prefix(&mut entries);
    assert_eq!(labels(&entries), vec!["a", "b"]);
}
