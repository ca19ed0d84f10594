use nvim_traveller::listing::{nav_buffer_lines, EntryInfo};

fn entry(name: &str, is_dir: bool) -> EntryInfo {
    EntryInfo { name: name.to_string(), is_dir }
}

#[test]
fn directories_first_then_files_by_name() {
    let entries = vec![
        entry("b.txt", false),
        entry("z", true),
        entry("a.txt", false),
        entry("a", true),
    ];
    let lines = nav_buffer_lines(&entries, false);
    assert_eq!(lines, vec!["a/", "z/", "a.txt", "b.txt"]);
}

#[test]
fn hidden_entries_filtered_unless_shown() {
    let entries = vec![entry("readme.md", false), entry(".git", true)];
    assert_eq!(nav_buffer_lines(&entries, false), vec!["readme.md"]);
    assert_eq!(nav_buffer_lines(&entries, true), vec![".git/", "readme.md"]);
}

#[test]
fn empty_directory_lists_nothing() {
    let entries: Vec<EntryInfo> = vec![];
    assert!(nav_buffer_lines(&entries, true).is_empty());
}

#[test]
fn names_compare_by_bytes() {
    // 'B' (0x42) sorts before 'a' (0x61); "a-b" before "a" would be wrong:
    // a prefix comes first.
    let entries = vec![
        entry("a", true),
        entry("a-b", true),
        entry("apple", false),
        entry("B", false),
        entry("é", false),
    ];
    let lines = nav_buffer_lines(&entries, false);
    assert_eq!(lines, vec!["a/", "a-b/", "B", "apple", "é"]);
}

#[test]
fn only_hidden_entries_with_flag_off() {
    let entries = vec![entry(".a", false), entry(".b", true)];
    assert!(nav_buffer_lines(&entries, false).is_empty());
    assert_eq!(nav_buffer_lines(&entries, true), vec![".b/", ".a"]);
}
