use nvim_traveller::path::FsPath;
use nvim_traveller::selection::Selection;

#[test]
fn toggle_twice_restores_selection() {
    let d = FsPath::parse("/d");
    let e = FsPath::parse("/e");
    let mut sel = Selection::new();
    sel.toggle(&e, "x".to_string());
    sel.toggle(&d, "f".to_string());
    assert!(sel.is_selected(&d, &"f".to_string()));
    assert_eq!(sel.count(), 2);
    sel.toggle(&d, "f".to_string());
    assert!(!sel.is_selected(&d, &"f".to_string()));
    assert!(sel.is_selected(&e, &"x".to_string()));
    assert_eq!(sel.count(), 1);
    // the directory whose only member left is gone
    assert_eq!(sel.groups.len(), 1);
    assert_eq!(sel.groups[0].dir.to_text(), "/e");
}

#[test]
fn toggle_keeps_other_members() {
    let d = FsPath::parse("/d");
    let mut sel = Selection::new();
    sel.toggle(&d, "a".to_string());
    sel.toggle(&d, "b".to_string());
    sel.toggle(&d, "a".to_string());
    assert!(!sel.is_selected(&d, &"a".to_string()));
    assert!(sel.is_selected(&d, &"b".to_string()));
    assert_eq!(sel.count(), 1);
    assert!(!sel.is_empty());
}

#[test]
fn clear_empties_selection() {
    let mut sel = Selection::new();
    assert!(sel.is_empty());
    sel.toggle(&FsPath::parse("/a"), "x".to_string());
    sel.toggle(&FsPath::parse("/b"), "y/".to_string());
    assert_eq!(sel.entries().len(), 2);
    sel.clear();
    assert!(sel.is_empty());
    assert_eq!(sel.count(), 0);
    assert!(sel.entries().is_empty());
}

#[test]
fn entries_lists_every_selected_name() {
    let mut sel = Selection::new();
    sel.toggle(&FsPath::parse("/a"), "x".to_string());
    sel.toggle(&FsPath::parse("/b"), "y/".to_string());
    sel.toggle(&FsPath::parse("/a"), "z".to_string());
    let got: Vec<(String, String)> = sel
        .entries()
        .into_iter()
        .map(|e| (e.dir.to_text(), e.item))
        .collect();
    assert_eq!(
        got,
        vec![
            ("/a".to_string(), "x".to_string()),
            ("/a".to_string(), "z".to_string()),
            ("/b".to_string(), "y/".to_string()),
        ]
    );
}

#[test]
fn same_name_in_two_directories_is_two_selections() {
    let a = FsPath::parse("/a");
    let b = FsPath::parse("/b");
    let mut sel = Selection::new();
    sel.toggle(&a, "f".to_string());
    sel.toggle(&b, "f".to_string());
    assert_eq!(sel.count(), 2);
    sel.toggle(&a, "f".to_string());
    assert!(!sel.is_selected(&a, &"f".to_string()));
    assert!(sel.is_selected(&b, &"f".to_string()));
    assert_eq!(sel.count(), 1);
}
