use nvim_traveller::listing::EntryInfo;
use nvim_traveller::ops::{
    copy_destination, copy_plan, create_items, create_step, delete_plan, finish_batch, move_plan,
    quotes_balanced, rename_allowed, split_items, CreateStep,
};
use nvim_traveller::state::{AppInstance, PopupHandle, SummaryAction};
use nvim_traveller::path::FsPath;
use nvim_traveller::selection::Selection;

#[test]
fn test() {
    let items_cmd = "\"this is.txt\" \"another one.txt\" css/".to_string();
    let items = split_items(items_cmd);

    assert_eq!("this is.txt", items[0].as_str());
    assert_eq!("another one.txt", items[1].as_str());
    assert_eq!("css/", items[2].as_str());
    assert_eq!(items.len(), 3);
}

#[test]
fn split_items_quoted_first_then_words() {
    let items = split_items("a  \"b c\" d \"\" e".to_string());
    assert_eq!(items, vec!["b c", "", "a", "d", "e"]);
    assert!(split_items("   ".to_string()).is_empty());
}

#[test]
fn odd_quotes_defer_creation() {
    assert!(!quotes_balanced("\"half"));
    assert!(quotes_balanced("\"whole\" x"));
    let cwd = FsPath::parse("/d");
    assert!(create_items(&cwd, "\"still typing".to_string()).is_none());
    let items = create_items(&cwd, "new.txt sub/ \"a b/c.txt\"".to_string()).unwrap();
    let got: Vec<(String, bool)> = items.iter().map(|i| (i.path.to_text(), i.dir)).collect();
    assert_eq!(
        got,
        vec![
            ("/d/a b/c.txt".to_string(), false),
            ("/d/new.txt".to_string(), false),
            ("/d/sub".to_string(), true),
        ]
    );
}

#[test]
fn create_never_overwrites() {
    assert!(matches!(create_step(false, true, true), CreateStep::Skip));
    assert!(matches!(create_step(true, true, true), CreateStep::Skip));
    assert!(matches!(create_step(true, false, true), CreateStep::MakeDirAll));
    assert!(matches!(create_step(false, false, false), CreateStep::MakeFile { make_parent: true }));
    assert!(matches!(create_step(false, false, true), CreateStep::MakeFile { make_parent: false }));
}

#[test]
fn rename_guard_rejects_existing_target() {
    assert!(!rename_allowed(true, false, true, false));
    assert!(!rename_allowed(false, true, false, true));
    assert!(!rename_allowed(true, false, false, true));
    assert!(!rename_allowed(false, false, false, false));
    assert!(rename_allowed(true, false, false, false));
    assert!(rename_allowed(false, true, false, false));
}

#[test]
fn copy_in_place_gets_copy_prefix() {
    let d = FsPath::parse("/d");
    assert_eq!(copy_destination(&d, &"f".to_string(), &d).to_text(), "/d/copy_f");
    assert_eq!(copy_destination(&d, &"sub/".to_string(), &d).to_text(), "/d/copy_sub");
    let e = FsPath::parse("/e");
    assert_eq!(copy_destination(&d, &"f".to_string(), &e).to_text(), "/e/f");
}

#[test]
fn plans_cover_the_selection() {
    let mut sel = Selection::new();
    sel.toggle(&FsPath::parse("/a"), "x".to_string());
    sel.toggle(&FsPath::parse("/b"), "y/".to_string());
    let dest = FsPath::parse("/a");
    let entries = sel.entries();

    let copies: Vec<(String, String)> = copy_plan(&entries, &dest)
        .iter()
        .map(|t| (t.source.to_text(), t.target.to_text()))
        .collect();
    assert_eq!(
        copies,
        vec![
            ("/a/x".to_string(), "/a/copy_x".to_string()),
            ("/b/y".to_string(), "/a/y".to_string()),
        ]
    );

    let moves: Vec<(String, String)> = move_plan(&entries, &dest)
        .iter()
        .map(|t| (t.source.to_text(), t.target.to_text()))
        .collect();
    assert_eq!(
        moves,
        vec![("/a/x".to_string(), "/a/x".to_string()), ("/b/y".to_string(), "/a/y".to_string())]
    );

    let deletes: Vec<String> = delete_plan(&entries).iter().map(|p| p.to_text()).collect();
    assert_eq!(deletes, vec!["/a/x", "/b/y"]);
}

#[test]
fn finishing_a_batch_clears_selection_and_relists() {
    let d = FsPath::parse("/d");
    let mut inst = AppInstance::open(1, 2, FsPath::parse("/d"), false, &vec![]);
    inst.set_selection_popup(PopupHandle { buf: 5, win: 6 });
    let mut sel = Selection::new();
    sel.toggle(&d, "f".to_string());
    let listing = vec![EntryInfo { name: "copy_f".to_string(), is_dir: false }];
    match finish_batch(&mut sel, &mut inst, &listing) {
        SummaryAction::Hide(Some(p)) => assert_eq!(p.win, 6),
        _ => panic!("expected the summary to be hidden"),
    }
    assert!(sel.is_empty());
    assert!(inst.selection_popup.is_none());
    assert_eq!(inst.buf_content, vec!["copy_f"]);
}
