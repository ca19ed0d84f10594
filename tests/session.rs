use nvim_traveller::history::{lookup, record, Location};
use nvim_traveller::listing::EntryInfo;
use nvim_traveller::path::FsPath;
use nvim_traveller::selection::Selection;
use nvim_traveller::state::{
    is_dir_item, show_selection_popup, update_selection_popup, AppInstance, OpenAction, OpenIn,
    PopupHandle, SummaryAction,
};

fn entry(name: &str, is_dir: bool) -> EntryInfo {
    EntryInfo { name: name.to_string(), is_dir }
}

fn ledger(inst: &AppInstance) -> Vec<(String, String)> {
    inst.history.iter().map(|l| (l.dir_path.to_text(), l.item.clone())).collect()
}

#[test]
fn history_record_overwrites() {
    let d = FsPath::parse("/d");
    let mut h: Vec<Location> = Vec::new();
    record(&mut h, &d, "x".to_string());
    record(&mut h, &d, "y".to_string());
    assert_eq!(lookup(&h, &d), Some("y".to_string()));
    assert_eq!(h.len(), 1);
    assert_eq!(lookup(&h, &FsPath::parse("/other")), None);
}

#[test]
fn end_to_end_navigation() {
    let src_entries = vec![entry("main.rs", false), entry("lib.rs", false)];
    let project_entries = vec![entry("Cargo.toml", false), entry("src", true)];
    let mut inst =
        AppInstance::open(3, 1000, FsPath::parse("/project/src/main.rs"), true, &src_entries);
    assert_eq!(inst.cwd.to_text(), "/project/src");
    assert_eq!(ledger(&inst), vec![("/project/src".to_string(), "main.rs".to_string())]);
    assert_eq!(inst.buf_content, vec!["lib.rs", "main.rs"]);
    let row = inst.nav_cursor().unwrap();
    assert_eq!(row, 1);

    assert!(inst.ascend(row, &project_entries));
    assert_eq!(inst.cwd.to_text(), "/project");
    assert_eq!(
        ledger(&inst),
        vec![
            ("/project/src".to_string(), "main.rs".to_string()),
            ("/project".to_string(), "src/".to_string()),
        ]
    );
    assert_eq!(inst.buf_content, vec!["src/", "Cargo.toml"]);
    assert_eq!(inst.nav_cursor(), Some(0));

    let item = inst.get_item(0).unwrap();
    assert!(is_dir_item(&item));
    inst.descend(&item, &src_entries);
    assert_eq!(inst.cwd.to_text(), "/project/src");
    assert_eq!(inst.nav_cursor(), Some(1));
    assert_eq!(inst.buf_content[1], "main.rs");
}

#[test]
fn ascend_at_root_is_noop() {
    let entries = vec![entry("etc", true), entry("tmp", true)];
    let mut inst = AppInstance::open(1, 2, FsPath::parse("/"), false, &entries);
    let before_content = inst.buf_content.clone();
    let before_history = ledger(&inst);
    assert!(!inst.ascend(0, &vec![entry("other", false)]));
    assert_eq!(inst.cwd.to_text(), "/");
    assert_eq!(inst.buf_content, before_content);
    assert_eq!(ledger(&inst), before_history);
}

#[test]
fn empty_directory_has_no_cursor() {
    let inst = AppInstance::open(1, 2, FsPath::parse("/empty"), false, &vec![]);
    assert_eq!(inst.nav_cursor(), None);
    assert_eq!(inst.get_item(0), None);
}

#[test]
fn forgotten_entry_puts_cursor_on_first_row() {
    let entries = vec![entry("a", false), entry("b", false)];
    let inst = AppInstance::open(1, 2, FsPath::parse("/d/gone.txt"), true, &entries);
    assert_eq!(inst.nav_cursor(), Some(0));
}

#[test]
fn toggle_hidden_relists() {
    let entries = vec![entry(".env", false), entry("a", false)];
    let mut inst = AppInstance::open(1, 2, FsPath::parse("/d"), false, &entries);
    assert_eq!(inst.buf_content, vec!["a"]);
    inst.toggle_hidden(&entries);
    assert!(inst.show_hidden);
    assert_eq!(inst.buf_content, vec![".env", "a"]);
    inst.toggle_hidden(&entries);
    assert_eq!(inst.buf_content, vec!["a"]);
}

#[test]
fn close_returns_to_anchor() {
    let inst = AppInstance::open(1, 2, FsPath::parse("/p/src/main.rs"), true, &vec![]);
    assert_eq!(inst.close_target().to_text(), "/p/src/main.rs");
    assert_eq!(inst.entry_path("lib.rs").to_text(), "/p/src/lib.rs");
    assert_eq!(inst.parent_dir().unwrap().to_text(), "/p");
}

#[test]
fn summary_actions_follow_count() {
    let mut inst = AppInstance::open(1, 2, FsPath::parse("/d"), false, &vec![]);
    assert!(matches!(inst.summary_action(2), SummaryAction::Show));
    inst.set_selection_popup(PopupHandle { buf: 7, win: 8 });
    match inst.summary_action(3) {
        SummaryAction::Refresh(p) => assert_eq!((p.buf, p.win), (7, 8)),
        _ => panic!("expected a refresh"),
    }
    match inst.summary_action(0) {
        SummaryAction::Hide(Some(p)) => assert_eq!(p.win, 8),
        _ => panic!("expected the popup to be hidden"),
    }
    assert!(inst.selection_popup.is_none());
    assert!(matches!(inst.summary_action(0), SummaryAction::Hide(None)));
}

#[test]
fn open_action_enters_directories_and_opens_files() {
    let entries = vec![entry("src", true), entry("main.rs", false)];
    let inst = AppInstance::open(1, 2, FsPath::parse("/p"), false, &entries);
    match inst.open_action(0) {
        OpenAction::Enter { item, path } => {
            assert_eq!(item, "src/");
            assert_eq!(path.to_text(), "/p/src");
        }
        _ => panic!("expected to enter the directory"),
    }
    match inst.open_action(1) {
        OpenAction::OpenFile { path } => assert_eq!(path.to_text(), "/p/main.rs"),
        _ => panic!("expected to open the file"),
    }
    assert!(matches!(inst.open_action(2), OpenAction::Nothing));
}

#[test]
fn open_modes_name_editor_commands() {
    assert_eq!(OpenIn::Buffer.command(), "edit");
    assert_eq!(OpenIn::VSplit.command(), "vsplit");
    assert_eq!(OpenIn::HSplit.command(), "split");
    assert_eq!(OpenIn::Tab.command(), "tabedit");
}

#[test]
fn update_history_records_for_current_directory() {
    let mut inst = AppInstance::open(1, 2, FsPath::parse("/d"), false, &vec![]);
    inst.update_history("a".to_string());
    inst.update_history("b".to_string());
    assert_eq!(ledger(&inst), vec![("/d".to_string(), "b".to_string())]);
}

#[test]
fn set_buffer_content_relists_after_changes() {
    let mut inst = AppInstance::open(1, 2, FsPath::parse("/d"), false, &vec![entry("a", false)]);
    inst.set_buffer_content(&vec![entry("b", false), entry("a", false), entry("c", true)]);
    assert_eq!(inst.buf_content, vec!["c/", "a", "b"]);
    assert_eq!(inst.cwd.to_text(), "/d");
}

#[test]
fn selection_summary_follows_toggles() {
    let entries = vec![entry("f", false)];
    let mut inst = AppInstance::open(1, 2, FsPath::parse("/d"), false, &entries);
    let mut sel = Selection::new();
    assert!(matches!(show_selection_popup(&sel, &mut inst), SummaryAction::Hide(None)));
    assert!(matches!(update_selection_popup(&mut sel, &mut inst, 0), SummaryAction::Show));
    assert!(inst.is_selected(&sel, &"f".to_string()));
    inst.set_selection_popup(PopupHandle { buf: 3, win: 4 });
    match update_selection_popup(&mut sel, &mut inst, 0) {
        SummaryAction::Hide(Some(p)) => assert_eq!(p.buf, 3),
        _ => panic!("expected the popup to be hidden"),
    }
    assert!(!inst.is_selected(&sel, &"f".to_string()));
    assert!(sel.is_empty());
    // a row past the listing selects nothing
    assert!(matches!(update_selection_popup(&mut sel, &mut inst, 5), SummaryAction::Hide(None)));
    assert!(sel.is_empty());
}
