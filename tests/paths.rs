use nvim_traveller::path::FsPath;
use nvim_traveller::utils::NeoUtils;

#[test]
fn parse_and_render() {
    let p = FsPath::parse("/project//src/./main.rs/");
    assert_eq!(p.parts, vec!["project", "src", "main.rs"]);
    assert_eq!(p.to_text(), "/project/src/main.rs");
    assert_eq!(FsPath::root().to_text(), "/");
}

#[test]
fn join_relative_and_absolute() {
    let cwd = FsPath::parse("/project");
    assert_eq!(cwd.join("src/").to_text(), "/project/src");
    assert_eq!(cwd.join("a/b.txt").to_text(), "/project/a/b.txt");
    assert_eq!(cwd.join("/etc/hosts").to_text(), "/etc/hosts");
}

#[test]
fn parent_and_file_name() {
    let p = FsPath::parse("/project/src");
    assert_eq!(p.parent().unwrap().to_text(), "/project");
    assert_eq!(p.file_name().unwrap(), "src");
    assert!(FsPath::root().parent().is_none());
    assert!(FsPath::root().file_name().is_none());
}

#[test]
fn strips_one_trailing_newline() {
    assert_eq!(NeoUtils::strip_trailing_newline("/repo\r\n"), "/repo");
    assert_eq!(NeoUtils::strip_trailing_newline("/repo\n"), "/repo");
    assert_eq!(NeoUtils::strip_trailing_newline("/repo\n\n"), "/repo\n");
    assert_eq!(NeoUtils::strip_trailing_newline("/repo"), "/repo");
    assert_eq!(NeoUtils::strip_trailing_newline(""), "");
}

#[test]
fn toplevel_only_on_success() {
    assert_eq!(NeoUtils::toplevel_from_output(true, "/repo\n"), Some("/repo".to_string()));
    assert_eq!(NeoUtils::toplevel_from_output(false, "fatal: not a git repository\n"), None);
}
