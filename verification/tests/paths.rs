use ovoice::files::{file_kind, is_within_roots, mime_from_ext, FileKind};
use ovoice::paths::{extension_of, join_path, name_of, within};

fn inside(path: &str, root: &str) -> bool {
    is_within_roots(Some(path), &vec![None, Some(root.to_string())])
}

#[test]
fn paths_of_windows_lie_in_their_roots() {
    assert!(inside(r"C:\ws\a.png", r"C:\ws"));
    assert!(inside(r"C:\ws\a.png", r"C:\ws\"));
    assert!(inside(r"C:/ws\sub/a.png", r"c:\ws"));
    assert!(inside(r"C:\ws", r"C:\ws"));
    assert!(inside(r"C:\ws\a.png", r"C:\"));
    assert!(!inside(r"C:\ws2\a.png", r"C:\ws"));
    assert!(!inside(r"D:\ws\a.png", r"C:\ws"));
    assert!(!inside(r"C:\a.png", r"C:\ws"));
    assert!(!inside(r"C:\ws", r"C:\ws\sub"));
}

#[test]
fn resolved_paths_of_windows_lie_in_their_roots() {
    assert!(inside(r"\\?\C:\ws\a.png", r"\\?\C:\ws"));
    assert!(inside(r"\\?\c:\ws\a.png", r"\\?\C:\ws"));
    assert!(!inside(r"\\?\C:\ws2\a.png", r"\\?\C:\ws"));
    assert!(!inside(r"\\?\C:\ws\a.png", r"C:\ws"));
    assert!(inside(r"\\?\UNC\srv\share\a", r"\\?\UNC\srv\share"));
    assert!(!inside(r"\\?\UNC\srv\other\a", r"\\?\UNC\srv\share"));
    assert!(inside(r"\\srv\share\a\b", r"\\srv\share\a"));
    assert!(!inside(r"\\srv\share\ab", r"\\srv\share\a"));
}

#[test]
fn other_paths_lie_in_their_roots() {
    assert!(inside("/ws/a.png", "/ws"));
    assert!(inside("/ws/./a.png", "/ws/"));
    assert!(!inside("/ws2/a.png", "/ws"));
    assert!(!inside(r"/ws\a.png", "/ws"));
    assert!(!within("ws/a", "/ws"));
    assert!(within("./a/b", "./a"));
    assert!(!is_within_roots(None, &vec![Some("/".to_string())]));
}

#[test]
fn names_and_extensions_are_taken_from_paths() {
    assert_eq!(name_of(r"C:\dir.x\a.tar.gz").as_deref(), Some("a.tar.gz"));
    assert_eq!(extension_of(r"C:\dir.x\a.tar.gz").as_deref(), Some("gz"));
    assert_eq!(extension_of(r"C:\dir.x\a"), None);
    assert_eq!(name_of(r"C:\"), None);
    assert_eq!(name_of("C:"), None);
    assert_eq!(name_of(r"\\srv\share"), None);
    assert_eq!(name_of(r"\\srv\share\x.md").as_deref(), Some("x.md"));
    assert_eq!(name_of(r"\\?\C:\x.md").as_deref(), Some("x.md"));
    assert_eq!(name_of(r"\\?\C:\"), None);
    assert_eq!(name_of(r"\\?\C:\a/b").as_deref(), Some("a/b"));
    assert_eq!(name_of(r"C:\a\.").as_deref(), Some("a"));
    assert_eq!(name_of(r"C:\a\.."), None);
    assert_eq!(name_of(r"/a\b.png").as_deref(), Some(r"a\b.png"));
    assert_eq!(mime_from_ext(r"\\?\C:\ws\A.PNG"), "image/png");
    assert_eq!(file_kind(r"C:\v1.2\README"), FileKind::Unsupported);
}

#[test]
fn paths_are_joined_with_what_separates_them() {
    assert_eq!(join_path("/a", "b"), "/a/b");
    assert_eq!(join_path("/a/", "b"), "/a/b");
    assert_eq!(join_path("", "b"), "b");
    assert_eq!(join_path("/a", "/b"), "/b");
    assert_eq!(join_path(r"C:\a", "b"), r"C:\a\b");
    assert_eq!(join_path(r"C:\a\", "b"), r"C:\a\b");
    assert_eq!(join_path("C:/a/", "b"), "C:/a/b");
    assert_eq!(join_path("C:", "b"), "C:b");
    assert_eq!(join_path(r"C:\a", "/b"), "C:/b");
    assert_eq!(join_path(r"\\srv\share\a", r"\b"), r"\\srv\share\b");
    assert_eq!(join_path(r"C:\a", r"D:\b"), r"D:\b");
    assert_eq!(join_path(r"C:\a", "D:b"), "D:b");
    assert_eq!(join_path("/a", r"D:\b"), r"D:\b");
    assert_eq!(join_path("/a", "D:b"), "/a/D:b");
    assert_eq!(join_path(r"\\?\C:\a", "b/./c"), r"\\?\C:\a\b\c");
    assert_eq!(join_path(r"\\?\C:\a\b", "../c"), r"\\?\C:\a\c");
    assert_eq!(join_path(r"\\?\C:\a", r"\b"), r"\\?\C:\b");
    assert_eq!(join_path(r"\\?\C:\", "b"), r"\\?\C:\b");
    assert_eq!(join_path(r"\\?\C:\a", ".."), r"\\?\C:\");
}
