use rust_mcp_filesystem::{FilesystemServer, RelPath};

fn cleaned(raw: &str) -> String {
    FilesystemServer::clean_path(raw, false).unwrap().display()
}

fn refused(raw: &str, allow_root: bool) -> String {
    FilesystemServer::clean_path(raw, allow_root).unwrap_err()
}

#[test]
fn accepts_normal_relative_paths() {
    assert_eq!(
        FilesystemServer::clean_path("notes/hello.txt", false)
            .unwrap()
            .display(),
        "notes/hello.txt"
    );
}

#[test]
fn rejects_parent_traversal() {
    assert!(FilesystemServer::clean_path("../secret.txt", false).is_err());
    assert!(FilesystemServer::clean_path("notes/../../secret.txt", false).is_err());
}

#[test]
fn rejects_absolute_paths() {
    assert!(FilesystemServer::clean_path("/etc/passwd", false).is_err());
}

#[test]
fn drops_dots_and_empty_segments() {
    assert_eq!(cleaned("./notes//a/./b.txt/"), "notes/a/b.txt");
    assert_eq!(cleaned("a"), "a");
    assert_eq!(cleaned("..."), "...");
    assert_eq!(cleaned(".hidden/..x"), ".hidden/..x");
    assert_eq!(cleaned("größe/ß"), "größe/ß");
    assert_eq!(cleaned("back\\slash"), "back\\slash");
}

#[test]
fn each_refusal_says_why() {
    assert_eq!(refused("a\0b", false), "path contains a NUL byte");
    assert_eq!(refused("/\0", false), "path contains a NUL byte");
    assert_eq!(refused("/a", true), "absolute paths are not allowed");
    assert_eq!(refused("/..", true), "absolute paths are not allowed");
    assert_eq!(
        refused("a/..", true),
        "parent traversal (`..`) is not allowed"
    );
    assert_eq!(
        refused("..", false),
        "parent traversal (`..`) is not allowed"
    );
    assert_eq!(
        refused("./.", false),
        "path must name an item below the configured root"
    );
    assert_eq!(
        refused("", false),
        "path must name an item below the configured root"
    );
}

#[test]
fn the_exposed_directory_is_a_dot() {
    for raw in ["", ".", "./", ".//."] {
        let path = FilesystemServer::clean_path(raw, true).unwrap();
        assert_eq!(path.len(), 0);
        assert_eq!(path.display(), ".");
    }
}

#[test]
fn a_displayed_path_names_the_same_item() {
    for raw in ["a//b/./c", "x", "./d/e.txt", "."] {
        let path: RelPath = FilesystemServer::clean_path(raw, true).unwrap();
        let again = FilesystemServer::clean_path(&path.display(), true).unwrap();
        assert!(path.same(&again));
    }
}

#[test]
fn the_first_parts_of_a_path() {
    let path = FilesystemServer::clean_path("a/b/c", false).unwrap();
    assert_eq!(path.len(), 3);
    assert_eq!(path.display_first(1), "a");
    assert_eq!(path.display_first(2), "a/b");
    assert_eq!(path.first(2).display(), "a/b");
    assert_eq!(path.first(0).display(), ".");
    assert_eq!(path.copy().display(), "a/b/c");
    assert!(path.same(&path.copy()));
    assert!(!path.same(&path.first(2)));
    let other = FilesystemServer::clean_path("a/b/d", false).unwrap();
    assert!(!path.same(&other));
}

#[test]
fn a_temporary_file_is_a_sibling() {
    let path = FilesystemServer::clean_path("notes/plan.md", false).unwrap();
    assert_eq!(path.temp("x-1").display(), "notes/.plan.md.mcp-x-1.tmp");
    let path = FilesystemServer::clean_path("plan.md", false).unwrap();
    assert_eq!(path.temp("x-1").display(), ".plan.md.mcp-x-1.tmp");
}
