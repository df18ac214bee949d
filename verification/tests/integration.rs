use serve_md::markdown::render_markdown;
use serve_md::resolve::{resolve, ResolveResult};
use serve_md::scan::{scan_entries, EntryKind, FileIndex, PathComponent, WalkEntry};
use std::collections::HashSet;

const ROOT: &str = "/srv/docs";

fn walked(relative: &[&str], kind: EntryKind) -> WalkEntry {
    let mut fs_path = String::from(ROOT);
    for part in relative {
        fs_path.push('/');
        fs_path.push_str(part);
    }
    WalkEntry {
        is_root: relative.is_empty(),
        relative: Some(
            relative
                .iter()
                .map(|p| PathComponent::Normal(p.to_string()))
                .collect(),
        ),
        fs_path,
        file_name: relative.last().map(|p| p.to_string()),
        kind,
    }
}

/// The paths that walking the test tree yields: README.md, guide/setup.md, logo.png,
/// the hidden .gitignore and .git, and (were it not git-ignored) the hidden .secret.
fn test_entries() -> Vec<WalkEntry> {
    vec![
        walked(&[], EntryKind::Dir),
        walked(&[".git"], EntryKind::Dir),
        walked(&[".gitignore"], EntryKind::File),
        walked(&[".secret"], EntryKind::File),
        walked(&["README.md"], EntryKind::File),
        walked(&["guide"], EntryKind::Dir),
        walked(&["guide", "setup.md"], EntryKind::File),
        walked(&["logo.png"], EntryKind::File),
    ]
}

fn create_test_index() -> FileIndex {
    match scan_entries(&test_entries()) {
        Ok(index) => index,
        Err(e) => panic!("scan failed: {}", e.message()),
    }
}

fn file_name(path: &str) -> Option<&str> {
    std::path::Path::new(path).file_name().and_then(|n| n.to_str())
}

#[test]
fn test_scan_finds_markdown_and_assets() {
    let index = create_test_index();

    assert!(index.has_file(&"/README".to_string()));
    assert!(index.has_file(&"/guide/setup".to_string()));
    assert!(index.has_file(&"/logo.png".to_string()));

    assert!(!index.has_file(&"/.secret".to_string()));
    assert!(!index.file_paths().iter().any(|p| file_name(p) == Some(".secret")));

    assert!(index.has_dir(&"/".to_string()));
    assert!(index.has_dir(&"/guide/".to_string()));
}

#[test]
fn test_scan_directory_entries() {
    let index = create_test_index();

    let root_entries = index.dir_entries(&"/".to_string()).unwrap();
    let names: HashSet<_> = root_entries.iter().map(|e| e.name.as_str()).collect();

    assert!(names.contains("guide"));
    assert!(names.contains("README"));
    assert!(names.contains("logo.png"));
}

#[test]
fn test_resolve_root_readme() {
    let index = create_test_index();

    match resolve(&index, "/") {
        ResolveResult::Markdown(path) => {
            assert!(file_name(&path) == Some("README.md"));
        }
        other => panic!("Expected Markdown, got {:?}", other),
    }
}

#[test]
fn test_resolve_markdown_file() {
    let index = create_test_index();

    match resolve(&index, "/guide/setup") {
        ResolveResult::Markdown(path) => {
            assert!(file_name(&path) == Some("setup.md"));
        }
        other => panic!("Expected Markdown, got {:?}", other),
    }
}

#[test]
fn test_resolve_static_file() {
    let index = create_test_index();

    match resolve(&index, "/logo.png") {
        ResolveResult::Static(path) => {
            assert!(file_name(&path) == Some("logo.png"));
        }
        other => panic!("Expected Static, got {:?}", other),
    }
}

#[test]
fn test_resolve_md_redirect() {
    let index = create_test_index();

    match resolve(&index, "/guide/setup.md") {
        ResolveResult::Redirect(to) => {
            assert_eq!(to, "/guide/setup");
        }
        other => panic!("Expected Redirect, got {:?}", other),
    }
}

#[test]
fn test_resolve_directory_listing() {
    let index = create_test_index();

    match resolve(&index, "/guide/") {
        ResolveResult::Directory(path) => {
            assert_eq!(path, "/guide/");
        }
        other => panic!("Expected Directory, got {:?}", other),
    }
}

#[test]
fn test_resolve_not_found() {
    let index = create_test_index();

    match resolve(&index, "/does-not-exist") {
        ResolveResult::NotFound => {}
        other => panic!("Expected NotFound, got {:?}", other),
    }
}

#[test]
fn test_render_markdown_produces_html() {
    let input = "# Hello\n\nThis is **bold**.\n";
    let rendered = render_markdown(input);

    assert!(rendered.html.contains("<h1>"));
    assert!(rendered.html.contains("Hello"));
    assert!(rendered.html.contains("<strong>"));
    assert_eq!(rendered.title, Some("Hello".to_string()));
    assert!(!rendered.toc.is_empty());
}

#[test]
fn test_render_markdown_toc_levels() {
    let input = "# A\n## B\n### C\n";
    let rendered = render_markdown(input);

    assert_eq!(rendered.toc.len(), 3);
    assert_eq!(rendered.toc[0].level, 1);
    assert_eq!(rendered.toc[1].level, 2);
    assert_eq!(rendered.toc[2].level, 3);
}

#[test]
fn test_render_markdown_tasklists() {
    let input = "- [x] done\n- [ ] not done\n";
    let rendered = render_markdown(input);

    assert!(rendered.html.contains("checkbox"));
}
