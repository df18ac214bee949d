use serve_md::error::ServeError;
use serve_md::handlers::{
    handle_path, on_markdown_read, on_metadata, on_static_read, Action, FileKind, Reply,
    MAX_MARKDOWN_BYTES, MAX_STATIC_BYTES,
};
use serve_md::markdown::{escape_html, slugify, table_of_contents, MdEvent};
use serve_md::resolve::{decode_url, encode_url_path, resolve, resolve_decoded, ResolveResult};
use serve_md::scan::{
    add_walk_entry, file_name_from_url, is_hidden, parent_dir_url, path_to_url, scan_entries,
    DirEntry, EntryKind, FileIndex, PathComponent, WalkEntry,
};
use serve_md::server::candidate_ports;
use serve_md::text::has_md_extension;
use serve_md::template::{build_toc_html, decimal_string, directory_listing, html_escape, wrap_html};
use serve_md::markdown::{RenderedMarkdown, TocEntry};

fn normal(parts: &[&str]) -> Vec<PathComponent> {
    parts.iter().map(|p| PathComponent::Normal(p.to_string())).collect()
}

fn file_entry(parts: &[&str]) -> WalkEntry {
    WalkEntry {
        is_root: false,
        relative: Some(normal(parts)),
        fs_path: format!("/root/{}", parts.join("/")),
        file_name: parts.last().map(|p| p.to_string()),
        kind: EntryKind::File,
    }
}

fn dir_entry(parts: &[&str]) -> WalkEntry {
    WalkEntry { kind: EntryKind::Dir, ..file_entry(parts) }
}

fn index_of(entries: Vec<WalkEntry>) -> FileIndex {
    match scan_entries(&entries) {
        Ok(index) => index,
        Err(e) => panic!("{}", e.message()),
    }
}

fn s(text: &str) -> String {
    text.to_string()
}

#[test]
fn escaping_replaces_markup_characters() {
    assert_eq!(html_escape("a < b && c > \"d\""), "a &lt; b &amp;&amp; c &gt; &quot;d&quot;");
    assert_eq!(escape_html("<script>alert('x')</script>"), "&lt;script&gt;alert('x')&lt;/script&gt;");
    assert_eq!(html_escape("plain"), "plain");
    assert_eq!(html_escape(""), "");
}

#[test]
fn escaped_text_has_no_markup_characters() {
    let out = html_escape("<a href=\"x\">&</a>");
    assert!(!out.contains('<') && !out.contains('>') && !out.contains('"'));
}

#[test]
fn slugs_are_lowercase_with_dashes() {
    assert_eq!(slugify("Hello World"), "hello-world");
    assert_eq!(slugify("Section 1: Setup!"), "section-1-setup");
    assert_eq!(slugify("Über Größe"), "über-größe");
    assert!(!slugify("a b  c").contains(' '));
}

#[test]
fn slug_dashes_come_from_spaces() {
    for text in ["A B C", "x - y", "Hello, World!", "no-dash here", "  "] {
        let slug = slugify(text);
        assert_eq!(slug.matches('-').count(), text.matches(' ').count());
        assert!(slug.chars().all(|c| c == '-' || c.is_alphanumeric()));
    }
    assert_eq!(slugify("x - y"), "x--y");
}

#[test]
fn urls_of_relative_paths() {
    assert_eq!(path_to_url(&normal(&["guide", "setup.md"])), "/guide/setup.md");
    assert_eq!(path_to_url(&vec![]), "/");
    assert_eq!(path_to_url(&vec![PathComponent::Other, PathComponent::Normal(s("a"))]), "/a");
}

#[test]
fn parent_and_file_name_of_urls() {
    assert_eq!(parent_dir_url("/guide/setup"), "/guide/");
    assert_eq!(parent_dir_url("/setup"), "/");
    assert_eq!(parent_dir_url("setup"), "/");
    assert_eq!(file_name_from_url("/guide/setup"), "setup");
    assert_eq!(file_name_from_url("plain"), "plain");
    for url in ["/a/b/c", "/x", "/dir/"] {
        assert_eq!(format!("{}{}", parent_dir_url(url), file_name_from_url(url)), url);
    }
}

#[test]
fn hidden_names_start_with_a_dot() {
    assert!(is_hidden(&Some(s(".git"))));
    assert!(!is_hidden(&Some(s("README.md"))));
    assert!(!is_hidden(&None));
}

#[test]
fn url_paths_are_percent_encoded_by_segment() {
    assert_eq!(encode_url_path("/a b/c#d"), "/a%20b/c%23d");
    assert_eq!(encode_url_path("/é"), "/%C3%A9");
    assert_eq!(encode_url_path("/guide/setup"), "/guide/setup");
    assert_eq!(encode_url_path("/{x}?`<>\"\u{7f}"), "/%7Bx%7D%3F%60%3C%3E%22%7F");
    assert_eq!(encode_url_path("//"), "//");
}

#[test]
fn urls_are_percent_decoded() {
    assert_eq!(decode_url("/a%20b"), "/a b");
    assert_eq!(decode_url("%2e%2e%2Fx"), "../x");
    assert_eq!(decode_url("/100%"), "/100%");
    assert_eq!(decode_url("%ZZ"), "%ZZ");
    assert_eq!(decode_url("%FF"), "\u{FFFD}");
    assert_eq!(decode_url("/plain/path"), "/plain/path");
}

fn unescape(t: &str) -> String {
    t.replace("&quot;", "\"").replace("&gt;", ">").replace("&lt;", "<").replace("&amp;", "&")
}

#[test]
fn escaping_can_be_undone() {
    for text in ["a < b & \"c\" > d", "&amp;", "plain", "", "&lt;&"] {
        assert_eq!(unescape(&html_escape(text)), text);
    }
}

#[test]
fn encoded_links_decode_to_their_text() {
    for text in ["/a b/c#d", "/é/ü", "/guide/setup", "/{x}?"] {
        assert_eq!(decode_url(&encode_url_path(text)), text);
    }
}

#[test]
fn encoded_links_resolve_like_their_text() {
    let index = sample_index();
    for text in ["/a b", "/a b.md", "/guide/", "/logo.png", "/missing x"] {
        assert_eq!(
            format!("{:?}", resolve(&index, &encode_url_path(text))),
            format!("{:?}", resolve(&index, text))
        );
    }
}

fn sample_index() -> FileIndex {
    index_of(vec![
        file_entry(&["README.md"]),
        dir_entry(&["guide"]),
        file_entry(&["guide", "setup.md"]),
        file_entry(&["guide", "index.md"]),
        dir_entry(&["notes"]),
        file_entry(&["notes", "todo.txt"]),
        file_entry(&["a b.md"]),
        file_entry(&["logo.png"]),
    ])
}

#[test]
fn entries_sit_under_their_parent() {
    let index = sample_index();
    for dir in ["/", "/guide/", "/notes/"] {
        let entries = index.dir_entries(&s(dir)).unwrap();
        assert!(!entries.is_empty());
        for e in entries.iter() {
            assert_eq!(parent_dir_url(e.url.trim_end_matches('/')), dir);
        }
    }
    for (file, dir) in [("/guide/setup", "/guide/"), ("/README", "/"), ("/notes/todo.txt", "/notes/")] {
        assert!(index.has_file(&s(file)) && !file.ends_with('/'));
        let entries = index.dir_entries(&s(dir)).unwrap();
        assert!(entries.iter().any(|e| e.url == file && !e.is_dir));
    }
}

#[test]
fn resolution_of_clean_and_md_urls() {
    let index = sample_index();
    match resolve(&index, "/README") {
        ResolveResult::Markdown(p) => assert_eq!(p, "/root/README.md"),
        other => panic!("expected Markdown, got {:?}", other),
    }
    match resolve(&index, "/README.md") {
        ResolveResult::Redirect(to) => assert_eq!(to, "/README"),
        _ => panic!("expected redirect"),
    }
    match resolve(&index, "/.md") {
        ResolveResult::NotFound => {}
        _ => panic!("\"/.md\" names nothing"),
    }
    match resolve(&index, "/a%20b") {
        ResolveResult::Markdown(p) => assert_eq!(p, "/root/a b.md"),
        _ => panic!("expected the decoded name"),
    }
    match resolve(&index, "/missing.md") {
        ResolveResult::NotFound => {}
        _ => panic!("expected not found"),
    }
}

#[test]
fn resolution_of_directories() {
    let index = sample_index();
    match resolve(&index, "/guide") {
        ResolveResult::Redirect(to) => assert_eq!(to, "/guide/"),
        _ => panic!("expected redirect to the directory"),
    }
    match resolve(&index, "/guide/") {
        ResolveResult::Markdown(p) => assert_eq!(p, "/root/guide/index.md"),
        _ => panic!("expected the index page"),
    }
    match resolve(&index, "/notes/") {
        ResolveResult::Directory(d) => assert_eq!(d, "/notes/"),
        _ => panic!("expected a listing"),
    }
    match resolve(&index, "/nothing/") {
        ResolveResult::NotFound => {}
        _ => panic!("expected not found"),
    }
    match resolve(&index, "") {
        ResolveResult::Markdown(p) => assert_eq!(p, "/root/README.md"),
        _ => panic!("expected the root README"),
    }
}

#[test]
fn resolution_never_leaves_the_index() {
    let index = sample_index();
    for url in ["/../etc/passwd", "/%2e%2e/%2e%2e/etc/passwd", "/guide/../../secret", "/.git/config"] {
        match resolve(&index, url) {
            ResolveResult::NotFound => {}
            _ => panic!("{} should not resolve", url),
        }
    }
    match resolve_decoded(&index, "/logo.png") {
        ResolveResult::Static(p) => assert_eq!(p, "/root/logo.png"),
        _ => panic!("expected static"),
    }
}

#[test]
fn scanning_reports_paths_outside_the_root() {
    let mut outside = file_entry(&["x.md"]);
    outside.relative = None;
    outside.fs_path = s("/elsewhere/x.md");
    match scan_entries(&vec![file_entry(&["a.md"]), outside]) {
        Err(ServeError::PathTraversal(p)) => assert_eq!(p, "/elsewhere/x.md"),
        _ => panic!("expected a path traversal error"),
    }
}

#[test]
fn nothing_inside_hidden_directories_is_indexed() {
    let index = index_of(vec![
        dir_entry(&[".git"]),
        file_entry(&[".git", "HEAD"]),
        dir_entry(&["docs", ".private"]),
        file_entry(&["docs", ".private", "notes.md"]),
        file_entry(&["docs", "page.md"]),
    ]);
    assert!(!index.has_file(&s("/.git/HEAD")));
    assert!(!index.has_dir(&s("/.git/")));
    assert!(!index.has_file(&s("/docs/.private/notes")));
    assert!(!index.has_dir(&s("/docs/.private/")));
    assert!(index.has_file(&s("/docs/page")));
    assert_eq!(index.file_paths(), vec![s("/root/docs/page.md")]);
    match resolve(&index, "/.git/HEAD") {
        ResolveResult::NotFound => {}
        _ => panic!("files in hidden directories must not be served"),
    }
}

#[test]
fn markdown_extension_of_paths() {
    assert!(has_md_extension("/a/b.md"));
    assert!(!has_md_extension("/a/b.mdx"));
    assert!(!has_md_extension("/a/.md"));
    assert!(!has_md_extension("/a/md"));
    assert!(has_md_extension("/a/b.tar.md"));
    assert!(!has_md_extension("/a/b.md.gz"));
    assert!(!has_md_extension("/a/b"));
}

#[test]
fn hidden_and_root_entries_leave_the_index_unchanged() {
    let mut index = FileIndex::new();
    let mut hidden = file_entry(&[".env"]);
    hidden.file_name = Some(s(".env"));
    assert!(add_walk_entry(&mut index, &hidden).is_ok());
    let root = WalkEntry { is_root: true, relative: Some(vec![]), ..dir_entry(&[]) };
    assert!(add_walk_entry(&mut index, &root).is_ok());
    assert!(!index.has_file(&s("/.env")));
    assert_eq!(index.dir_entries(&s("/")).unwrap().len(), 0);
}

#[test]
fn listing_sorts_directories_then_files() {
    let entries = vec![
        DirEntry { name: s("zeta"), url: s("/d/zeta"), is_dir: false },
        DirEntry { name: s("sub b"), url: s("/d/sub b/"), is_dir: true },
        DirEntry { name: s("alpha"), url: s("/d/alpha"), is_dir: false },
        DirEntry { name: s("Sub"), url: s("/d/Sub/"), is_dir: true },
    ];
    let html = directory_listing("/d/", &entries);
    assert!(html.contains("<title>Directory: /d</title>"));
    assert!(html.contains("<h1>/d</h1>"));
    let parent = html.find("<a href=\"/\" class=\"dir-entry parent-dir\">../</a>").unwrap();
    let sub = html.find("&#128193; Sub/").unwrap();
    let sub_b = html.find("href=\"/d/sub%20b/\" class=\"dir-entry dir\">&#128193; sub b/").unwrap();
    let alpha = html.find("&#128196; alpha<").unwrap();
    let zeta = html.find("&#128196; zeta<").unwrap();
    assert!(parent < sub && sub < sub_b && sub_b < alpha && alpha < zeta);
}

#[test]
fn listing_does_not_depend_on_entry_order() {
    let a = vec![
        DirEntry { name: s("b"), url: s("/b"), is_dir: false },
        DirEntry { name: s("a"), url: s("/a/"), is_dir: true },
        DirEntry { name: s("a"), url: s("/a"), is_dir: false },
    ];
    let b = vec![
        DirEntry { name: s("a"), url: s("/a"), is_dir: false },
        DirEntry { name: s("b"), url: s("/b"), is_dir: false },
        DirEntry { name: s("a"), url: s("/a/"), is_dir: true },
    ];
    assert_eq!(directory_listing("/", &a), directory_listing("/", &b));
}

#[test]
fn listing_keeps_the_order_of_equal_names() {
    let entries = vec![
        DirEntry { name: s("same"), url: s("/first"), is_dir: false },
        DirEntry { name: s("aaa"), url: s("/aaa"), is_dir: false },
        DirEntry { name: s("same"), url: s("/second"), is_dir: false },
    ];
    let html = directory_listing("/", &entries);
    let aaa = html.find("href=\"/aaa\"").unwrap();
    let first = html.find("href=\"/first\"").unwrap();
    let second = html.find("href=\"/second\"").unwrap();
    assert!(aaa < first && first < second);
}

#[test]
fn listing_of_the_root_has_no_parent_link() {
    let html = directory_listing("/", &vec![]);
    assert!(html.contains("<title>Directory: Index</title>"));
    assert!(!html.contains("parent-dir"));
    assert!(html.ends_with("<ul class=\"dir-list\"></ul>\n        </main>\n    </div>\n</body>\n</html>"));
}

#[test]
fn table_of_contents_html() {
    let toc = vec![
        TocEntry { level: 1, text: s("A & B"), id: s("a--b") },
        TocEntry { level: 12, text: s("C"), id: s("c") },
    ];
    assert_eq!(
        build_toc_html(&toc),
        "<ul class='toc-list'><li class=\"toc-level-1\"><a href=\"#a--b\">A &amp; B</a></li>\
         <li class=\"toc-level-12\"><a href=\"#c\">C</a></li></ul>"
    );
    assert_eq!(build_toc_html(&vec![]), "");
}

#[test]
fn decimal_numbers() {
    assert_eq!(decimal_string(0), "0");
    assert_eq!(decimal_string(7), "7");
    assert_eq!(decimal_string(42), "42");
    assert_eq!(decimal_string(255), "255");
}

#[test]
fn page_titles_are_escaped() {
    let rendered = RenderedMarkdown {
        html: String::new(),
        toc: vec![],
        title: Some(s("</title><script>x</script>")),
    };
    let out = wrap_html(&rendered, "/");
    assert!(out.contains("<title>&lt;/title&gt;&lt;script&gt;x&lt;/script&gt;</title>"));
    assert!(!out.contains("<script>"));
    let from_markdown =
        serve_md::markdown::render_markdown("# &lt;/title&gt;&lt;script&gt;x&lt;/script&gt;\n");
    assert_eq!(from_markdown.title, Some(s("</title><script>x</script>")));
    let page = wrap_html(&from_markdown, "/");
    assert!(!page.contains("<script>"));
    assert!(page.contains("<title>&lt;/title&gt;&lt;script&gt;x&lt;/script&gt;</title>"));
}

#[test]
fn pages_wrap_rendered_markdown() {
    let rendered = RenderedMarkdown { html: s("<p>x</p>"), toc: vec![], title: None };
    let page = wrap_html(&rendered, "/x");
    assert!(page.starts_with("<!DOCTYPE html>"));
    assert!(page.contains("<title>serve-md</title>"));
    assert!(page.contains("<main class=\"content\">\n            <p>x</p>\n        </main>"));
    let titled = RenderedMarkdown { html: s(""), toc: vec![], title: Some(s("Guide")) };
    assert!(wrap_html(&titled, "/").contains("<title>Guide</title>"));
}

#[test]
fn toc_from_events() {
    let events = vec![
        MdEvent::Text(s("before")),
        MdEvent::HeadingStart(2),
        MdEvent::Text(s("Intro ")),
        MdEvent::Code(s("code")),
        MdEvent::HeadingEnd,
        MdEvent::HeadingStart(1),
        MdEvent::Text(s("Main Title")),
        MdEvent::HeadingEnd,
        MdEvent::HeadingStart(1),
        MdEvent::Text(s("Second")),
        MdEvent::HeadingEnd,
        MdEvent::Other,
    ];
    let (toc, title) = table_of_contents(&events);
    assert_eq!(toc.len(), 3);
    assert_eq!((toc[0].level, toc[0].text.as_str(), toc[0].id.as_str()), (2, "Intro code", "intro-code"));
    assert_eq!((toc[1].level, toc[1].text.as_str(), toc[1].id.as_str()), (1, "Main Title", "main-title"));
    assert_eq!(title, Some(s("Main Title")));
}

#[test]
fn raw_html_in_markdown_is_escaped() {
    let rendered = serve_md::markdown::render_markdown("<script>alert(1)</script>\n\n# T\n");
    assert!(!rendered.html.contains("<script>"));
    assert!(rendered.html.contains("&lt;script&gt;alert(1)&lt;/script&gt;"));
    assert!(!rendered.html.contains("&amp;lt;"));
    let inline = serve_md::markdown::render_markdown("a <b>x</b>\n");
    assert!(inline.html.contains("a &lt;b&gt;x&lt;/b&gt;"));
    let image = serve_md::markdown::render_markdown("![<b>x</b>](i.png)\n");
    assert!(!image.html.contains("<b>") && !image.html.contains("&amp;lt;"));
    assert_eq!(rendered.toc[0].id, "t");
}

#[test]
fn ports_to_try() {
    let ports = candidate_ports(3000);
    assert_eq!(ports.len(), 101);
    assert_eq!(ports[0], 3000);
    assert_eq!(ports[100], 3100);
    let zero = candidate_ports(0);
    assert_eq!(zero[0], 1);
    assert_eq!(zero.len(), 100);
    let top = candidate_ports(65500);
    assert_eq!(top.len(), 36);
    assert_eq!(*top.last().unwrap(), 65535);
}

#[test]
fn request_steps() {
    let index = sample_index();
    match handle_path(&index, "/logo.png") {
        Action::Inspect(FileKind::Static, p) => assert_eq!(p, "/root/logo.png"),
        _ => panic!("expected a static file"),
    }
    match handle_path(&index, "/README.md") {
        Action::Reply(Reply::PermanentRedirect(to)) => assert_eq!(to, "/README"),
        _ => panic!("expected a redirect"),
    }
    match handle_path(&index, "/notes/") {
        Action::Reply(Reply::Html(h)) => assert!(h.contains("todo.txt")),
        _ => panic!("expected a listing"),
    }
    match handle_path(&index, "/nope") {
        Action::Reply(Reply::Status(404)) => {}
        _ => panic!("expected 404"),
    }
}

#[test]
fn size_limits() {
    match on_metadata(FileKind::Markdown, s("/a.md"), Some(MAX_MARKDOWN_BYTES + 1)) {
        Action::Reply(Reply::StatusText(403, t)) => assert_eq!(t, "Markdown file too large (max 10MB)"),
        _ => panic!("expected 403"),
    }
    match on_metadata(FileKind::Markdown, s("/a.md"), Some(MAX_MARKDOWN_BYTES)) {
        Action::Read(FileKind::Markdown, p) => assert_eq!(p, "/a.md"),
        _ => panic!("expected a read"),
    }
    match on_metadata(FileKind::Static, s("/a.bin"), Some(MAX_STATIC_BYTES + 1)) {
        Action::Reply(Reply::StatusText(403, t)) => assert_eq!(t, "File too large (max 100MB)"),
        _ => panic!("expected 403"),
    }
    match on_metadata(FileKind::Static, s("/a.bin"), None) {
        Action::Read(FileKind::Static, _) => {}
        _ => panic!("expected a read"),
    }
}

#[test]
fn replies_after_reading() {
    match on_static_read("/x/logo.png", Some(vec![1, 2, 3])) {
        Reply::File { content_type, body } => {
            assert_eq!(content_type, "image/png");
            assert_eq!(body, vec![1, 2, 3]);
        }
        _ => panic!("expected a file"),
    }
    match on_static_read("/x/data.unknownext", Some(vec![])) {
        Reply::File { content_type, .. } => assert_eq!(content_type, "application/octet-stream"),
        _ => panic!("expected a file"),
    }
    match on_static_read("/x/logo.png", None) {
        Reply::Status(500) => {}
        _ => panic!("expected 500"),
    }
    match on_markdown_read("/p", Some(s("# Page\n\ntext"))) {
        Reply::Html(h) => {
            assert!(h.contains("<title>Page</title>"));
            assert!(h.contains("<a href=\"#page\">Page</a>"));
        }
        _ => panic!("expected a page"),
    }
    match on_markdown_read("/p", None) {
        Reply::Status(500) => {}
        _ => panic!("expected 500"),
    }
}

#[test]
fn error_messages() {
    assert_eq!(ServeError::PathTraversal(s("/x")).message(), "path traversal attempt: /x");
    assert_eq!(ServeError::NotFound(s("/y")).message(), "not found: /y");
    assert_eq!(ServeError::Io(s("boom")).message(), "IO error: boom");
}
