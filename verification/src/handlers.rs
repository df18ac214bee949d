use vstd::prelude::*;
use crate::markdown::{markdown_events, markdown_html, render_markdown, toc_run, MARKDOWN_OPTIONS};
use crate::resolve::{resolution, resolve, url_decoded, ResolveResult, ResolveView};
use crate::scan::{FileIndex, IndexModel};
use crate::template::{
    directory_listing, listing_items, listing_page, listing_title, markdown_page, page_title,
    toc_html, wrap_html,
};

verus! {

/// The largest Markdown file that is rendered: 10 MiB.
pub const MAX_MARKDOWN_BYTES: u64 = 10 * 1024 * 1024;

/// The largest static file that is served: 100 MiB.
pub const MAX_STATIC_BYTES: u64 = 100 * 1024 * 1024;

/// The size limits: a Markdown file is refused exactly when it holds more than 10 MiB
/// (10 485 760 bytes), a static file exactly when it holds more than 100 MiB.
pub proof fn law_size_limits(n: u64)
    ensures
        (n > MAX_MARKDOWN_BYTES) == (n > 10485760),
        (n > MAX_STATIC_BYTES) == (n > 104857600),
{
}

/// How a file of the index is served.
pub enum FileKind {
    /// Rendered as an HTML page.
    Markdown,
    /// Sent as it is.
    Static,
}

/// The response to a request, as plain values.
pub enum Reply {
    /// `200 OK` with an HTML page.
    Html(String),
    /// `200 OK` with the bytes of a file and its content type.
    File { content_type: String, body: Vec<u8> },
    /// A bare status code.
    Status(u16),
    /// A status code with a short text body.
    StatusText(u16, String),
    /// `308 Permanent Redirect` to the URL.
    PermanentRedirect(String),
}

/// What the server does next for a request.
pub enum Action {
    /// Answer with this reply.
    Reply(Reply),
    /// Look up the size of the file on disk, then call `on_metadata`.
    Inspect(FileKind, String),
    /// Read the file, then call `on_markdown_read` or `on_static_read`.
    Read(FileKind, String),
}

/// The content type of a file, as `mime_guess` guesses it from the path's extension
/// (`application/octet-stream` when it has no guess).
pub uninterp spec fn guessed_mime(path: Seq<char>) -> Seq<char>;

/// Calls `mime_guess::from_path(..).first_or_octet_stream()`; the text of the
/// content type is named by `guessed_mime`.
#[verifier::external_body]
fn guess_mime(path: &str) -> (r: String)
    ensures
        r@ == guessed_mime(path@),
{
    let mime = mime_guess::from_path(path).first_or_octet_stream();
    mime.as_ref().to_string()
}

/// The first step of answering a request whose URL decodes to `decoded`.
pub open spec fn first_step(m: IndexModel, decoded: Seq<char>, r: Action) -> bool {
    match resolution(m, decoded) {
        ResolveView::Markdown(p) => r matches Action::Inspect(FileKind::Markdown, q) && q@ == p,
        ResolveView::Static(p) => r matches Action::Inspect(FileKind::Static, q) && q@ == p,
        ResolveView::Redirect(to) => r matches Action::Reply(Reply::PermanentRedirect(t)) && t@ == to,
        ResolveView::Directory(d) => if m.dirs.contains_key(d) {
            r matches Action::Reply(Reply::Html(h)) && h@ == listing_page(
                listing_title(d),
                listing_items(d, m.dirs[d]),
            )
        } else {
            r matches Action::Reply(Reply::Status(404))
        },
        ResolveView::NotFound => r matches Action::Reply(Reply::Status(404)),
    }
}

/// The first step of answering a request for a URL path (as received).
pub fn handle_path(index: &FileIndex, url_path: &str) -> (r: Action)
    ensures
        first_step(index.model(), url_decoded(url_path@), r),
        !url_path@.contains('%') ==> first_step(index.model(), url_path@, r),
{
    match resolve(index, url_path) {
        ResolveResult::Markdown(p) => Action::Inspect(FileKind::Markdown, p),
        ResolveResult::Static(p) => Action::Inspect(FileKind::Static, p),
        ResolveResult::Redirect(to) => Action::Reply(Reply::PermanentRedirect(to)),
        ResolveResult::Directory(dir) => match index.dir_entries(&dir) {
            Some(entries) => Action::Reply(Reply::Html(directory_listing(dir.as_str(), entries))),
            None => Action::Reply(Reply::Status(404)),
        },
        ResolveResult::NotFound => Action::Reply(Reply::Status(404)),
    }
}

/// The step after looking up the size of a file: files over the limit are refused
/// with `403`; the others (and those whose size could not be had) are read.
pub fn on_metadata(kind: FileKind, path: String, size: Option<u64>) -> (r: Action)
    ensures
        match kind {
            FileKind::Markdown => if size matches Some(n) && n > MAX_MARKDOWN_BYTES {
                r matches Action::Reply(Reply::StatusText(403, t)) && t@
                    == "Markdown file too large (max 10MB)"@
            } else {
                r matches Action::Read(FileKind::Markdown, p) && p@ == path@
            },
            FileKind::Static => if size matches Some(n) && n > MAX_STATIC_BYTES {
                r matches Action::Reply(Reply::StatusText(403, t)) && t@ == "File too large (max 100MB)"@
            } else {
                r matches Action::Read(FileKind::Static, p) && p@ == path@
            },
        },
{
    match kind {
        FileKind::Markdown => {
            if let Some(n) = size {
                if n > MAX_MARKDOWN_BYTES {
                    return Action::Reply(
                        Reply::StatusText(403, String::from_str("Markdown file too large (max 10MB)")),
                    );
                }
            }
            Action::Read(FileKind::Markdown, path)
        },
        FileKind::Static => {
            if let Some(n) = size {
                if n > MAX_STATIC_BYTES {
                    return Action::Reply(
                        Reply::StatusText(403, String::from_str("File too large (max 100MB)")),
                    );
                }
            }
            Action::Read(FileKind::Static, path)
        },
    }
}

/// The reply once a Markdown file has been read (`None` when reading failed): the
/// rendered page, or `500`.
pub fn on_markdown_read(url_path: &str, content: Option<String>) -> (r: Reply)
    ensures
        match content {
            Some(c) => r matches Reply::Html(h) && h@ == markdown_page(
                page_title(toc_run(markdown_events(c@, MARKDOWN_OPTIONS)).title),
                toc_html(toc_run(markdown_events(c@, MARKDOWN_OPTIONS)).toc),
                markdown_html(c@, MARKDOWN_OPTIONS),
            ),
            None => r matches Reply::Status(500),
        },
{
    match content {
        Some(c) => {
            let rendered = render_markdown(c.as_str());
            Reply::Html(wrap_html(&rendered, url_path))
        },
        None => Reply::Status(500),
    }
}

/// The reply once a static file has been read (`None` when reading failed): its bytes
/// with the content type guessed from its path, or `500`.
pub fn on_static_read(path: &str, bytes: Option<Vec<u8>>) -> (r: Reply)
    ensures
        match bytes {
            Some(b) => r matches Reply::File { content_type, body } && content_type@ == guessed_mime(
                path@,
            ) && body@ == b@,
            None => r matches Reply::Status(500),
        },
{
    match bytes {
        Some(body) => Reply::File { content_type: guess_mime(path), body },
        None => Reply::Status(500),
    }
}

} // verus!
