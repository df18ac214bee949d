use vstd::prelude::*;
use crate::scan::{
    hidden_name, hidden_url, initial_model, law_indexed_files_were_walked_visible_files, url_of_path, walk_all,
    visible_path, walk_step, EntryKind, FileIndex, IndexModel, WalkEntry,
};
use vstd::utf8::{
    char_is_scalar, char_u32_cast, decode_utf8, encode_scalar, encode_utf8, encode_utf8_decode_utf8,
    encode_utf8_valid_utf8, has_width_1_encoding, is_ascii_chars, is_ascii_chars_encode_utf8,
    is_scalar, valid_utf8,
};
use crate::text::{
    chars_end_with_md, chars_of, ends_with_md, has_md_extension, md_extension, push_char,
    string_from_chars, strip_md,
};

verus! {

/// What a request URL leads to.
#[derive(Debug)]
pub enum ResolveResult {
    /// A Markdown file on disk, to be rendered.
    Markdown(String),
    /// Any other file on disk, served as it is.
    Static(String),
    /// A directory URL (ending in `/`) to be listed.
    Directory(String),
    /// A permanent redirect to another URL.
    Redirect(String),
    NotFound,
}

/// A resolution, as plain values.
pub enum ResolveView {
    Markdown(Seq<char>),
    Static(Seq<char>),
    Directory(Seq<char>),
    Redirect(Seq<char>),
    NotFound,
}

impl View for ResolveResult {
    type V = ResolveView;

    open spec fn view(&self) -> ResolveView {
        match self {
            ResolveResult::Markdown(p) => ResolveView::Markdown(p@),
            ResolveResult::Static(p) => ResolveView::Static(p@),
            ResolveResult::Directory(p) => ResolveView::Directory(p@),
            ResolveResult::Redirect(p) => ResolveView::Redirect(p@),
            ResolveResult::NotFound => ResolveView::NotFound,
        }
    }
}

/// The value of a hexadecimal digit byte (`0-9`, `a-f`, `A-F`).
pub open spec fn hex_value(b: u8) -> Option<u8> {
    if 0x30 <= b <= 0x39 {
        Some((b - 0x30) as u8)
    } else if 0x41 <= b <= 0x46 {
        Some((b - 0x41 + 10) as u8)
    } else if 0x61 <= b <= 0x66 {
        Some((b - 0x61 + 10) as u8)
    } else {
        None
    }
}

/// Percent-decoding of bytes: each `%` followed by two hexadecimal digits stands for the
/// byte they write; every other byte stands for itself.
pub open spec fn percent_decode_bytes(b: Seq<u8>) -> Seq<u8>
    decreases b.len(),
{
    if b.len() == 0 {
        Seq::empty()
    } else if b[0] == 0x25 && b.len() >= 3 && hex_value(b[1]) is Some && hex_value(b[2]) is Some {
        seq![(hex_value(b[1])->0 * 16 + hex_value(b[2])->0) as u8] + percent_decode_bytes(b.skip(3))
    } else {
        seq![b[0]] + percent_decode_bytes(b.skip(1))
    }
}

/// The text that percent-decoding `url` and reading the bytes as UTF-8 (lossily) gives.
pub uninterp spec fn percent_decoded(url: Seq<char>) -> Seq<char>;

/// The decoded text of a URL: the percent-decoded bytes read as UTF-8 when they are
/// valid UTF-8, and the lossy reading (`percent_decoded`) otherwise.
pub open spec fn url_decoded(url: Seq<char>) -> Seq<char> {
    let bytes = percent_decode_bytes(encode_utf8(url));
    if valid_utf8(bytes) {
        decode_utf8(bytes)
    } else {
        percent_decoded(url)
    }
}

/// Percent-decodes a URL with `percent_encoding::percent_decode_str` and reads the
/// bytes as UTF-8 with `decode_utf8_lossy`. The decoding keeps every byte but a `%`
/// followed by two hexadecimal digits (`after_percent_sign`), and a lossy reading of
/// valid UTF-8 changes nothing; what the lossy reading makes of invalid UTF-8 is left to
/// the name `percent_decoded`.
#[verifier::external_body]
pub fn decode_url(url: &str) -> (r: String)
    ensures
        r@ == percent_decoded(url@),
        valid_utf8(percent_decode_bytes(encode_utf8(url@))) ==> r@ == decode_utf8(
            percent_decode_bytes(encode_utf8(url@)),
        ),
{
    percent_encoding::percent_decode_str(url).decode_utf8_lossy().to_string()
}

proof fn lemma_scalar_has_no_percent_byte(v: u32)
    requires
        is_scalar(v),
        v != 0x25,
    ensures
        forall|i: int| 0 <= i < encode_scalar(v).len() ==> #[trigger] encode_scalar(v)[i] != 0x25,
{
    if has_width_1_encoding(v) {
        assert((v & 0x7F) as u8 != 0x25) by (bit_vector)
            requires
                v <= 0x7F,
                v != 0x25,
        ;
    } else {
        assert(0xC0 | ((v >> 6) & 0x1F) as u8 != 0x25u8) by (bit_vector);
        assert(0xE0 | ((v >> 12) & 0x0F) as u8 != 0x25u8) by (bit_vector);
        assert(0xF0 | ((v >> 18) & 0x7) as u8 != 0x25u8) by (bit_vector);
        assert(0x80 | (v & 0x3F) as u8 != 0x25u8) by (bit_vector);
        assert(0x80 | ((v >> 6) & 0x3F) as u8 != 0x25u8) by (bit_vector);
        assert(0x80 | ((v >> 12) & 0x3F) as u8 != 0x25u8) by (bit_vector);
    }
}

/// The UTF-8 encoding of a text without `%` has no `%` byte.
proof fn lemma_encoding_has_no_percent_byte(s: Seq<char>)
    requires
        !s.contains('%'),
    ensures
        forall|i: int| 0 <= i < encode_utf8(s).len() ==> #[trigger] encode_utf8(s)[i] != 0x25,
    decreases s.len(),
{
    if s.len() > 0 {
        let c = s[0];
        char_is_scalar(c);
        char_u32_cast(c, c as u32);
        assert(c != '%');
        assert((c as u32) != 0x25);
        lemma_scalar_has_no_percent_byte(c as u32);
        assert(!s.drop_first().contains('%')) by {
            if s.drop_first().contains('%') {
                let k = choose|k: int| 0 <= k < s.drop_first().len() && s.drop_first()[k] == '%';
                assert(s[k + 1] == '%');
            }
        }
        lemma_encoding_has_no_percent_byte(s.drop_first());
        let a = encode_scalar(c as u32);
        let b = encode_utf8(s.drop_first());
        assert forall|i: int| 0 <= i < encode_utf8(s).len() implies #[trigger] encode_utf8(s)[i]
            != 0x25 by {
            if i < a.len() {
                assert(encode_utf8(s)[i] == a[i]);
            } else {
                assert(encode_utf8(s)[i] == b[i - a.len()]);
            }
        }
    }
}

/// Bytes with no `%` decode to themselves.
proof fn lemma_decode_without_percent(b: Seq<u8>)
    requires
        forall|i: int| 0 <= i < b.len() ==> #[trigger] b[i] != 0x25,
    ensures
        percent_decode_bytes(b) == b,
    decreases b.len(),
{
    if b.len() > 0 {
        assert(b[0] != 0x25);
        let t = b.skip(1);
        assert forall|i: int| 0 <= i < t.len() implies #[trigger] t[i] != 0x25 by {
            assert(t[i] == b[i + 1]);
        }
        lemma_decode_without_percent(t);
        assert(seq![b[0]] + t =~= b);
    }
}

/// A URL with no `%` decodes to itself.
pub proof fn law_url_without_percent_decodes_to_itself(url: Seq<char>)
    requires
        !url.contains('%'),
    ensures
        url_decoded(url) == url,
{
    lemma_encoding_has_no_percent_byte(url);
    lemma_decode_without_percent(encode_utf8(url));
    encode_utf8_valid_utf8(url);
    encode_utf8_decode_utf8(url);
}

/// `s` without its trailing slashes.
pub open spec fn trim_slashes(s: Seq<char>) -> Seq<char>
    decreases s.len(),
{
    if s.len() > 0 && s.last() == '/' {
        trim_slashes(s.drop_last())
    } else {
        s
    }
}

/// Removes the trailing slashes of a URL (`trim_end_matches('/')`).
pub fn trim_trailing_slashes(s: &str) -> (r: String)
    ensures
        r@ == trim_slashes(s@),
{
    let v = chars_of(s);
    let n = v.len();
    let mut k = n;
    proof {
        assert(v@.take(n as int) =~= v@);
    }
    while k > 0 && v[k - 1] == '/'
        invariant
            k <= n == v@.len(),
            trim_slashes(v@.take(k as int)) == trim_slashes(v@),
        decreases k,
    {
        assert(v@.take(k as int).drop_last() =~= v@.take(k - 1));
        k = k - 1;
    }
    proof {
        assert(trim_slashes(v@.take(k as int)) == v@.take(k as int));
        assert(v@.subrange(0, k as int) =~= v@.take(k as int));
    }
    string_from_chars(&v, 0, k)
}

/// The URL of a directory as given, or `/` for the empty URL.
pub open spec fn request_path(decoded: Seq<char>) -> Seq<char> {
    if decoded.len() == 0 {
        seq!['/']
    } else {
        decoded
    }
}

/// For a URL ending in `.md`, the clean URL it stands for (`/` when nothing precedes `.md`).
pub open spec fn canonical_of_md(u: Seq<char>) -> Seq<char> {
    if u.len() == 3 {
        seq!['/']
    } else {
        u.take(u.len() - 3)
    }
}

/// What a decoded request URL resolves to in an index.
pub open spec fn resolution(m: IndexModel, decoded: Seq<char>) -> ResolveView {
    let u = request_path(decoded);
    let canonical = canonical_of_md(u);
    if ends_with_md(u) && (m.files.contains_key(canonical) || m.dirs.contains_key(
        canonical.push('/'),
    )) {
        ResolveView::Redirect(canonical)
    } else if u.last() == '/' {
        if m.dirs.contains_key(u) {
            let readme = trim_slashes(u) + "/README"@;
            let index = trim_slashes(u) + "/index"@;
            if m.files.contains_key(readme) {
                ResolveView::Markdown(m.files[readme])
            } else if m.files.contains_key(index) {
                ResolveView::Markdown(m.files[index])
            } else {
                ResolveView::Directory(u)
            }
        } else {
            ResolveView::NotFound
        }
    } else if m.files.contains_key(u) {
        if md_extension(m.files[u]) {
            ResolveView::Markdown(m.files[u])
        } else {
            ResolveView::Static(m.files[u])
        }
    } else if m.files.contains_key(u + ".md"@) {
        ResolveView::Markdown(m.files[u + ".md"@])
    } else if m.dirs.contains_key(u.push('/')) {
        ResolveView::Redirect(u.push('/'))
    } else {
        ResolveView::NotFound
    }
}

fn slash() -> (s: String)
    ensures
        s@ == seq!['/'],
{
    let mut s = String::new();
    push_char(&mut s, '/');
    proof {
        assert(s@ =~= seq!['/']);
    }
    s
}

/// Resolves an already decoded request URL against the index.
pub fn resolve_decoded(index: &FileIndex, url: &str) -> (r: ResolveResult)
    ensures
        r@ == resolution(index.model(), url@),
{
    let ghost m = index.model();
    let v0 = chars_of(url);
    let v = if v0.len() == 0 {
        vec!['/']
    } else {
        v0
    };
    assert(v@ =~= request_path(url@));
    let n = v.len();
    let u = string_from_chars(&v, 0, n);
    assert(v@.subrange(0, n as int) =~= v@);
    if chars_end_with_md(&v) {
        let canonical = if n == 3 {
            slash()
        } else {
            let c = string_from_chars(&v, 0, n - 3);
            assert(v@.subrange(0, n - 3) =~= v@.take(n - 3));
            c
        };
        let mut canonical_dir = canonical.clone();
        push_char(&mut canonical_dir, '/');
        if index.has_file(&canonical) || index.has_dir(&canonical_dir) {
            return ResolveResult::Redirect(canonical);
        }
    }
    if v[n - 1] == '/' {
        if index.has_dir(&u) {
            let base = trim_trailing_slashes(u.as_str());
            let mut readme = base.clone();
            readme.append("/README");
            if let Some(p) = index.file_path(&readme) {
                return ResolveResult::Markdown(p);
            }
            let mut index_md = base;
            index_md.append("/index");
            if let Some(p) = index.file_path(&index_md) {
                return ResolveResult::Markdown(p);
            }
            return ResolveResult::Directory(u);
        }
        return ResolveResult::NotFound;
    }
    if let Some(p) = index.file_path(&u) {
        if has_md_extension(p.as_str()) {
            return ResolveResult::Markdown(p);
        } else {
            return ResolveResult::Static(p);
        }
    }
    let mut with_md = u.clone();
    with_md.append(".md");
    if let Some(p) = index.file_path(&with_md) {
        return ResolveResult::Markdown(p);
    }
    let mut as_dir = u;
    push_char(&mut as_dir, '/');
    if index.has_dir(&as_dir) {
        return ResolveResult::Redirect(as_dir);
    }
    ResolveResult::NotFound
}

/// Resolves a request URL (percent-encoded, as received) against the index.
pub fn resolve(index: &FileIndex, incoming: &str) -> (r: ResolveResult)
    ensures
        r@ == resolution(index.model(), url_decoded(incoming@)),
        !incoming@.contains('%') ==> r@ == resolution(index.model(), incoming@),
{
    let url_path = decode_url(incoming);
    proof {
        if !incoming@.contains('%') {
            law_url_without_percent_decodes_to_itself(incoming@);
        }
    }
    resolve_decoded(index, url_path.as_str())
}

/// Nothing outside the index is ever served: a file that a URL resolves to is the
/// file of some clean URL of the index, whatever the URL holds (`..`, `%2e%2e`, ...).
pub proof fn law_only_indexed_files_are_served(m: IndexModel, decoded: Seq<char>)
    ensures
        resolution(m, decoded) matches ResolveView::Markdown(p) ==> exists|k: Seq<char>|
            m.files.contains_key(k) && m.files[k] == p,
        resolution(m, decoded) matches ResolveView::Static(p) ==> exists|k: Seq<char>|
            m.files.contains_key(k) && m.files[k] == p,
{
    let u = request_path(decoded);
    let readme = trim_slashes(u) + "/README"@;
    let index = trim_slashes(u) + "/index"@;
    let with_md = u + ".md"@;
    if m.files.contains_key(readme) {
        assert(m.files.contains_key(readme) && m.files[readme] == m.files[readme]);
    }
    if m.files.contains_key(index) {
        assert(m.files.contains_key(index) && m.files[index] == m.files[index]);
    }
    if m.files.contains_key(u) {
        assert(m.files.contains_key(u) && m.files[u] == m.files[u]);
    }
    if m.files.contains_key(with_md) {
        assert(m.files.contains_key(with_md) && m.files[with_md] == m.files[with_md]);
    }
}

/// Hidden files are never served, nor anything that the walk did not meet: whatever URL
/// is requested of an index built from a walk, the file it resolves to is a regular,
/// non-hidden file of that walk.
pub proof fn law_only_walked_visible_files_are_served(es: Seq<WalkEntry>, decoded: Seq<char>)
    ensures
        walk_all(initial_model(), es) matches Some(m) ==> (match resolution(m, decoded) {
            ResolveView::Markdown(p) | ResolveView::Static(p) => exists|i: int|
                0 <= i < es.len() && #[trigger] es[i].fs_path@ == p && es[i].kind == EntryKind::File
                    && !es[i].is_root && !hidden_name(es[i].file_name) && visible_path(es[i]),
            _ => true,
        }),
{
    if let Some(m) = walk_all(initial_model(), es) {
        law_only_indexed_files_are_served(m, decoded);
        law_indexed_files_were_walked_visible_files(es);
        match resolution(m, decoded) {
            ResolveView::Markdown(p) | ResolveView::Static(p) => {
                let k = choose|k: Seq<char>| m.files.contains_key(k) && m.files[k] == p;
                assert(m.files.contains_key(k));
            },
            _ => {},
        }
    }
}

/// A redirect always leads to a URL other than the one requested.
pub proof fn law_redirect_leads_elsewhere(m: IndexModel, decoded: Seq<char>)
    ensures
        resolution(m, decoded) matches ResolveView::Redirect(to) ==> to != request_path(decoded),
{
    let u = request_path(decoded);
    if ends_with_md(u) {
        let c = canonical_of_md(u);
        assert(c.len() != u.len());
    }
    assert(u.push('/').len() != u.len());
}

/// The clean URL of a Markdown file (no `.md`, no trailing `/`) serves that file.
pub proof fn law_clean_url_serves_markdown(m: IndexModel, u: Seq<char>)
    requires
        u.len() > 0,
        u.last() != '/',
        !ends_with_md(u),
        m.files.contains_key(u),
        md_extension(m.files[u]),
    ensures
        resolution(m, u) == ResolveView::Markdown(m.files[u]),
{
}

/// A URL ending in `.md` redirects to the clean URL of the file it names.
pub proof fn law_md_url_redirects_to_clean_url(m: IndexModel, u: Seq<char>)
    requires
        ends_with_md(u),
        u.len() > 3,
        m.files.contains_key(u.take(u.len() - 3)),
    ensures
        resolution(m, u) == ResolveView::Redirect(u.take(u.len() - 3)),
{
}

/// A URL ending in `.md` whose clean URL is a listed directory redirects to that clean
/// URL (`/guide.md` to `/guide` when `/guide/` is a directory).
pub proof fn law_md_url_of_directory_redirects(m: IndexModel, u: Seq<char>)
    requires
        ends_with_md(u),
        u.len() > 3,
        m.dirs.contains_key(u.take(u.len() - 3).push('/')),
    ensures
        resolution(m, u) == ResolveView::Redirect(u.take(u.len() - 3)),
{
}

/// A URL without trailing `/` or `.md`: an indexed file is served (as a page when it is
/// Markdown on disk, else as a static file); else the file with `.md` added is served as
/// a page; else a listed directory of that name is redirected to with a trailing `/`;
/// else nothing is found.
pub proof fn law_plain_url_resolution(m: IndexModel, u: Seq<char>)
    requires
        u.len() > 0,
        u.last() != '/',
        !ends_with_md(u),
    ensures
        m.files.contains_key(u) && md_extension(m.files[u]) ==> resolution(m, u)
            == ResolveView::Markdown(m.files[u]),
        m.files.contains_key(u) && !md_extension(m.files[u]) ==> resolution(m, u)
            == ResolveView::Static(m.files[u]),
        !m.files.contains_key(u) && m.files.contains_key(u + ".md"@) ==> resolution(m, u)
            == ResolveView::Markdown(m.files[u + ".md"@]),
        !m.files.contains_key(u) && !m.files.contains_key(u + ".md"@) && m.dirs.contains_key(u.push('/'))
            ==> resolution(m, u) == ResolveView::Redirect(u.push('/')),
        !m.files.contains_key(u) && !m.files.contains_key(u + ".md"@) && !m.dirs.contains_key(
            u.push('/'),
        ) ==> resolution(m, u) == ResolveView::NotFound,
{
}

/// A listed directory with a `README` is served as that README.
pub proof fn law_directory_serves_its_readme(m: IndexModel, u: Seq<char>)
    requires
        u.len() > 0,
        u.last() == '/',
        m.dirs.contains_key(u),
        m.files.contains_key(trim_slashes(u) + "/README"@),
    ensures
        resolution(m, u) == ResolveView::Markdown(m.files[trim_slashes(u) + "/README"@]),
{
}

/// A directory without a README serves its `index` page, the root included: for a
/// listed directory URL `u` whose `README` is missing and whose `index` is indexed,
/// the URL resolves to that `index` file.
pub proof fn law_directory_serves_its_index(m: IndexModel, u: Seq<char>)
    requires
        u.len() > 0,
        u.last() == '/',
        m.dirs.contains_key(u),
        !m.files.contains_key(trim_slashes(u) + "/README"@),
        m.files.contains_key(trim_slashes(u) + "/index"@),
    ensures
        resolution(m, u) == ResolveView::Markdown(m.files[trim_slashes(u) + "/index"@]),
{
}

/// A listed directory with neither a `README` nor an `index` page is answered with its
/// listing, and an unlisted directory URL with not found.
pub proof fn law_directory_without_page_is_listed(m: IndexModel, u: Seq<char>)
    requires
        u.len() > 0,
        u.last() == '/',
        !m.files.contains_key(trim_slashes(u) + "/README"@),
        !m.files.contains_key(trim_slashes(u) + "/index"@),
    ensures
        m.dirs.contains_key(u) ==> resolution(m, u) == ResolveView::Directory(u),
        !m.dirs.contains_key(u) ==> resolution(m, u) == ResolveView::NotFound,
{
}

/// The root URL `/` serves the root's `README`, else its `index` page, else the listing
/// of the root; an empty request stands for `/`.
pub proof fn law_root_serves_readme_then_index(m: IndexModel)
    requires
        m.dirs.contains_key(seq!['/']),
    ensures
        resolution(m, Seq::empty()) == resolution(m, seq!['/']),
        m.files.contains_key("/README"@) ==> resolution(m, seq!['/']) == ResolveView::Markdown(
            m.files["/README"@],
        ),
        !m.files.contains_key("/README"@) && m.files.contains_key("/index"@) ==> resolution(
            m,
            seq!['/'],
        ) == ResolveView::Markdown(m.files["/index"@]),
        !m.files.contains_key("/README"@) && !m.files.contains_key("/index"@) ==> resolution(
            m,
            seq!['/'],
        ) == ResolveView::Directory(seq!['/']),
{
    let u = seq!['/'];
    assert(u.drop_last() =~= Seq::<char>::empty());
    assert(trim_slashes(Seq::<char>::empty()) == Seq::<char>::empty());
    assert(trim_slashes(u) == trim_slashes(u.drop_last()));
    assert(Seq::<char>::empty() + "/README"@ =~= "/README"@);
    assert(Seq::<char>::empty() + "/index"@ =~= "/index"@);
}

/// `guide.md` on disk is served at `/guide`: once a Markdown file is indexed, its clean
/// URL resolves to it.
pub proof fn law_indexed_markdown_is_served_at_clean_url(m: IndexModel, e: WalkEntry)
    requires
        !e.is_root,
        !hidden_name(e.file_name),
        e.kind == EntryKind::File,
        e.relative is Some,
        !hidden_url(url_of_path(e.relative->0@)),
        md_extension(e.fs_path@),
        strip_md(url_of_path(e.relative->0@)).len() > 0,
        strip_md(url_of_path(e.relative->0@)).last() != '/',
        !ends_with_md(strip_md(url_of_path(e.relative->0@))),
    ensures
        walk_step(m, e) matches Some(m2) && resolution(m2, strip_md(url_of_path(e.relative->0@)))
            == ResolveView::Markdown(e.fs_path@),
{
    let f = strip_md(url_of_path(e.relative->0@));
    let m2 = walk_step(m, e)->0;
    assert(m2.files.contains_key(f));
    assert(m2.files[f] == e.fs_path@);
    law_clean_url_serves_markdown(m2, f);
}

/// The bytes that URL path segments encode: the C0 controls, DEL, and
/// space `"` `#` `<` `>` `?` `` ` `` `{` `}`.
pub open spec fn in_path_segment_set(b: u8) -> bool {
    ||| b < 0x20
    ||| b == 0x7f
    ||| b == 0x20
    ||| b == 0x22
    ||| b == 0x23
    ||| b == 0x3c
    ||| b == 0x3e
    ||| b == 0x3f
    ||| b == 0x60
    ||| b == 0x7b
    ||| b == 0x7d
}

/// The upper-case hexadecimal digit of a value below 16.
pub open spec fn hex_digit(n: u8) -> char {
    if n < 10 {
        (0x30 + n) as char
    } else {
        (0x41 + n - 10) as char
    }
}

/// What one byte of the UTF-8 text becomes: `%XX` when it is not ASCII or is in the
/// set, the character itself otherwise.
pub open spec fn encode_byte(b: u8) -> Seq<char> {
    if b >= 0x80 || in_path_segment_set(b) {
        seq!['%', hex_digit(b / 16), hex_digit(b % 16)]
    } else {
        seq![b as char]
    }
}

/// The percent-encoding of a byte sequence, byte by byte.
pub open spec fn percent_encoded(bytes: Seq<u8>) -> Seq<char>
    decreases bytes.len(),
{
    if bytes.len() == 0 {
        Seq::empty()
    } else {
        percent_encoded(bytes.drop_last()) + encode_byte(bytes.last())
    }
}

/// A character that stands in a URL path as it is: ASCII and outside the set.
pub open spec fn plain_url_char(c: char) -> bool {
    c <= '\u{7f}' && !in_path_segment_set(c as u8)
}

proof fn lemma_plain_char(c: char)
    requires
        plain_url_char(c),
    ensures
        '\0' <= c <= '\u{7f}',
        ((c as u8) as char) == c,
{
}

proof fn lemma_plain_bytes(b: Seq<u8>, s: Seq<char>)
    requires
        b.len() == s.len(),
        forall|i: int| 0 <= i < s.len() ==> plain_url_char(#[trigger] s[i]) && b[i] == s[i] as u8,
    ensures
        percent_encoded(b) == s,
    decreases s.len(),
{
    if s.len() > 0 {
        let n = s.len() - 1;
        lemma_plain_bytes(b.drop_last(), s.drop_last());
        let c = s[n];
        lemma_plain_char(c);
        assert(percent_encoded(b) =~= s.drop_last().push(c));
        assert(s.drop_last().push(c) =~= s);
    }
}

/// A character that may stand in a link as it is: printable ASCII other than space,
/// `"`, `#`, `<`, `>`, `?`, `` ` ``, `{` and `}`.
pub open spec fn safe_in_link(c: char) -> bool {
    &&& '!' <= c <= '~'
    &&& c != '"' && c != '#' && c != '<' && c != '>'
    &&& c != '?' && c != '`' && c != '{' && c != '}'
}

proof fn lemma_encode_byte_is_safe(b: u8)
    ensures
        forall|i: int| 0 <= i < encode_byte(b).len() ==> safe_in_link(#[trigger] encode_byte(b)[i]),
{
    let e = encode_byte(b);
    if b >= 0x80 || in_path_segment_set(b) {
        assert(b / 16 < 16 && b % 16 < 16);
        assert(safe_in_link(hex_digit(b / 16))) by {
            let n = b / 16;
            if n < 10 {
                assert(0x30 <= 0x30 + n < 0x3a);
            } else {
                assert(0x41 <= 0x41 + n - 10 < 0x47);
            }
        }
        assert(safe_in_link(hex_digit(b % 16))) by {
            let n = b % 16;
            if n < 10 {
                assert(0x30 <= 0x30 + n < 0x3a);
            } else {
                assert(0x41 <= 0x41 + n - 10 < 0x47);
            }
        }
        assert forall|i: int| 0 <= i < e.len() implies safe_in_link(#[trigger] e[i]) by {
            if i == 0 {
                assert(e[i] == '%');
            }
        }
    } else {
        assert(safe_in_link(b as char));
    }
}

/// A link made by `encode_url_path` holds only characters that may stand in a link as
/// they are: every space, control character, non-ASCII byte and character of the set
/// `" # < > ? ` { }` has been percent-encoded.
pub proof fn law_encoded_link_is_safe(bytes: Seq<u8>)
    ensures
        forall|i: int| 0 <= i < percent_encoded(bytes).len() ==> safe_in_link(#[trigger] percent_encoded(bytes)[i]),
    decreases bytes.len(),
{
    if bytes.len() > 0 {
        law_encoded_link_is_safe(bytes.drop_last());
        lemma_encode_byte_is_safe(bytes.last());
        let a = percent_encoded(bytes.drop_last());
        let e = encode_byte(bytes.last());
        assert forall|i: int| 0 <= i < percent_encoded(bytes).len() implies safe_in_link(
            #[trigger] percent_encoded(bytes)[i],
        ) by {
            if i < a.len() {
                assert(percent_encoded(bytes)[i] == a[i]);
            } else {
                assert(percent_encoded(bytes)[i] == e[i - a.len()]);
            }
        }
    }
}

/// A path made only of characters that need no encoding is linked as it is.
pub proof fn law_plain_path_is_not_encoded(s: Seq<char>)
    requires
        forall|i: int| 0 <= i < s.len() ==> plain_url_char(#[trigger] s[i]),
    ensures
        percent_encoded(encode_utf8(s)) == s,
{
    assert(is_ascii_chars(s)) by {
        assert forall|i: int| 0 <= i < s.len() implies '\0' <= #[trigger] s[i] <= '\u{7f}' by {
            lemma_plain_char(s[i]);
        }
    }
    is_ascii_chars_encode_utf8(s);
    lemma_plain_bytes(encode_utf8(s), s);
}

/// The bytes of a text of ASCII characters.
pub open spec fn ascii_bytes(s: Seq<char>) -> Seq<u8> {
    Seq::new(s.len(), |i: int| s[i] as u8)
}

proof fn lemma_percent_encoded_front(b: Seq<u8>)
    requires
        b.len() > 0,
    ensures
        percent_encoded(b) == encode_byte(b[0]) + percent_encoded(b.skip(1)),
    decreases b.len(),
{
    if b.len() == 1 {
        assert(b.drop_last() =~= Seq::<u8>::empty());
        assert(b.skip(1) =~= Seq::<u8>::empty());
        assert(percent_encoded(b) =~= encode_byte(b[0]) + percent_encoded(b.skip(1)));
    } else {
        lemma_percent_encoded_front(b.drop_last());
        assert(b.drop_last().skip(1) =~= b.skip(1).drop_last());
        assert(b.drop_last()[0] == b[0]);
        assert(b.skip(1).last() == b.last());
        assert(percent_encoded(b) =~= encode_byte(b[0]) + percent_encoded(b.skip(1)));
    }
}

proof fn lemma_percent_encoded_is_ascii(b: Seq<u8>)
    ensures
        forall|i: int| 0 <= i < percent_encoded(b).len() ==> #[trigger] percent_encoded(b)[i] <= '\u{7f}',
    decreases b.len(),
{
    if b.len() > 0 {
        lemma_percent_encoded_is_ascii(b.drop_last());
        let a = percent_encoded(b.drop_last());
        let e = encode_byte(b.last());
        assert forall|i: int| 0 <= i < percent_encoded(b).len() implies #[trigger] percent_encoded(b)[i]
            <= '\u{7f}' by {
            if i < a.len() {
                assert(percent_encoded(b)[i] == a[i]);
            } else {
                assert(percent_encoded(b)[i] == e[i - a.len()]);
            }
        }
    }
}

proof fn lemma_hex_digit_value(n: u8)
    requires
        n < 16,
    ensures
        hex_value(hex_digit(n) as u8) == Some(n),
{
}

/// Decoding the bytes of an encoded link gives back the bytes it encodes, when none of
/// them is `%`.
proof fn lemma_decode_encoded(b: Seq<u8>)
    requires
        forall|i: int| 0 <= i < b.len() ==> #[trigger] b[i] != 0x25,
    ensures
        percent_decode_bytes(ascii_bytes(percent_encoded(b))) == b,
    decreases b.len(),
{
    if b.len() == 0 {
        assert(ascii_bytes(percent_encoded(b)) =~= Seq::<u8>::empty());
    } else {
        let rest = b.skip(1);
        assert forall|i: int| 0 <= i < rest.len() implies #[trigger] rest[i] != 0x25 by {
            assert(rest[i] == b[i + 1]);
        }
        lemma_decode_encoded(rest);
        lemma_percent_encoded_front(b);
        let b0 = b[0];
        let x = encode_byte(b0);
        let y = percent_encoded(rest);
        let all = ascii_bytes(x + y);
        assert(ascii_bytes(percent_encoded(b)) == all);
        if b0 >= 0x80 || in_path_segment_set(b0) {
            lemma_hex_digit_value(b0 / 16);
            lemma_hex_digit_value(b0 % 16);
            assert(all[0] == 0x25);
            assert(all[1] == hex_digit(b0 / 16) as u8);
            assert(all[2] == hex_digit(b0 % 16) as u8);
            assert(all.skip(3) =~= ascii_bytes(y));
            assert((b0 / 16) * 16 + b0 % 16 == b0);
        } else {
            assert(((b0 as char) as u8) == b0);
            assert(all[0] == b0);
            assert(all.skip(1) =~= ascii_bytes(y));
        }
        assert(percent_decode_bytes(all) =~= b);
    }
}

proof fn lemma_ascii_char_bounds(c: char)
    requires
        c <= '\u{7f}',
    ensures
        '\0' <= c <= '\u{7f}',
{
}

/// Decoding a link that `encode_url_path` made from a text without `%` gives that text
/// back.
pub proof fn law_decoding_undoes_link_encoding(p: Seq<char>)
    requires
        !p.contains('%'),
    ensures
        url_decoded(percent_encoded(encode_utf8(p))) == p,
{
    let b = encode_utf8(p);
    let link = percent_encoded(b);
    lemma_encoding_has_no_percent_byte(p);
    lemma_percent_encoded_is_ascii(b);
    assert(is_ascii_chars(link)) by {
        assert forall|i: int| 0 <= i < link.len() implies '\0' <= #[trigger] link[i] <= '\u{7f}' by {
            lemma_ascii_char_bounds(link[i]);
        }
    }
    is_ascii_chars_encode_utf8(link);
    assert(encode_utf8(link) =~= ascii_bytes(link));
    lemma_decode_encoded(b);
    encode_utf8_valid_utf8(p);
    encode_utf8_decode_utf8(p);
}

/// A link made by `encode_url_path` from a text without `%` resolves like the text itself.
pub proof fn law_encoded_link_resolves_like_its_text(m: IndexModel, p: Seq<char>)
    requires
        !p.contains('%'),
    ensures
        resolution(m, url_decoded(percent_encoded(encode_utf8(p)))) == resolution(m, url_decoded(p)),
        resolution(m, url_decoded(p)) == resolution(m, p),
{
    law_decoding_undoes_link_encoding(p);
    law_url_without_percent_decodes_to_itself(p);
}

fn hex_char(n: u8) -> (c: char)
    requires
        n < 16,
    ensures
        c == hex_digit(n),
{
    if n < 10 {
        (0x30 + n) as char
    } else {
        (0x41 + n - 10) as char
    }
}

/// Percent-encodes each segment of a URL path, keeping the `/` separators: the UTF-8
/// bytes that are not ASCII or lie in the path segment set become `%XX`. (`/` is ASCII
/// and outside the set, so encoding byte by byte is the same as encoding segment by
/// segment.)
pub fn encode_url_path(path: &str) -> (r: String)
    ensures
        r@ == percent_encoded(encode_utf8(path@)),
{
    let bytes = path.as_bytes();
    let mut out = String::new();
    let mut i: usize = 0;
    while i < bytes.len()
        invariant
            i <= bytes@.len(),
            bytes@ == encode_utf8(path@),
            out@ == percent_encoded(bytes@.take(i as int)),
        decreases bytes.len() - i,
    {
        let b = bytes[i];
        proof {
            assert(bytes@.take(i + 1).drop_last() =~= bytes@.take(i as int));
        }
        if b >= 0x80 || b < 0x20 || b == 0x7f || b == 0x20 || b == 0x22 || b == 0x23 || b == 0x3c
            || b == 0x3e || b == 0x3f || b == 0x60 || b == 0x7b || b == 0x7d {
            push_char(&mut out, '%');
            push_char(&mut out, hex_char(b / 16));
            push_char(&mut out, hex_char(b % 16));
        } else {
            push_char(&mut out, b as char);
        }
        proof {
            assert(out@ =~= percent_encoded(bytes@.take(i as int)) + encode_byte(b));
        }
        i = i + 1;
    }
    proof {
        assert(bytes@.take(bytes@.len() as int) =~= bytes@);
    }
    out
}

} // verus!
