use vstd::prelude::*;
use vstd::utf8::encode_utf8;
use crate::markdown::{toc_view, RenderedMarkdown, TocEntry, TocEntryView};
use crate::resolve::{
    encode_url_path, law_decoding_undoes_link_encoding, percent_encoded, trim_slashes, trim_trailing_slashes,
    url_decoded,
};
use crate::scan::{
    entries_view, entry_under, file_name_of, initial_model, law_entries_sit_under_their_parent, law_index_is_well_shaped,
    lemma_url_is_parent_then_name, parent_dir_url, parent_url, plain_names, starts_with_slash, walk_all,
    DirEntry, DirEntryView, WalkEntry,
};
use crate::text::{last_index_of, lemma_last_index_of};
use crate::text::{chars_of, escape_for_html, escaped, law_escaped_text_has_no_markup, push_char};

verus! {

/// The stylesheet embedded in every page.
pub const STYLE: &'static str = ":root { color-scheme: light dark; --fg: #1f2328; --bg: #ffffff; --muted: #656d76; --link: #0969da; --border: #d0d7de; --code-bg: #f6f8fa; }
@media (prefers-color-scheme: dark) { :root { --fg: #e6edf3; --bg: #0d1117; --muted: #8d96a0; --link: #4493f8; --border: #30363d; --code-bg: #161b22; } }
* { box-sizing: border-box; }
body { margin: 0; color: var(--fg); background: var(--bg); font-family: -apple-system, BlinkMacSystemFont, \"Segoe UI\", Helvetica, Arial, sans-serif; line-height: 1.6; }
a { color: var(--link); text-decoration: none; }
a:hover { text-decoration: underline; }
.container { display: flex; max-width: 1200px; margin: 0 auto; padding: 2rem 1rem; gap: 2rem; }
.toc { flex: 0 0 220px; position: sticky; top: 1rem; align-self: flex-start; font-size: 0.9rem; }
.toc-header { font-weight: 600; color: var(--muted); margin-bottom: 0.5rem; }
.toc-list { list-style: none; padding: 0; margin: 0; }
.toc-level-2 { padding-left: 0.75rem; }
.toc-level-3 { padding-left: 1.5rem; }
.toc-level-4, .toc-level-5, .toc-level-6 { padding-left: 2.25rem; }
.content { flex: 1 1 auto; min-width: 0; }
pre, code { background: var(--code-bg); border-radius: 6px; font-family: ui-monospace, SFMono-Regular, Menlo, monospace; }
code { padding: 0.1em 0.3em; }
pre { padding: 1rem; overflow-x: auto; }
pre code { padding: 0; }
table { border-collapse: collapse; }
th, td { border: 1px solid var(--border); padding: 0.4rem 0.8rem; }
blockquote { margin: 0; padding-left: 1rem; border-left: 4px solid var(--border); color: var(--muted); }
img { max-width: 100%; }
.dir-list { list-style: none; padding: 0; }
.dir-entry { display: block; padding: 0.3rem 0; }
@media (max-width: 800px) { .container { flex-direction: column; } .toc { position: static; } }
";

/// The decimal digit of a value below 10.
pub open spec fn digit_char(d: nat) -> char {
    (0x30 + d) as char
}

/// The decimal notation of a number.
pub open spec fn decimal(n: nat) -> Seq<char>
    decreases n,
{
    if n < 10 {
        seq![digit_char(n)]
    } else {
        decimal(n / 10) + seq![digit_char(n % 10)]
    }
}

/// The number that a string of decimal digits stands for.
pub open spec fn digits_value(s: Seq<char>) -> int
    decreases s.len(),
{
    if s.len() == 0 {
        0
    } else {
        digits_value(s.drop_last()) * 10 + (s.last() as int - '0' as int)
    }
}

/// The decimal notation of a number is made of the digits `0` to `9`, starts with a
/// non-zero digit unless it is `0`, and stands for that number.
pub proof fn law_decimal_stands_for_its_number(n: nat)
    ensures
        digits_value(decimal(n)) == n,
        decimal(n).len() > 0,
        forall|i: int| 0 <= i < decimal(n).len() ==> '0' <= #[trigger] decimal(n)[i] <= '9',
        n > 0 ==> decimal(n)[0] != '0',
    decreases n,
{
    assert('0' as int == 0x30);
    if n < 10 {
        assert(decimal(n) =~= seq![digit_char(n)]);
        assert(seq![digit_char(n)].drop_last() =~= Seq::<char>::empty());
        assert(digit_char(n) as int == 0x30 + n);
        assert(digits_value(Seq::<char>::empty()) == 0);
        assert(digits_value(decimal(n)) == digits_value(decimal(n).drop_last()) * 10 + (decimal(n).last() as int
            - '0' as int));
    } else {
        law_decimal_stands_for_its_number(n / 10);
        let a = decimal(n / 10);
        let d = digit_char(n % 10);
        assert(d as int == 0x30 + n % 10);
        assert((a + seq![d]).drop_last() =~= a);
        assert((a + seq![d]).last() == d);
        assert(n == (n / 10) * 10 + n % 10);
        assert(decimal(n) == a + seq![d]);
        assert(digits_value(a + seq![d]) == digits_value(a) * 10 + (d as int - '0' as int));
        assert(digits_value(a) * 10 + (n % 10) == n);
        assert forall|i: int| 0 <= i < decimal(n).len() implies '0' <= #[trigger] decimal(n)[i] <= '9' by {
            if i < a.len() {
                assert(decimal(n)[i] == a[i]);
            }
        }
        assert(decimal(n)[0] == a[0]);
    }
}

fn digit(d: u8) -> (c: char)
    requires
        d < 10,
    ensures
        c == digit_char(d as nat),
{
    (0x30 + d) as char
}

/// Writes a number in decimal.
pub fn decimal_string(n: u8) -> (s: String)
    ensures
        s@ == decimal(n as nat),
{
    let mut s = String::new();
    proof {
        reveal_with_fuel(decimal, 3);
    }
    if n >= 100 {
        push_char(&mut s, digit(n / 100));
        push_char(&mut s, digit((n / 10) % 10));
        push_char(&mut s, digit(n % 10));
        assert(s@ =~= decimal(n as nat));
    } else if n >= 10 {
        push_char(&mut s, digit(n / 10));
        push_char(&mut s, digit(n % 10));
        assert(s@ =~= decimal(n as nat));
    } else {
        push_char(&mut s, digit(n));
        assert(s@ =~= decimal(n as nat));
    }
    s
}

/// One line of the table of contents: a link to the heading's anchor, its text escaped.
pub open spec fn toc_item(e: TocEntryView) -> Seq<char> {
    "<li class=\"toc-level-"@ + decimal(e.level as nat) + "\"><a href=\"#"@ + e.id + "\">"@ + escaped(
        e.text,
    ) + "</a></li>"@
}

pub open spec fn toc_items(toc: Seq<TocEntryView>) -> Seq<char>
    decreases toc.len(),
{
    if toc.len() == 0 {
        Seq::empty()
    } else {
        toc_items(toc.drop_last()) + toc_item(toc.last())
    }
}

/// The table of contents as an HTML list; nothing when there are no headings.
pub open spec fn toc_html(toc: Seq<TocEntryView>) -> Seq<char> {
    if toc.len() == 0 {
        Seq::empty()
    } else {
        "<ul class='toc-list'>"@ + toc_items(toc) + "</ul>"@
    }
}

/// Escapes text for HTML: `&`, `<`, `>` and `"` become entities.
pub fn html_escape(text: &str) -> (r: String)
    ensures
        r@ == escaped(text@),
{
    escape_for_html(text)
}

/// Builds the HTML list of the table of contents.
pub fn build_toc_html(toc: &Vec<TocEntry>) -> (r: String)
    ensures
        r@ == toc_html(toc_view(toc@)),
{
    let ghost tv = toc_view(toc@);
    if toc.len() == 0 {
        return String::new();
    }
    let mut html = String::from_str("<ul class='toc-list'>");
    let mut i: usize = 0;
    while i < toc.len()
        invariant
            i <= toc@.len(),
            tv == toc_view(toc@),
            html@ == "<ul class='toc-list'>"@ + toc_items(tv.take(i as int)),
        decreases toc.len() - i,
    {
        let entry = &toc[i];
        proof {
            assert(tv.take(i + 1).drop_last() =~= tv.take(i as int));
            assert(tv.take(i + 1).last() == entry@);
        }
        html.append("<li class=\"toc-level-");
        let level = decimal_string(entry.level);
        html.append(level.as_str());
        html.append("\"><a href=\"#");
        html.append(entry.id.as_str());
        html.append("\">");
        let text = html_escape(entry.text.as_str());
        html.append(text.as_str());
        html.append("</a></li>");
        proof {
            assert(html@ =~= "<ul class='toc-list'>"@ + toc_items(tv.take(i + 1)));
        }
        i = i + 1;
    }
    html.append("</ul>");
    proof {
        assert(tv.take(toc@.len() as int) =~= tv);
    }
    html
}

/// The start of every page, up to the text of its title.
pub const PAGE_OPEN: &'static str = "<!DOCTYPE html>\n<html lang=\"en\">\n<head>\n    <meta charset=\"UTF-8\">\n    <meta name=\"viewport\" content=\"width=device-width, initial-scale=1.0\">\n    <title>";

pub const TITLE_CLOSE: &'static str = "</title>\n    <style>";

pub const MD_AFTER_STYLE: &'static str = "</style>\n</head>\n<body>\n    <div class=\"container\">\n        <nav class=\"toc\">\n            <div class=\"toc-header\">Contents</div>\n            ";

pub const MD_AFTER_TOC: &'static str = "\n        </nav>\n        <main class=\"content\">\n            ";

pub const MD_CLOSE: &'static str = "\n        </main>\n    </div>\n</body>\n</html>";

/// The title of a page: its first level-1 heading, or `serve-md`.
pub open spec fn page_title(title: Option<Seq<char>>) -> Seq<char> {
    match title {
        Some(t) => t,
        None => "serve-md"@,
    }
}

/// A rendered Markdown page: the title (escaped for HTML), the stylesheet, the table of
/// contents beside the content.
pub open spec fn markdown_page(title: Seq<char>, toc: Seq<char>, content: Seq<char>) -> Seq<char> {
    PAGE_OPEN@ + escaped(title) + TITLE_CLOSE@ + STYLE@ + MD_AFTER_STYLE@ + toc + MD_AFTER_TOC@ + content
        + MD_CLOSE@
}

/// Markdown cannot bring markup into a page through its title: after the opening of the
/// page, up to the closing `</title>`, stands the escaped title, with no `<`, `>` or `"`.
pub proof fn law_page_title_carries_no_markup(title: Seq<char>, toc: Seq<char>, content: Seq<char>)
    ensures
        ({
            let page = markdown_page(title, toc, content);
            let start = PAGE_OPEN@.len() as int;
            let end = start + escaped(title).len();
            &&& page.take(start) == PAGE_OPEN@
            &&& page.subrange(start, end) == escaped(title)
            &&& forall|i: int| start <= i < end ==> page[i] != '<' && page[i] != '>' && page[i] != '"'
            &&& page.subrange(end, end + TITLE_CLOSE@.len()) == TITLE_CLOSE@
        }),
{
    let page = markdown_page(title, toc, content);
    let start = PAGE_OPEN@.len() as int;
    let e = escaped(title);
    let end = start + e.len();
    law_escaped_text_has_no_markup(title);
    let rest = STYLE@ + MD_AFTER_STYLE@ + toc + MD_AFTER_TOC@ + content + MD_CLOSE@;
    assert(page =~= PAGE_OPEN@ + e + TITLE_CLOSE@ + rest);
    assert(page.take(start) =~= PAGE_OPEN@);
    assert(page.subrange(start, end) =~= e);
    assert(page.subrange(end, end + TITLE_CLOSE@.len()) =~= TITLE_CLOSE@);
    assert forall|i: int| start <= i < end implies page[i] != '<' && page[i] != '>' && page[i] != '"' by {
        assert(page[i] == e[i - start]);
    }
}

/// Wraps rendered Markdown in a full HTML page.
pub fn wrap_html(rendered: &RenderedMarkdown, _path: &str) -> (r: String)
    ensures
        r@ == markdown_page(
            page_title(crate::markdown::title_view(rendered.title)),
            toc_html(toc_view(rendered.toc@)),
            rendered.html@,
        ),
{
    let toc = build_toc_html(&rendered.toc);
    let mut out = String::from_str(PAGE_OPEN);
    let title = match &rendered.title {
        Some(t) => escape_for_html(t.as_str()),
        None => escape_for_html("serve-md"),
    };
    out.append(title.as_str());
    out.append(TITLE_CLOSE);
    out.append(STYLE);
    out.append(MD_AFTER_STYLE);
    out.append(toc.as_str());
    out.append(MD_AFTER_TOC);
    out.append(rendered.html.as_str());
    out.append(MD_CLOSE);
    out
}

/// Strict lexicographic order of names by code point. (For UTF-8 text this is the
/// byte-wise order in which `String`s compare.)
pub open spec fn name_lt(a: Seq<char>, b: Seq<char>) -> bool
    decreases a.len(),
{
    if a.len() == 0 {
        b.len() > 0
    } else if b.len() == 0 {
        false
    } else if a[0] != b[0] {
        (a[0] as u32) < (b[0] as u32)
    } else {
        name_lt(a.drop_first(), b.drop_first())
    }
}

/// Names are ordered as text, by code point: a name sorts before every longer name that
/// starts with it, and two names that first differ at some character sort by that
/// character.
pub proof fn law_names_sort_by_code_point(p: Seq<char>, c1: char, c2: char, r1: Seq<char>, r2: Seq<char>)
    ensures
        name_lt(p, p.push(c1) + r1),
        (c1 as u32) < (c2 as u32) ==> name_lt(p.push(c1) + r1, p.push(c2) + r2),
        !name_lt(p, p),
    decreases p.len(),
{
    lemma_name_lt_irreflexive(p);
    let x = p.push(c1) + r1;
    let y = p.push(c2) + r2;
    if p.len() > 0 {
        law_names_sort_by_code_point(p.drop_first(), c1, c2, r1, r2);
        assert(x.drop_first() =~= p.drop_first().push(c1) + r1);
        assert(y.drop_first() =~= p.drop_first().push(c2) + r2);
        assert(x[0] == p[0] && y[0] == p[0]);
    } else {
        assert(x[0] == c1 && y[0] == c2);
    }
}

/// Inserts an entry after every entry whose name is not greater than its own.
pub open spec fn insert_by_name(s: Seq<DirEntryView>, e: DirEntryView) -> Seq<DirEntryView>
    decreases s.len(),
{
    if s.len() == 0 {
        seq![e]
    } else if name_lt(e.name, s[0].name) {
        seq![e] + s
    } else {
        seq![s[0]] + insert_by_name(s.drop_first(), e)
    }
}

/// The entries ordered by name; entries with equal names keep their order.
pub open spec fn sort_by_name(s: Seq<DirEntryView>) -> Seq<DirEntryView>
    decreases s.len(),
{
    if s.len() == 0 {
        Seq::empty()
    } else {
        insert_by_name(sort_by_name(s.drop_last()), s.last())
    }
}

/// The entries that are directories (or, with `false`, that are files), in order.
pub open spec fn only_kind(s: Seq<DirEntryView>, is_dir: bool) -> Seq<DirEntryView>
    decreases s.len(),
{
    if s.len() == 0 {
        Seq::empty()
    } else if s.last().is_dir == is_dir {
        only_kind(s.drop_last(), is_dir).push(s.last())
    } else {
        only_kind(s.drop_last(), is_dir)
    }
}

/// No name sorts after another one that sorts after it.
pub open spec fn sorted_by_name(s: Seq<DirEntryView>) -> bool {
    forall|i: int, j: int| 0 <= i < j < s.len() ==> !name_lt(#[trigger] s[j].name, #[trigger] s[i].name)
}

pub(crate) proof fn lemma_name_lt_irreflexive(a: Seq<char>)
    ensures
        !name_lt(a, a),
    decreases a.len(),
{
    if a.len() > 0 {
        assert(a.drop_first() == a.drop_first());
        lemma_name_lt_irreflexive(a.drop_first());
    }
}

pub(crate) proof fn lemma_name_lt_transitive(a: Seq<char>, b: Seq<char>, c: Seq<char>)
    requires
        name_lt(a, b),
        name_lt(b, c),
    ensures
        name_lt(a, c),
    decreases a.len(),
{
    if a.len() > 0 && b.len() > 0 && c.len() > 0 && a[0] == b[0] && b[0] == c[0] {
        lemma_name_lt_transitive(a.drop_first(), b.drop_first(), c.drop_first());
    }
}

proof fn lemma_insert_by_name_multiset(s: Seq<DirEntryView>, e: DirEntryView)
    ensures
        insert_by_name(s, e).to_multiset() == s.to_multiset().insert(e),
    decreases s.len(),
{
    broadcast use vstd::seq_lib::group_to_multiset_ensures, vstd::multiset::group_multiset_axioms;

    if s.len() == 0 {
        assert(seq![e] =~= Seq::<DirEntryView>::empty().push(e));
        assert(s =~= Seq::<DirEntryView>::empty());
    } else if name_lt(e.name, s[0].name) {
        assert(seq![e] + s =~= s.insert(0, e));
    } else {
        let rest = s.drop_first();
        lemma_insert_by_name_multiset(rest, e);
        vstd::seq_lib::lemma_multiset_commutative(seq![s[0]], insert_by_name(rest, e));
        vstd::seq_lib::lemma_multiset_commutative(seq![s[0]], rest);
        assert(seq![s[0]] + rest =~= s);
        assert(insert_by_name(s, e).to_multiset() =~= s.to_multiset().insert(e));
    }
}

proof fn lemma_insert_by_name_sorted(s: Seq<DirEntryView>, e: DirEntryView)
    requires
        sorted_by_name(s),
    ensures
        sorted_by_name(insert_by_name(s, e)),
    decreases s.len(),
{
    broadcast use vstd::seq_lib::group_to_multiset_ensures, vstd::multiset::group_multiset_axioms;

    if s.len() == 0 {
    } else if name_lt(e.name, s[0].name) {
        let r = seq![e] + s;
        assert forall|i: int, j: int| 0 <= i < j < r.len() implies !name_lt(
            #[trigger] r[j].name,
            #[trigger] r[i].name,
        ) by {
            if i == 0 {
                if name_lt(r[j].name, e.name) {
                    lemma_name_lt_transitive(r[j].name, e.name, s[0].name);
                    if j == 1 {
                        lemma_name_lt_irreflexive(s[0].name);
                    } else {
                        assert(r[j] == s[j - 1]);
                    }
                }
            } else {
                assert(r[i] == s[i - 1] && r[j] == s[j - 1]);
            }
        }
    } else {
        let rest = s.drop_first();
        assert(sorted_by_name(rest)) by {
            assert forall|i: int, j: int| 0 <= i < j < rest.len() implies !name_lt(
                #[trigger] rest[j].name,
                #[trigger] rest[i].name,
            ) by {
                assert(rest[i] == s[i + 1] && rest[j] == s[j + 1]);
            }
        }
        lemma_insert_by_name_sorted(rest, e);
        lemma_insert_by_name_multiset(rest, e);
        let t = insert_by_name(rest, e);
        let r = seq![s[0]] + t;
        assert forall|i: int, j: int| 0 <= i < j < r.len() implies !name_lt(
            #[trigger] r[j].name,
            #[trigger] r[i].name,
        ) by {
            if i == 0 {
                let x = r[j];
                assert(x == t[j - 1]);
                assert(t.contains(x));
                assert(t.to_multiset().count(x) > 0);
                if x != e {
                    assert(rest.to_multiset().count(x) > 0);
                    assert(rest.contains(x));
                    let k = choose|k: int| 0 <= k < rest.len() && rest[k] == x;
                    assert(s[k + 1] == x);
                }
            } else {
                assert(r[i] == t[i - 1] && r[j] == t[j - 1]);
            }
        }
    }
}

/// A directory listing's order: the entries sorted by name are in order and are
/// exactly the given entries (a permutation of them).
pub proof fn law_sort_by_name_sorts(s: Seq<DirEntryView>)
    ensures
        sorted_by_name(sort_by_name(s)),
        sort_by_name(s).to_multiset() == s.to_multiset(),
    decreases s.len(),
{
    broadcast use vstd::seq_lib::group_to_multiset_ensures;

    if s.len() > 0 {
        law_sort_by_name_sorts(s.drop_last());
        lemma_insert_by_name_sorted(sort_by_name(s.drop_last()), s.last());
        lemma_insert_by_name_multiset(sort_by_name(s.drop_last()), s.last());
        assert(s.drop_last().push(s.last()) =~= s);
    } else {
        assert(sort_by_name(s).to_multiset() =~= s.to_multiset());
    }
}

/// The entries with the given name, in order.
pub open spec fn named(s: Seq<DirEntryView>, n: Seq<char>) -> Seq<DirEntryView>
    decreases s.len(),
{
    if s.len() == 0 {
        Seq::empty()
    } else if s.last().name == n {
        named(s.drop_last(), n).push(s.last())
    } else {
        named(s.drop_last(), n)
    }
}

proof fn lemma_named_prepend(x: DirEntryView, t: Seq<DirEntryView>, n: Seq<char>)
    ensures
        named(seq![x] + t, n) == (if x.name == n { seq![x] } else { Seq::empty() }) + named(t, n),
    decreases t.len(),
{
    let u = seq![x] + t;
    let h = if x.name == n { seq![x] } else { Seq::<DirEntryView>::empty() };
    if t.len() == 0 {
        assert(u =~= seq![x]);
        assert(u.drop_last() =~= Seq::<DirEntryView>::empty());
        assert(named(u.drop_last(), n) == Seq::<DirEntryView>::empty());
        assert(u.last() == x);
        assert(named(t, n) == Seq::<DirEntryView>::empty());
        assert(h + named(t, n) =~= h);
        assert(Seq::<DirEntryView>::empty().push(x) =~= seq![x]);
    } else {
        lemma_named_prepend(x, t.drop_last(), n);
        assert(u.drop_last() =~= seq![x] + t.drop_last());
        assert(u.last() == t.last());
        assert((h + named(t.drop_last(), n)).push(t.last()) =~= h + named(t.drop_last(), n).push(t.last()));
    }
}

proof fn lemma_named_none(t: Seq<DirEntryView>, n: Seq<char>)
    requires
        forall|i: int| 0 <= i < t.len() ==> (#[trigger] t[i]).name != n,
    ensures
        named(t, n) == Seq::<DirEntryView>::empty(),
    decreases t.len(),
{
    if t.len() > 0 {
        assert(t.last() == t[t.len() - 1]);
        lemma_named_none(t.drop_last(), n);
    }
}

proof fn lemma_insert_named(t: Seq<DirEntryView>, e: DirEntryView, n: Seq<char>)
    requires
        sorted_by_name(t),
    ensures
        named(insert_by_name(t, e), n) == (if e.name == n { named(t, n).push(e) } else { named(t, n) }),
    decreases t.len(),
{
    if t.len() == 0 {
        assert(insert_by_name(t, e) == seq![e]);
        lemma_named_prepend(e, t, n);
        assert(seq![e] + t =~= seq![e]);
        assert(named(t, n) == Seq::<DirEntryView>::empty());
        assert(seq![e] + Seq::<DirEntryView>::empty() =~= Seq::<DirEntryView>::empty().push(e));
        assert(Seq::<DirEntryView>::empty() + Seq::<DirEntryView>::empty() =~= Seq::<DirEntryView>::empty());
    } else {
        assert(t =~= seq![t[0]] + t.drop_first());
        lemma_named_prepend(t[0], t.drop_first(), n);
        if name_lt(e.name, t[0].name) {
            lemma_named_prepend(e, t, n);
            if e.name == n {
                assert forall|i: int| 0 <= i < t.len() implies (#[trigger] t[i]).name != n by {
                    if t[i].name == n {
                        if i == 0 {
                            lemma_name_lt_irreflexive(n);
                        } else {
                            assert(!name_lt(t[i].name, t[0].name));
                        }
                    }
                }
                lemma_named_none(t, n);
                assert(seq![e] + Seq::<DirEntryView>::empty() =~= Seq::<DirEntryView>::empty().push(e));
            } else {
                assert(Seq::<DirEntryView>::empty() + named(t, n) =~= named(t, n));
            }
        } else {
            let r = t.drop_first();
            assert(sorted_by_name(r)) by {
                assert forall|i: int, j: int| 0 <= i < j < r.len() implies !name_lt(
                    #[trigger] r[j].name,
                    #[trigger] r[i].name,
                ) by {
                    assert(r[i] == t[i + 1] && r[j] == t[j + 1]);
                }
            }
            lemma_insert_named(r, e, n);
            lemma_named_prepend(t[0], insert_by_name(r, e), n);
            let h = if t[0].name == n { seq![t[0]] } else { Seq::<DirEntryView>::empty() };
            assert((h + named(r, n)).push(e) =~= h + named(r, n).push(e));
        }
    }
}

/// Sorting by name is stable: the entries with any one name come out in the order in
/// which they went in.
pub proof fn law_sort_by_name_is_stable(s: Seq<DirEntryView>, n: Seq<char>)
    ensures
        named(sort_by_name(s), n) == named(s, n),
    decreases s.len(),
{
    if s.len() > 0 {
        law_sort_by_name_is_stable(s.drop_last(), n);
        law_sort_by_name_sorts(s.drop_last());
        lemma_insert_named(sort_by_name(s.drop_last()), s.last(), n);
    }
}

pub(crate) proof fn lemma_name_lt_total(a: Seq<char>, b: Seq<char>)
    requires
        a != b,
    ensures
        name_lt(a, b) || name_lt(b, a),
    decreases a.len(),
{
    if a.len() > 0 && b.len() > 0 && a[0] == b[0] {
        if a.drop_first() == b.drop_first() {
            assert(a =~= seq![a[0]] + a.drop_first());
            assert(b =~= seq![b[0]] + b.drop_first());
        }
        lemma_name_lt_total(a.drop_first(), b.drop_first());
    } else if a.len() == 0 && b.len() == 0 {
        assert(a =~= b);
    } else if a.len() > 0 && b.len() > 0 {
        vstd::utf8::char_u32_cast(a[0], a[0] as u32);
        vstd::utf8::char_u32_cast(b[0], b[0] as u32);
    }
}

/// Two lists in strictly increasing name order that hold the same entries are equal.
proof fn lemma_strictly_sorted_unique(a: Seq<DirEntryView>, b: Seq<DirEntryView>)
    requires
        forall|i: int, j: int| 0 <= i < j < a.len() ==> name_lt(#[trigger] a[i].name, #[trigger] a[j].name),
        forall|i: int, j: int| 0 <= i < j < b.len() ==> name_lt(#[trigger] b[i].name, #[trigger] b[j].name),
        a.to_multiset() == b.to_multiset(),
    ensures
        a == b,
    decreases a.len(),
{
    broadcast use vstd::seq_lib::group_to_multiset_ensures, vstd::multiset::group_multiset_axioms;

    vstd::seq_lib::to_multiset_len(a);
    vstd::seq_lib::to_multiset_len(b);
    if a.len() > 0 {
        vstd::seq_lib::to_multiset_contains(a, a[0]);
        vstd::seq_lib::to_multiset_contains(b, a[0]);
        vstd::seq_lib::to_multiset_contains(a, b[0]);
        vstd::seq_lib::to_multiset_contains(b, b[0]);
        assert(a.contains(a[0]));
        assert(b.contains(a[0]));
        let k = choose|k: int| 0 <= k < b.len() && b[k] == a[0];
        assert(b.contains(b[0]));
        assert(a.contains(b[0]));
        let m = choose|m: int| 0 <= m < a.len() && a[m] == b[0];
        if k > 0 {
            assert(name_lt(b[0].name, b[k].name));
            if m > 0 {
                assert(name_lt(a[0].name, a[m].name));
                lemma_name_lt_transitive(a[0].name, b[0].name, a[0].name);
                lemma_name_lt_irreflexive(a[0].name);
            } else {
                lemma_name_lt_irreflexive(a[0].name);
            }
        }
        assert(a[0] == b[0]);
        let a1 = a.drop_first();
        let b1 = b.drop_first();
        assert(a1 =~= a.remove(0));
        assert(b1 =~= b.remove(0));
        assert(a1.to_multiset() == b1.to_multiset());
        assert forall|i: int, j: int| 0 <= i < j < a1.len() implies name_lt(#[trigger] a1[i].name, #[trigger] a1[j].name) by {
            assert(a1[i] == a[i + 1] && a1[j] == a[j + 1]);
        }
        assert forall|i: int, j: int| 0 <= i < j < b1.len() implies name_lt(#[trigger] b1[i].name, #[trigger] b1[j].name) by {
            assert(b1[i] == b[i + 1] && b1[j] == b[j + 1]);
        }
        lemma_strictly_sorted_unique(a1, b1);
        assert(a =~= seq![a[0]] + a1);
        assert(b =~= seq![b[0]] + b1);
    }
}

/// The entries of one kind hold each entry of that kind as often as the whole list does.
proof fn lemma_only_kind_counts(s: Seq<DirEntryView>, is_dir: bool, x: DirEntryView)
    ensures
        only_kind(s, is_dir).to_multiset().count(x) == if x.is_dir == is_dir {
            s.to_multiset().count(x)
        } else {
            0
        },
    decreases s.len(),
{
    broadcast use vstd::seq_lib::group_to_multiset_ensures, vstd::multiset::group_multiset_axioms;

    if s.len() == 0 {
        assert(only_kind(s, is_dir) =~= Seq::<DirEntryView>::empty());
    } else {
        lemma_only_kind_counts(s.drop_last(), is_dir, x);
        assert(s.drop_last().push(s.last()) =~= s);
    }
}

/// No entry name occurs twice among the entries of one kind.
pub open spec fn names_distinct_per_kind(s: Seq<DirEntryView>) -> bool {
    forall|i: int, j: int|
        0 <= i < s.len() && 0 <= j < s.len() && i != j && (#[trigger] s[i]).name == (#[trigger] s[j]).name
            ==> s[i].is_dir != s[j].is_dir
}

proof fn lemma_sorted_kind_is_strict(es: Seq<DirEntryView>, is_dir: bool)
    requires
        names_distinct_per_kind(es),
    ensures
        forall|i: int, j: int|
            0 <= i < j < sort_by_name(only_kind(es, is_dir)).len() ==> name_lt(
                #[trigger] sort_by_name(only_kind(es, is_dir))[i].name,
                #[trigger] sort_by_name(only_kind(es, is_dir))[j].name,
            ),
{
    broadcast use vstd::seq_lib::group_to_multiset_ensures, vstd::multiset::group_multiset_axioms;

    let a = sort_by_name(only_kind(es, is_dir));
    law_sort_by_name_sorts(only_kind(es, is_dir));
    assert(es.no_duplicates()) by {
        assert forall|i: int, j: int| 0 <= i < es.len() && 0 <= j < es.len() && i != j implies es[i] != es[j] by {
            if es[i] == es[j] {
                assert(es[i].name == es[j].name);
            }
        }
    }
    es.lemma_multiset_has_no_duplicates();
    assert forall|x: DirEntryView| a.to_multiset().contains(x) implies a.to_multiset().count(x) == 1 by {
        lemma_only_kind_counts(es, is_dir, x);
    }
    a.lemma_multiset_has_no_duplicates_conv();
    assert forall|i: int, j: int| 0 <= i < j < a.len() implies name_lt(#[trigger] a[i].name, #[trigger] a[j].name) by {
        assert(!name_lt(a[j].name, a[i].name));
        if a[i].name == a[j].name {
            assert(a[i] != a[j]);
            assert(a.to_multiset().count(a[i]) > 0 && a.to_multiset().count(a[j]) > 0);
            lemma_only_kind_counts(es, is_dir, a[i]);
            lemma_only_kind_counts(es, is_dir, a[j]);
            assert(es.contains(a[i]) && es.contains(a[j]));
            let p = choose|p: int| 0 <= p < es.len() && es[p] == a[i];
            let q = choose|q: int| 0 <= q < es.len() && es[q] == a[j];
            assert(es[p].name == es[q].name);
        } else {
            lemma_name_lt_total(a[i].name, a[j].name);
        }
    }
}

/// A directory listing does not depend on the order of the entries, as long as no name
/// occurs twice among the entries of one kind.
pub proof fn law_listing_ignores_entry_order(path: Seq<char>, es: Seq<DirEntryView>, es2: Seq<DirEntryView>)
    requires
        es2.to_multiset() == es.to_multiset(),
        names_distinct_per_kind(es),
    ensures
        listing_items(path, es2) == listing_items(path, es),
{
    broadcast use vstd::seq_lib::group_to_multiset_ensures, vstd::multiset::group_multiset_axioms;

    assert(names_distinct_per_kind(es2)) by {
        assert forall|i: int, j: int|
            0 <= i < es2.len() && 0 <= j < es2.len() && i != j && (#[trigger] es2[i]).name == (
            #[trigger] es2[j]).name implies es2[i].is_dir != es2[j].is_dir by {
            if es2[i].is_dir == es2[j].is_dir {
                assert(es2.contains(es2[i]) && es2.contains(es2[j]));
                assert(es.to_multiset().count(es2[i]) > 0 && es.to_multiset().count(es2[j]) > 0);
                let p = choose|p: int| 0 <= p < es.len() && es[p] == es2[i];
                let q = choose|q: int| 0 <= q < es.len() && es[q] == es2[j];
                if p == q {
                    assert(es2[i] == es2[j]);
                    let s0 = es2.subrange(0, if i < j { j } else { i });
                    let s1 = es2.subrange(if i < j { j } else { i }, es2.len() as int);
                    assert(es2 =~= s0 + s1);
                    vstd::seq_lib::lemma_multiset_commutative(s0, s1);
                    assert(es2.to_multiset().count(es2[i]) >= 2);
                    assert(es.no_duplicates()) by {
                        assert forall|x: int, y: int| 0 <= x < es.len() && 0 <= y < es.len() && x != y implies es[x] != es[y] by {
                            if es[x] == es[y] {
                                assert(es[x].name == es[y].name);
                            }
                        }
                    }
                    es.lemma_multiset_has_no_duplicates();
                }
            }
        }
    }
    lemma_kind_sorted_equal(es, es2, true);
    lemma_kind_sorted_equal(es, es2, false);
}

/// Two entry lists with the same entries, and no name twice per kind, give the same
/// sorted entries of each kind.
proof fn lemma_kind_sorted_equal(es: Seq<DirEntryView>, es2: Seq<DirEntryView>, is_dir: bool)
    requires
        es2.to_multiset() == es.to_multiset(),
        names_distinct_per_kind(es),
        names_distinct_per_kind(es2),
    ensures
        sort_by_name(only_kind(es2, is_dir)) == sort_by_name(only_kind(es, is_dir)),
{
    broadcast use vstd::multiset::group_multiset_axioms;

    let a = sort_by_name(only_kind(es, is_dir));
    let b = sort_by_name(only_kind(es2, is_dir));
    law_sort_by_name_sorts(only_kind(es, is_dir));
    law_sort_by_name_sorts(only_kind(es2, is_dir));
    lemma_sorted_kind_is_strict(es, is_dir);
    lemma_sorted_kind_is_strict(es2, is_dir);
    assert forall|x: DirEntryView| a.to_multiset().count(x) == b.to_multiset().count(x) by {
        lemma_only_kind_counts(es, is_dir, x);
        lemma_only_kind_counts(es2, is_dir, x);
    }
    assert(a.to_multiset() =~= b.to_multiset());
    lemma_strictly_sorted_unique(b, a);
}

pub(crate) fn name_less(a: &String, b: &String) -> (r: bool)
    ensures
        r == name_lt(a@, b@),
{
    let va = chars_of(a.as_str());
    let vb = chars_of(b.as_str());
    let mut i: usize = 0;
    proof {
        assert(va@.skip(0) =~= va@);
        assert(vb@.skip(0) =~= vb@);
    }
    while i < va.len() && i < vb.len() && va[i] == vb[i]
        invariant
            i <= va@.len(),
            i <= vb@.len(),
            name_lt(a@, b@) == name_lt(va@.skip(i as int), vb@.skip(i as int)),
            va@ == a@,
            vb@ == b@,
        decreases va.len() - i,
    {
        proof {
            assert(va@.skip(i as int).drop_first() =~= va@.skip(i + 1));
            assert(vb@.skip(i as int).drop_first() =~= vb@.skip(i + 1));
        }
        i = i + 1;
    }
    if i == va.len() {
        i < vb.len()
    } else if i == vb.len() {
        false
    } else {
        (va[i] as u32) < (vb[i] as u32)
    }
}

proof fn lemma_insert_at(s: Seq<DirEntryView>, e: DirEntryView, j: int)
    requires
        0 <= j <= s.len(),
        forall|k: int| 0 <= k < j ==> !name_lt(e.name, #[trigger] s[k].name),
        j == s.len() || name_lt(e.name, s[j].name),
    ensures
        insert_by_name(s, e) == s.take(j).push(e) + s.skip(j),
    decreases j,
{
    if j == 0 {
        assert(s.take(0).push(e) + s.skip(0) =~= seq![e] + s);
    } else {
        let t = s.drop_first();
        assert forall|k: int| 0 <= k < j - 1 implies !name_lt(e.name, #[trigger] t[k].name) by {
            assert(t[k] == s[k + 1]);
        }
        lemma_insert_at(t, e, j - 1);
        assert(seq![s[0]] + (t.take(j - 1).push(e) + t.skip(j - 1)) =~= s.take(j).push(e) + s.skip(
            j,
        ));
    }
}

fn copy_entry(e: &DirEntry) -> (r: DirEntry)
    ensures
        r@ == e@,
{
    DirEntry { name: e.name.clone(), url: e.url.clone(), is_dir: e.is_dir }
}

fn insert_sorted(v: &mut Vec<DirEntry>, e: DirEntry)
    ensures
        entries_view(*final(v)) == insert_by_name(entries_view(*old(v)), e@),
{
    let ghost s = entries_view(*v);
    let ghost ev = e@;
    let mut j: usize = 0;
    while j < v.len() && !name_less(&e.name, &v[j].name)
        invariant
            j <= v@.len(),
            s == entries_view(*v),
            ev == e@,
            forall|k: int| 0 <= k < j ==> !name_lt(ev.name, #[trigger] s[k].name),
        decreases v.len() - j,
    {
        j = j + 1;
    }
    proof {
        lemma_insert_at(s, ev, j as int);
    }
    v.insert(j, e);
    proof {
        assert(entries_view(*v) =~= s.take(j as int).push(ev) + s.skip(j as int));
    }
}

/// The entries of one kind, ordered by name.
fn sorted_of_kind(entries: &Vec<DirEntry>, is_dir: bool) -> (r: Vec<DirEntry>)
    ensures
        entries_view(r) == sort_by_name(only_kind(entries_view(*entries), is_dir)),
{
    let ghost all = entries_view(*entries);
    let mut r: Vec<DirEntry> = Vec::new();
    let mut i: usize = 0;
    proof {
        assert(all.take(0) =~= Seq::<DirEntryView>::empty());
        assert(entries_view(r) =~= Seq::<DirEntryView>::empty());
    }
    while i < entries.len()
        invariant
            i <= entries@.len(),
            all == entries_view(*entries),
            entries_view(r) == sort_by_name(only_kind(all.take(i as int), is_dir)),
        decreases entries.len() - i,
    {
        proof {
            assert(all.take(i + 1).drop_last() =~= all.take(i as int));
            assert(all.take(i + 1).last() == entries@[i as int]@);
        }
        if entries[i].is_dir == is_dir {
            let e = copy_entry(&entries[i]);
            insert_sorted(&mut r, e);
            proof {
                let p = only_kind(all.take(i as int), is_dir);
                assert(p.push(entries@[i as int]@).drop_last() =~= p);
            }
        }
        i = i + 1;
    }
    proof {
        assert(all.take(entries@.len() as int) =~= all);
    }
    r
}

pub const DIR_TITLE_PREFIX: &'static str = "Directory: ";

pub const DIR_AFTER_STYLE: &'static str = "</style>\n</head>\n<body>\n    <div class=\"container\">\n        <main class=\"content\">\n            <h1>";

pub const DIR_AFTER_HEADING: &'static str = "</h1>\n            <ul class=\"dir-list\">";

pub const DIR_CLOSE: &'static str = "</ul>\n        </main>\n    </div>\n</body>\n</html>";

/// A URL as it stands in a link: its path segments percent-encoded.
pub open spec fn encoded_url(s: Seq<char>) -> Seq<char> {
    percent_encoded(encode_utf8(s))
}

/// The link to the parent directory; none at the root `/`.
pub open spec fn parent_item(path: Seq<char>) -> Seq<char> {
    if path == seq!['/'] {
        Seq::empty()
    } else {
        "<li><a href=\""@ + encoded_url(parent_url(trim_slashes(path)))
            + "\" class=\"dir-entry parent-dir\">../</a></li>"@
    }
}

/// The line of a listed entry: a folder icon and a trailing `/` for a directory,
/// a page icon for a file.
pub open spec fn entry_item(e: DirEntryView) -> Seq<char> {
    if e.is_dir {
        "<li><a href=\""@ + encoded_url(e.url) + "\" class=\"dir-entry dir\">&#128193; "@ + e.name
            + "/</a></li>"@
    } else {
        "<li><a href=\""@ + encoded_url(e.url) + "\" class=\"dir-entry file\">&#128196; "@ + e.name
            + "</a></li>"@
    }
}

pub open spec fn entry_items(s: Seq<DirEntryView>) -> Seq<char>
    decreases s.len(),
{
    if s.len() == 0 {
        Seq::empty()
    } else {
        entry_items(s.drop_last()) + entry_item(s.last())
    }
}

/// The items of a listing: the parent link, then the directories by name, then the
/// files by name.
pub open spec fn listing_items(path: Seq<char>, entries: Seq<DirEntryView>) -> Seq<char> {
    parent_item(path) + entry_items(sort_by_name(only_kind(entries, true))) + entry_items(
        sort_by_name(only_kind(entries, false)),
    )
}

/// A listing shows the parent link, then the directories, then the files, each group in
/// name order, and every entry exactly once.
pub proof fn law_listing_lists_directories_then_files(path: Seq<char>, es: Seq<DirEntryView>)
    ensures
        ({
            let a = sort_by_name(only_kind(es, true));
            let b = sort_by_name(only_kind(es, false));
            &&& listing_items(path, es) == parent_item(path) + entry_items(a) + entry_items(b)
            &&& forall|i: int| 0 <= i < a.len() ==> (#[trigger] a[i]).is_dir
            &&& forall|i: int| 0 <= i < b.len() ==> !(#[trigger] b[i]).is_dir
            &&& sorted_by_name(a)
            &&& sorted_by_name(b)
            &&& forall|x: DirEntryView|
                #[trigger] es.to_multiset().count(x) == a.to_multiset().count(x) + b.to_multiset().count(x)
        }),
{
    broadcast use vstd::seq_lib::group_to_multiset_ensures, vstd::multiset::group_multiset_axioms;

    let a = sort_by_name(only_kind(es, true));
    let b = sort_by_name(only_kind(es, false));
    law_sort_by_name_sorts(only_kind(es, true));
    law_sort_by_name_sorts(only_kind(es, false));
    assert forall|x: DirEntryView| #[trigger] es.to_multiset().count(x) == a.to_multiset().count(x)
        + b.to_multiset().count(x) by {
        lemma_only_kind_counts(es, true, x);
        lemma_only_kind_counts(es, false, x);
    }
    assert forall|i: int| 0 <= i < a.len() implies (#[trigger] a[i]).is_dir by {
        assert(a.contains(a[i]));
        lemma_only_kind_counts(es, true, a[i]);
    }
    assert forall|i: int| 0 <= i < b.len() implies !(#[trigger] b[i]).is_dir by {
        assert(b.contains(b[i]));
        lemma_only_kind_counts(es, false, b[i]);
    }
}

/// The parent link of a listing.
pub open spec fn parent_link(target: Seq<char>) -> Seq<char> {
    "<li><a href=\""@ + encoded_url(target) + "\" class=\"dir-entry parent-dir\">../</a></li>"@
}

proof fn lemma_trim_slashes(s: Seq<char>)
    ensures
        trim_slashes(s).len() <= s.len(),
        trim_slashes(s) == s.take(trim_slashes(s).len() as int),
        trim_slashes(s).len() > 0 ==> trim_slashes(s).last() != '/',
    decreases s.len(),
{
    if s.len() > 0 && s.last() == '/' {
        lemma_trim_slashes(s.drop_last());
        let t = trim_slashes(s);
        assert(s.drop_last().take(t.len() as int) =~= s.take(t.len() as int));
    } else {
        assert(s.take(s.len() as int) =~= s);
    }
}

/// The `../` link of a listing leads one level up: for a directory path other than the
/// root, the listing opens with a link to a directory `d` that ends with `/` and that,
/// followed by the last segment of the path (a name without `/`), gives the path
/// without its trailing slashes. Decoding the link gives `d` back.
pub proof fn law_parent_link_leads_one_level_up(path: Seq<char>, entries: Seq<DirEntryView>)
    requires
        starts_with_slash(path),
        trim_slashes(path).len() > 0,
    ensures
        ({
            let t = trim_slashes(path);
            let d = parent_url(t);
            &&& listing_items(path, entries).take(parent_link(d).len() as int) == parent_link(d)
            &&& starts_with_slash(d)
            &&& d.last() == '/'
            &&& d + file_name_of(t) == t
            &&& file_name_of(t).len() > 0
            &&& !file_name_of(t).contains('/')
            &&& !d.contains('%') ==> url_decoded(parent_link_target(path)) == d
        }),
{
    let t = trim_slashes(path);
    lemma_trim_slashes(path);
    assert(t[0] == path[0]);
    lemma_url_is_parent_then_name(t);
    lemma_last_index_of(t, '/');
    let d = parent_url(t);
    let pos = last_index_of(t, '/');
    if pos > 0 {
        assert(d[0] == t[0]);
    }
    assert(path != seq!['/']) by {
        if path == seq!['/'] {
            assert(path.drop_last() =~= Seq::<char>::empty());
            assert(trim_slashes(Seq::<char>::empty()) == Seq::<char>::empty());
        }
    }
    let items = listing_items(path, entries);
    assert(parent_item(path) == parent_link(d));
    assert(items.take(parent_link(d).len() as int) =~= parent_link(d));
    if !d.contains('%') {
        law_decoding_undoes_link_encoding(d);
    }
}

/// The target of the `../` link of a listing, as written in its `href`.
pub open spec fn parent_link_target(path: Seq<char>) -> Seq<char> {
    encoded_url(parent_url(trim_slashes(path)))
}

/// In an index built from a walk of plain paths, the `../` link of the listing of a
/// listed subdirectory leads to the directory that lists it.
pub proof fn law_parent_link_leads_to_the_listing_directory(
    es: Seq<WalkEntry>,
    d: Seq<char>,
    i: int,
    entries: Seq<DirEntryView>,
)
    requires
        forall|j: int| 0 <= j < es.len() ==> plain_names(#[trigger] es[j]),
        walk_all(initial_model(), es) matches Some(m) && m.dirs.contains_key(d) && 0 <= i < m.dirs[d].len()
            && m.dirs[d][i].is_dir,
    ensures
        ({
            let p = walk_all(initial_model(), es)->0.dirs[d][i].url;
            listing_items(p, entries).take(parent_link(d).len() as int) == parent_link(d)
        }),
{
    law_entries_sit_under_their_parent(es);
    let m = walk_all(initial_model(), es)->0;
    let e = m.dirs[d][i];
    assert(entry_under(d, e));
    let t = trim_slashes(e.url);
    lemma_trim_slashes(e.url);
    law_index_is_well_shaped(es);
    assert(starts_with_slash(d));
    assert(t.len() > 0 && t[0] == '/') by {
        assert(t[0] == (d + e.name)[0]);
    }
    assert(e.url[0] == t[0]);
    law_parent_link_leads_one_level_up(e.url, entries);
}

/// The title of a listing: `Index` at the root, else the path without trailing `/`.
pub open spec fn listing_title(path: Seq<char>) -> Seq<char> {
    if path == seq!['/'] {
        "Index"@
    } else {
        trim_slashes(path)
    }
}

/// A directory listing page.
pub open spec fn listing_page(title: Seq<char>, items: Seq<char>) -> Seq<char> {
    PAGE_OPEN@ + DIR_TITLE_PREFIX@ + title + TITLE_CLOSE@ + STYLE@ + DIR_AFTER_STYLE@ + title
        + DIR_AFTER_HEADING@ + items + DIR_CLOSE@
}

fn is_root_path(path: &str) -> (r: bool)
    ensures
        r == (path@ == seq!['/']),
{
    let v = chars_of(path);
    let r = v.len() == 1 && v[0] == '/';
    proof {
        if r {
            assert(v@ =~= seq!['/']);
        }
    }
    r
}

fn push_entry_items(items: &mut String, sorted: &Vec<DirEntry>)
    ensures
        final(items)@ == old(items)@ + entry_items(entries_view(*sorted)),
{
    let ghost start = items@;
    let ghost sv = entries_view(*sorted);
    let mut i: usize = 0;
    proof {
        assert(sv.take(0) =~= Seq::<DirEntryView>::empty());
        assert(items@ =~= start + entry_items(sv.take(0)));
    }
    while i < sorted.len()
        invariant
            i <= sorted@.len(),
            sv == entries_view(*sorted),
            items@ == start + entry_items(sv.take(i as int)),
        decreases sorted.len() - i,
    {
        let e = &sorted[i];
        proof {
            assert(sv.take(i + 1).drop_last() =~= sv.take(i as int));
            assert(sv.take(i + 1).last() == e@);
        }
        items.append("<li><a href=\"");
        let href = encode_url_path(e.url.as_str());
        items.append(href.as_str());
        if e.is_dir {
            items.append("\" class=\"dir-entry dir\">&#128193; ");
            items.append(e.name.as_str());
            items.append("/</a></li>");
        } else {
            items.append("\" class=\"dir-entry file\">&#128196; ");
            items.append(e.name.as_str());
            items.append("</a></li>");
        }
        proof {
            assert(items@ =~= start + entry_items(sv.take(i + 1)));
        }
        i = i + 1;
    }
    proof {
        assert(sv.take(sorted@.len() as int) =~= sv);
    }
}

/// Builds the listing page of a directory.
pub fn directory_listing(path: &str, entries: &Vec<DirEntry>) -> (r: String)
    ensures
        r@ == listing_page(listing_title(path@), listing_items(path@, entries_view(*entries))),
{
    let mut items = String::new();
    let at_root = is_root_path(path);
    if !at_root {
        let p = trim_trailing_slashes(path);
        let parent = parent_dir_url(p.as_str());
        items.append("<li><a href=\"");
        let href = encode_url_path(parent.as_str());
        items.append(href.as_str());
        items.append("\" class=\"dir-entry parent-dir\">../</a></li>");
    }
    proof {
        assert(items@ =~= parent_item(path@));
    }
    let dirs = sorted_of_kind(entries, true);
    let files = sorted_of_kind(entries, false);
    push_entry_items(&mut items, &dirs);
    push_entry_items(&mut items, &files);
    let title = if at_root {
        String::from_str("Index")
    } else {
        trim_trailing_slashes(path)
    };
    let mut out = String::from_str(PAGE_OPEN);
    out.append(DIR_TITLE_PREFIX);
    out.append(title.as_str());
    out.append(TITLE_CLOSE);
    out.append(STYLE);
    out.append(DIR_AFTER_STYLE);
    out.append(title.as_str());
    out.append(DIR_AFTER_HEADING);
    out.append(items.as_str());
    out.append(DIR_CLOSE);
    out
}

} // verus!
