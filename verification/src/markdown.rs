use vstd::prelude::*;
use crate::text::{
    alphanumeric, chars_of, escape_for_html, escaped, is_alphanumeric, lowercase, lowercase_of, push_char,
};
use pulldown_cmark::{html, Event, Options, Parser, Tag};

verus! {

/// The parser options used for every page: tables (`1 << 1`), strikethrough (`1 << 3`),
/// task lists (`1 << 4`) and smart punctuation (`1 << 5`), the bits of
/// `pulldown_cmark::Options::ENABLE_*`.
pub const MARKDOWN_OPTIONS: u32 = (1 << 1) | (1 << 3) | (1 << 4) | (1 << 5);

/// One event of the Markdown parser, as far as the table of contents needs it.
pub enum MdEvent {
    /// The start of a heading of the given level (1 to 6).
    HeadingStart(u8),
    HeadingEnd,
    Text(String),
    /// Inline code.
    Code(String),
    /// Any other event.
    Other,
}

/// A parser event, as plain values.
pub enum MdEventView {
    HeadingStart(u8),
    HeadingEnd,
    Text(Seq<char>),
    Code(Seq<char>),
    Other,
}

impl View for MdEvent {
    type V = MdEventView;

    open spec fn view(&self) -> MdEventView {
        match self {
            MdEvent::HeadingStart(l) => MdEventView::HeadingStart(*l),
            MdEvent::HeadingEnd => MdEventView::HeadingEnd,
            MdEvent::Text(t) => MdEventView::Text(t@),
            MdEvent::Code(c) => MdEventView::Code(c@),
            MdEvent::Other => MdEventView::Other,
        }
    }
}

/// The events that `pulldown_cmark` yields for `content` under the option bits.
pub uninterp spec fn markdown_events(content: Seq<char>, option_bits: u32) -> Seq<MdEventView>;

/// The HTML that `pulldown_cmark::html::push_html` writes for `content` under the option
/// bits, every raw HTML event being handed to it as a text event (which the writer
/// escapes, so the reader sees the markup as text).
pub uninterp spec fn markdown_html(content: Seq<char>, option_bits: u32) -> Seq<char>;

/// Runs `pulldown_cmark::Parser::new_ext` and converts each event it yields one for one
/// into an `MdEvent`; the sequence is named by `markdown_events`.
#[verifier::external_body]
fn parse_events(content: &str, option_bits: u32) -> (events: Vec<MdEvent>)
    ensures
        events@.map_values(|e: MdEvent| e@) == markdown_events(content@, option_bits),
{
    Parser::new_ext(content, Options::from_bits_truncate(option_bits)).map(|event| match event {
        Event::Start(Tag::Heading(level, _, _)) => MdEvent::HeadingStart(level as u8),
        Event::End(Tag::Heading(..)) => MdEvent::HeadingEnd,
        Event::Text(text) => MdEvent::Text(text.to_string()),
        Event::Code(code) => MdEvent::Code(code.to_string()),
        _ => MdEvent::Other,
    }).collect()
}

/// Renders `content` with `pulldown_cmark::html::push_html`, each raw HTML event turned
/// into a text event first; the result is named by `markdown_html`.
#[verifier::external_body]
fn render_html(content: &str, option_bits: u32) -> (out: String)
    ensures
        out@ == markdown_html(content@, option_bits),
{
    let events = Parser::new_ext(content, Options::from_bits_truncate(option_bits)).map(|event| match event {
        Event::Html(text) => Event::Text(text),
        other => other,
    });
    let mut out = String::new();
    html::push_html(&mut out, events);
    out
}

/// An entry of the table of contents: one heading of the page.
pub struct TocEntry {
    pub level: u8,
    pub text: String,
    /// The anchor of the heading (its slug).
    pub id: String,
}

/// A heading of the table of contents, as plain values.
pub struct TocEntryView {
    pub level: u8,
    pub text: Seq<char>,
    pub id: Seq<char>,
}

impl View for TocEntry {
    type V = TocEntryView;

    open spec fn view(&self) -> TocEntryView {
        TocEntryView { level: self.level, text: self.text@, id: self.id@ }
    }
}

/// A rendered Markdown page.
pub struct RenderedMarkdown {
    pub html: String,
    pub toc: Vec<TocEntry>,
    /// The text of the first level-1 heading, if there is one.
    pub title: Option<String>,
}

/// What one character becomes in a slug: a space turns into `-`, an alphanumeric
/// character stays, anything else is dropped.
pub open spec fn slug_char(c: char) -> Seq<char> {
    if c == ' ' {
        seq!['-']
    } else if alphanumeric(c) {
        seq![c]
    } else {
        Seq::empty()
    }
}

pub open spec fn slug_chars(s: Seq<char>) -> Seq<char>
    decreases s.len(),
{
    if s.len() == 0 {
        Seq::empty()
    } else {
        slug_chars(s.drop_last()) + slug_char(s.last())
    }
}

/// The anchor of a heading: its lower-case text with spaces as `-` and only
/// alphanumeric characters kept besides.
pub open spec fn slug(text: Seq<char>) -> Seq<char> {
    slug_chars(lowercase_of(text))
}

/// A slug holds no space: each of its characters is `-` or alphanumeric.
pub proof fn law_slug_has_no_spaces(text: Seq<char>)
    ensures
        forall|i: int|
            0 <= i < slug(text).len() ==> #[trigger] slug(text)[i] != ' ' && (slug(text)[i] == '-'
                || alphanumeric(slug(text)[i])),
{
    lemma_slug_chars(lowercase_of(text));
}

proof fn lemma_slug_chars(s: Seq<char>)
    ensures
        forall|i: int|
            0 <= i < slug_chars(s).len() ==> #[trigger] slug_chars(s)[i] != ' ' && (slug_chars(s)[i]
                == '-' || alphanumeric(slug_chars(s)[i])),
    decreases s.len(),
{
    if s.len() > 0 {
        lemma_slug_chars(s.drop_last());
        let a = slug_chars(s.drop_last());
        let b = slug_char(s.last());
        assert forall|i: int| 0 <= i < slug_chars(s).len() implies #[trigger] slug_chars(s)[i]
            != ' ' && (slug_chars(s)[i] == '-' || alphanumeric(slug_chars(s)[i])) by {
            if i < a.len() {
                assert(slug_chars(s)[i] == a[i]);
            } else {
                assert(slug_chars(s)[i] == b[i - a.len()]);
            }
        }
    }
}

/// How many `-` a text holds.
pub open spec fn dash_count(s: Seq<char>) -> nat
    decreases s.len(),
{
    if s.len() == 0 {
        0
    } else {
        dash_count(s.drop_last()) + if s.last() == '-' { 1nat } else { 0nat }
    }
}

/// How many characters of a text turn into a `-` of its slug: its spaces, and its `-`
/// when `alphanumeric` counts `-` as alphanumeric.
pub open spec fn dash_sources(s: Seq<char>) -> nat
    decreases s.len(),
{
    if s.len() == 0 {
        0
    } else {
        dash_sources(s.drop_last()) + if s.last() == ' ' || (s.last() == '-' && alphanumeric('-')) {
            1nat
        } else {
            0nat
        }
    }
}

proof fn lemma_slug_chars_dashes(s: Seq<char>)
    ensures
        dash_count(slug_chars(s)) == dash_sources(s),
    decreases s.len(),
{
    if s.len() > 0 {
        lemma_slug_chars_dashes(s.drop_last());
        let a = slug_chars(s.drop_last());
        let b = slug_char(s.last());
        if b.len() == 0 {
            assert(a + b =~= a);
        } else {
            assert((a + b).drop_last() =~= a);
            assert((a + b).last() == b[0]);
        }
    }
}

/// Each `-` of a slug comes from a space of the lower-cased heading, or from a `-` of it
/// that `alphanumeric` accepts: the slug has exactly as many `-` as those.
pub proof fn law_slug_dashes_come_from_spaces(text: Seq<char>)
    ensures
        dash_count(slug(text)) == dash_sources(lowercase_of(text)),
{
    lemma_slug_chars_dashes(lowercase_of(text));
}

/// Turns lower-case text into a slug: spaces become `-`, other characters that are not
/// alphanumeric are dropped.
pub fn slug_of_lowercase(lower: &str) -> (r: String)
    ensures
        r@ == slug_chars(lower@),
{
    let chars = chars_of(lower);
    let mut out = String::new();
    let mut i: usize = 0;
    while i < chars.len()
        invariant
            i <= chars.len(),
            chars@ == lower@,
            out@ == slug_chars(chars@.take(i as int)),
        decreases chars.len() - i,
    {
        let c = chars[i];
        proof {
            assert(chars@.take(i + 1).drop_last() =~= chars@.take(i as int));
        }
        if c == ' ' {
            push_char(&mut out, '-');
        } else if is_alphanumeric(c) {
            push_char(&mut out, c);
        }
        proof {
            assert(out@ =~= slug_chars(chars@.take(i as int)) + slug_char(c));
        }
        i = i + 1;
    }
    proof {
        assert(chars@.take(chars.len() as int) =~= chars@);
    }
    out
}

/// Makes the anchor of a heading.
pub fn slugify(text: &str) -> (r: String)
    ensures
        r@ == slug(text@),
{
    let lower = lowercase(text);
    slug_of_lowercase(lower.as_str())
}

/// Escapes text for HTML: `&`, `<`, `>` and `"` become entities.
pub fn escape_html(text: &str) -> (r: String)
    ensures
        r@ == escaped(text@),
{
    escape_for_html(text)
}

/// Where the scan of the events stands.
pub struct TocState {
    pub in_heading: bool,
    pub level: u8,
    pub text: Seq<char>,
    pub toc: Seq<TocEntryView>,
    pub title: Option<Seq<char>>,
}

pub open spec fn toc_start() -> TocState {
    TocState { in_heading: false, level: 0, text: Seq::empty(), toc: Seq::empty(), title: None }
}

/// One event of the scan: a heading start resets the text, its end records an entry
/// (and the title, for the first level-1 heading), text and code inside a heading
/// add to its text.
pub open spec fn toc_step(s: TocState, e: MdEventView) -> TocState {
    match e {
        MdEventView::HeadingStart(l) => TocState { in_heading: true, level: l, text: Seq::empty(), ..s },
        MdEventView::HeadingEnd => TocState {
            in_heading: false,
            toc: s.toc.push(TocEntryView { level: s.level, text: s.text, id: slug(s.text) }),
            title: if s.title is None && s.level == 1 {
                Some(s.text)
            } else {
                s.title
            },
            ..s
        },
        MdEventView::Text(t) => if s.in_heading {
            TocState { text: s.text + t, ..s }
        } else {
            s
        },
        MdEventView::Code(c) => if s.in_heading {
            TocState { text: s.text + c, ..s }
        } else {
            s
        },
        MdEventView::Other => s,
    }
}

pub open spec fn toc_run(events: Seq<MdEventView>) -> TocState
    decreases events.len(),
{
    if events.len() == 0 {
        toc_start()
    } else {
        toc_step(toc_run(events.drop_last()), events.last())
    }
}

/// The text of a heading's inline events: the contents of its text and code events,
/// in order; every other event adds nothing.
pub open spec fn inline_text(body: Seq<MdEventView>) -> Seq<char>
    decreases body.len(),
{
    if body.len() == 0 {
        Seq::empty()
    } else {
        inline_text(body.drop_last()) + match body.last() {
            MdEventView::Text(t) => t,
            MdEventView::Code(c) => c,
            _ => Seq::empty(),
        }
    }
}

/// No event of `body` starts or ends a heading.
pub open spec fn inside_one_heading(body: Seq<MdEventView>) -> bool {
    forall|i: int| 0 <= i < body.len() ==> !(#[trigger] body[i] is HeadingStart) && !(body[i] is HeadingEnd)
}

proof fn lemma_heading_body(prefix: Seq<MdEventView>, level: u8, body: Seq<MdEventView>)
    requires
        inside_one_heading(body),
    ensures
        toc_run(prefix.push(MdEventView::HeadingStart(level)) + body) == (TocState {
            in_heading: true,
            level,
            text: inline_text(body),
            toc: toc_run(prefix).toc,
            title: toc_run(prefix).title,
        }),
    decreases body.len(),
{
    let start = prefix.push(MdEventView::HeadingStart(level));
    let x = start + body;
    if body.len() == 0 {
        assert(x =~= start);
        assert(start.drop_last() =~= prefix);
    } else {
        let rest = body.drop_last();
        assert(inside_one_heading(rest)) by {
            assert forall|i: int| 0 <= i < rest.len() implies !(#[trigger] rest[i] is HeadingStart)
                && !(rest[i] is HeadingEnd) by {
                assert(rest[i] == body[i]);
            }
        }
        lemma_heading_body(prefix, level, rest);
        assert(x.drop_last() =~= start + rest);
        assert(x.last() == body.last());
        assert(body.last() == body[body.len() - 1]);
        match body.last() {
            MdEventView::Text(t) => {},
            MdEventView::Code(c) => {},
            MdEventView::Other => {
                assert(inline_text(rest) + Seq::<char>::empty() =~= inline_text(rest));
            },
            _ => {},
        }
    }
}

/// Each heading gives one entry of the table of contents: its level, the text of all
/// the text and code events between its start and its end (whatever other inline events
/// stand among them), and that text's slug as anchor. The first level-1 heading gives
/// the title.
pub proof fn law_heading_becomes_toc_entry(prefix: Seq<MdEventView>, level: u8, body: Seq<MdEventView>)
    requires
        inside_one_heading(body),
    ensures
        ({
            let before = toc_run(prefix);
            let after = toc_run(
                (prefix.push(MdEventView::HeadingStart(level)) + body).push(MdEventView::HeadingEnd),
            );
            &&& after.toc == before.toc.push(
                TocEntryView { level, text: inline_text(body), id: slug(inline_text(body)) },
            )
            &&& after.title == (if before.title is None && level == 1 {
                Some(inline_text(body))
            } else {
                before.title
            })
            &&& !after.in_heading
        }),
{
    lemma_heading_body(prefix, level, body);
    let x = prefix.push(MdEventView::HeadingStart(level)) + body;
    assert(x.push(MdEventView::HeadingEnd).drop_last() =~= x);
}

/// An event that is neither a heading mark nor text or code changes nothing in the
/// scan, inside a heading or out of it.
pub proof fn law_other_events_change_nothing(events: Seq<MdEventView>)
    ensures
        toc_run(events.push(MdEventView::Other)) == toc_run(events),
{
    assert(events.push(MdEventView::Other).drop_last() =~= events);
}

/// Text and code outside a heading change nothing in the scan.
pub proof fn law_text_outside_headings_changes_nothing(events: Seq<MdEventView>, t: Seq<char>)
    requires
        !toc_run(events).in_heading,
    ensures
        toc_run(events.push(MdEventView::Text(t))) == toc_run(events),
        toc_run(events.push(MdEventView::Code(t))) == toc_run(events),
{
    assert(events.push(MdEventView::Text(t)).drop_last() =~= events);
    assert(events.push(MdEventView::Code(t)).drop_last() =~= events);
}

pub open spec fn toc_view(toc: Seq<TocEntry>) -> Seq<TocEntryView> {
    toc.map_values(|e: TocEntry| e@)
}

pub open spec fn title_view(title: Option<String>) -> Option<Seq<char>> {
    match title {
        Some(t) => Some(t@),
        None => None,
    }
}

/// Collects the table of contents and the title from the parser's events.
pub fn table_of_contents(events: &Vec<MdEvent>) -> (r: (Vec<TocEntry>, Option<String>))
    ensures
        toc_view(r.0@) == toc_run(events@.map_values(|e: MdEvent| e@)).toc,
        title_view(r.1) == toc_run(events@.map_values(|e: MdEvent| e@)).title,
{
    let ghost ev = events@.map_values(|e: MdEvent| e@);
    let mut toc: Vec<TocEntry> = Vec::new();
    let mut title: Option<String> = None;
    let mut in_heading = false;
    let mut current_level: u8 = 0;
    let mut current_text = String::new();
    let mut i: usize = 0;
    proof {
        assert(ev.take(0) =~= Seq::<MdEventView>::empty());
        assert(toc_view(toc@) =~= Seq::<TocEntryView>::empty());
    }
    while i < events.len()
        invariant
            i <= events@.len(),
            ev == events@.map_values(|e: MdEvent| e@),
            toc_run(ev.take(i as int)) == (TocState {
                in_heading,
                level: current_level,
                text: current_text@,
                toc: toc_view(toc@),
                title: title_view(title),
            }),
        decreases events.len() - i,
    {
        proof {
            assert(ev.take(i + 1).drop_last() =~= ev.take(i as int));
            assert(ev.take(i + 1).last() == events@[i as int]@);
        }
        match &events[i] {
            MdEvent::HeadingStart(level) => {
                in_heading = true;
                current_level = *level;
                current_text = String::new();
            },
            MdEvent::HeadingEnd => {
                in_heading = false;
                let id = slugify(current_text.as_str());
                if title.is_none() && current_level == 1 {
                    title = Some(current_text.clone());
                }
                let ghost before = toc@;
                toc.push(TocEntry { level: current_level, text: current_text.clone(), id });
                proof {
                    assert(toc_view(toc@) =~= toc_view(before).push(toc@.last()@));
                }
            },
            MdEvent::Text(text) => {
                if in_heading {
                    current_text.append(text.as_str());
                }
            },
            MdEvent::Code(code) => {
                if in_heading {
                    current_text.append(code.as_str());
                }
            },
            MdEvent::Other => {},
        }
        i = i + 1;
    }
    proof {
        assert(ev.take(events@.len() as int) =~= ev);
    }
    (toc, title)
}

/// Renders a Markdown page: its HTML, its table of contents and its title.
pub fn render_markdown(content: &str) -> (r: RenderedMarkdown)
    ensures
        r.html@ == markdown_html(content@, MARKDOWN_OPTIONS),
        toc_view(r.toc@) == toc_run(markdown_events(content@, MARKDOWN_OPTIONS)).toc,
        title_view(r.title) == toc_run(markdown_events(content@, MARKDOWN_OPTIONS)).title,
{
    let events = parse_events(content, MARKDOWN_OPTIONS);
    let (toc, title) = table_of_contents(&events);
    let html = render_html(content, MARKDOWN_OPTIONS);
    RenderedMarkdown { html, toc, title }
}

} // verus!
