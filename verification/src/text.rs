use vstd::prelude::*;

verus! {

/// Appends one character to a string (`String::push`).
#[verifier::external_body]
pub(crate) fn push_char(s: &mut String, c: char)
    ensures
        final(s)@ == old(s)@.push(c),
{
    s.push(c);
}

/// The characters of a string slice, in order.
pub fn chars_of(s: &str) -> (v: Vec<char>)
    ensures
        v@ == s@,
{
    let mut v: Vec<char> = Vec::new();
    for c in it: s.chars()
        invariant
            v@ == it.seq().take(it.index() as int),
            it.seq() == s@,
    {
        v.push(c);
    }
    v
}

/// The replacement of one character when text is escaped for HTML.
pub open spec fn escape_char(c: char) -> Seq<char> {
    if c == '&' {
        seq!['&', 'a', 'm', 'p', ';']
    } else if c == '<' {
        seq!['&', 'l', 't', ';']
    } else if c == '>' {
        seq!['&', 'g', 't', ';']
    } else if c == '"' {
        seq!['&', 'q', 'u', 'o', 't', ';']
    } else {
        seq![c]
    }
}

/// Text with `&`, `<`, `>` and `"` replaced by their HTML entities.
pub open spec fn escaped(s: Seq<char>) -> Seq<char>
    decreases s.len(),
{
    if s.len() == 0 {
        Seq::empty()
    } else {
        escaped(s.drop_last()) + escape_char(s.last())
    }
}

/// Escaped text holds no `<`, `>` or `"`: it cannot open a tag or leave an attribute.
pub proof fn law_escaped_text_has_no_markup(s: Seq<char>)
    ensures
        forall|i: int|
            0 <= i < escaped(s).len() ==> #[trigger] escaped(s)[i] != '<' && escaped(s)[i] != '>'
                && escaped(s)[i] != '"',
    decreases s.len(),
{
    if s.len() > 0 {
        law_escaped_text_has_no_markup(s.drop_last());
        let a = escaped(s.drop_last());
        let b = escape_char(s.last());
        assert forall|i: int| 0 <= i < escaped(s).len() implies #[trigger] escaped(s)[i] != '<'
            && escaped(s)[i] != '>' && escaped(s)[i] != '"' by {
            if i < a.len() {
                assert(escaped(s)[i] == a[i]);
            } else {
                assert(escaped(s)[i] == b[i - a.len()]);
            }
        }
    }
}

/// `t` with every occurrence of the non-empty pattern `p` replaced by `r`, found from
/// the left without overlaps, as `str::replace` does.
pub open spec fn replaced(t: Seq<char>, p: Seq<char>, r: Seq<char>) -> Seq<char>
    decreases t.len(),
{
    if t.len() == 0 || p.len() == 0 {
        t
    } else if p.len() <= t.len() && t.take(p.len() as int) == p {
        r + replaced(t.skip(p.len() as int), p, r)
    } else {
        seq![t[0]] + replaced(t.skip(1), p, r)
    }
}

/// The entity that the `k`-th replacement of the chain turns back into a character:
/// `&quot;`, then `&gt;`, then `&lt;`, then `&amp;`.
pub open spec fn chain_char(k: nat) -> char {
    if k == 0 {
        '"'
    } else if k == 1 {
        '>'
    } else if k == 2 {
        '<'
    } else {
        '&'
    }
}

/// Text with `&`, `<`, `>` and `"` escaped but for the characters that the first `k`
/// replacements of the chain have already turned back.
spec fn staged_char(c: char, k: nat) -> Seq<char> {
    if exists|j: nat| j < k && j < 4 && c == chain_char(j) {
        seq![c]
    } else {
        escape_char(c)
    }
}

spec fn staged(s: Seq<char>, k: nat) -> Seq<char>
    decreases s.len(),
{
    if s.len() == 0 {
        Seq::empty()
    } else {
        staged_char(s[0], k) + staged(s.skip(1), k)
    }
}

proof fn lemma_staged_zero(s: Seq<char>)
    ensures
        staged(s, 0) == escaped(s),
    decreases s.len(),
{
    if s.len() > 0 {
        lemma_escaped_front(s);
        lemma_staged_zero(s.skip(1));
    }
}

proof fn lemma_staged_four(s: Seq<char>)
    ensures
        staged(s, 4) == s,
    decreases s.len(),
{
    if s.len() > 0 {
        lemma_staged_four(s.skip(1));
        let c = s[0];
        if c == '"' {
            assert(c == chain_char(0));
        } else if c == '>' {
            assert(c == chain_char(1));
        } else if c == '<' {
            assert(c == chain_char(2));
        } else if c == '&' {
            assert(c == chain_char(3));
        }
        assert(s =~= seq![c] + s.skip(1));
    }
}

proof fn lemma_replaced_plain(w: Seq<char>, rest: Seq<char>, p: Seq<char>, r: Seq<char>)
    requires
        p.len() > 0,
        p[0] == '&',
        forall|i: int| 0 <= i < w.len() ==> #[trigger] w[i] != '&',
    ensures
        replaced(w + rest, p, r) == w + replaced(rest, p, r),
    decreases w.len(),
{
    if w.len() > 0 {
        let t = w + rest;
        assert(t[0] == w[0]);
        if p.len() <= t.len() {
            assert(t.take(p.len() as int)[0] != p[0]);
        }
        assert(t.skip(1) =~= w.skip(1) + rest);
        lemma_replaced_plain(w.skip(1), rest, p, r);
        assert(w =~= seq![w[0]] + w.skip(1));
    }
}

proof fn lemma_chain_step(s: Seq<char>, k: nat)
    requires
        k < 4,
    ensures
        replaced(staged(s, k), escape_char(chain_char(k)), seq![chain_char(k)]) == staged(s, k + 1),
    decreases s.len(),
{
    let p = escape_char(chain_char(k));
    let r = seq![chain_char(k)];
    if s.len() > 0 {
        lemma_chain_step(s.skip(1), k);
        let c = s[0];
        let tok = staged_char(c, k);
        let rest = staged(s.skip(1), k);
        let t = tok + rest;
        assert(p[0] == '&' && p.len() >= 4);
        if c == chain_char(k) {
            assert(!exists|j: nat| j < k && j < 4 && c == chain_char(j));
            assert(exists|j: nat| j < k + 1 && j < 4 && c == chain_char(j)) by {
                assert(k < k + 1 && c == chain_char(k));
            }
            assert(tok == p);
            assert(t.take(p.len() as int) =~= p);
            assert(t.skip(p.len() as int) =~= rest);
        } else {
            assert(staged_char(c, k + 1) == tok) by {
                if exists|j: nat| j < k + 1 && j < 4 && c == chain_char(j) {
                    let j = choose|j: nat| j < k + 1 && j < 4 && c == chain_char(j);
                    assert(j != k);
                    assert(exists|i: nat| i < k && i < 4 && c == chain_char(i));
                }
            }
            if tok.len() == 1 {
                assert(tok[0] != '&') by {
                    if c == '&' {
                        assert(!exists|j: nat| j < k && j < 4 && c == chain_char(j)) by {
                            if exists|j: nat| j < k && j < 4 && c == chain_char(j) {
                                let j = choose|j: nat| j < k && j < 4 && c == chain_char(j);
                            }
                        }
                    }
                }
                lemma_replaced_plain(tok, rest, p, r);
            } else {
                assert(tok[0] == '&' && tok.len() >= 4);
                assert(tok[1] != p[1]);
                if p.len() <= t.len() {
                    assert(t.take(p.len() as int)[1] != p[1]);
                }
                assert(t.skip(1) =~= tok.skip(1) + rest);
                lemma_replaced_plain(tok.skip(1), rest, p, r);
                assert(tok =~= seq![tok[0]] + tok.skip(1));
            }
        }
    }
}

/// Escaping is undone by replacing `&quot;` with `"`, then `&gt;` with `>`, then `&lt;`
/// with `<` and last `&amp;` with `&`, each replacement as `str::replace` makes it.
pub proof fn law_chained_replace_undoes_escaping(s: Seq<char>)
    ensures
        replaced(
            replaced(
                replaced(
                    replaced(escaped(s), seq!['&', 'q', 'u', 'o', 't', ';'], seq!['"']),
                    seq!['&', 'g', 't', ';'],
                    seq!['>'],
                ),
                seq!['&', 'l', 't', ';'],
                seq!['<'],
            ),
            seq!['&', 'a', 'm', 'p', ';'],
            seq!['&'],
        ) == s,
{
    lemma_staged_zero(s);
    lemma_chain_step(s, 0);
    lemma_chain_step(s, 1);
    lemma_chain_step(s, 2);
    lemma_chain_step(s, 3);
    lemma_staged_four(s);
}

/// An entity (`&amp;`, `&lt;`, `&gt;` or `&quot;`) starts at position `i` of `t`.
pub open spec fn entity_at(t: Seq<char>, i: int) -> bool {
    ||| i + 5 <= t.len() && t.subrange(i, i + 5) == seq!['&', 'a', 'm', 'p', ';']
    ||| i + 4 <= t.len() && t.subrange(i, i + 4) == seq!['&', 'l', 't', ';']
    ||| i + 4 <= t.len() && t.subrange(i, i + 4) == seq!['&', 'g', 't', ';']
    ||| i + 6 <= t.len() && t.subrange(i, i + 6) == seq!['&', 'q', 'u', 'o', 't', ';']
}

proof fn lemma_escaped_front(s: Seq<char>)
    requires
        s.len() > 0,
    ensures
        escaped(s) == escape_char(s[0]) + escaped(s.skip(1)),
    decreases s.len(),
{
    if s.len() == 1 {
        assert(s.drop_last() =~= Seq::<char>::empty());
        assert(s.skip(1) =~= Seq::<char>::empty());
        assert(escaped(s) =~= escape_char(s[0]) + escaped(s.skip(1)));
    } else {
        lemma_escaped_front(s.drop_last());
        assert(s.drop_last().skip(1) =~= s.skip(1).drop_last());
        assert(s.drop_last()[0] == s[0]);
        assert(s.skip(1).last() == s.last());
        assert(escaped(s) =~= escape_char(s[0]) + escaped(s.skip(1)));
    }
}

/// In escaped text every `&` starts one of the four entities.
pub proof fn law_escaped_ampersands_start_entities(s: Seq<char>)
    ensures
        forall|i: int| 0 <= i < escaped(s).len() && #[trigger] escaped(s)[i] == '&' ==> entity_at(escaped(s), i),
    decreases s.len(),
{
    if s.len() > 0 {
        law_escaped_ampersands_start_entities(s.drop_last());
        let a = escaped(s.drop_last());
        let b = escape_char(s.last());
        let t = escaped(s);
        assert(t == a + b);
        assert forall|i: int| 0 <= i < t.len() && #[trigger] t[i] == '&' implies entity_at(t, i) by {
            if i < a.len() {
                assert(t[i] == a[i]);
                assert(entity_at(a, i));
                if i + 5 <= a.len() {
                    assert(t.subrange(i, i + 5) =~= a.subrange(i, i + 5));
                }
                if i + 4 <= a.len() {
                    assert(t.subrange(i, i + 4) =~= a.subrange(i, i + 4));
                }
                if i + 6 <= a.len() {
                    assert(t.subrange(i, i + 6) =~= a.subrange(i, i + 6));
                }
            } else {
                assert(t[i] == b[i - a.len()]);
                assert(i == a.len());
                assert(t.subrange(i, i + b.len()) =~= b);
            }
        }
    }
}

/// Escapes text for inclusion in HTML.
pub fn escape_for_html(text: &str) -> (out: String)
    ensures
        out@ == escaped(text@),
{
    let chars = chars_of(text);
    let mut out = String::new();
    let mut i: usize = 0;
    while i < chars.len()
        invariant
            i <= chars.len(),
            chars@ == text@,
            out@ == escaped(chars@.take(i as int)),
        decreases chars.len() - i,
    {
        let c = chars[i];
        proof {
            reveal_strlit("&amp;");
            reveal_strlit("&lt;");
            reveal_strlit("&gt;");
            reveal_strlit("&quot;");
            assert(chars@.take(i + 1).drop_last() =~= chars@.take(i as int));
        }
        if c == '&' {
            out.append("&amp;");
        } else if c == '<' {
            out.append("&lt;");
        } else if c == '>' {
            out.append("&gt;");
        } else if c == '"' {
            out.append("&quot;");
        } else {
            push_char(&mut out, c);
        }
        i = i + 1;
    }
    proof {
        assert(chars@.take(chars.len() as int) =~= chars@);
    }
    out
}

/// A string holding `v[lo..hi]`.
pub fn string_from_chars(v: &Vec<char>, lo: usize, hi: usize) -> (s: String)
    requires
        lo <= hi <= v@.len(),
    ensures
        s@ == v@.subrange(lo as int, hi as int),
{
    let mut s = String::new();
    let mut i = lo;
    while i < hi
        invariant
            lo <= i <= hi <= v@.len(),
            s@ == v@.subrange(lo as int, i as int),
        decreases hi - i,
    {
        push_char(&mut s, v[i]);
        proof {
            assert(v@.subrange(lo as int, i + 1) =~= v@.subrange(lo as int, i as int).push(v@[i as int]));
        }
        i = i + 1;
    }
    s
}

/// The position of the last occurrence of `c` in `s`, or -1.
pub open spec fn last_index_of(s: Seq<char>, c: char) -> int
    decreases s.len(),
{
    if s.len() == 0 {
        -1
    } else if s.last() == c {
        s.len() - 1
    } else {
        last_index_of(s.drop_last(), c)
    }
}

pub proof fn lemma_last_index_of(s: Seq<char>, c: char)
    ensures
        -1 <= last_index_of(s, c) < s.len(),
        last_index_of(s, c) >= 0 ==> s[last_index_of(s, c)] == c,
        forall|j: int| last_index_of(s, c) < j < s.len() ==> s[j] != c,
    decreases s.len(),
{
    if s.len() > 0 && s.last() != c {
        lemma_last_index_of(s.drop_last(), c);
        assert forall|j: int| last_index_of(s, c) < j < s.len() implies s[j] != c by {
            if j < s.len() - 1 {
                assert(s[j] == s.drop_last()[j]);
            }
        }
    }
}

/// Finds the last occurrence of `c` (`rfind`).
pub fn rfind_char(v: &Vec<char>, c: char) -> (r: Option<usize>)
    ensures
        match r {
            Some(i) => i as int == last_index_of(v@, c),
            None => last_index_of(v@, c) == -1,
        },
{
    let mut i = v.len();
    proof {
        assert(v@.take(i as int) =~= v@);
    }
    while i > 0
        invariant
            i <= v@.len(),
            last_index_of(v@, c) == last_index_of(v@.take(i as int), c),
        decreases i,
    {
        proof {
            assert(v@.take(i as int).drop_last() =~= v@.take(i - 1));
        }
        if v[i - 1] == c {
            return Some(i - 1);
        }
        i = i - 1;
    }
    None
}

/// `s` ends with the three characters `.md`.
pub open spec fn ends_with_md(s: Seq<char>) -> bool {
    &&& s.len() >= 3
    &&& s[s.len() - 3] == '.'
    &&& s[s.len() - 2] == 'm'
    &&& s[s.len() - 1] == 'd'
}

/// `s` with a trailing `.md` removed, if it has one.
pub open spec fn strip_md(s: Seq<char>) -> Seq<char> {
    if ends_with_md(s) {
        s.take(s.len() - 3)
    } else {
        s
    }
}

pub fn chars_end_with_md(v: &Vec<char>) -> (r: bool)
    ensures
        r == ends_with_md(v@),
{
    let n = v.len();
    n >= 3 && v[n - 3] == '.' && v[n - 2] == 'm' && v[n - 1] == 'd'
}

/// The extension of a path on disk, as `Path::extension` finds it, converted to text
/// (lossily, where it is not UTF-8); `None` when the path has none.
pub uninterp spec fn path_extension(path: Seq<char>) -> Option<Seq<char>>;

/// Calls `std::path::Path::extension` and converts the extension to text with
/// `to_string_lossy`; the result is named by `path_extension`.
#[verifier::external_body]
pub(crate) fn extension_of(path: &str) -> (r: Option<String>)
    ensures
        match r {
            Some(e) => path_extension(path@) == Some(e@),
            None => path_extension(path@) is None,
        },
{
    std::path::Path::new(path).extension().map(|e| e.to_string_lossy().into_owned())
}

/// A path on disk whose extension is `md`. (A lossy conversion only brings in
/// U+FFFD, so the text is `md` exactly when the extension's bytes are.)
pub open spec fn md_extension(path: Seq<char>) -> bool {
    path_extension(path) == Some(seq!['m', 'd'])
}

/// Whether a path on disk has the extension `md`.
pub fn has_md_extension(path: &str) -> (r: bool)
    ensures
        r == md_extension(path@),
{
    match extension_of(path) {
        Some(e) => {
            let v = chars_of(e.as_str());
            let r = v.len() == 2 && v[0] == 'm' && v[1] == 'd';
            proof {
                if r {
                    assert(v@ =~= seq!['m', 'd']);
                }
            }
            r
        },
        None => false,
    }
}

/// The lower-case form of a text, as `str::to_lowercase` maps it (Unicode rules).
pub uninterp spec fn lowercase_of(s: Seq<char>) -> Seq<char>;

/// Calls `str::to_lowercase`; the result is named by `lowercase_of`.
#[verifier::external_body]
pub(crate) fn lowercase(s: &str) -> (r: String)
    ensures
        r@ == lowercase_of(s@),
{
    s.to_lowercase()
}

/// Whether `char::is_alphanumeric` holds of a character (Unicode alphabetic or numeric).
pub uninterp spec fn alphanumeric(c: char) -> bool;

/// Calls `char::is_alphanumeric`; the result is named by `alphanumeric`.
#[verifier::external_body]
pub(crate) fn is_alphanumeric(c: char) -> (r: bool)
    ensures
        r == alphanumeric(c),
{
    c.is_alphanumeric()
}

} // verus!
