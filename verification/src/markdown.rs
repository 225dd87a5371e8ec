//! Markdown to HTML: rendering through pulldown-cmark, heading anchors, and an
//! optional table of contents.
use vstd::prelude::*;

use crate::text::{
    ascii_lower, char_is_alphanumeric, char_is_whitespace, chars_of, is_alphanumeric,
    is_whitespace, spec_ascii_lower, string_of, find, find_from, lemma_find_from, occurs_at,
    push_all, push_range, contains, str_to_lowercase, to_lowercase, lemma_find_from_at,
    lemma_find_from_none,
};

verus! {

// ---------------------------------------------------------------------------
// Tag stripping
// ---------------------------------------------------------------------------

/// Scans `s` left to right, dropping everything from a `<` up to the next `>`
/// (both included). Gives the text kept so far and whether the scan ends inside a tag.
pub open spec fn strip_scan(s: Seq<char>) -> (Seq<char>, bool)
    decreases s.len(),
{
    if s.len() == 0 {
        (Seq::empty(), false)
    } else {
        let prev = strip_scan(s.drop_last());
        let c = s.last();
        if c == '<' {
            (prev.0, true)
        } else if c == '>' {
            (prev.0, false)
        } else if !prev.1 {
            (prev.0.push(c), false)
        } else {
            (prev.0, true)
        }
    }
}

/// The text of `s` with its tags removed.
pub open spec fn spec_strip_tags(s: Seq<char>) -> Seq<char> {
    strip_scan(s).0
}

/// `s` holds neither `<` nor `>`.
pub open spec fn tag_free(s: Seq<char>) -> bool {
    forall|i: int| 0 <= i < s.len() ==> s[i] != '<' && s[i] != '>'
}

pub(crate) fn strip_tags_chars(s: &Vec<char>) -> (out: Vec<char>)
    ensures
        out@ == spec_strip_tags(s@),
{
    let mut out: Vec<char> = Vec::new();
    let mut in_tag = false;
    let mut i: usize = 0;
    while i < s.len()
        invariant
            i <= s.len(),
            (out@, in_tag) == strip_scan(s@.take(i as int)),
        decreases s.len() - i,
    {
        let c = s[i];
        assert(s@.take(i + 1).drop_last() == s@.take(i as int));
        if c == '<' {
            in_tag = true;
        } else if c == '>' {
            in_tag = false;
        } else if !in_tag {
            out.push(c);
        }
        i = i + 1;
    }
    assert(s@.take(s.len() as int) == s@);
    out
}

/// Removes every tag from `s`: whatever lies between a `<` and the next `>`,
/// the brackets included.
pub fn strip_tags(s: &str) -> (r: String)
    ensures
        r@ == spec_strip_tags(s@),
{
    let v = chars_of(s);
    let out = strip_tags_chars(&v);
    string_of(&out)
}

/// Text without tags passes through the scan unchanged.
proof fn lemma_strip_scan_tag_free(s: Seq<char>)
    requires
        tag_free(s),
    ensures
        strip_scan(s) == (s, false),
    decreases s.len(),
{
    if s.len() > 0 {
        assert(tag_free(s.drop_last()));
        lemma_strip_scan_tag_free(s.drop_last());
        assert(s.drop_last().push(s.last()) == s);
    }
}

/// The scan never keeps a bracket.
proof fn lemma_strip_scan_tag_free_result(s: Seq<char>)
    ensures
        tag_free(strip_scan(s).0),
    decreases s.len(),
{
    if s.len() > 0 {
        lemma_strip_scan_tag_free_result(s.drop_last());
    }
}

/// What `strip_tags` returns holds no `<` and no `>`.
pub proof fn lemma_strip_tags_tag_free(s: Seq<char>)
    ensures
        tag_free(spec_strip_tags(s)),
{
    lemma_strip_scan_tag_free_result(s);
}

/// Text without tags is left as it is by `strip_tags`.
pub proof fn lemma_strip_tags_identity(s: Seq<char>)
    requires
        tag_free(s),
    ensures
        spec_strip_tags(s) == s,
{
    lemma_strip_scan_tag_free(s);
}

/// Stripping tags twice gives what stripping once gives.
pub proof fn lemma_strip_tags_idempotent(s: Seq<char>)
    ensures
        spec_strip_tags(spec_strip_tags(s)) == spec_strip_tags(s),
{
    lemma_strip_tags_tag_free(s);
    lemma_strip_tags_identity(spec_strip_tags(s));
}

/// `f` picks the characters of `out` out of `s`, at increasing indices.
pub open spec fn embeds(out: Seq<char>, s: Seq<char>, f: Seq<int>) -> bool {
    &&& f.len() == out.len()
    &&& forall|k: int| 0 <= k < f.len() ==> 0 <= #[trigger] f[k] < s.len() && out[k] == s[f[k]]
    &&& forall|k: int, l: int| 0 <= k < l < f.len() ==> #[trigger] f[k] < #[trigger] f[l]
}

proof fn lemma_strip_scan_embeds(s: Seq<char>) -> (f: Seq<int>)
    ensures
        embeds(strip_scan(s).0, s, f),
    decreases s.len(),
{
    if s.len() == 0 {
        Seq::empty()
    } else {
        let g = lemma_strip_scan_embeds(s.drop_last());
        let prev = strip_scan(s.drop_last());
        let c = s.last();
        if c != '<' && c != '>' && !prev.1 {
            let f = g.push(s.len() - 1);
            let out = strip_scan(s).0;
            assert(out == prev.0.push(c));
            assert forall|k: int| 0 <= k < f.len() implies 0 <= #[trigger] f[k] < s.len() && out[k]
                == s[f[k]] by {
                if k < g.len() {
                    assert(s[g[k]] == s.drop_last()[g[k]]);
                }
            }
            f
        } else {
            assert forall|k: int| 0 <= k < g.len() implies 0 <= #[trigger] g[k] < s.len()
                && strip_scan(s).0[k] == s[g[k]] by {
                assert(s[g[k]] == s.drop_last()[g[k]]);
            }
            g
        }
    }
}

/// What `strip_tags` keeps is a subsequence of its input: characters of the
/// input, in their order.
pub proof fn lemma_strip_tags_subsequence(s: Seq<char>)
    ensures
        exists|f: Seq<int>| #[trigger] embeds(spec_strip_tags(s), s, f),
{
    let f = lemma_strip_scan_embeds(s);
    assert(embeds(spec_strip_tags(s), s, f));
}

// ---------------------------------------------------------------------------
// Heading slugs
// ---------------------------------------------------------------------------

/// The characters that a heading slug keeps: alphanumerics, whitespace and `-`.
pub open spec fn kept_in_slug(c: char) -> bool {
    char_is_alphanumeric(c) || char_is_whitespace(c) || c == '-'
}

/// How a kept character appears in the slug: whitespace becomes `-`, ASCII
/// letters are lower-cased.
pub open spec fn slug_char(c: char) -> char {
    if char_is_whitespace(c) {
        '-'
    } else {
        spec_ascii_lower(c)
    }
}

/// The anchor id of a heading whose text is `s`.
pub open spec fn spec_slugify(s: Seq<char>) -> Seq<char> {
    s.filter(|c: char| kept_in_slug(c)).map_values(|c: char| slug_char(c))
}

/// The slug of two texts one after the other is the slug of the first, then
/// the slug of the second.
pub proof fn lemma_slugify_concat(a: Seq<char>, b: Seq<char>)
    ensures
        spec_slugify(a + b) == spec_slugify(a) + spec_slugify(b),
{
    let p = |c: char| kept_in_slug(c);
    Seq::filter_distributes_over_add(a, b, p);
    let fa = a.filter(p);
    let fb = b.filter(p);
    assert((fa + fb).map_values(|c: char| slug_char(c)) =~= fa.map_values(|c: char| slug_char(c))
        + fb.map_values(|c: char| slug_char(c)));
}

pub(crate) fn slugify_chars(s: &Vec<char>) -> (out: Vec<char>)
    ensures
        out@ == spec_slugify(s@),
{
    let mut out: Vec<char> = Vec::new();
    let mut i: usize = 0;
    while i < s.len()
        invariant
            i <= s.len(),
            out@ == spec_slugify(s@.take(i as int)),
        decreases s.len() - i,
    {
        let c = s[i];
        let ghost pre = s@.take(i as int);
        let ghost cur = s@.take(i + 1);
        assert(cur.drop_last() == pre);
        assert(cur.last() == c);
        proof {
            reveal_with_fuel(Seq::<_>::filter, 1);
        }
        let alnum = is_alphanumeric(c);
        let ws = is_whitespace(c);
        if alnum || ws || c == '-' {
            let d = if ws {
                '-'
            } else {
                ascii_lower(c)
            };
            out.push(d);
            assert(cur.filter(|c: char| kept_in_slug(c)) == pre.filter(|c: char| kept_in_slug(c)).push(c));
            assert(spec_slugify(cur) == spec_slugify(pre).push(d));
        } else {
            assert(cur.filter(|c: char| kept_in_slug(c)) == pre.filter(|c: char| kept_in_slug(c)));
        }
        i = i + 1;
    }
    assert(s@.take(s.len() as int) == s@);
    out
}

/// Turns heading text into an anchor id: keeps alphanumerics, whitespace and
/// `-`, turns whitespace into `-` and lower-cases ASCII letters.
pub fn slugify(text: &str) -> (r: String)
    ensures
        r@ == spec_slugify(text@),
{
    let v = chars_of(text);
    let out = slugify_chars(&v);
    string_of(&out)
}


// ---------------------------------------------------------------------------
// Heading anchors
// ---------------------------------------------------------------------------

/// The characters `<h` that start every heading tag.
pub open spec fn heading_start() -> Seq<char> {
    seq!['<', 'h']
}

/// A heading level digit, `1` to `6`.
pub open spec fn is_level_char(c: char) -> bool {
    '1' <= c && c <= '6'
}

/// `s` holds a bare opening heading tag `<hN>` at index `i`.
pub open spec fn bare_heading_open_at(s: Seq<char>, i: int) -> bool {
    &&& 0 <= i
    &&& i + 3 < s.len()
    &&& is_level_char(s[i + 2])
    &&& s[i + 3] == '>'
}

/// The closing tag `</hN>` of a heading of level digit `l`.
pub open spec fn close_tag(l: char) -> Seq<char> {
    seq!['<', '/', 'h', l, '>']
}

/// The opening tag `<hN id="id">` of a heading of level digit `l`.
pub open spec fn open_tag_with_id(l: char, id: Seq<char>) -> Seq<char> {
    seq!['<', 'h', l, ' ', 'i', 'd', '=', '"'] + id + seq!['"', '>']
}

/// The result of giving every bare heading `<hN>...</hN>` found from index `pos`
/// on an `id` made from its text, or `None` where the scan would slice the text
/// inside a character or past its end (a `<h` that is followed by nothing or by a
/// non-ASCII character, outside a heading).
#[verifier::opaque]
pub open spec fn inject_ids_from(s: Seq<char>, pos: int) -> Option<Seq<char>>
    decreases s.len() - pos,
{
    if pos < 0 || pos > s.len() {
        None
    } else {
        match find_from(s, heading_start(), pos) {
            None => Some(s.subrange(pos, s.len() as int)),
            Some(start) => {
                proof {
                    lemma_find_from(s, heading_start(), pos);
                }
                let pre = s.subrange(pos, start);
                if bare_heading_open_at(s, start) {
                    let l = s[start + 2];
                    let cs = start + 4;
                    match find_from(s, close_tag(l), cs) {
                        None => match inject_ids_from(s, cs) {
                            Some(t) => Some(pre + s.subrange(start, cs) + t),
                            None => None,
                        },
                        Some(ce) => {
                            proof {
                                lemma_find_from(s, close_tag(l), cs);
                            }
                            let content = s.subrange(cs, ce);
                            let id = spec_slugify(spec_strip_tags(content));
                            match inject_ids_from(s, ce + 5) {
                                Some(t) => Some(
                                    pre + open_tag_with_id(l, id) + content + close_tag(l) + t,
                                ),
                                None => None,
                            }
                        },
                    }
                } else if start + 3 <= s.len() && (s[start + 2] as u32) < 128 {
                    match inject_ids_from(s, start + 3) {
                        Some(t) => Some(pre + s.subrange(start, start + 3) + t),
                        None => None,
                    }
                } else {
                    None
                }
            },
        }
    }
}


/// The scan from `pos` when no `<h` is left.
proof fn lemma_inject_no_heading(s: Seq<char>, pos: int)
    requires
        0 <= pos <= s.len(),
        find_from(s, heading_start(), pos) is None,
    ensures
        inject_ids_from(s, pos) == Some(s.subrange(pos, s.len() as int)),
{
    reveal(inject_ids_from);
}

/// The scan from `pos` at a bare heading with its closing tag.
proof fn lemma_inject_heading(s: Seq<char>, pos: int, start: int, ce: int)
    requires
        0 <= pos <= s.len(),
        find_from(s, heading_start(), pos) == Some(start),
        bare_heading_open_at(s, start),
        find_from(s, close_tag(s[start + 2]), start + 4) == Some(ce),
    ensures
        inject_ids_from(s, pos) == match inject_ids_from(s, ce + 5) {
            Some(t) => Some(
                s.subrange(pos, start) + open_tag_with_id(
                    s[start + 2],
                    spec_slugify(spec_strip_tags(s.subrange(start + 4, ce))),
                ) + s.subrange(start + 4, ce) + close_tag(s[start + 2]) + t,
            ),
            None => None,
        },
{
    reveal(inject_ids_from);
}

/// The scan from `pos` at a bare heading without a closing tag.
proof fn lemma_inject_unclosed(s: Seq<char>, pos: int, start: int)
    requires
        0 <= pos <= s.len(),
        find_from(s, heading_start(), pos) == Some(start),
        bare_heading_open_at(s, start),
        find_from(s, close_tag(s[start + 2]), start + 4) is None,
    ensures
        inject_ids_from(s, pos) == match inject_ids_from(s, start + 4) {
            Some(t) => Some(s.subrange(pos, start) + s.subrange(start, start + 4) + t),
            None => None,
        },
{
    reveal(inject_ids_from);
}

/// The scan from `pos` at a `<h` that opens no bare heading.
proof fn lemma_inject_other(s: Seq<char>, pos: int, start: int)
    requires
        0 <= pos <= s.len(),
        find_from(s, heading_start(), pos) == Some(start),
        !bare_heading_open_at(s, start),
    ensures
        start + 3 <= s.len() && (s[start + 2] as u32) < 128 ==> inject_ids_from(s, pos)
            == match inject_ids_from(s, start + 3) {
            Some(t) => Some(s.subrange(pos, start) + s.subrange(start, start + 3) + t),
            None => None,
        },
        !(start + 3 <= s.len() && (s[start + 2] as u32) < 128) ==> inject_ids_from(s, pos)
            is None,
{
    reveal(inject_ids_from);
}

/// `html` with an `id` on every bare heading, or `None` where the scan cannot go on.
pub open spec fn spec_inject_heading_ids(html: Seq<char>) -> Option<Seq<char>> {
    inject_ids_from(html, 0)
}

/// The characters `s[from..to]` as a vector of their own.
pub(crate) fn copy_range(s: &Vec<char>, from: usize, to: usize) -> (out: Vec<char>)
    requires
        from <= to <= s.len(),
    ensures
        out@ == s@.subrange(from as int, to as int),
{
    let mut out: Vec<char> = Vec::new();
    push_range(&mut out, s, from, to);
    out
}

#[verifier::rlimit(60)]
pub(crate) fn inject_heading_ids_checked(s: &Vec<char>) -> (r: Option<Vec<char>>)
    ensures
        r matches Some(v) ==> spec_inject_heading_ids(s@) == Some(v@),
        r is None ==> spec_inject_heading_ids(s@) is None,
{
    let h: Vec<char> = vec!['<', 'h'];
    let mut out: Vec<char> = Vec::new();
    let mut pos: usize = 0;
    loop
        invariant
            pos <= s.len(),
            h@ == heading_start(),
            spec_inject_heading_ids(s@) == match inject_ids_from(s@, pos as int) {
                Some(t) => Some(out@ + t),
                None => None,
            },
        decreases s.len() - pos,
    {
        let ghost out0 = out@;
        match find(s, &h, pos) {
            None => {
                push_range(&mut out, s, pos, s.len());
                proof {
                    lemma_inject_no_heading(s@, pos as int);
                }
                return Some(out);
            },
            Some(start) => {
                proof {
                    lemma_find_from(s@, h@, pos as int);
                }
                push_range(&mut out, s, pos, start);
                let ghost pre = s@.subrange(pos as int, start as int);
                if s.len() - start > 3 && '1' <= s[start + 2] && s[start + 2] <= '6' && s[start
                    + 3] == '>' {
                    let l = s[start + 2];
                    let close: Vec<char> = vec!['<', '/', 'h', l, '>'];
                    assert(close@ == close_tag(l));
                    let cs = start + 4;
                    match find(s, &close, cs) {
                        None => {
                            push_range(&mut out, s, start, cs);
                            proof {
                                lemma_inject_unclosed(s@, pos as int, start as int);
                                let t = inject_ids_from(s@, cs as int);
                                if t is Some {
                                    assert(out0 + (pre + s@.subrange(start as int, cs as int)
                                        + t.unwrap()) == out@ + t.unwrap());
                                }
                            }
                            pos = cs;
                        },
                        Some(ce) => {
                            proof {
                                lemma_find_from(s@, close@, cs as int);
                            }
                            let content = copy_range(s, cs, ce);
                            let stripped = strip_tags_chars(&content);
                            let id = slugify_chars(&stripped);
                            let ghost out1 = out@;
                            out.push('<');
                            out.push('h');
                            out.push(l);
                            out.push(' ');
                            out.push('i');
                            out.push('d');
                            out.push('=');
                            out.push('"');
                            push_all(&mut out, &id);
                            out.push('"');
                            out.push('>');
                            assert(out@ == out1 + open_tag_with_id(l, id@));
                            push_range(&mut out, s, cs, ce);
                            push_all(&mut out, &close);
                            proof {
                                lemma_inject_heading(s@, pos as int, start as int, ce as int);
                                let t = inject_ids_from(s@, ce + 5);
                                if t is Some {
                                    assert(out0 + (pre + open_tag_with_id(l, id@) + content@
                                        + close_tag(l) + t.unwrap()) == out@ + t.unwrap());
                                }
                            }
                            pos = ce + 5;
                        },
                    }
                } else if s.len() - start >= 3 && (s[start + 2] as u32) < 128 {
                    push_range(&mut out, s, start, start + 3);
                    proof {
                        lemma_inject_other(s@, pos as int, start as int);
                        let t = inject_ids_from(s@, start + 3);
                        if t is Some {
                            assert(out0 + (pre + s@.subrange(start as int, start + 3)
                                + t.unwrap()) == out@ + t.unwrap());
                        }
                    }
                    pos = start + 3;
                } else {
                    proof {
                        lemma_inject_other(s@, pos as int, start as int);
                    }
                    return None;
                }
            },
        }
    }
}

/// Tells whether the heading scan of `inject_heading_ids` can run through `html`.
pub fn heading_ids_defined(html: &str) -> (r: bool)
    ensures
        r == spec_inject_heading_ids(html@) is Some,
{
    let v = chars_of(html);
    inject_heading_ids_checked(&v).is_some()
}

/// Gives every bare heading tag `<hN>` (N from 1 to 6) that has a closing
/// `</hN>` an `id` attribute made from its text: `<hN id="slug">text</hN>`.
pub fn inject_heading_ids(html: &str) -> (r: String)
    requires
        spec_inject_heading_ids(html@) is Some,
    ensures
        Some(r@) == spec_inject_heading_ids(html@),
{
    let v = chars_of(html);
    match inject_heading_ids_checked(&v) {
        Some(out) => string_of(&out),
        None => String::new(),
    }
}


// ---------------------------------------------------------------------------
// Table of contents
// ---------------------------------------------------------------------------

/// A heading listed in the table of contents.
pub struct Heading {
    pub level: u8,
    pub text: String,
    pub id: String,
}

/// A heading as the contracts see it.
pub struct SpecHeading {
    pub level: u8,
    pub text: Seq<char>,
    pub id: Seq<char>,
}

impl View for Heading {
    type V = SpecHeading;

    open spec fn view(&self) -> SpecHeading {
        SpecHeading { level: self.level, text: self.text@, id: self.id@ }
    }
}

/// The views of a list of headings.
pub open spec fn headings_view(hs: Seq<Heading>) -> Seq<SpecHeading> {
    hs.map_values(|h: Heading| h@)
}

/// The level of a heading whose level digit is `l`.
pub open spec fn level_of(l: char) -> u8 {
    ((l as u32) - 48) as u8
}

/// The headings of levels 2 to 6 found in `s` from index `pos` on: each `<hN`
/// followed, after the next `>`, by text and `</hN>`; the scan stops at the first
/// such heading that has no `>` or no closing tag.
#[verifier::opaque]
pub open spec fn extract_from(s: Seq<char>, pos: int) -> Seq<SpecHeading>
    decreases s.len() - pos,
{
    if pos < 0 || pos > s.len() {
        Seq::empty()
    } else {
        match find_from(s, heading_start(), pos) {
            None => Seq::empty(),
            Some(start) => {
                proof {
                    lemma_find_from(s, heading_start(), pos);
                }
                if !(start + 2 < s.len() && is_level_char(s[start + 2])) || s[start + 2] == '1' {
                    extract_from(s, start + 1)
                } else {
                    let l = s[start + 2];
                    match find_from(s, seq!['>'], start) {
                        None => Seq::empty(),
                        Some(gt) => {
                            proof {
                                lemma_find_from(s, seq!['>'], start);
                            }
                            match find_from(s, close_tag(l), gt + 1) {
                                None => Seq::empty(),
                                Some(ce) => {
                                    proof {
                                        lemma_find_from(s, close_tag(l), gt + 1);
                                    }
                                    let text = spec_strip_tags(s.subrange(gt + 1, ce));
                                    seq![SpecHeading { level: level_of(l), text, id: spec_slugify(text) }]
                                        + extract_from(s, ce)
                                },
                            }
                        },
                    }
                }
            },
        }
    }
}

/// The headings of levels 2 to 6 in `html`, in order.
pub open spec fn spec_extract_headings(html: Seq<char>) -> Seq<SpecHeading> {
    extract_from(html, 0)
}

proof fn lemma_extract_no_heading(s: Seq<char>, pos: int)
    requires
        0 <= pos <= s.len(),
        find_from(s, heading_start(), pos) is None,
    ensures
        extract_from(s, pos) == Seq::<SpecHeading>::empty(),
{
    reveal(extract_from);
}

proof fn lemma_extract_skip(s: Seq<char>, pos: int, start: int)
    requires
        0 <= pos <= s.len(),
        find_from(s, heading_start(), pos) == Some(start),
        !(start + 2 < s.len() && is_level_char(s[start + 2])) || s[start + 2] == '1',
    ensures
        extract_from(s, pos) == extract_from(s, start + 1),
{
    reveal(extract_from);
}

proof fn lemma_extract_stop(s: Seq<char>, pos: int, start: int)
    requires
        0 <= pos <= s.len(),
        find_from(s, heading_start(), pos) == Some(start),
        start + 2 < s.len() && is_level_char(s[start + 2]) && s[start + 2] != '1',
        find_from(s, seq!['>'], start) is None || (find_from(s, seq!['>'], start) matches Some(
            gt,
        ) && find_from(s, close_tag(s[start + 2]), gt + 1) is None),
    ensures
        extract_from(s, pos) == Seq::<SpecHeading>::empty(),
{
    reveal(extract_from);
}

proof fn lemma_extract_heading(s: Seq<char>, pos: int, start: int, gt: int, ce: int)
    requires
        0 <= pos <= s.len(),
        find_from(s, heading_start(), pos) == Some(start),
        start + 2 < s.len() && is_level_char(s[start + 2]) && s[start + 2] != '1',
        find_from(s, seq!['>'], start) == Some(gt),
        find_from(s, close_tag(s[start + 2]), gt + 1) == Some(ce),
    ensures
        extract_from(s, pos) == seq![
            SpecHeading {
                level: level_of(s[start + 2]),
                text: spec_strip_tags(s.subrange(gt + 1, ce)),
                id: spec_slugify(spec_strip_tags(s.subrange(gt + 1, ce))),
            },
        ] + extract_from(s, ce),
{
    reveal(extract_from);
}

#[verifier::rlimit(30)]
pub(crate) fn extract_headings_chars(s: &Vec<char>) -> (hs: Vec<Heading>)
    ensures
        headings_view(hs@) == spec_extract_headings(s@),
{
    let h: Vec<char> = vec!['<', 'h'];
    let gt_pat: Vec<char> = vec!['>'];
    let mut hs: Vec<Heading> = Vec::new();
    let mut pos: usize = 0;
    loop
        invariant
            pos <= s.len(),
            h@ == heading_start(),
            gt_pat@ == seq!['>'],
            spec_extract_headings(s@) == headings_view(hs@) + extract_from(s@, pos as int),
        decreases s.len() - pos,
    {
        let ghost hs0 = headings_view(hs@);
        match find(s, &h, pos) {
            None => {
                proof {
                    lemma_extract_no_heading(s@, pos as int);
                    assert(hs0 + Seq::<SpecHeading>::empty() == hs0);
                }
                return hs;
            },
            Some(start) => {
                proof {
                    lemma_find_from(s@, h@, pos as int);
                }
                if !(s.len() - start > 2 && '1' <= s[start + 2] && s[start + 2] <= '6') || s[start
                    + 2] == '1' {
                    proof {
                        lemma_extract_skip(s@, pos as int, start as int);
                    }
                    pos = start + 1;
                } else {
                    let l = s[start + 2];
                    let close: Vec<char> = vec!['<', '/', 'h', l, '>'];
                    assert(close@ == close_tag(l));
                    match find(s, &gt_pat, start) {
                        None => {
                            proof {
                                lemma_extract_stop(s@, pos as int, start as int);
                                assert(hs0 + Seq::<SpecHeading>::empty() == hs0);
                            }
                            return hs;
                        },
                        Some(gt) => {
                            proof {
                                lemma_find_from(s@, gt_pat@, start as int);
                            }
                            match find(s, &close, gt + 1) {
                                None => {
                                    proof {
                                        lemma_extract_stop(s@, pos as int, start as int);
                                        assert(hs0 + Seq::<SpecHeading>::empty() == hs0);
                                    }
                                    return hs;
                                },
                                Some(ce) => {
                                    proof {
                                        lemma_find_from(s@, close@, gt + 1);
                                        lemma_extract_heading(
                                            s@,
                                            pos as int,
                                            start as int,
                                            gt as int,
                                            ce as int,
                                        );
                                    }
                                    let content = copy_range(s, gt + 1, ce);
                                    let text = strip_tags_chars(&content);
                                    let id = slugify_chars(&text);
                                    let level: u8 = (l as u32 - 48) as u8;
                                    let heading = Heading {
                                        level,
                                        text: string_of(&text),
                                        id: string_of(&id),
                                    };
                                    let ghost hv = heading@;
                                    hs.push(heading);
                                    proof {
                                        assert(headings_view(hs@) == hs0.push(hv));
                                        assert(hs0 + (seq![hv] + extract_from(s@, ce as int))
                                            == hs0.push(hv) + extract_from(s@, ce as int));
                                    }
                                    pos = ce;
                                },
                            }
                        },
                    }
                }
            },
        }
    }
}

/// The headings of levels 2 to 6 in `html`, with their text stripped of tags and
/// their slugs; level-1 headings are skipped.
pub fn extract_headings(html: &str) -> (hs: Vec<Heading>)
    ensures
        headings_view(hs@) == spec_extract_headings(html@),
{
    let v = chars_of(html);
    extract_headings_chars(&v)
}


/// A heading as the table of contents lists it: level 2 to 6, text free of tags,
/// and the slug of that text as its id.
pub open spec fn well_formed_heading(h: SpecHeading) -> bool {
    &&& 2 <= h.level <= 6
    &&& tag_free(h.text)
    &&& h.id == spec_slugify(h.text)
}

proof fn lemma_extract_from_well_formed(s: Seq<char>, pos: int)
    ensures
        forall|i: int|
            0 <= i < extract_from(s, pos).len() ==> well_formed_heading(
                #[trigger] extract_from(s, pos)[i],
            ),
    decreases s.len() - pos,
{
    if 0 <= pos <= s.len() {
        lemma_find_from(s, heading_start(), pos);
        match find_from(s, heading_start(), pos) {
            None => lemma_extract_no_heading(s, pos),
            Some(start) => {
                if !(start + 2 < s.len() && is_level_char(s[start + 2])) || s[start + 2] == '1' {
                    lemma_extract_skip(s, pos, start);
                    lemma_extract_from_well_formed(s, start + 1);
                } else {
                    let l = s[start + 2];
                    lemma_find_from(s, seq!['>'], start);
                    match find_from(s, seq!['>'], start) {
                        None => lemma_extract_stop(s, pos, start),
                        Some(gt) => {
                            lemma_find_from(s, close_tag(l), gt + 1);
                            match find_from(s, close_tag(l), gt + 1) {
                                None => lemma_extract_stop(s, pos, start),
                                Some(ce) => {
                                    lemma_extract_heading(s, pos, start, gt, ce);
                                    lemma_extract_from_well_formed(s, ce);
                                    lemma_strip_tags_tag_free(s.subrange(gt + 1, ce));
                                    let hs = extract_from(s, pos);
                                    let rest = extract_from(s, ce);
                                    assert forall|i: int| 0 <= i < hs.len() implies well_formed_heading(
                                        #[trigger] hs[i],
                                    ) by {
                                        if i > 0 {
                                            assert(hs[i] == rest[i - 1]);
                                        }
                                    }
                                },
                            }
                        },
                    }
                }
            },
        }
    } else {
        reveal(extract_from);
    }
}

/// Every heading that `extract_headings` finds has a level from 2 to 6, text
/// without tags, and the slug of its text as its id.
pub proof fn lemma_extracted_headings_well_formed(html: Seq<char>)
    ensures
        forall|i: int|
            0 <= i < spec_extract_headings(html).len() ==> well_formed_heading(
                #[trigger] spec_extract_headings(html)[i],
            ),
{
    lemma_extract_from_well_formed(html, 0);
}

/// The opening of the table of contents.
pub const TOC_OPEN: &'static str = "<nav class=\"toc\"><h2>Table of Contents</h2><ul>\n";

/// The closing of the table of contents.
pub const TOC_CLOSE: &'static str = "</ul></nav>\n";

/// What comes before a heading's id in its table-of-contents entry.
pub const TOC_LINK_OPEN: &'static str = "<li><a href=\"#";

/// What comes between a heading's id and its text in its entry.
pub const TOC_LINK_MID: &'static str = "\">";

/// What ends a table-of-contents entry.
pub const TOC_LINK_CLOSE: &'static str = "</a></li>\n";

/// The lowest level among `hs` (2 for an empty list).
pub open spec fn min_level(hs: Seq<SpecHeading>) -> u8
    decreases hs.len(),
{
    if hs.len() == 0 {
        2
    } else if hs.len() == 1 {
        hs[0].level
    } else {
        let m = min_level(hs.drop_last());
        if hs.last().level < m {
            hs.last().level
        } else {
            m
        }
    }
}

/// `n` spaces.
pub open spec fn spaces(n: int) -> Seq<char> {
    Seq::new(n as nat, |i: int| ' ')
}

/// The table-of-contents entry of `h`, indented by how far its level lies below `base`.
pub open spec fn toc_entry(h: SpecHeading, base: u8) -> Seq<char> {
    spaces(h.level - base) + TOC_LINK_OPEN@ + h.id + TOC_LINK_MID@ + h.text + TOC_LINK_CLOSE@
}

/// The entries of `hs`, one after the other.
pub open spec fn toc_entries(hs: Seq<SpecHeading>, base: u8) -> Seq<char>
    decreases hs.len(),
{
    if hs.len() == 0 {
        Seq::empty()
    } else {
        toc_entries(hs.drop_last(), base) + toc_entry(hs.last(), base)
    }
}

/// The table of contents of `hs`: empty when there are no headings, else a
/// `<nav class="toc">` list of links, one per heading, indented by level.
pub open spec fn spec_build_toc(hs: Seq<SpecHeading>) -> Seq<char> {
    if hs.len() == 0 {
        Seq::empty()
    } else {
        TOC_OPEN@ + toc_entries(hs, min_level(hs)) + TOC_CLOSE@
    }
}

proof fn lemma_min_level(hs: Seq<SpecHeading>)
    requires
        hs.len() > 0,
    ensures
        forall|i: int| 0 <= i < hs.len() ==> min_level(hs) <= #[trigger] hs[i].level,
    decreases hs.len(),
{
    if hs.len() > 1 {
        lemma_min_level(hs.drop_last());
        assert forall|i: int| 0 <= i < hs.len() implies min_level(hs) <= #[trigger] hs[i].level by {
            if i < hs.len() - 1 {
                assert(hs[i] == hs.drop_last()[i]);
            }
        }
    }
}

/// Builds the table of contents of `headings`.
pub fn build_toc(headings: &[Heading]) -> (r: String)
    ensures
        r@ == spec_build_toc(headings@.map_values(|h: Heading| h@)),
{
    let ghost hv = headings@.map_values(|h: Heading| h@);
    if headings.len() == 0 {
        return String::new();
    }
    let mut base: u8 = headings[0].level;
    let mut k: usize = 1;
    while k < headings.len()
        invariant
            1 <= k <= headings.len(),
            hv == headings@.map_values(|h: Heading| h@),
            base == min_level(hv.take(k as int)),
        decreases headings.len() - k,
    {
        assert(hv.take(k + 1).drop_last() == hv.take(k as int));
        if headings[k].level < base {
            base = headings[k].level;
        }
        k = k + 1;
    }
    assert(hv.take(headings.len() as int) == hv);
    proof {
        lemma_min_level(hv);
    }
    let link_open = chars_of(TOC_LINK_OPEN);
    let link_mid = chars_of(TOC_LINK_MID);
    let link_close = chars_of(TOC_LINK_CLOSE);
    let mut out: Vec<char> = chars_of(TOC_OPEN);
    let mut i: usize = 0;
    while i < headings.len()
        invariant
            i <= headings.len(),
            hv == headings@.map_values(|h: Heading| h@),
            base == min_level(hv),
            forall|j: int| 0 <= j < hv.len() ==> base <= #[trigger] hv[j].level,
            link_open@ == TOC_LINK_OPEN@,
            link_mid@ == TOC_LINK_MID@,
            link_close@ == TOC_LINK_CLOSE@,
            out@ == TOC_OPEN@ + toc_entries(hv.take(i as int), base),
        decreases headings.len() - i,
    {
        let h = &headings[i];
        assert(hv[i as int] == h@);
        assert(base <= hv[i as int].level);
        let ghost out0 = out@;
        let indent = h.level - base;
        let mut n: u8 = 0;
        while n < indent
            invariant
                n <= indent,
                out@ == out0 + spaces(n as int),
            decreases indent - n,
        {
            out.push(' ');
            n = n + 1;
            assert(out@ == out0 + spaces(n as int));
        }
        push_all(&mut out, &link_open);
        let id = chars_of(h.id.as_str());
        push_all(&mut out, &id);
        push_all(&mut out, &link_mid);
        let text = chars_of(h.text.as_str());
        push_all(&mut out, &text);
        push_all(&mut out, &link_close);
        proof {
            assert(hv.take(i + 1).drop_last() == hv.take(i as int));
            assert(out@ == TOC_OPEN@ + toc_entries(hv.take(i + 1), base));
        }
        i = i + 1;
    }
    assert(hv.take(headings.len() as int) == hv);
    let close = chars_of(TOC_CLOSE);
    push_all(&mut out, &close);
    string_of(&out)
}

/// The closing tag of a level-1 heading.
pub open spec fn h1_close() -> Seq<char> {
    close_tag('1')
}

/// `html` with `toc` put right after the first `</h1>`, or in front of
/// everything when there is none.
pub open spec fn spec_inject_toc(html: Seq<char>, toc: Seq<char>) -> Seq<char> {
    match find_from(html, h1_close(), 0) {
        Some(p) => html.take(p + 5) + toc + html.skip(p + 5),
        None => toc + html,
    }
}

/// Puts `toc` into `html` right after the first `</h1>`, or in front when there is none.
pub fn inject_toc(html: &str, toc: &str) -> (r: String)
    ensures
        r@ == spec_inject_toc(html@, toc@),
{
    let h = chars_of(html);
    let t = chars_of(toc);
    let close: Vec<char> = vec!['<', '/', 'h', '1', '>'];
    assert(close@ == h1_close());
    let mut out: Vec<char> = Vec::new();
    match find(&h, &close, 0) {
        Some(p) => {
            proof {
                lemma_find_from(h@, close@, 0);
            }
            push_range(&mut out, &h, 0, p + 5);
            push_all(&mut out, &t);
            push_range(&mut out, &h, p + 5, h.len());
            assert(h@.take(p + 5) == h@.subrange(0, p + 5));
            assert(h@.skip(p + 5) == h@.subrange(p + 5, h@.len() as int));
        },
        None => {
            push_all(&mut out, &t);
            push_all(&mut out, &h);
        },
    }
    string_of(&out)
}

/// The id attribute of a table of contents called "Table of Contents".
pub const TOC_MARK_FULL: &'static str = "id=\"table-of-contents\"";

/// The id attribute of a table of contents called "Contents".
pub const TOC_MARK_CONTENTS: &'static str = "id=\"contents\"";

/// The id attribute of a table of contents called "TOC".
pub const TOC_MARK_SHORT: &'static str = "id=\"toc\"";

/// `html`, lower-cased, carries one of the id attributes of a table of contents.
pub open spec fn spec_has_toc(html: Seq<char>) -> bool {
    let lower = str_to_lowercase(html);
    contains(lower, TOC_MARK_FULL@) || contains(lower, TOC_MARK_CONTENTS@) || contains(
        lower,
        TOC_MARK_SHORT@,
    )
}

/// Tells whether `html` already holds a table of contents: an element whose id,
/// compared without case, is `table-of-contents`, `contents` or `toc`.
pub fn has_toc(html: &str) -> (r: bool)
    ensures
        r == spec_has_toc(html@),
{
    let lower = to_lowercase(html);
    let l = chars_of(lower.as_str());
    let m1 = chars_of(TOC_MARK_FULL);
    let m2 = chars_of(TOC_MARK_CONTENTS);
    let m3 = chars_of(TOC_MARK_SHORT);
    find(&l, &m1, 0).is_some() || find(&l, &m2, 0).is_some() || find(&l, &m3, 0).is_some()
}


// ---------------------------------------------------------------------------
// Whole pages
// ---------------------------------------------------------------------------

/// What pulldown-cmark renders for `input`: the HTML of the Markdown text with
/// every extension of `Options::all()` switched on.
pub uninterp spec fn commonmark_html(input: Seq<char>) -> Seq<char>;

/// Calls `pulldown_cmark::Parser::new_ext` with `Options::all()` and writes the
/// events with `pulldown_cmark::html::push_html` into a fresh `String`. Nothing
/// is claimed of the HTML beyond that it is a function of the input, named
/// `commonmark_html`.
#[verifier::external_body]
fn render_commonmark(input: &str) -> (r: String)
    ensures
        r@ == commonmark_html(input@),
{
    let parser = pulldown_cmark::Parser::new_ext(input, pulldown_cmark::Options::all());
    let mut body = String::new();
    pulldown_cmark::html::push_html(&mut body, parser);
    body
}

/// Everything of a page up to its stylesheet.
pub const PAGE_HEAD: &'static str = "<!DOCTYPE html>\n<html lang=\"en\">\n<head>\n  <meta charset=\"UTF-8\">\n  <meta name=\"viewport\" content=\"width=device-width, initial-scale=1.0\">\n  <style>";

/// What lies between a page's stylesheet and its body.
pub const PAGE_STYLE_END: &'static str = "</style>\n</head>\n<body>\n";

/// What ends a page after its body.
pub const PAGE_END: &'static str = "\n</body>\n</html>";

/// The body of a page once heading ids are in: with a table of contents after
/// the title when one is asked for and the body holds none yet, else as it is.
pub open spec fn body_with_toc(body: Seq<char>, need_toc: bool) -> Seq<char> {
    if need_toc && !spec_has_toc(body) {
        spec_inject_toc(body, spec_build_toc(spec_extract_headings(body)))
    } else {
        body
    }
}

/// A full HTML page with the stylesheet `css` and the body `body`.
pub open spec fn spec_page(css: Seq<char>, body: Seq<char>) -> Seq<char> {
    PAGE_HEAD@ + css + PAGE_STYLE_END@ + body + PAGE_END@
}

/// The page made of rendered HTML `body`: heading ids put in, a table of contents
/// added on request, the whole wrapped with `css`; `None` where the heading
/// scan cannot go through `body`.
pub open spec fn spec_render_page(body: Seq<char>, css: Seq<char>, need_toc: bool) -> Option<
    Seq<char>,
> {
    match spec_inject_heading_ids(body) {
        Some(b) => Some(spec_page(css, body_with_toc(b, need_toc))),
        None => None,
    }
}

/// Turns rendered HTML `body` into a full page: heading ids, an optional table
/// of contents, and the stylesheet `css`. `None` where the heading scan cannot go
/// through `body`.
pub fn render_page(body: &str, css: &str, need_toc: bool) -> (r: Option<String>)
    ensures
        r matches Some(p) ==> spec_render_page(body@, css@, need_toc) == Some(p@),
        r is None ==> spec_render_page(body@, css@, need_toc) is None,
{
    let b = chars_of(body);
    match inject_heading_ids_checked(&b) {
        None => None,
        Some(b1) => {
            let with_ids = string_of(&b1);
            let full = if need_toc && !has_toc(with_ids.as_str()) {
                let hs = extract_headings_chars(&b1);
                let toc = build_toc(hs.as_slice());
                inject_toc(with_ids.as_str(), toc.as_str())
            } else {
                with_ids
            };
            let mut page = String::from_str(PAGE_HEAD);
            page.append(css);
            page.append(PAGE_STYLE_END);
            page.append(full.as_str());
            page.append(PAGE_END);
            Some(page)
        },
    }
}

/// Renders Markdown `input` to a full HTML page styled with `css`, with an id
/// on every heading and, when `need_toc` holds, a table of contents. `verbose`
/// is accepted for callers that log what they do; the rendering prints nothing.
pub fn markdown_to_html(input: &str, css: &str, need_toc: bool, verbose: bool) -> (r: String)
    requires
        spec_inject_heading_ids(commonmark_html(input@)) is Some,
    ensures
        spec_render_page(commonmark_html(input@), css@, need_toc) == Some(r@),
{
    let _ = verbose;
    let body = render_commonmark(input);
    match render_page(body.as_str(), css, need_toc) {
        Some(page) => page,
        None => String::new(),
    }
}

/// The HTML body that Markdown `input` renders to, with an id on every heading:
/// the body that `markdown_to_html` wraps into a page, before any table of
/// contents. `None` where the heading scan cannot go through it.
pub fn heading_body(input: &str) -> (r: Option<String>)
    ensures
        r matches Some(b) ==> spec_inject_heading_ids(commonmark_html(input@)) == Some(b@),
        r is None ==> spec_inject_heading_ids(commonmark_html(input@)) is None,
{
    let body = render_commonmark(input);
    let v = chars_of(body.as_str());
    match inject_heading_ids_checked(&v) {
        Some(out) => Some(string_of(&out)),
        None => None,
    }
}

/// `markdown_to_html` where the heading scan can go through the rendered HTML,
/// `None` where it cannot.
pub fn try_markdown_to_html(input: &str, css: &str, need_toc: bool, verbose: bool) -> (r: Option<
    String,
>)
    ensures
        r matches Some(p) ==> spec_render_page(commonmark_html(input@), css@, need_toc) == Some(
            p@,
        ),
        r is None ==> spec_render_page(commonmark_html(input@), css@, need_toc) is None,
{
    let body = render_commonmark(input);
    if heading_ids_defined(body.as_str()) {
        Some(markdown_to_html(input, css, need_toc, verbose))
    } else {
        None
    }
}


// ---------------------------------------------------------------------------
// Laws of the page
// ---------------------------------------------------------------------------

/// `r` is `html` with `piece` put in at index `p`.
pub open spec fn inserted_at(r: Seq<char>, html: Seq<char>, piece: Seq<char>, p: int) -> bool {
    0 <= p <= html.len() && r == html.take(p) + piece + html.skip(p)
}

/// The table of contents goes into the body at a single place: taking it out
/// again gives back the body as it was.
pub proof fn lemma_inject_toc_inserts(html: Seq<char>, toc: Seq<char>)
    ensures
        exists|p: int| #[trigger] inserted_at(spec_inject_toc(html, toc), html, toc, p),
{
    lemma_find_from(html, h1_close(), 0);
    match find_from(html, h1_close(), 0) {
        Some(p) => {
            assert(inserted_at(spec_inject_toc(html, toc), html, toc, p + 5));
        },
        None => {
            assert(html.take(0) + toc + html.skip(0) == toc + html);
            assert(inserted_at(spec_inject_toc(html, toc), html, toc, 0));
        },
    }
}

/// Without a request for a table of contents, the page holds the rendered body
/// with its heading ids and nothing more.
pub proof fn lemma_page_without_toc(body: Seq<char>, css: Seq<char>)
    requires
        spec_inject_heading_ids(body) is Some,
    ensures
        spec_render_page(body, css, false) == Some(
            spec_page(css, spec_inject_heading_ids(body).unwrap()),
        ),
{
}

/// A body that already holds a table of contents gets no second one: asking for
/// one gives the same page as not asking.
pub proof fn lemma_existing_toc_kept(body: Seq<char>, css: Seq<char>)
    requires
        spec_inject_heading_ids(body) matches Some(b) && spec_has_toc(b),
    ensures
        spec_render_page(body, css, true) == spec_render_page(body, css, false),
{
}

/// A body without headings of levels 2 to 6 gets an empty table of contents:
/// asking for one changes nothing when the body holds none yet.
pub proof fn lemma_no_headings_no_toc(body: Seq<char>, css: Seq<char>)
    requires
        spec_inject_heading_ids(body) matches Some(b) && spec_extract_headings(b).len() == 0,
    ensures
        spec_render_page(body, css, true) == spec_render_page(body, css, false),
{
    let b = spec_inject_heading_ids(body).unwrap();
    let e = Seq::<char>::empty();
    lemma_find_from(b, h1_close(), 0);
    match find_from(b, h1_close(), 0) {
        Some(p) => {
            assert(b.take(p + 5) + e + b.skip(p + 5) == b);
        },
        None => {
            assert(e + b == b);
        },
    }
}


/// The bare opening tag `<hN>` of level digit `l`.
pub open spec fn bare_open_tag(l: char) -> Seq<char> {
    seq!['<', 'h', l, '>']
}

/// The anchor id that a heading with content `c` is given.
pub open spec fn heading_id(c: Seq<char>) -> Seq<char> {
    spec_slugify(spec_strip_tags(c))
}

proof fn lemma_filter_tag_free(t: Seq<char>)
    requires
        tag_free(t),
    ensures
        tag_free(t.filter(|c: char| kept_in_slug(c))),
    decreases t.len(),
{
    reveal_with_fuel(Seq::<_>::filter, 1);
    if t.len() > 0 {
        assert(tag_free(t.drop_last()));
        lemma_filter_tag_free(t.drop_last());
    }
}

/// A slug of text without tags holds no `<` and no `>` either.
proof fn lemma_heading_id_tag_free(c: Seq<char>)
    ensures
        tag_free(heading_id(c)),
{
    lemma_strip_tags_tag_free(c);
    let t = spec_strip_tags(c);
    lemma_filter_tag_free(t);
    let f = t.filter(|c: char| kept_in_slug(c));
    assert forall|i: int| 0 <= i < heading_id(c).len() implies heading_id(c)[i] != '<'
        && heading_id(c)[i] != '>' by {
        assert(heading_id(c)[i] == slug_char(f[i]));
    }
}

/// `p` occurs in `s` at none of the indices `from..to`, as `x` sits in `s` at
/// `from` and holds no occurrence of `p`, and what follows `x` in `s` starts with
/// a character that `p` holds only at its front.
proof fn lemma_no_occurrence_in_piece(
    s: Seq<char>,
    p: Seq<char>,
    x: Seq<char>,
    from: int,
    next: char,
)
    requires
        0 <= from,
        from + x.len() < s.len(),
        s.subrange(from, from + x.len()) == x,
        s[from + x.len()] == next,
        p.len() > 0,
        forall|k: int| 1 <= k < p.len() ==> p[k] != next,
        forall|j: int| 0 <= j ==> !occurs_at(x, p, j),
    ensures
        forall|j: int| from <= j < from + x.len() ==> !occurs_at(s, p, j),
{
    assert forall|j: int| from <= j < from + x.len() implies !occurs_at(s, p, j) by {
        if occurs_at(s, p, j) {
            if j + p.len() <= from + x.len() {
                assert forall|k: int| 0 <= k < p.len() implies #[trigger] x[(j - from) + k] == p[k] by {
                    assert(x[(j - from) + k] == s.subrange(from, from + x.len())[(j - from) + k]);
                    assert(s[j + k] == p[k]);
                }
                assert(occurs_at(x, p, j - from));
            } else {
                let k = from + x.len() - j;
                assert(s[j + k] == p[k]);
            }
        }
    }
}

/// The close tag occurs nowhere in `x`.
pub open spec fn no_close_tag(x: Seq<char>, l: char) -> bool {
    forall|j: int| 0 <= j ==> !occurs_at(x, close_tag(l), j)
}

/// A search that finds nothing in `p1..p2` finds from `p1` what it finds from `p2`.
proof fn lemma_find_skip(s: Seq<char>, p: Seq<char>, p1: int, p2: int)
    requires
        0 <= p1 <= p2,
        forall|j: int| p1 <= j < p2 ==> !occurs_at(s, p, j),
    ensures
        find_from(s, p, p1) == find_from(s, p, p2),
    decreases p2 - p1,
{
    if p1 < p2 {
        lemma_find_skip(s, p, p1 + 1, p2);
    }
}

/// The heading scan from two places that lead to the same next `<h` lists the same headings.
proof fn lemma_extract_same_find(s: Seq<char>, p1: int, p2: int)
    requires
        0 <= p1 <= s.len(),
        0 <= p2 <= s.len(),
        find_from(s, heading_start(), p1) == find_from(s, heading_start(), p2),
    ensures
        extract_from(s, p1) == extract_from(s, p2),
{
    reveal(extract_from);
}

/// Every `<h` in `x` is followed, inside `x`, by an ASCII character that is no
/// heading level digit and by one more character, so that the heading scans pass
/// it by as text (as they pass `<hr />` or `<head>`).
pub open spec fn inert(x: Seq<char>) -> bool {
    forall|j: int|
        #[trigger] occurs_at(x, heading_start(), j) ==> j + 3 <= x.len() && (x[j + 2] as u32)
            < 128 && !is_level_char(x[j + 2])
}

/// Every `<h` that starts in `s[p..q]` is followed, before `q`, by an ASCII
/// character that is no heading level digit and by one more character.
pub open spec fn inert_region(s: Seq<char>, p: int, q: int) -> bool {
    forall|j: int|
        p <= j < q && #[trigger] occurs_at(s, heading_start(), j) ==> j + 3 <= q && (s[j + 2] as u32)
            < 128 && !is_level_char(s[j + 2])
}

/// An inert piece of text keeps its region of a larger text inert, when what
/// follows it is no `h`.
proof fn lemma_inert_piece(s: Seq<char>, x: Seq<char>, from: int)
    requires
        0 <= from,
        from + x.len() <= s.len(),
        s.subrange(from, from + x.len()) == x,
        inert(x),
        from + x.len() == s.len() || s[from + x.len()] != 'h',
    ensures
        inert_region(s, from, from + x.len()),
{
    let hs = heading_start();
    assert forall|j: int| from <= j < from + x.len() && #[trigger] occurs_at(s, hs, j) implies j + 3
        <= from + x.len() && (s[j + 2] as u32) < 128 && !is_level_char(s[j + 2]) by {
        assert(s[j + 0] == '<' && s[j + 1] == 'h');
        if j + 1 < from + x.len() {
            assert(x[j - from] == s[j]);
            assert(x[(j - from) + 1] == s[j + 1]);
            assert(occurs_at(x, hs, j - from)) by {
                assert forall|k: int| 0 <= k < hs.len() implies #[trigger] x[(j - from) + k] == hs[k] by {
                    if k == 0 {
                        assert(x[(j - from) + 0] == x[j - from]);
                    }
                }
            }
            assert(x[(j - from) + 2] == s[j + 2]);
        }
    }
}

/// The heading-id scan from `p` when it finds its next `<h` where a scan from
/// `q` does: the text `p..q` is copied in front of what the scan from `q` gives.
proof fn lemma_inject_same_find(s: Seq<char>, p: int, q: int)
    requires
        0 <= p <= q <= s.len(),
        find_from(s, heading_start(), p) == find_from(s, heading_start(), q),
    ensures
        inject_ids_from(s, p) == match inject_ids_from(s, q) {
            Some(t) => Some(s.subrange(p, q) + t),
            None => None,
        },
{
    reveal(inject_ids_from);
    lemma_find_from(s, heading_start(), q);
    let mid = s.subrange(p, q);
    match find_from(s, heading_start(), q) {
        None => {
            assert(s.subrange(p, s.len() as int) == mid + s.subrange(q, s.len() as int));
        },
        Some(start) => {
            assert(s.subrange(p, start) == mid + s.subrange(q, start));
            if bare_heading_open_at(s, start) {
                let l = s[start + 2];
                match find_from(s, close_tag(l), start + 4) {
                    None => match inject_ids_from(s, start + 4) {
                        Some(t) => {
                            assert(s.subrange(p, start) + s.subrange(start, start + 4) + t == mid + (
                            s.subrange(q, start) + s.subrange(start, start + 4) + t));
                        },
                        None => {},
                    },
                    Some(ce) => {
                        lemma_find_from(s, close_tag(l), start + 4);
                        let content = s.subrange(start + 4, ce);
                        let id = spec_slugify(spec_strip_tags(content));
                        match inject_ids_from(s, ce + 5) {
                            Some(t) => {
                                assert(s.subrange(p, start) + open_tag_with_id(l, id) + content
                                    + close_tag(l) + t == mid + (s.subrange(q, start)
                                    + open_tag_with_id(l, id) + content + close_tag(l) + t));
                            },
                            None => {},
                        }
                    },
                }
            } else if start + 3 <= s.len() && (s[start + 2] as u32) < 128 {
                match inject_ids_from(s, start + 3) {
                    Some(t) => {
                        assert(s.subrange(p, start) + s.subrange(start, start + 3) + t == mid + (
                        s.subrange(q, start) + s.subrange(start, start + 3) + t));
                    },
                    None => {},
                }
            }
        },
    }
}

/// The heading-id scan copies an inert region of text as it is.
proof fn lemma_inject_inert(s: Seq<char>, p: int, q: int)
    requires
        0 <= p <= q <= s.len(),
        inert_region(s, p, q),
    ensures
        inject_ids_from(s, p) == match inject_ids_from(s, q) {
            Some(t) => Some(s.subrange(p, q) + t),
            None => None,
        },
    decreases q - p,
{
    let hs = heading_start();
    lemma_find_from(s, hs, p);
    match find_from(s, hs, p) {
        Some(j) => {
            if j < q {
                assert(!bare_heading_open_at(s, j));
                lemma_inject_other(s, p, j);
                assert(inert_region(s, j + 3, q));
                lemma_inject_inert(s, j + 3, q);
                match inject_ids_from(s, q) {
                    Some(t) => {
                        assert(s.subrange(p, j) + s.subrange(j, j + 3) + (s.subrange(j + 3, q) + t)
                            == s.subrange(p, q) + t);
                    },
                    None => {},
                }
            } else {
                lemma_find_skip(s, hs, p, q);
                lemma_inject_same_find(s, p, q);
            }
        },
        None => {
            lemma_find_skip(s, hs, p, q);
            lemma_inject_same_find(s, p, q);
        },
    }
}

/// The heading list skips an inert region of text.
proof fn lemma_extract_inert(s: Seq<char>, p: int, q: int)
    requires
        0 <= p <= q <= s.len(),
        inert_region(s, p, q),
    ensures
        extract_from(s, p) == extract_from(s, q),
    decreases q - p,
{
    let hs = heading_start();
    lemma_find_from(s, hs, p);
    match find_from(s, hs, p) {
        Some(j) => {
            if j < q {
                lemma_extract_skip(s, p, j);
                assert(inert_region(s, j + 1, q));
                lemma_extract_inert(s, j + 1, q);
            } else {
                lemma_find_skip(s, hs, p, q);
                lemma_extract_same_find(s, p, q);
            }
        },
        None => {
            lemma_find_skip(s, hs, p, q);
            lemma_extract_same_find(s, p, q);
        },
    }
}

/// Some text, then a bare heading `<hN>content</hN>`.
pub struct HeadingPiece {
    pub gap: Seq<char>,
    pub level: char,
    pub content: Seq<char>,
}

/// A piece whose text and content are inert, whose level digit is `1` to `6`,
/// and whose content holds no closing tag of its level; its content holds no
/// other heading.
pub open spec fn piece_ok(p: HeadingPiece) -> bool {
    &&& inert(p.gap)
    &&& inert(p.content)
    &&& is_level_char(p.level)
    &&& no_close_tag(p.content, p.level)
}

/// The text of a piece as rendered HTML.
pub open spec fn piece_source(p: HeadingPiece) -> Seq<char> {
    p.gap + bare_open_tag(p.level) + p.content + close_tag(p.level)
}

/// The text of a piece once its heading has its id.
pub open spec fn piece_with_id(p: HeadingPiece) -> Seq<char> {
    p.gap + open_tag_with_id(p.level, heading_id(p.content)) + p.content + close_tag(p.level)
}

/// Pieces one after the other, then `tail`, as rendered HTML.
pub open spec fn pieces_source(ps: Seq<HeadingPiece>, tail: Seq<char>) -> Seq<char>
    decreases ps.len(),
{
    if ps.len() == 0 {
        tail
    } else {
        piece_source(ps[0]) + pieces_source(ps.drop_first(), tail)
    }
}

/// Pieces one after the other, then `tail`, with the ids of their headings.
pub open spec fn pieces_with_ids(ps: Seq<HeadingPiece>, tail: Seq<char>) -> Seq<char>
    decreases ps.len(),
{
    if ps.len() == 0 {
        tail
    } else {
        piece_with_id(ps[0]) + pieces_with_ids(ps.drop_first(), tail)
    }
}

/// The headings of levels 2 to 6 among the pieces, as the table of contents
/// lists them: the id of each is the id written into its tag.
pub open spec fn pieces_listed(ps: Seq<HeadingPiece>) -> Seq<SpecHeading>
    decreases ps.len(),
{
    if ps.len() == 0 {
        Seq::empty()
    } else if ps[0].level == '1' {
        pieces_listed(ps.drop_first())
    } else {
        seq![
            SpecHeading {
                level: level_of(ps[0].level),
                text: spec_strip_tags(ps[0].content),
                id: heading_id(ps[0].content),
            },
        ] + pieces_listed(ps.drop_first())
    }
}

/// The pieces after the first are fine too.
proof fn lemma_rest_ok(ps: Seq<HeadingPiece>)
    requires
        ps.len() > 0,
        forall|i: int| 0 <= i < ps.len() ==> piece_ok(#[trigger] ps[i]),
    ensures
        forall|i: int| 0 <= i < ps.drop_first().len() ==> piece_ok(#[trigger] ps.drop_first()[i]),
{
    assert forall|i: int| 0 <= i < ps.drop_first().len() implies piece_ok(
        #[trigger] ps.drop_first()[i],
    ) by {
        assert(ps.drop_first()[i] == ps[i + 1]);
    }
}

/// The end of a text that starts at `pos` with `tail`: inert.
proof fn lemma_tail_inert(s: Seq<char>, pos: int, tail: Seq<char>)
    requires
        0 <= pos <= s.len(),
        s.subrange(pos, s.len() as int) == tail,
        inert(tail),
    ensures
        inert_region(s, pos, s.len() as int),
        find_from(s, heading_start(), s.len() as int) is None,
{
    lemma_inert_piece(s, tail, pos);
}

#[verifier::rlimit(60)]
proof fn lemma_inject_pieces(s: Seq<char>, pos: int, ps: Seq<HeadingPiece>, tail: Seq<char>)
    requires
        0 <= pos <= s.len(),
        s.subrange(pos, s.len() as int) == pieces_source(ps, tail),
        forall|i: int| 0 <= i < ps.len() ==> piece_ok(#[trigger] ps[i]),
        inert(tail),
    ensures
        inject_ids_from(s, pos) == Some(pieces_with_ids(ps, tail)),
    decreases ps.len(),
{
    let hs = heading_start();
    let r = s.subrange(pos, s.len() as int);
    if ps.len() == 0 {
        lemma_tail_inert(s, pos, tail);
        lemma_inject_inert(s, pos, s.len() as int);
        lemma_inject_no_heading(s, s.len() as int);
        assert(r + s.subrange(s.len() as int, s.len() as int) == r);
    } else {
        let p = ps[0];
        assert(piece_ok(p));
        let rest = ps.drop_first();
        let l = p.level;
        let c = p.content;
        let g = p.gap.len() as int;
        let a = pos + g;
        let cs = a + 4;
        let ce = cs + c.len();
        let next = ce + 5;
        let rs = pieces_source(rest, tail);
        assert(r == p.gap + bare_open_tag(l) + c + close_tag(l) + rs);
        assert forall|k: int| 0 <= k < r.len() implies #[trigger] s[pos + k] == r[k] by {}
        assert(s.subrange(pos, a) == p.gap);
        assert(s[a] == '<') by {
            assert(s[pos + g] == r[g]);
        }
        lemma_inert_piece(s, p.gap, pos);
        lemma_inject_inert(s, pos, a);
        assert(occurs_at(s, hs, a)) by {
            assert(s[a + 0] == r[g + 0]);
            assert(s[a + 1] == r[g + 1]);
        }
        lemma_find_from_at(s, hs, a, a);
        assert(s[a + 2] == l && s[a + 3] == '>') by {
            assert(s[a + 2] == r[g + 2]);
            assert(s[a + 3] == r[g + 3]);
        }
        let close = close_tag(l);
        assert(s.subrange(cs, ce) == c) by {
            assert forall|k: int| 0 <= k < c.len() implies #[trigger] s.subrange(cs, ce)[k] == c[k] by {
                assert(s[cs + k] == r[g + 4 + k]);
            }
        }
        assert forall|k: int| 0 <= k < 5 implies #[trigger] s[ce + k] == close[k] by {
            assert(s[ce + k] == r[g + 4 + c.len() + k]);
        }
        assert(s[ce] == '<') by {
            assert(s[ce + 0] == close[0]);
        }
        lemma_no_occurrence_in_piece(s, close, c, cs, '<');
        assert(occurs_at(s, close, ce));
        lemma_find_from_at(s, close, cs, ce);
        lemma_inject_heading(s, a, a, ce);
        assert(s.subrange(next, s.len() as int) == rs) by {
            assert forall|k: int| 0 <= k < rs.len() implies #[trigger] s.subrange(
                next,
                s.len() as int,
            )[k] == rs[k] by {
                assert(s[next + k] == r[g + 9 + c.len() + k]);
            }
        }
        lemma_rest_ok(ps);
        lemma_inject_pieces(s, next, rest, tail);
        assert(s.subrange(a, a) == Seq::<char>::empty());
        assert(p.gap + (Seq::<char>::empty() + open_tag_with_id(l, heading_id(c)) + c + close
            + pieces_with_ids(rest, tail)) == pieces_with_ids(ps, tail));
    }
}

#[verifier::rlimit(80)]
proof fn lemma_extract_pieces(s: Seq<char>, pos: int, ps: Seq<HeadingPiece>, tail: Seq<char>)
    requires
        0 <= pos <= s.len(),
        s.subrange(pos, s.len() as int) == pieces_with_ids(ps, tail),
        forall|i: int| 0 <= i < ps.len() ==> piece_ok(#[trigger] ps[i]),
        inert(tail),
    ensures
        extract_from(s, pos) == pieces_listed(ps),
    decreases ps.len(),
{
    let hs = heading_start();
    let r = s.subrange(pos, s.len() as int);
    if ps.len() == 0 {
        lemma_tail_inert(s, pos, tail);
        lemma_extract_inert(s, pos, s.len() as int);
        lemma_extract_no_heading(s, s.len() as int);
    } else {
        let p = ps[0];
        assert(piece_ok(p));
        let rest = ps.drop_first();
        let l = p.level;
        let c = p.content;
        let x = heading_id(c);
        let g = p.gap.len() as int;
        let a = pos + g;
        let gt = a + 9 + x.len();
        let cs = gt + 1;
        let ce = cs + c.len();
        let next = ce + 5;
        let rs = pieces_with_ids(rest, tail);
        let open = open_tag_with_id(l, x);
        assert(r == p.gap + open + c + close_tag(l) + rs);
        assert forall|k: int| 0 <= k < r.len() implies #[trigger] s[pos + k] == r[k] by {}
        assert(s.subrange(pos, a) == p.gap);
        assert(s[a] == '<') by {
            assert(s[pos + g] == r[g]);
        }
        lemma_inert_piece(s, p.gap, pos);
        lemma_extract_inert(s, pos, a);
        assert(occurs_at(s, hs, a)) by {
            assert(s[a + 0] == r[g + 0]);
            assert(s[a + 1] == r[g + 1]);
        }
        lemma_find_from_at(s, hs, a, a);
        assert forall|k: int| 0 <= k < open.len() implies #[trigger] s[a + k] == open[k] by {
            assert(s[a + k] == r[g + k]);
        }
        assert(s[a + 2] == l);
        lemma_heading_id_tag_free(c);
        let close = close_tag(l);
        assert(s.subrange(cs, ce) == c) by {
            assert forall|k: int| 0 <= k < c.len() implies #[trigger] s.subrange(cs, ce)[k] == c[k] by {
                assert(s[cs + k] == r[g + open.len() + k]);
            }
        }
        assert forall|k: int| 0 <= k < 5 implies #[trigger] s[ce + k] == close[k] by {
            assert(s[ce + k] == r[g + open.len() + c.len() + k]);
        }
        assert(s[ce] == '<') by {
            assert(s[ce + 0] == close[0]);
        }
        assert(s.subrange(next, s.len() as int) == rs) by {
            assert forall|k: int| 0 <= k < rs.len() implies #[trigger] s.subrange(
                next,
                s.len() as int,
            )[k] == rs[k] by {
                assert(s[next + k] == r[g + open.len() + c.len() + 5 + k]);
            }
        }
        lemma_rest_ok(ps);
        lemma_extract_pieces(s, next, rest, tail);
        // No heading starts in the closing tag.
        assert forall|j: int| ce <= j < next implies !occurs_at(s, hs, j) by {
            if occurs_at(s, hs, j) {
                assert(s[j + 0] == '<' && s[j + 1] == 'h');
                assert(s[ce + (j - ce)] == close[j - ce]);
                if j + 1 < next {
                    assert(s[ce + (j + 1 - ce)] == close[j + 1 - ce]);
                }
            }
        }
        if l == '1' {
            lemma_extract_skip(s, a, a);
            lemma_inert_piece(s, c, cs);
            assert(inert_region(s, a + 1, next)) by {
                assert forall|j: int| a + 1 <= j < next && #[trigger] occurs_at(s, hs, j) implies j
                    + 3 <= next && (s[j + 2] as u32) < 128 && !is_level_char(s[j + 2]) by {
                    assert(s[j + 0] == '<');
                    if j < cs {
                        let k = j - a;
                        assert(s[a + k] == open[k]);
                        if 8 <= k < 8 + x.len() {
                            assert(open[k] == x[k - 8]);
                        }
                    }
                }
            }
            lemma_extract_inert(s, a + 1, next);
        } else {
            let gts = seq!['>'];
            assert forall|j: int| a <= j < gt implies !occurs_at(s, gts, j) by {
                if occurs_at(s, gts, j) {
                    assert(s[j + 0] == '>');
                    let k = j - a;
                    assert(s[a + k] == open[k]);
                    if 8 <= k < 8 + x.len() {
                        assert(open[k] == x[k - 8]);
                    }
                }
            }
            assert(occurs_at(s, gts, gt)) by {
                assert(s[a + (gt - a)] == open[gt - a]);
                assert(s[gt + 0] == '>');
            }
            lemma_find_from_at(s, gts, a, gt);
            lemma_no_occurrence_in_piece(s, close, c, cs, '<');
            assert(occurs_at(s, close, ce));
            lemma_find_from_at(s, close, cs, ce);
            lemma_extract_heading(s, a, a, gt, ce);
            lemma_find_skip(s, hs, ce, next);
            lemma_extract_same_find(s, ce, next);
        }
    }
}

/// Every link of the table of contents points at a heading of the page. For
/// rendered HTML made of bare headings `<hN>content</hN>` (N from 1 to 6) with
/// text between them, where no content holds another heading or its own closing
/// tag, and every `<h` in the text or the contents is followed by an ASCII
/// character that is no level digit (as in `<hr />`), giving the headings their
/// ids writes each one as `<hN id="X">content</hN>` with `X` the slug of its
/// text, and the headings then listed for the table of contents are exactly
/// those of levels 2 to 6, in order, each with that same `X` as its id.
pub proof fn lemma_toc_links_target_headings(ps: Seq<HeadingPiece>, tail: Seq<char>)
    requires
        forall|i: int| 0 <= i < ps.len() ==> piece_ok(#[trigger] ps[i]),
        inert(tail),
    ensures
        spec_inject_heading_ids(pieces_source(ps, tail)) == Some(pieces_with_ids(ps, tail)),
        spec_extract_headings(pieces_with_ids(ps, tail)) == pieces_listed(ps),
{
    let s = pieces_source(ps, tail);
    assert(s.subrange(0, s.len() as int) == s);
    lemma_inject_pieces(s, 0, ps, tail);
    let t = pieces_with_ids(ps, tail);
    assert(t.subrange(0, t.len() as int) == t);
    lemma_extract_pieces(t, 0, ps, tail);
}

// ---------------------------------------------------------------------------
// A second heading-id pass
// ---------------------------------------------------------------------------

/// No bare heading holds another: for every `<hN>` the text up to its next
/// `</hN>` holds no `<h`.
pub open spec fn no_nested_headings(s: Seq<char>) -> bool {
    forall|i: int|
        #[trigger] bare_heading_open_at(s, i) ==> match find_from(s, close_tag(s[i + 2]), i + 4) {
            Some(ce) => forall|j: int| i + 4 <= j < ce ==> !occurs_at(s, heading_start(), j),
            None => true,
        }
}

/// An occurrence inside a stretch of `o` copied from `s` is an occurrence in `s`.
proof fn lemma_occ_copy(
    o: Seq<char>,
    s: Seq<char>,
    w: Seq<char>,
    off: int,
    from: int,
    n: int,
    k: int,
)
    requires
        0 <= off,
        off + n <= o.len(),
        0 <= from,
        from + n <= s.len(),
        o.subrange(off, off + n) == s.subrange(from, from + n),
        off <= k,
        k + w.len() <= off + n,
        occurs_at(o, w, k),
    ensures
        occurs_at(s, w, from + k - off),
{
    assert forall|i: int| 0 <= i < w.len() implies #[trigger] s[(from + k - off) + i] == w[i] by {
        assert(o.subrange(off, off + n)[k - off + i] == o[k + i]);
        assert(s.subrange(from, from + n)[k - off + i] == s[from + k - off + i]);
    }
}

/// The ids pass from `p` starts its result with the text of `s` from `p`, up to
/// three characters past the first `<h` it meets.
proof fn lemma_out_agrees(s: Seq<char>, p: int, m: int)
    requires
        0 <= p <= s.len(),
        0 <= m,
        inject_ids_from(s, p) is Some,
        forall|j: int| p <= j < p + m - 3 ==> !occurs_at(s, heading_start(), j),
    ensures
        forall|k: int|
            0 <= k < m && k < inject_ids_from(s, p).unwrap().len() ==> p + k < s.len()
                && #[trigger] inject_ids_from(s, p).unwrap()[k] == s[p + k],
{
    let hs = heading_start();
    let o = inject_ids_from(s, p).unwrap();
    lemma_find_from(s, hs, p);
    match find_from(s, hs, p) {
        None => {
            lemma_inject_no_heading(s, p);
        },
        Some(start) => {
            let pre = s.subrange(p, start);
            if bare_heading_open_at(s, start) {
                let l = s[start + 2];
                lemma_find_from(s, close_tag(l), start + 4);
                match find_from(s, close_tag(l), start + 4) {
                    Some(ce) => {
                        lemma_inject_heading(s, p, start, ce);
                        let x = spec_slugify(spec_strip_tags(s.subrange(start + 4, ce)));
                        let t = inject_ids_from(s, ce + 5).unwrap();
                        assert(o == pre + open_tag_with_id(l, x) + (s.subrange(start + 4, ce)
                            + close_tag(l) + t));
                        assert forall|k: int| 0 <= k < m && k < o.len() implies p + k < s.len()
                            && #[trigger] o[k] == s[p + k] by {
                            if k >= pre.len() {
                                assert(start >= p + m - 3);
                                assert(s[start + 0] == hs[0] && s[start + 1] == hs[1]);
                                let d = k - pre.len();
                                assert(o[k] == open_tag_with_id(l, x)[d]);
                                assert(d < 3);
                                if d == 0 {
                                    assert(open_tag_with_id(l, x)[0] == '<');
                                } else if d == 1 {
                                    assert(open_tag_with_id(l, x)[1] == 'h');
                                } else {
                                    assert(open_tag_with_id(l, x)[2] == l);
                                }
                            }
                        }
                    },
                    None => {
                        lemma_inject_unclosed(s, p, start);
                    },
                }
            } else {
                lemma_inject_other(s, p, start);
            }
        },
    }
}

/// The ids pass writes no closing tag that the text did not hold: when `</hN>`
/// occurs nowhere in `s` from `p` on, it occurs nowhere in what the pass gives.
#[verifier::rlimit(80)]
proof fn lemma_close_absent_out(s: Seq<char>, p: int, l: char)
    requires
        0 <= p <= s.len(),
        inject_ids_from(s, p) is Some,
        is_level_char(l),
        forall|j: int| p <= j ==> !occurs_at(s, close_tag(l), j),
    ensures
        forall|k: int| 0 <= k ==> !occurs_at(inject_ids_from(s, p).unwrap(), close_tag(l), k),
    decreases s.len() - p,
{
    let hs = heading_start();
    let w = close_tag(l);
    let o = inject_ids_from(s, p).unwrap();
    lemma_find_from(s, hs, p);
    match find_from(s, hs, p) {
        None => {
            lemma_inject_no_heading(s, p);
            assert forall|k: int| 0 <= k implies !occurs_at(o, w, k) by {
                if occurs_at(o, w, k) {
                    assert(o.subrange(0, o.len() as int) == o);
                    assert(s.subrange(p, p + o.len()) == o);
                    lemma_occ_copy(o, s, w, 0, p, o.len() as int, k);
                }
            }
        },
        Some(start) => {
            let pre = s.subrange(p, start);
            if bare_heading_open_at(s, start) {
                let l2 = s[start + 2];
                lemma_find_from(s, close_tag(l2), start + 4);
                match find_from(s, close_tag(l2), start + 4) {
                    Some(ce) => {
                        lemma_inject_heading(s, p, start, ce);
                        lemma_close_absent_out(s, ce + 5, l);
                        let x = spec_slugify(spec_strip_tags(s.subrange(start + 4, ce)));
                        lemma_heading_id_tag_free(s.subrange(start + 4, ce));
                        let b = inject_ids_from(s, ce + 5).unwrap();
                        let a1 = s.subrange(p, start + 3);
                        let ins = seq![' ', 'i', 'd', '=', '"'] + x + seq!['"'];
                        let a2 = s.subrange(start + 3, ce + 5);
                        assert(open_tag_with_id(l2, x) == seq!['<', 'h', l2] + ins + seq!['>']);
                        assert(s[start + 0] == hs[0] && s[start + 1] == hs[1]);
                        assert(a1 == pre + seq!['<', 'h', l2]);
                        assert(s.subrange(ce, ce + 5) == close_tag(l2)) by {
                            assert forall|i: int| 0 <= i < 5 implies #[trigger] s.subrange(
                                ce,
                                ce + 5,
                            )[i] == close_tag(l2)[i] by {
                                assert(s[ce + i] == close_tag(l2)[i]);
                            }
                        }
                        assert(s.subrange(start + 3, start + 4) == seq!['>']);
                        assert(a2 == s.subrange(start + 3, start + 4) + s.subrange(start + 4, ce)
                            + s.subrange(ce, ce + 5));
                        assert(a2 == seq!['>'] + s.subrange(start + 4, ce) + close_tag(l2));
                        assert(o == a1 + ins + a2 + b);
                        let n1 = a1.len() as int;
                        let ni = ins.len() as int;
                        let n2 = a2.len() as int;
                        assert forall|k: int| 0 <= k implies !occurs_at(o, w, k) by {
                            if occurs_at(o, w, k) {
                                assert(o[k + 0] == w[0]);
                                if k + 5 <= n1 {
                                    assert(o.subrange(0, n1) == a1);
                                    lemma_occ_copy(o, s, w, 0, p, n1, k);
                                } else if k < n1 {
                                    assert(o[n1] == ' ');
                                    assert(o[k + (n1 - k)] == w[n1 - k]);
                                } else if k < n1 + ni {
                                    assert(o[k] == ins[k - n1]);
                                    if n1 + 5 <= k < n1 + 5 + x.len() {
                                        assert(ins[k - n1] == x[k - n1 - 5]);
                                    }
                                } else if k + 5 <= n1 + ni + n2 {
                                    assert(o.subrange(n1 + ni, n1 + ni + n2) == a2);
                                    lemma_occ_copy(o, s, w, n1 + ni, start + 3, n2, k);
                                } else if k < n1 + ni + n2 {
                                    let e = n1 + ni + n2 - 1;
                                    assert(o[e] == '>');
                                    assert(o[k + (e - k)] == w[e - k]);
                                } else {
                                    assert(o[k + 0] == b[k - (n1 + ni + n2)]);
                                    assert forall|i: int| 0 <= i < w.len() implies #[trigger] b[(k
                                        - (n1 + ni + n2)) + i] == w[i] by {
                                        assert(o[k + i] == b[k - (n1 + ni + n2) + i]);
                                    }
                                    assert(occurs_at(b, w, k - (n1 + ni + n2)));
                                }
                            }
                        }
                    },
                    None => {
                        lemma_inject_unclosed(s, p, start);
                        lemma_close_absent_out(s, start + 4, l);
                        let b = inject_ids_from(s, start + 4).unwrap();
                        let a = s.subrange(p, start + 4);
                        assert(o == a + b);
                        let n = a.len() as int;
                        assert forall|k: int| 0 <= k implies !occurs_at(o, w, k) by {
                            if occurs_at(o, w, k) {
                                if k + 5 <= n {
                                    assert(o.subrange(0, n) == a);
                                    lemma_occ_copy(o, s, w, 0, p, n, k);
                                } else if k < n {
                                    assert(o[n - 1] == '>');
                                    assert(o[k + (n - 1 - k)] == w[n - 1 - k]);
                                } else {
                                    assert forall|i: int| 0 <= i < w.len() implies #[trigger] b[(k
                                        - n) + i] == w[i] by {
                                        assert(o[k + i] == b[k - n + i]);
                                    }
                                    assert(occurs_at(b, w, k - n));
                                }
                            }
                        }
                    },
                }
            } else {
                lemma_inject_other(s, p, start);
                lemma_close_absent_out(s, start + 3, l);
                let b = inject_ids_from(s, start + 3).unwrap();
                let a = s.subrange(p, start + 3);
                assert(o == a + b);
                let n = a.len() as int;
                assert forall|k: int| 0 <= k implies !occurs_at(o, w, k) by {
                    if occurs_at(o, w, k) {
                        if k + 5 <= n {
                            assert(o.subrange(0, n) == a);
                            lemma_occ_copy(o, s, w, 0, p, n, k);
                        } else if k < n {
                            lemma_out_agrees(s, start + 3, 1);
                            assert(o[n] == b[0]);
                            assert(o[k + (n - k)] == w[n - k]);
                            assert(b[0] == s[start + 3]);
                            if s[start + 3] != '<' {
                                assert(!occurs_at(s, hs, start + 3));
                                lemma_out_agrees(s, start + 3, 4);
                                assert forall|i: int| 0 <= i < w.len() implies #[trigger] s[(p + k)
                                    + i] == w[i] by {
                                    assert(o[k + i] == w[i]);
                                    if k + i < n {
                                        assert(o[k + i] == a[k + i]);
                                    } else {
                                        assert(o[k + i] == b[k + i - n]);
                                        assert(b[k + i - n] == s[start + 3 + (k + i - n)]);
                                    }
                                }
                                let i4 = k + 4 - n;
                                assert(o[k + 4] == b[i4]);
                                assert(p + k + 4 < s.len());
                                assert(occurs_at(s, w, p + k));
                            }
                        } else {
                            assert forall|i: int| 0 <= i < w.len() implies #[trigger] b[(k - n) + i]
                                == w[i] by {
                                assert(o[k + i] == b[k - n + i]);
                            }
                            assert(occurs_at(b, w, k - n));
                        }
                    }
                }
            }
        },
    }
}

/// The second pass, up to the first `<h`: it meets that `<h` where the first
/// pass wrote it, with the text before it unchanged.
proof fn lemma_second_pass_start(s: Seq<char>, p: int, t: Seq<char>, q: int, start: int)
    requires
        0 <= p <= s.len(),
        0 <= q <= t.len(),
        inject_ids_from(s, p) is Some,
        t.subrange(q, t.len() as int) == inject_ids_from(s, p).unwrap(),
        find_from(s, heading_start(), p) == Some(start),
        inject_ids_from(s, p).unwrap().len() >= start - p + 3,
    ensures
        forall|k: int| 0 <= k < start - p + 3 ==> #[trigger] t[q + k] == s[p + k],
        find_from(t, heading_start(), q) == Some(q + start - p),
{
    let hs = heading_start();
    let o = inject_ids_from(s, p).unwrap();
    lemma_find_from(s, hs, p);
    lemma_out_agrees(s, p, start - p + 3);
    assert forall|k: int| 0 <= k < start - p + 3 implies #[trigger] t[q + k] == s[p + k] by {
        assert(t.subrange(q, t.len() as int)[k] == t[q + k]);
        assert(o[k] == s[p + k]);
    }
    let a = q + start - p;
    assert(s[start + 0] == hs[0] && s[start + 1] == hs[1]);
    assert(t[q + (start - p)] == s[p + (start - p)]);
    assert(t[q + (start - p + 1)] == s[p + (start - p + 1)]);
    assert(occurs_at(t, hs, a));
    assert forall|j: int| q <= j < a implies !occurs_at(t, hs, j) by {
        if occurs_at(t, hs, j) {
            assert(t[j + 0] == '<' && t[j + 1] == 'h');
            assert(t[q + (j - q)] == s[p + (j - q)]);
            assert(t[q + (j - q + 1)] == s[p + (j - q + 1)]);
            assert(occurs_at(s, hs, p + (j - q)));
        }
    }
    lemma_find_from_at(t, hs, q, a);
}

/// A second ids pass over what the first one wrote, run from where the first
/// one ran from `p`, gives that text back.
#[verifier::rlimit(100)]
proof fn lemma_second_pass(s: Seq<char>, p: int, t: Seq<char>, q: int)
    requires
        0 <= p <= s.len(),
        0 <= q <= t.len(),
        inject_ids_from(s, p) is Some,
        t.subrange(q, t.len() as int) == inject_ids_from(s, p).unwrap(),
        no_nested_headings(s),
    ensures
        inject_ids_from(t, q) == inject_ids_from(s, p),
    decreases s.len() - p,
{
    let hs = heading_start();
    let o = inject_ids_from(s, p).unwrap();
    assert forall|k: int| 0 <= k < o.len() implies #[trigger] t[q + k] == o[k] by {
        assert(t.subrange(q, t.len() as int)[k] == t[q + k]);
    }
    assert(t.len() == q + o.len());
    lemma_find_from(s, hs, p);
    match find_from(s, hs, p) {
        None => {
            lemma_inject_no_heading(s, p);
            assert forall|j: int| q <= j implies !occurs_at(t, hs, j) by {
                if occurs_at(t, hs, j) {
                    assert(t[j + 0] == '<' && t[j + 1] == 'h');
                    assert(o[j - q] == s[p + (j - q)]);
                    assert(o[j - q + 1] == s[p + (j - q) + 1]);
                    assert(occurs_at(s, hs, p + (j - q)));
                }
            }
            lemma_find_from_none(t, hs, q);
            lemma_inject_no_heading(t, q);
        },
        Some(start) => {
            let pre = s.subrange(p, start);
            let np = start - p;
            let a = q + np;
            if bare_heading_open_at(s, start) {
                let l = s[start + 2];
                lemma_find_from(s, close_tag(l), start + 4);
                match find_from(s, close_tag(l), start + 4) {
                    Some(ce) => {
                        lemma_inject_heading(s, p, start, ce);
                        let c = s.subrange(start + 4, ce);
                        let x = spec_slugify(spec_strip_tags(c));
                        lemma_heading_id_tag_free(c);
                        let open = open_tag_with_id(l, x);
                        let close = close_tag(l);
                        let b = inject_ids_from(s, ce + 5).unwrap();
                        assert(o == pre + open + c + close + b);
                        lemma_second_pass_start(s, p, t, q, start);
                        let n2 = a + open.len() + c.len() + 5;
                        assert forall|k: int| 0 <= k < n2 - a implies #[trigger] t[a + k] == (
                        open + c + close)[k] by {
                            assert(t[q + (np + k)] == o[np + k]);
                        }
                        assert(t[a + 2] == l && t[a + 3] == ' ') by {
                            assert(t[a + 2] == (open + c + close)[2]);
                            assert(t[a + 3] == (open + c + close)[3]);
                        }
                        assert(!bare_heading_open_at(t, a));
                        lemma_inject_other(t, q, a);
                        assert(bare_heading_open_at(s, start));
                        assert forall|j: int| start + 4 <= j < ce implies !occurs_at(s, hs, j) by {}
                        assert forall|j: int| a + 3 <= j < n2 implies !occurs_at(t, hs, j) by {
                            if occurs_at(t, hs, j) {
                                assert(t[j + 0] == '<' && t[j + 1] == 'h');
                                let k = j - a;
                                assert(t[a + k] == (open + c + close)[k]);
                                assert(t[a + (k + 1)] == (open + c + close)[k + 1]);
                                if k < open.len() {
                                    assert((open + c + close)[k] == open[k]);
                                    if 8 <= k < 8 + x.len() {
                                        assert(open[k] == x[k - 8]);
                                    }
                                } else if k < open.len() + c.len() {
                                    let ci = k - open.len();
                                    assert((open + c + close)[k] == c[ci]);
                                    if ci + 1 < c.len() {
                                        assert((open + c + close)[k + 1] == c[ci + 1]);
                                        assert(c[ci] == s[start + 4 + ci]);
                                        assert(c[ci + 1] == s[start + 4 + ci + 1]);
                                        assert(occurs_at(s, hs, start + 4 + ci));
                                    } else {
                                        assert((open + c + close)[k + 1] == close[0]);
                                    }
                                } else {
                                    let di = k - open.len() - c.len();
                                    assert((open + c + close)[k] == close[di]);
                                    if di + 1 < 5 {
                                        assert((open + c + close)[k + 1] == close[di + 1]);
                                    }
                                }
                            }
                        }
                        assert(inert_region(t, a + 3, n2));
                        lemma_inject_inert(t, a + 3, n2);
                        assert(t.subrange(n2, t.len() as int) == b) by {
                            assert forall|k: int| 0 <= k < b.len() implies #[trigger] t.subrange(
                                n2,
                                t.len() as int,
                            )[k] == b[k] by {
                                assert(t[q + (n2 - q + k)] == o[n2 - q + k]);
                            }
                        }
                        lemma_second_pass(s, ce + 5, t, n2);
                        assert(t.subrange(q, a) == pre) by {
                            assert forall|k: int| 0 <= k < np implies #[trigger] t.subrange(q, a)[k]
                                == pre[k] by {
                                assert(t[q + k] == o[k]);
                            }
                        }
                        assert(t.subrange(a, n2) == open + c + close) by {
                            assert forall|k: int| 0 <= k < n2 - a implies #[trigger] t.subrange(
                                a,
                                n2,
                            )[k] == (open + c + close)[k] by {
                                assert(t.subrange(a, n2)[k] == t[a + k]);
                            }
                        }
                        assert(t.subrange(q, a) + t.subrange(a, a + 3) + (t.subrange(a + 3, n2)
                            + b) == o);
                    },
                    None => {
                        lemma_inject_unclosed(s, p, start);
                        let b = inject_ids_from(s, start + 4).unwrap();
                        assert(o == pre + s.subrange(start, start + 4) + b);
                        lemma_second_pass_start(s, p, t, q, start);
                        assert forall|k: int| 0 <= k < 4 implies #[trigger] t[a + k] == s[start
                            + k] by {
                            assert(t[q + (np + k)] == o[np + k]);
                        }
                        assert(bare_heading_open_at(t, a));
                        assert(t[a + 2] == l);
                        assert forall|j: int| start + 4 <= j implies !occurs_at(s, close_tag(l), j) by {}
                        lemma_close_absent_out(s, start + 4, l);
                        assert forall|j: int| a + 4 <= j implies !occurs_at(t, close_tag(l), j) by {
                            if occurs_at(t, close_tag(l), j) {
                                let m = j - a - 4;
                                assert forall|i: int| 0 <= i < 5 implies #[trigger] b[m + i]
                                    == close_tag(l)[i] by {
                                    let idx = np + 4 + m + i;
                                    assert(t[q + idx] == o[idx]);
                                    assert(q + idx == j + i);
                                    assert(t[j + i] == close_tag(l)[i]);
                                    assert(o[idx] == b[m + i]);
                                }
                                assert(occurs_at(b, close_tag(l), m));
                            }
                        }
                        lemma_find_from_none(t, close_tag(l), a + 4);
                        lemma_inject_unclosed(t, q, a);
                        assert(t.subrange(a + 4, t.len() as int) == b) by {
                            assert forall|k: int| 0 <= k < b.len() implies #[trigger] t.subrange(
                                a + 4,
                                t.len() as int,
                            )[k] == b[k] by {
                                assert(t[q + (np + 4 + k)] == o[np + 4 + k]);
                            }
                        }
                        lemma_second_pass(s, start + 4, t, a + 4);
                        assert(t.subrange(q, a + 4) == o.subrange(0, np + 4)) by {
                            assert forall|k: int| 0 <= k < np + 4 implies #[trigger] t.subrange(
                                q,
                                a + 4,
                            )[k] == o.subrange(0, np + 4)[k] by {
                                assert(t[q + k] == o[k]);
                            }
                        }
                        assert(t.subrange(q, a) + t.subrange(a, a + 4) == t.subrange(q, a + 4));
                        assert(o.subrange(0, np + 4) + b == o);
                    },
                }
            } else {
                lemma_inject_other(s, p, start);
                let b = inject_ids_from(s, start + 3).unwrap();
                assert(o == pre + s.subrange(start, start + 3) + b);
                lemma_second_pass_start(s, p, t, q, start);
                assert(t[a + 2] == s[start + 2]) by {
                    assert(t[q + (np + 2)] == s[p + (np + 2)]);
                }
                if a + 3 < t.len() {
                    lemma_out_agrees(s, start + 3, 1);
                    assert(t[q + (np + 3)] == o[np + 3]);
                    assert(o[np + 3] == b[0]);
                    assert(b[0] == s[start + 3]);
                }
                assert(!bare_heading_open_at(t, a));
                lemma_inject_other(t, q, a);
                assert(t.subrange(a + 3, t.len() as int) == b) by {
                    assert forall|k: int| 0 <= k < b.len() implies #[trigger] t.subrange(
                        a + 3,
                        t.len() as int,
                    )[k] == b[k] by {
                        assert(t[q + (np + 3 + k)] == o[np + 3 + k]);
                    }
                }
                lemma_second_pass(s, start + 3, t, a + 3);
                assert(t.subrange(q, a + 3) == o.subrange(0, np + 3)) by {
                    assert forall|k: int| 0 <= k < np + 3 implies #[trigger] t.subrange(q, a + 3)[k]
                        == o.subrange(0, np + 3)[k] by {
                        assert(t[q + k] == o[k]);
                    }
                }
                assert(t.subrange(q, a) + t.subrange(a, a + 3) == t.subrange(q, a + 3));
                assert(o.subrange(0, np + 3) + b == o);
            }
        },
    }
}

/// Giving headings their ids a second time changes nothing when no heading
/// holds another: the `<hN id="...">` tags the first pass wrote are no bare
/// headings, and everything else it passed by it passes by again.
pub proof fn lemma_heading_ids_idempotent(html: Seq<char>)
    requires
        spec_inject_heading_ids(html) is Some,
        no_nested_headings(html),
    ensures
        spec_inject_heading_ids(spec_inject_heading_ids(html).unwrap()) == spec_inject_heading_ids(
            html,
        ),
{
    let t = spec_inject_heading_ids(html).unwrap();
    assert(t.subrange(0, t.len() as int) == t);
    lemma_second_pass(html, 0, t, 0);
}

// ---------------------------------------------------------------------------
// Laws of the table of contents and of slugs
// ---------------------------------------------------------------------------

/// The table of contents goes right after the FIRST `</h1>` of the body.
pub proof fn lemma_toc_after_first_title(html: Seq<char>, toc: Seq<char>, p: int)
    requires
        occurs_at(html, seq!['<', '/', 'h', '1', '>'], p),
        forall|j: int| 0 <= j < p ==> !occurs_at(html, seq!['<', '/', 'h', '1', '>'], j),
    ensures
        spec_inject_toc(html, toc) == html.take(p + 5) + toc + html.skip(p + 5),
{
    assert(h1_close() == seq!['<', '/', 'h', '1', '>']);
    lemma_find_from_at(html, h1_close(), 0, p);
}

/// A body without `</h1>` gets the table of contents at its very top.
pub proof fn lemma_toc_on_top_without_title(html: Seq<char>, toc: Seq<char>)
    requires
        forall|j: int| 0 <= j ==> !occurs_at(html, seq!['<', '/', 'h', '1', '>'], j),
    ensures
        spec_inject_toc(html, toc) == toc + html,
{
    assert(h1_close() == seq!['<', '/', 'h', '1', '>']);
    lemma_find_from_none(html, h1_close(), 0);
}

/// Asking for a table of contents on a body that holds none puts the table of
/// its headings into it, whether or not the body has a level-1 title.
pub proof fn lemma_toc_added_when_missing(body: Seq<char>)
    requires
        !spec_has_toc(body),
    ensures
        exists|p: int|
            #[trigger] inserted_at(
                body_with_toc(body, true),
                body,
                spec_build_toc(spec_extract_headings(body)),
                p,
            ),
{
    let toc = spec_build_toc(spec_extract_headings(body));
    lemma_inject_toc_inserts(body, toc);
    let p = choose|p: int| #[trigger] inserted_at(spec_inject_toc(body, toc), body, toc, p);
    assert(body_with_toc(body, true) == spec_inject_toc(body, toc));
    assert(inserted_at(body_with_toc(body, true), body, toc, p));
}

/// A table of contents is never empty when there are headings: asking for one
/// on a body with headings of levels 2 to 6 and no table yet changes the page.
pub proof fn lemma_toc_request_changes_page(markdown_html: Seq<char>, css: Seq<char>)
    requires
        spec_inject_heading_ids(markdown_html) matches Some(b) && !spec_has_toc(b)
            && spec_extract_headings(b).len() > 0,
    ensures
        spec_render_page(markdown_html, css, true) != spec_render_page(markdown_html, css, false),
{
    let b = spec_inject_heading_ids(markdown_html).unwrap();
    let toc = spec_build_toc(spec_extract_headings(b));
    reveal_strlit("<nav class=\"toc\"><h2>Table of Contents</h2><ul>\n");
    assert(TOC_OPEN@.len() > 0);
    assert(toc.len() > 0);
    lemma_toc_added_when_missing(b);
    let p = choose|p: int| #[trigger] inserted_at(body_with_toc(b, true), b, toc, p);
    assert(body_with_toc(b, true).len() == b.len() + toc.len());
    let x = body_with_toc(b, true);
    if spec_page(css, x) == spec_page(css, b) {
        assert(spec_page(css, x).len() == spec_page(css, b).len());
    }
}

/// The link line of a heading in the table of contents.
pub open spec fn toc_link(h: SpecHeading) -> Seq<char> {
    TOC_LINK_OPEN@ + h.id + TOC_LINK_MID@ + h.text + TOC_LINK_CLOSE@
}

proof fn lemma_occurs_in_prefix(x: Seq<char>, y: Seq<char>, w: Seq<char>, i: int)
    requires
        occurs_at(x, w, i),
    ensures
        occurs_at(x + y, w, i),
{
    assert forall|k: int| 0 <= k < w.len() implies #[trigger] (x + y)[i + k] == w[k] by {
        assert((x + y)[i + k] == x[i + k]);
    }
}

proof fn lemma_occurs_in_suffix(x: Seq<char>, y: Seq<char>, w: Seq<char>, i: int)
    requires
        occurs_at(y, w, i),
    ensures
        occurs_at(x + y, w, x.len() + i),
{
    assert forall|k: int| 0 <= k < w.len() implies #[trigger] (x + y)[x.len() + i + k] == w[k] by {
        assert((x + y)[x.len() + i + k] == y[i + k]);
    }
}

proof fn lemma_entries_layout(hs: Seq<SpecHeading>, base: u8) -> (ps: Seq<int>)
    ensures
        ps.len() == hs.len(),
        forall|i: int|
            0 <= i < hs.len() ==> occurs_at(
                toc_entries(hs, base),
                spaces(hs[i].level - base) + toc_link(hs[i]),
                #[trigger] ps[i],
            ),
        forall|i: int|
            0 <= i < hs.len() - 1 ==> #[trigger] ps[i] + spaces(hs[i].level - base).len()
                + toc_link(hs[i]).len() <= ps[i + 1],
        hs.len() > 0 ==> ps[hs.len() - 1] + spaces(hs.last().level - base).len() + toc_link(
            hs.last(),
        ).len() == toc_entries(hs, base).len(),
    decreases hs.len(),
{
    if hs.len() == 0 {
        Seq::empty()
    } else {
        let init = hs.drop_last();
        let q = lemma_entries_layout(init, base);
        let prev = toc_entries(init, base);
        let h = hs.last();
        let e = spaces(h.level - base) + toc_link(h);
        assert(toc_entry(h, base) == e);
        assert(toc_entries(hs, base) == prev + e);
        let ps = q.push(prev.len() as int);
        assert forall|i: int| 0 <= i < hs.len() implies occurs_at(
            toc_entries(hs, base),
            spaces(hs[i].level - base) + toc_link(hs[i]),
            #[trigger] ps[i],
        ) by {
            if i < init.len() {
                assert(hs[i] == init[i]);
                lemma_occurs_in_prefix(prev, e, spaces(hs[i].level - base) + toc_link(hs[i]), q[i]);
            } else {
                assert(occurs_at(e, e, 0));
                lemma_occurs_in_suffix(prev, e, e, 0);
            }
        }
        assert forall|i: int| 0 <= i < hs.len() - 1 implies #[trigger] ps[i] + spaces(
            hs[i].level - base,
        ).len() + toc_link(hs[i]).len() <= ps[i + 1] by {
            assert(hs[i] == init[i]);
            if i + 1 < init.len() {
                assert(hs[i + 1] == init[i + 1]);
            }
        }
        ps
    }
}

/// `ps` lays out one entry per heading of `hs` in `toc`, in order and without
/// overlap: heading `i`'s link, indented by one space per level below `base`,
/// stands at `ps[i]`.
pub open spec fn toc_layout(toc: Seq<char>, hs: Seq<SpecHeading>, base: u8, ps: Seq<int>) -> bool {
    &&& ps.len() == hs.len()
    &&& forall|i: int|
        0 <= i < hs.len() ==> occurs_at(
            toc,
            spaces(hs[i].level - base) + toc_link(hs[i]),
            #[trigger] ps[i],
        )
    &&& forall|i: int|
        0 <= i < hs.len() - 1 ==> #[trigger] ps[i] + spaces(hs[i].level - base).len() + toc_link(
            hs[i],
        ).len() <= ps[i + 1]
}

/// The table of contents lists every heading, whatever its level: one link
/// per heading, in the headings' order, each indented by how far its level lies
/// below the lowest level, between the opening and the closing of the list.
pub proof fn lemma_toc_lists_every_heading(hs: Seq<SpecHeading>)
    requires
        hs.len() > 0,
    ensures
        exists|ps: Seq<int>| #[trigger] toc_layout(spec_build_toc(hs), hs, min_level(hs), ps),
        spec_build_toc(hs).take(TOC_OPEN@.len() as int) == TOC_OPEN@,
        spec_build_toc(hs).skip(spec_build_toc(hs).len() - TOC_CLOSE@.len()) == TOC_CLOSE@,
        forall|i: int| 0 <= i < hs.len() ==> min_level(hs) <= #[trigger] hs[i].level,
        exists|i: int| 0 <= i < hs.len() && #[trigger] hs[i].level == min_level(hs),
{
    let base = min_level(hs);
    let q = lemma_entries_layout(hs, base);
    let entries = toc_entries(hs, base);
    let toc = spec_build_toc(hs);
    assert(toc == TOC_OPEN@ + (entries + TOC_CLOSE@));
    let ps = lemma_layout_shift(TOC_OPEN@, entries, TOC_CLOSE@, hs, base, q);
    assert(toc_layout(toc, hs, base, ps));
    assert(toc.take(TOC_OPEN@.len() as int) == TOC_OPEN@);
    assert(toc.skip(toc.len() - TOC_CLOSE@.len()) == TOC_CLOSE@);
    lemma_min_level(hs);
    lemma_min_level_attained(hs);
}

proof fn lemma_layout_shift(
    open: Seq<char>,
    entries: Seq<char>,
    close: Seq<char>,
    hs: Seq<SpecHeading>,
    base: u8,
    q: Seq<int>,
) -> (ps: Seq<int>)
    requires
        toc_layout(entries, hs, base, q),
    ensures
        toc_layout(open + (entries + close), hs, base, ps),
{
    let off = open.len() as int;
    let ps = Seq::new(q.len(), |i: int| q[i] + off);
    assert forall|i: int| 0 <= i < hs.len() implies occurs_at(
        open + (entries + close),
        spaces(hs[i].level - base) + toc_link(hs[i]),
        #[trigger] ps[i],
    ) by {
        let w = spaces(hs[i].level - base) + toc_link(hs[i]);
        assert(occurs_at(entries, w, q[i]));
        lemma_occurs_in_prefix(entries, close, w, q[i]);
        lemma_occurs_in_suffix(open, entries + close, w, q[i]);
    }
    assert forall|i: int| 0 <= i < hs.len() - 1 implies #[trigger] ps[i] + spaces(
        hs[i].level - base,
    ).len() + toc_link(hs[i]).len() <= ps[i + 1] by {
        assert(q[i] + spaces(hs[i].level - base).len() + toc_link(hs[i]).len() <= q[i + 1]);
    }
    ps
}

proof fn lemma_min_level_attained(hs: Seq<SpecHeading>)
    requires
        hs.len() > 0,
    ensures
        exists|i: int| 0 <= i < hs.len() && #[trigger] hs[i].level == min_level(hs),
    decreases hs.len(),
{
    if hs.len() == 1 {
        assert(hs[0].level == min_level(hs));
    } else {
        lemma_min_level_attained(hs.drop_last());
        if hs.last().level < min_level(hs.drop_last()) {
            assert(hs[hs.len() - 1].level == min_level(hs));
        } else {
            let i = choose|i: int| 0 <= i < hs.drop_last().len() && #[trigger] hs.drop_last()[i].level
                == min_level(hs.drop_last());
            assert(hs[i] == hs.drop_last()[i]);
        }
    }
}

/// Lower-casing leaves no ASCII capital: a capital becomes the letter 32 code
/// points above it, every other character stays.
pub proof fn lemma_ascii_lower_lowers(c: char)
    ensures
        !('A' <= spec_ascii_lower(c) && spec_ascii_lower(c) <= 'Z'),
        'A' <= c && c <= 'Z' ==> spec_ascii_lower(c) as u32 == c as u32 + 32,
        !('A' <= c && c <= 'Z') ==> spec_ascii_lower(c) == c,
{
}

/// No heading id holds an ASCII capital letter.
pub proof fn lemma_slug_has_no_ascii_capital(s: Seq<char>)
    ensures
        forall|i: int|
            0 <= i < spec_slugify(s).len() ==> !('A' <= #[trigger] spec_slugify(s)[i] && spec_slugify(
                s,
            )[i] <= 'Z'),
{
    let f = s.filter(|c: char| kept_in_slug(c));
    assert forall|i: int| 0 <= i < spec_slugify(s).len() implies !('A' <= #[trigger] spec_slugify(
        s,
    )[i] && spec_slugify(s)[i] <= 'Z') by {
        assert(spec_slugify(s)[i] == slug_char(f[i]));
        lemma_ascii_lower_lowers(f[i]);
    }
}

} // verus!
