//! A folder of Markdown files as one page: each file rendered, README first and
//! the rest by name, with a sidebar that switches between them.
use vstd::prelude::*;

use crate::markdown::{commonmark_html, spec_render_page, try_markdown_to_html};
use crate::text::{
    ascii_lower, char_is_alphanumeric, chars_of, is_alphanumeric, spec_ascii_lower,
    str_to_lowercase, string_of, to_lowercase,
};

verus! {

// ---------------------------------------------------------------------------
// File ids
// ---------------------------------------------------------------------------

/// How a character of a file name appears in the file's id.
pub open spec fn id_char(c: char) -> char {
    if char_is_alphanumeric(c) {
        spec_ascii_lower(c)
    } else {
        '-'
    }
}

/// The id of a file named `name`: ASCII letters lower-cased, alphanumerics
/// kept, every other character replaced by `-`.
pub open spec fn spec_slugify(name: Seq<char>) -> Seq<char> {
    name.map_values(|c: char| id_char(c))
}

/// Turns a file name into an HTML id, one character for one.
pub fn slugify(text: &str) -> (r: String)
    ensures
        r@ == spec_slugify(text@),
        r@.len() == text@.len(),
{
    let v = chars_of(text);
    let mut out: Vec<char> = Vec::new();
    let mut i: usize = 0;
    while i < v.len()
        invariant
            i <= v.len(),
            out@ == spec_slugify(v@.take(i as int)),
        decreases v.len() - i,
    {
        let c = v[i];
        let d = if is_alphanumeric(c) {
            ascii_lower(c)
        } else {
            '-'
        };
        out.push(d);
        i = i + 1;
        assert(spec_slugify(v@.take(i as int)) == spec_slugify(v@.take(i - 1)).push(d));
    }
    assert(v@.take(v.len() as int) == v@);
    string_of(&out)
}

// ---------------------------------------------------------------------------
// Ordering files
// ---------------------------------------------------------------------------

/// `a` comes before `b` in the order of `String`'s `cmp`: character by
/// character, a proper prefix first.
pub open spec fn seq_lt(a: Seq<char>, b: Seq<char>) -> bool
    decreases a.len(),
{
    if b.len() == 0 {
        false
    } else if a.len() == 0 {
        true
    } else if a[0] != b[0] {
        a[0] < b[0]
    } else {
        seq_lt(a.drop_first(), b.drop_first())
    }
}

proof fn lemma_seq_lt_irreflexive(a: Seq<char>)
    ensures
        !seq_lt(a, a),
    decreases a.len(),
{
    if a.len() > 0 {
        lemma_seq_lt_irreflexive(a.drop_first());
    }
}

proof fn lemma_seq_lt_asymmetric(a: Seq<char>, b: Seq<char>)
    ensures
        seq_lt(a, b) ==> !seq_lt(b, a),
    decreases a.len(),
{
    if a.len() > 0 && b.len() > 0 && a[0] == b[0] {
        lemma_seq_lt_asymmetric(a.drop_first(), b.drop_first());
    }
}

proof fn lemma_seq_lt_transitive(a: Seq<char>, b: Seq<char>, c: Seq<char>)
    ensures
        seq_lt(a, b) && seq_lt(b, c) ==> seq_lt(a, c),
    decreases a.len(),
{
    if a.len() > 0 && b.len() > 0 && c.len() > 0 {
        lemma_seq_lt_transitive(a.drop_first(), b.drop_first(), c.drop_first());
    }
}

proof fn lemma_seq_lt_total(a: Seq<char>, b: Seq<char>)
    ensures
        a != b ==> seq_lt(a, b) || seq_lt(b, a),
    decreases a.len(),
{
    if a.len() > 0 && b.len() > 0 && a[0] == b[0] {
        lemma_seq_lt_total(a.drop_first(), b.drop_first());
        if a.drop_first() == b.drop_first() {
            assert(a == seq![a[0]] + a.drop_first());
            assert(b == seq![b[0]] + b.drop_first());
        }
    } else if a.len() == 0 && b.len() == 0 {
        assert(a == b);
    }
}

/// `name`, lower-cased, is `readme`.
pub open spec fn is_readme(name: Seq<char>) -> bool {
    str_to_lowercase(name) == "readme"@
}

/// The order of the files on the page: a README before any other file, and
/// otherwise by name.
pub open spec fn name_before(a: Seq<char>, b: Seq<char>) -> bool {
    ||| is_readme(a) && !is_readme(b)
    ||| is_readme(a) == is_readme(b) && seq_lt(a, b)
}

proof fn lemma_name_before_order(a: Seq<char>, b: Seq<char>, c: Seq<char>)
    ensures
        !name_before(a, a),
        name_before(a, b) ==> !name_before(b, a),
        name_before(a, b) && name_before(b, c) ==> name_before(a, c),
        name_before(a, b) && !name_before(c, b) ==> name_before(a, c),
        !name_before(a, b) && !name_before(b, a) ==> a == b,
{
    lemma_seq_lt_irreflexive(a);
    lemma_seq_lt_asymmetric(a, b);
    lemma_seq_lt_transitive(a, b, c);
    lemma_seq_lt_total(a, b);
    lemma_seq_lt_total(b, c);
    lemma_seq_lt_transitive(a, c, b);
    lemma_seq_lt_asymmetric(b, c);
}

/// Compares two names the way `String`'s `cmp` does.
fn seq_lt_exec(a: &Vec<char>, b: &Vec<char>) -> (r: bool)
    ensures
        r == seq_lt(a@, b@),
{
    let mut i: usize = 0;
    assert(a@.skip(0) == a@);
    assert(b@.skip(0) == b@);
    while i < a.len() && i < b.len()
        invariant
            i <= a.len(),
            i <= b.len(),
            seq_lt(a@, b@) == seq_lt(a@.skip(i as int), b@.skip(i as int)),
        decreases a.len() - i,
    {
        let ghost sa = a@.skip(i as int);
        let ghost sb = b@.skip(i as int);
        assert(sa[0] == a@[i as int]);
        assert(sb[0] == b@[i as int]);
        if a[i] != b[i] {
            return a[i] < b[i];
        }
        assert(sa.drop_first() == a@.skip(i + 1));
        assert(sb.drop_first() == b@.skip(i + 1));
        i = i + 1;
    }
    assert(a@.skip(i as int).len() == a.len() - i);
    assert(b@.skip(i as int).len() == b.len() - i);
    i < b.len()
}

/// Tells whether `name`, lower-cased, is `readme`.
fn is_readme_exec(name: &str) -> (r: bool)
    ensures
        r == is_readme(name@),
{
    let lower = to_lowercase(name);
    let readme = String::from_str("readme");
    lower == readme
}


/// Later names never come before earlier ones.
pub open spec fn names_sorted(names: Seq<Seq<char>>) -> bool {
    forall|k: int, l: int|
        0 <= k < l < names.len() ==> !name_before(#[trigger] names[l], #[trigger] names[k])
}

/// Names that neither come before the other keep the order of their positions
/// in the input, `perm`.
pub open spec fn order_stable(names: Seq<Seq<char>>, perm: Seq<int>) -> bool {
    forall|k: int, l: int|
        0 <= k < l < names.len() && !name_before(#[trigger] names[k], #[trigger] names[l])
            ==> perm[k] < perm[l]
}

/// `perm` lists each of `0..n` exactly once.
pub open spec fn is_index_permutation(perm: Seq<int>, n: int) -> bool {
    &&& perm.len() == n
    &&& forall|k: int| 0 <= k < n ==> 0 <= #[trigger] perm[k] < n
    &&& forall|k: int, l: int| 0 <= k < n && 0 <= l < n && k != l ==> #[trigger] perm[k] != #[trigger] perm[l]
    &&& forall|j: int| 0 <= j < n ==> #[trigger] listed(perm, n, j)
}

/// `j` is one of the first `n` entries of `perm`.
pub open spec fn listed(perm: Seq<int>, n: int, j: int) -> bool {
    exists|k: int| 0 <= k < n && #[trigger] perm[k] == j
}

proof fn lemma_insert_sorted(names: Seq<Seq<char>>, perm: Seq<int>, p: int, x: Seq<char>, i: int)
    requires
        names.len() == perm.len(),
        0 <= p <= names.len(),
        names_sorted(names),
        order_stable(names, perm),
        forall|k: int| 0 <= k < perm.len() ==> #[trigger] perm[k] < i,
        forall|k: int| 0 <= k < p ==> !name_before(x, #[trigger] names[k]),
        p < names.len() ==> name_before(x, names[p]),
    ensures
        names_sorted(names.insert(p, x)),
        order_stable(names.insert(p, x), perm.insert(p, i)),
{
    let t = names.insert(p, x);
    let q = perm.insert(p, i);
    assert forall|k: int, l: int| 0 <= k < l < t.len() implies !name_before(
        #[trigger] t[l],
        #[trigger] t[k],
    ) && (!name_before(t[k], t[l]) ==> q[k] < q[l]) by {
        if l < p {
            assert(t[k] == names[k] && t[l] == names[l]);
        } else if l == p {
            assert(t[l] == x && t[k] == names[k]);
        } else if k == p {
            assert(t[k] == x && t[l] == names[l - 1]);
            assert(name_before(x, names[p]));
            if l - 1 > p {
                assert(!name_before(names[l - 1], names[p]));
            }
            lemma_name_before_order(x, names[p], names[l - 1]);
            lemma_name_before_order(names[l - 1], x, names[p]);
        } else if k < p {
            assert(t[k] == names[k] && t[l] == names[l - 1]);
        } else {
            assert(t[k] == names[k - 1] && t[l] == names[l - 1]);
        }
    }
}

/// A Markdown file of the folder: its name without extension and its text.
pub struct MarkdownSource {
    pub name: String,
    pub markdown: String,
}

/// A file of the folder rendered for the page.
pub struct RenderedFile {
    /// The name shown in the sidebar.
    pub name: String,
    /// The id of the file's section.
    pub id: String,
    /// The file rendered to a full HTML page.
    pub html: String,
}

/// A rendered file as the contracts see it.
pub struct SpecRenderedFile {
    pub name: Seq<char>,
    pub id: Seq<char>,
    pub html: Seq<char>,
}

impl View for RenderedFile {
    type V = SpecRenderedFile;

    open spec fn view(&self) -> SpecRenderedFile {
        SpecRenderedFile { name: self.name@, id: self.id@, html: self.html@ }
    }
}

/// The file named `name` with Markdown text `markdown`, rendered with `css` and,
/// on request, a table of contents; `None` where its page cannot be made.
pub open spec fn spec_rendered_file(
    name: Seq<char>,
    markdown: Seq<char>,
    css: Seq<char>,
    need_toc: bool,
) -> Option<SpecRenderedFile> {
    match spec_render_page(commonmark_html(markdown), css, need_toc) {
        Some(html) => Some(SpecRenderedFile { name, id: spec_slugify(name), html }),
        None => None,
    }
}

/// The page of `src` can be made.
pub open spec fn source_renders(src: MarkdownSource, css: Seq<char>, need_toc: bool) -> bool {
    spec_render_page(commonmark_html(src.markdown@), css, need_toc) is Some
}

/// `files` are the rendered `sources`, put in the order of the page by `perm`:
/// `files[k]` renders `sources[perm[k]]`, README first and then by name, files
/// that tie in input order.
pub open spec fn folder_rendering(
    sources: Seq<MarkdownSource>,
    css: Seq<char>,
    need_toc: bool,
    files: Seq<RenderedFile>,
    perm: Seq<int>,
) -> bool {
    let names = files.map_values(|f: RenderedFile| f.name@);
    &&& files.len() == sources.len()
    &&& is_index_permutation(perm, sources.len() as int)
    &&& forall|k: int|
        0 <= k < files.len() ==> Some(#[trigger] files[k]@) == spec_rendered_file(
            sources[perm[k]].name@,
            sources[perm[k]].markdown@,
            css,
            need_toc,
        )
    &&& names_sorted(names)
    &&& order_stable(names, perm)
}

/// Renders each Markdown file of a folder and orders them for the page: a file
/// named README (in any case) first, the others by name, ties in input order.
/// `None` when the page of some file cannot be made.
#[verifier::spinoff_prover]
pub fn render_folder(sources: Vec<MarkdownSource>, css: &str, build_toc: bool, verbose: bool) -> (r:
    Option<Vec<RenderedFile>>)
    ensures
        r is None <==> exists|j: int|
            0 <= j < sources.len() && !source_renders(#[trigger] sources@[j], css@, build_toc),
        r is Some ==> exists|perm: Seq<int>|
            #[trigger] folder_rendering(sources@, css@, build_toc, r->0@, perm),
{
    let mut files: Vec<RenderedFile> = Vec::new();
    let mut keys: Vec<Vec<char>> = Vec::new();
    let mut flags: Vec<bool> = Vec::new();
    let ghost mut perm: Seq<int> = Seq::empty();
    let ghost mut names: Seq<Seq<char>> = Seq::empty();
    let mut i: usize = 0;
    while i < sources.len()
        invariant
            i <= sources.len(),
            files.len() == i,
            keys.len() == i,
            flags.len() == i,
            perm.len() == i,
            names.len() == i,
            forall|k: int| 0 <= k < i ==> #[trigger] files@[k].name@ == names[k],
            forall|k: int| 0 <= k < i ==> #[trigger] keys@[k]@ == names[k],
            forall|k: int| 0 <= k < i ==> #[trigger] flags@[k] == is_readme(names[k]),
            forall|k: int| 0 <= k < i ==> 0 <= #[trigger] perm[k] < i,
            forall|k: int, l: int|
                0 <= k < i && 0 <= l < i && k != l ==> #[trigger] perm[k] != #[trigger] perm[l],
            forall|k: int|
                0 <= k < i ==> Some(#[trigger] files@[k]@) == spec_rendered_file(
                    sources@[perm[k]].name@,
                    sources@[perm[k]].markdown@,
                    css@,
                    build_toc,
                ),
            forall|j: int| 0 <= j < i ==> source_renders(#[trigger] sources@[j], css@, build_toc),
            forall|j: int| 0 <= j < i ==> #[trigger] listed(perm, i as int, j),
            names_sorted(names),
            order_stable(names, perm),
        decreases sources.len() - i,
    {
        let src = &sources[i];
        let page = try_markdown_to_html(src.markdown.as_str(), css, build_toc, verbose);
        let html = match page {
            Some(h) => h,
            None => {
                assert(!source_renders(sources@[i as int], css@, build_toc));
                return None;
            },
        };
        let name = src.name.clone();
        let id = slugify(name.as_str());
        let key = chars_of(name.as_str());
        let readme = is_readme_exec(name.as_str());
        let mut p: usize = 0;
        while p < files.len() && !((readme && !flags[p]) || (readme == flags[p] && seq_lt_exec(
            &key,
            &keys[p],
        )))
            invariant
                p <= files.len(),
                files.len() == keys.len(),
                files.len() == flags.len(),
                files.len() == names.len(),
                key@ == name@,
                readme == is_readme(name@),
                forall|k: int| 0 <= k < files.len() ==> #[trigger] keys@[k]@ == names[k],
                forall|k: int| 0 <= k < files.len() ==> #[trigger] flags@[k] == is_readme(names[k]),
                forall|k: int| 0 <= k < p ==> !name_before(name@, #[trigger] names[k]),
            decreases files.len() - p,
        {
            assert(!name_before(name@, names[p as int]));
            p = p + 1;
        }
        proof {
            if p < files.len() {
                assert(name_before(name@, names[p as int]));
            }
            lemma_insert_sorted(names, perm, p as int, name@, i as int);
        }
        let file = RenderedFile { name, id, html };
        let ghost fv = file@;
        let ghost files0 = files@;
        let ghost keys0 = keys@;
        let ghost flags0 = flags@;
        let ghost perm0 = perm;
        let ghost names0 = names;
        files.insert(p, file);
        keys.insert(p, key);
        flags.insert(p, readme);
        proof {
            perm = perm.insert(p as int, i as int);
            names = names.insert(p as int, name@);
            assert forall|k: int| 0 <= k < i + 1 implies #[trigger] files@[k].name@ == names[k]
                && keys@[k]@ == names[k] && flags@[k] == is_readme(names[k]) && 0 <= perm[k] < i
                + 1 && Some(files@[k]@) == spec_rendered_file(
                sources@[perm[k]].name@,
                sources@[perm[k]].markdown@,
                css@,
                build_toc,
            ) by {
                if k < p {
                    assert(files@[k] == files0[k] && keys@[k] == keys0[k] && flags@[k] == flags0[k]
                        && perm[k] == perm0[k] && names[k] == names0[k]);
                } else if k == p {
                    assert(files@[k]@ == fv);
                } else {
                    assert(files@[k] == files0[k - 1] && keys@[k] == keys0[k - 1] && flags@[k]
                        == flags0[k - 1] && perm[k] == perm0[k - 1] && names[k] == names0[k - 1]);
                }
            }
            assert forall|k: int, l: int|
                0 <= k < i + 1 && 0 <= l < i + 1 && k != l implies #[trigger] perm[k]
                != #[trigger] perm[l] by {
                if k != p && l != p {
                    let k0 = if k < p { k } else { k - 1 };
                    let l0 = if l < p { l } else { l - 1 };
                    assert(perm[k] == perm0[k0] && perm[l] == perm0[l0]);
                } else if k == p {
                    let l0 = if l < p { l } else { l - 1 };
                    assert(perm[l] == perm0[l0]);
                } else {
                    let k0 = if k < p { k } else { k - 1 };
                    assert(perm[k] == perm0[k0]);
                }
            }
            assert forall|j: int| 0 <= j < i + 1 implies #[trigger] listed(perm, i + 1, j) by {
                if j == i {
                    assert(perm[p as int] == j);
                } else {
                    assert(listed(perm0, i as int, j));
                    let k0 = choose|k: int| 0 <= k < i && #[trigger] perm0[k] == j;
                    if k0 < p {
                        assert(perm[k0] == j);
                    } else {
                        assert(perm[k0 + 1] == j);
                    }
                }
            }
            assert forall|j: int| 0 <= j < i + 1 implies source_renders(
                #[trigger] sources@[j],
                css@,
                build_toc,
            ) by {
                if j == i {
                    assert(spec_render_page(commonmark_html(src.markdown@), css@, build_toc) is Some);
                }
            }
        }
        i = i + 1;
    }
    proof {
        let fnames = files@.map_values(|f: RenderedFile| f.name@);
        assert(fnames == names);
        assert(folder_rendering(sources@, css@, build_toc, files@, perm));
    }
    let res = Some(files);
    assert(res->0@ == files@);
    assert(exists|q: Seq<int>| folder_rendering(sources@, css@, build_toc, res->0@, q));
    res
}


// ---------------------------------------------------------------------------
// The folder page
// ---------------------------------------------------------------------------

/// Everything of the folder page up to its stylesheet.
pub const FOLDER_HEAD: &'static str = "<!DOCTYPE html>\n<html lang=\"en\">\n<head>\n  <meta charset=\"UTF-8\">\n  <meta name=\"viewport\" content=\"width=device-width, initial-scale=1.0\">\n  <style>\n    ";

/// The sidebar and layout rules that follow the stylesheet, up to the sidebar links.
pub const FOLDER_STYLE: &'static str = "\n    body { display: flex; margin: 0; padding: 0; }\n    #sidebar {\n      width: 220px;\n      min-height: 100vh;\n      padding: 1rem;\n      border-right: 1px solid #e0e0e0;\n      flex-shrink: 0;\n    }\n    #sidebar ul { list-style: none; padding: 0; margin: 0; }\n    #sidebar li { margin: 0.4rem 0; }\n    #sidebar a { text-decoration: none; }\n    #sidebar a:hover { text-decoration: underline; }\n    #content { flex: 1; padding: 2rem; max-width: 800px; }\n    .active { font-weight: bold; }\n  </style>\n</head>\n<body>\n  <nav id=\"sidebar\">\n    <ul>";

/// What lies between the sidebar links and the sections.
pub const FOLDER_MAIN: &'static str = "</ul>\n  </nav>\n  <main id=\"content\">\n    ";

/// What lies between the sections and the id of the first file.
pub const FOLDER_SCRIPT: &'static str = "\n  </main>\n  <script>\n    let current = '";

/// The rest of the page's script, after the id of the first file.
pub const FOLDER_END: &'static str = "';\n    function show(id) {\n      document.getElementById(current).style.display = 'none';\n      document.getElementById(id).style.display = 'block';\n      current = id;\n    }\n  </script>\n</body>\n</html>";

/// What comes before a file's id in its sidebar link.
pub const LINK_OPEN: &'static str = "<li><a href=\"#\" onclick=\"show('";

/// What comes between a file's id and its name in its sidebar link.
pub const LINK_MID: &'static str = "'); return false;\">";

/// What ends a sidebar link.
pub const LINK_CLOSE: &'static str = "</a></li>";

/// What comes before a file's id in its section.
pub const SECTION_OPEN: &'static str = "<section id=\"";

/// What comes between a file's id and its display value.
pub const SECTION_STYLE: &'static str = "\" style=\"display:";

/// What comes between a section's display value and the file's HTML.
pub const SECTION_MID: &'static str = "\">";

/// What ends a section.
pub const SECTION_CLOSE: &'static str = "</section>";

/// The display value of the section that is shown first.
pub const DISPLAY_SHOWN: &'static str = "block";

/// The display value of the other sections.
pub const DISPLAY_HIDDEN: &'static str = "none";

/// The sidebar link of `f`.
pub open spec fn sidebar_link(f: SpecRenderedFile) -> Seq<char> {
    LINK_OPEN@ + f.id + LINK_MID@ + f.name + LINK_CLOSE@
}

/// The sidebar links of `files`, in order.
pub open spec fn sidebar_links(files: Seq<SpecRenderedFile>) -> Seq<char>
    decreases files.len(),
{
    if files.len() == 0 {
        Seq::empty()
    } else {
        sidebar_links(files.drop_last()) + sidebar_link(files.last())
    }
}

/// The section of `f`, shown or hidden.
pub open spec fn section(f: SpecRenderedFile, shown: bool) -> Seq<char> {
    SECTION_OPEN@ + f.id + SECTION_STYLE@ + (if shown {
        DISPLAY_SHOWN@
    } else {
        DISPLAY_HIDDEN@
    }) + SECTION_MID@ + f.html + SECTION_CLOSE@
}

/// The sections of `files`, in order; only the first one is shown.
pub open spec fn sections(files: Seq<SpecRenderedFile>) -> Seq<char>
    decreases files.len(),
{
    if files.len() == 0 {
        Seq::empty()
    } else {
        sections(files.drop_last()) + section(files.last(), files.len() == 1)
    }
}

/// The id of the first file, or nothing when there is none.
pub open spec fn first_id(files: Seq<SpecRenderedFile>) -> Seq<char> {
    if files.len() > 0 {
        files[0].id
    } else {
        Seq::empty()
    }
}

/// The page of a folder: the stylesheet `css`, a sidebar of links, and one
/// section per file, the first one shown.
pub open spec fn spec_folder_page(files: Seq<SpecRenderedFile>, css: Seq<char>) -> Seq<char> {
    FOLDER_HEAD@ + css + FOLDER_STYLE@ + sidebar_links(files) + FOLDER_MAIN@ + sections(files)
        + FOLDER_SCRIPT@ + first_id(files) + FOLDER_END@
}

/// Builds the page of a folder from its rendered files.
pub fn build_folder_html(files: &[RenderedFile], css: &str) -> (r: String)
    ensures
        r@ == spec_folder_page(files@.map_values(|f: RenderedFile| f@), css@),
{
    let ghost fv = files@.map_values(|f: RenderedFile| f@);
    let mut links = String::new();
    let mut i: usize = 0;
    while i < files.len()
        invariant
            i <= files.len(),
            fv == files@.map_values(|f: RenderedFile| f@),
            links@ == sidebar_links(fv.take(i as int)),
        decreases files.len() - i,
    {
        let f = &files[i];
        links.append(LINK_OPEN);
        links.append(f.id.as_str());
        links.append(LINK_MID);
        links.append(f.name.as_str());
        links.append(LINK_CLOSE);
        proof {
            assert(fv.take(i + 1).drop_last() == fv.take(i as int));
            assert(fv.take(i + 1).last() == f@);
        }
        i = i + 1;
    }
    assert(fv.take(files.len() as int) == fv);
    let mut body = String::new();
    let mut j: usize = 0;
    while j < files.len()
        invariant
            j <= files.len(),
            fv == files@.map_values(|f: RenderedFile| f@),
            body@ == sections(fv.take(j as int)),
        decreases files.len() - j,
    {
        let f = &files[j];
        body.append(SECTION_OPEN);
        body.append(f.id.as_str());
        body.append(SECTION_STYLE);
        if j == 0 {
            body.append(DISPLAY_SHOWN);
        } else {
            body.append(DISPLAY_HIDDEN);
        }
        body.append(SECTION_MID);
        body.append(f.html.as_str());
        body.append(SECTION_CLOSE);
        proof {
            assert(fv.take(j + 1).drop_last() == fv.take(j as int));
            assert(fv.take(j + 1).last() == f@);
        }
        j = j + 1;
    }
    let mut page = String::from_str(FOLDER_HEAD);
    page.append(css);
    page.append(FOLDER_STYLE);
    page.append(links.as_str());
    page.append(FOLDER_MAIN);
    page.append(body.as_str());
    page.append(FOLDER_SCRIPT);
    if files.len() > 0 {
        page.append(files[0].id.as_str());
    }
    page.append(FOLDER_END);
    page
}


/// A folder that holds a README shows it first.
pub proof fn lemma_readme_first(
    sources: Seq<MarkdownSource>,
    css: Seq<char>,
    need_toc: bool,
    files: Seq<RenderedFile>,
    perm: Seq<int>,
    k: int,
)
    requires
        folder_rendering(sources, css, need_toc, files, perm),
        0 <= k < files.len(),
        is_readme(files[k].name@),
    ensures
        is_readme(files[0].name@),
{
    let names = files.map_values(|f: RenderedFile| f.name@);
    if k > 0 {
        assert(!name_before(names[k], names[0]));
    }
}

/// Every file of the folder appears on the page, rendered.
pub proof fn lemma_every_source_rendered(
    sources: Seq<MarkdownSource>,
    css: Seq<char>,
    need_toc: bool,
    files: Seq<RenderedFile>,
    perm: Seq<int>,
    j: int,
)
    requires
        folder_rendering(sources, css, need_toc, files, perm),
        0 <= j < sources.len(),
    ensures
        exists|k: int|
            0 <= k < files.len() && Some(#[trigger] files[k]@) == spec_rendered_file(
                sources[j].name@,
                sources[j].markdown@,
                css,
                need_toc,
            ),
{
    assert(listed(perm, sources.len() as int, j));
    let k = choose|k: int| 0 <= k < sources.len() && #[trigger] perm[k] == j;
    assert(Some(files[k]@) == spec_rendered_file(sources[perm[k]].name@, sources[perm[k]].markdown@, css, need_toc));
}

/// `a` and `b` agree on their first `i` characters, and then `a` ends while `b`
/// goes on, or `a`'s next character is the smaller one.
pub open spec fn lex_less_at(a: Seq<char>, b: Seq<char>, i: int) -> bool {
    &&& 0 <= i <= a.len()
    &&& i < b.len()
    &&& a.take(i) == b.take(i)
    &&& (i == a.len() || a[i] < b[i])
}

/// The order of file names is the lexicographic order of `String`'s `cmp`:
/// `a` comes before `b` exactly when, after a common beginning, `a` ends while
/// `b` goes on (a proper prefix comes first), or `a` has the smaller character.
pub proof fn lemma_name_order_is_lexicographic(a: Seq<char>, b: Seq<char>)
    ensures
        seq_lt(a, b) <==> exists|i: int| #[trigger] lex_less_at(a, b, i),
    decreases a.len(),
{
    if seq_lt(a, b) {
        assert(a.take(0) =~= b.take(0));
        if a.len() == 0 {
            assert(lex_less_at(a, b, 0));
        } else if a[0] != b[0] {
            assert(lex_less_at(a, b, 0));
        } else {
            lemma_name_order_is_lexicographic(a.drop_first(), b.drop_first());
            let j = choose|j: int| #[trigger] lex_less_at(a.drop_first(), b.drop_first(), j);
            assert(a.take(j + 1) == seq![a[0]] + a.drop_first().take(j));
            assert(b.take(j + 1) == seq![b[0]] + b.drop_first().take(j));
            if j < a.drop_first().len() {
                assert(a[j + 1] == a.drop_first()[j]);
                assert(b[j + 1] == b.drop_first()[j]);
            }
            assert(lex_less_at(a, b, j + 1));
        }
    }
    if exists|i: int| #[trigger] lex_less_at(a, b, i) {
        let i = choose|i: int| #[trigger] lex_less_at(a, b, i);
        if i > 0 {
            assert(a[0] == a.take(i)[0] && b[0] == b.take(i)[0]);
            let a1 = a.drop_first();
            let b1 = b.drop_first();
            assert(a1.take(i - 1) == a.take(i).drop_first());
            assert(b1.take(i - 1) == b.take(i).drop_first());
            if i - 1 < a1.len() {
                assert(a1[i - 1] == a[i] && b1[i - 1] == b[i]);
            }
            assert(lex_less_at(a1, b1, i - 1));
            lemma_name_order_is_lexicographic(a1, b1);
        }
    }
}

/// A name comes before every longer name that it begins, and never after it.
pub proof fn lemma_proper_prefix_first(a: Seq<char>, t: Seq<char>)
    requires
        t.len() > 0,
    ensures
        seq_lt(a, a + t),
        !seq_lt(a + t, a),
{
    assert((a + t).take(a.len() as int) == a.take(a.len() as int));
    assert(lex_less_at(a, a + t, a.len() as int));
    lemma_name_order_is_lexicographic(a, a + t);
    lemma_seq_lt_asymmetric(a, a + t);
}

/// On the folder page, of two files that are both READMEs or both not, the one
/// whose name begins the other's comes first.
pub proof fn lemma_folder_prefix_first(
    sources: Seq<MarkdownSource>,
    css: Seq<char>,
    need_toc: bool,
    files: Seq<RenderedFile>,
    perm: Seq<int>,
    k: int,
    l: int,
    t: Seq<char>,
)
    requires
        folder_rendering(sources, css, need_toc, files, perm),
        0 <= k < files.len(),
        0 <= l < files.len(),
        t.len() > 0,
        files[l].name@ == files[k].name@ + t,
        is_readme(files[k].name@) == is_readme(files[l].name@),
    ensures
        k < l,
{
    let names = files.map_values(|f: RenderedFile| f.name@);
    lemma_proper_prefix_first(files[k].name@, t);
    if l < k {
        assert(!name_before(names[k], names[l]));
        assert(names[k] == files[k].name@ && names[l] == files[l].name@);
    }
    if l == k {
        assert(files[k].name@.len() == files[k].name@.len() + t.len());
    }
}

} // verus!
