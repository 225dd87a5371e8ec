//! The live-reload snippet of the preview server.
use vstd::prelude::*;

use crate::markdown::inserted_at;
use crate::text::{chars_of, lemma_rfind_upto, push_all, push_range, rfind, rfind_exec, string_of};

verus! {

/// The script that reloads the page whenever the server says so.
pub const RELOAD_SCRIPT: &'static str = "<script>\n  const ws = new WebSocket(`ws://${location.host}/ws`);\n  ws.onmessage = () => location.reload();\n  ws.onclose = () => console.log('[md-preview] server disconnected');\n</script>";

/// The closing tag of a page's body.
pub open spec fn body_close() -> Seq<char> {
    seq!['<', '/', 'b', 'o', 'd', 'y', '>']
}

/// `html` with `script` right before its last `</body>`, or at its end when it
/// has none.
pub open spec fn spec_inject_script(html: Seq<char>, script: Seq<char>) -> Seq<char> {
    match rfind(html, body_close()) {
        Some(p) => html.take(p) + script + html.skip(p),
        None => html + script,
    }
}

/// Adds the live-reload script to a page, right before its last `</body>`, or
/// at its end when it has none.
pub fn inject_reload_script(html: &str) -> (r: String)
    ensures
        r@ == spec_inject_script(html@, RELOAD_SCRIPT@),
{
    let h = chars_of(html);
    let script = chars_of(RELOAD_SCRIPT);
    let close: Vec<char> = vec!['<', '/', 'b', 'o', 'd', 'y', '>'];
    assert(close@ == body_close());
    let mut out: Vec<char> = Vec::new();
    match rfind_exec(&h, &close) {
        Some(p) => {
            proof {
                lemma_rfind_upto(h@, close@, h@.len() - close@.len());
            }
            push_range(&mut out, &h, 0, p);
            push_all(&mut out, &script);
            push_range(&mut out, &h, p, h.len());
            assert(h@.take(p as int) == h@.subrange(0, p as int));
            assert(h@.skip(p as int) == h@.subrange(p as int, h@.len() as int));
        },
        None => {
            push_all(&mut out, &h);
            push_all(&mut out, &script);
        },
    }
    string_of(&out)
}


/// The reload script goes into the page at a single place: taking it out again
/// gives back the page as it was.
pub proof fn lemma_inject_script_inserts(html: Seq<char>, script: Seq<char>)
    ensures
        exists|p: int| #[trigger] inserted_at(spec_inject_script(html, script), html, script, p),
{
    lemma_rfind_upto(html, body_close(), html.len() - body_close().len());
    match rfind(html, body_close()) {
        Some(p) => {
            assert(inserted_at(spec_inject_script(html, script), html, script, p));
        },
        None => {
            assert(html.take(html.len() as int) == html);
            assert(html.skip(html.len() as int) == Seq::<char>::empty());
            assert(inserted_at(spec_inject_script(html, script), html, script, html.len() as int));
        },
    }
}

} // verus!
