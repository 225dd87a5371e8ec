use md_previewer::args::{parse_args, Args};
use md_previewer::config::{find_config_path, Config};
use md_previewer::folder::{self, build_folder_html, render_folder, MarkdownSource, RenderedFile};
use md_previewer::markdown::{
    build_toc, extract_headings, has_toc, heading_ids_defined, inject_heading_ids, inject_toc,
    markdown_to_html, render_page, strip_tags, try_markdown_to_html, Heading,
};
use md_previewer::preview::{
    resolve_css, resolve_output_filename, resolve_save, resolve_theme_name, theme_of,
    watch_action, CssSource, TempPreview, Theme, WatchAction, WatchEvent,
};
use md_previewer::server::inject_reload_script;

fn args_with(file: &str) -> Args {
    Args {
        file: file.to_string(),
        no_open: false,
        watch: false,
        save: None,
        verbose: false,
        theme: None,
        css: None,
        output: None,
        toc: false,
        template: None,
        port: None,
    }
}

fn empty_config() -> Config {
    Config::default()
}

const HEAD: &str = "<!DOCTYPE html>\n<html lang=\"en\">\n<head>\n  <meta charset=\"UTF-8\">\n  <meta name=\"viewport\" content=\"width=device-width, initial-scale=1.0\">\n  <style>";

#[test]
fn strip_tags_drops_markup() {
    assert_eq!(strip_tags("<b>bold</b> text"), "bold text");
    assert_eq!(strip_tags("a <unclosed"), "a ");
    assert_eq!(strip_tags("x > y"), "x  y");
}

#[test]
fn strip_tags_twice_is_once() {
    let s = "<p>one <em>two</em></p>";
    assert_eq!(strip_tags(&strip_tags(s)), strip_tags(s));
}

#[test]
fn markdown_slugify_drops_punctuation() {
    assert_eq!(md_previewer::markdown::slugify("Hello, World!"), "hello-world");
    assert_eq!(md_previewer::markdown::slugify("Already-Dashed"), "already-dashed");
}

#[test]
fn folder_slugify_keeps_length() {
    assert_eq!(folder::slugify("My Notes.v2"), "my-notes-v2");
    assert_eq!(folder::slugify("ÄB"), "Äb");
}

#[test]
fn heading_ids_exact() {
    let out = inject_heading_ids("<p>x</p><h2>A <em>B</em></h2><h7>n</h7>");
    assert_eq!(out, "<p>x</p><h2 id=\"a-b\">A <em>B</em></h2><h7>n</h7>");
}

#[test]
fn heading_without_close_is_left_alone() {
    assert_eq!(inject_heading_ids("<h3>open"), "<h3>open");
}

#[test]
fn heading_attributes_are_left_alone() {
    assert_eq!(
        inject_heading_ids("<h2 id=\"x\">T</h2>"),
        "<h2 id=\"x\">T</h2>"
    );
}

#[test]
fn heading_scan_refuses_a_cut_tag() {
    assert!(!heading_ids_defined("text <h"));
    assert!(!heading_ids_defined("<hé>"));
    assert!(heading_ids_defined("<hx>"));
    assert!(render_page("text <h", "", false).is_none());
}

#[test]
fn extract_skips_level_one() {
    let hs = extract_headings("<h1>T</h1><h2>A b</h2><h3><em>C</em></h3>");
    assert_eq!(hs.len(), 2);
    assert_eq!(hs[0].level, 2);
    assert_eq!(hs[0].text, "A b");
    assert_eq!(hs[0].id, "a-b");
    assert_eq!(hs[1].level, 3);
    assert_eq!(hs[1].text, "C");
    assert_eq!(hs[1].id, "c");
}

#[test]
fn extract_stops_at_unclosed_heading() {
    let hs = extract_headings("<h2>A</h2><h3>open<h4>B</h4>");
    assert_eq!(hs.len(), 1);
    assert_eq!(hs[0].text, "A");
}

#[test]
fn toc_of_nothing_is_empty() {
    assert_eq!(build_toc(&[]), "");
}

#[test]
fn toc_lists_headings_indented() {
    let hs = vec![
        Heading { level: 3, text: "A".to_string(), id: "a".to_string() },
        Heading { level: 4, text: "B".to_string(), id: "b".to_string() },
    ];
    assert_eq!(
        build_toc(&hs),
        "<nav class=\"toc\"><h2>Table of Contents</h2><ul>\n<li><a href=\"#a\">A</a></li>\n <li><a href=\"#b\">B</a></li>\n</ul></nav>\n"
    );
}

#[test]
fn toc_goes_after_title() {
    assert_eq!(inject_toc("<h1>T</h1><p>x</p>", "[toc]"), "<h1>T</h1>[toc]<p>x</p>");
    assert_eq!(inject_toc("<p>x</p>", "[toc]"), "[toc]<p>x</p>");
}

#[test]
fn has_toc_ignores_case() {
    assert!(has_toc("<nav ID=\"TOC\"></nav>"));
    assert!(has_toc("<div id=\"contents\">"));
    assert!(!has_toc("<div id=\"toc-like\">"));
}

#[test]
fn page_of_a_title() {
    let html = markdown_to_html("# Title", "x", true, false);
    let expected = format!(
        "{HEAD}x</style>\n</head>\n<body>\n<h1 id=\"title\">Title</h1>\n\n</body>\n</html>"
    );
    assert_eq!(html, expected);
}

#[test]
fn page_with_toc() {
    let html = markdown_to_html("# T\n\n## A\n", "", true, false);
    assert!(html.contains(
        "<h1 id=\"t\">T</h1><nav class=\"toc\"><h2>Table of Contents</h2><ul>\n<li><a href=\"#a\">A</a></li>\n</ul></nav>\n"
    ));
    assert!(html.contains("<h2 id=\"a\">A</h2>"));
    let plain = markdown_to_html("# T\n\n## A\n", "", false, false);
    assert!(!plain.contains("nav"));
}

#[test]
fn existing_toc_is_kept() {
    let page = render_page("<h2>Contents</h2><h2>B</h2>", "", true).unwrap();
    assert!(!page.contains("<nav"));
    assert_eq!(page, render_page("<h2>Contents</h2><h2>B</h2>", "", false).unwrap());
}

#[test]
fn try_markdown_matches_plain() {
    assert_eq!(
        try_markdown_to_html("## A", "", true, false).unwrap(),
        markdown_to_html("## A", "", true, false)
    );
}

fn src(name: &str, md: &str) -> MarkdownSource {
    MarkdownSource { name: name.to_string(), markdown: md.to_string() }
}

#[test]
fn folder_readme_first_then_by_name() {
    let files = render_folder(
        vec![src("beta", "b"), src("ReadMe", "r"), src("alpha", "a"), src("Zed", "z")],
        "",
        false,
        false,
    )
    .unwrap();
    let names: Vec<&str> = files.iter().map(|f| f.name.as_str()).collect();
    assert_eq!(names, vec!["ReadMe", "Zed", "alpha", "beta"]);
    assert_eq!(files[0].id, "readme");
    assert!(files[2].html.contains("<p>a</p>"));
}

#[test]
fn folder_ties_keep_input_order() {
    let files = render_folder(vec![src("a", "one"), src("a", "two")], "", false, false).unwrap();
    assert!(files[0].html.contains("one"));
    assert!(files[1].html.contains("two"));
}

#[test]
fn folder_page_shows_first_section_only() {
    let files = vec![
        RenderedFile { name: "A".to_string(), id: "a".to_string(), html: "<p>1</p>".to_string() },
        RenderedFile { name: "B".to_string(), id: "b".to_string(), html: "<p>2</p>".to_string() },
    ];
    let page = build_folder_html(&files, "css");
    assert!(page.contains(
        "<ul><li><a href=\"#\" onclick=\"show('a'); return false;\">A</a></li><li><a href=\"#\" onclick=\"show('b'); return false;\">B</a></li></ul>"
    ));
    assert!(page.contains(
        "<section id=\"a\" style=\"display:block\"><p>1</p></section><section id=\"b\" style=\"display:none\"><p>2</p></section>"
    ));
    assert!(page.contains("let current = 'a';"));
    assert!(page.contains("<style>\n    css\n    body {"));
    assert!(build_folder_html(&[], "").contains("let current = '';"));
}

#[test]
fn reload_script_before_body_end() {
    let out = inject_reload_script("<body>x</body></html>");
    assert!(out.starts_with("<body>x<script>"));
    assert!(out.ends_with("</script></body></html>"));
    let bare = inject_reload_script("x");
    assert!(bare.starts_with("x<script>"));
}

#[test]
fn parse_args_refuses_missing_path() {
    match parse_args(args_with("nope.md"), false) {
        Err(msg) => assert_eq!(msg, "Path not found: nope.md"),
        Ok(_) => panic!("accepted a missing path"),
    }
    assert!(parse_args(args_with("doc.md"), true).is_ok());
}

#[test]
fn local_config_wins() {
    assert_eq!(
        find_config_path(Some("local".to_string()), Some("global".to_string())),
        Some("local".to_string())
    );
    assert_eq!(find_config_path(None, Some("global".to_string())), Some("global".to_string()));
    assert_eq!(find_config_path(None, None), None);
}

#[test]
fn output_and_save_fall_back() {
    let mut a = args_with("f.md");
    let mut c = empty_config();
    assert_eq!(resolve_output_filename(&a, &c), "preview.html");
    assert!(!resolve_save(&a, &c));
    c.output_filename = Some("cfg.html".to_string());
    c.save = Some(true);
    assert_eq!(resolve_output_filename(&a, &c), "cfg.html");
    assert!(resolve_save(&a, &c));
    a.output = Some("cli.html".to_string());
    a.save = Some(false);
    assert_eq!(resolve_output_filename(&a, &c), "cli.html");
    assert!(!resolve_save(&a, &c));
}

#[test]
fn css_source_and_themes() {
    let mut a = args_with("f.md");
    let mut c = empty_config();
    assert_eq!(resolve_theme_name(&a, &c), "light");
    c.theme = Some("dark".to_string());
    assert!(matches!(resolve_css(&a, &c), CssSource::Builtin(Theme::Dark)));
    a.theme = Some("github".to_string());
    assert!(matches!(resolve_css(&a, &c), CssSource::Builtin(Theme::Github)));
    a.css = Some("my.css".to_string());
    match resolve_css(&a, &c) {
        CssSource::File(p) => assert_eq!(p, "my.css"),
        CssSource::Builtin(_) => panic!("ignored the CSS file"),
    }
    assert!(matches!(theme_of("solarized"), Theme::Light));
}

#[test]
fn watch_actions() {
    assert!(matches!(watch_action(WatchEvent::Modified), WatchAction::Regenerate));
    assert!(matches!(watch_action(WatchEvent::Other), WatchAction::Ignore));
    assert!(matches!(watch_action(WatchEvent::Failed), WatchAction::Report));
}

#[test]
fn temp_preview_removal() {
    let t = TempPreview::new("p.html".to_string(), false);
    assert!(t.removes_on_exit());
    assert_eq!(t.path, "p.html");
    assert!(!TempPreview::new("p.html".to_string(), true).removes_on_exit());
}

#[test]
fn toc_links_point_at_heading_ids() {
    let body = "<p>intro</p><h1>Top</h1>\n<h2>First <em>Part</em></h2><p>x</p><h3>Second</h3>";
    let with_ids = inject_heading_ids(body);
    let hs = extract_headings(&with_ids);
    assert_eq!(hs.len(), 2);
    for h in &hs {
        assert!(with_ids.contains(&format!("id=\"{}\">", h.id)));
    }
    assert_eq!(hs[0].id, "first-part");
    assert_eq!(hs[1].id, "second");
    let toc = build_toc(&hs);
    assert!(toc.contains("<li><a href=\"#first-part\">First Part</a></li>"));
    assert!(toc.contains(" <li><a href=\"#second\">Second</a></li>"));
}

#[test]
fn heading_ids_twice_is_once() {
    let body = "<h1>Top</h1>\n<hr />\n<h2>A <em>b</em></h2><p>x <hr> y</p><h3>C</h3>";
    let once = inject_heading_ids(body);
    assert_eq!(
        once,
        "<h1 id=\"top\">Top</h1>\n<hr />\n<h2 id=\"a-b\">A <em>b</em></h2><p>x <hr> y</p><h3 id=\"c\">C</h3>"
    );
    assert_eq!(inject_heading_ids(&once), once);
    let hs = extract_headings(&once);
    assert_eq!(hs.len(), 2);
    assert_eq!(hs[0].id, "a-b");
    assert_eq!(hs[1].id, "c");
}

#[test]
fn slug_of_concatenation() {
    let slug = md_previewer::markdown::slugify;
    let a = "Hello, ";
    let b = "World 2!";
    assert_eq!(slug(&format!("{a}{b}")), format!("{}{}", slug(a), slug(b)));
}

#[test]
fn strip_tags_keeps_order() {
    assert_eq!(strip_tags("a<x>b<y>c"), "abc");
}

#[test]
fn heading_body_has_ids() {
    let body = md_previewer::markdown::heading_body("# T\n\n## A\n").unwrap();
    assert_eq!(body, "<h1 id=\"t\">T</h1>\n<h2 id=\"a\">A</h2>\n");
}

#[test]
fn heading_ids_twice_with_attributes_and_unclosed() {
    let body = "<h2 id=\"x\">A</h2><h3>open <p>t</p><h2>B</h2>";
    let once = inject_heading_ids(body);
    assert_eq!(once, "<h2 id=\"x\">A</h2><h3>open <p>t</p><h2 id=\"b\">B</h2>");
    assert_eq!(inject_heading_ids(&once), once);
}
