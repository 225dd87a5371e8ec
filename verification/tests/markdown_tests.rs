use md_previewer::markdown::{has_toc, inject_heading_ids, markdown_to_html, slugify};

#[test]
fn test_slugify() {
    assert_eq!(slugify("Hello World"), "hello-world");
    assert_eq!(slugify("Phase 1 — MVP"), "phase-1--mvp");
}

#[test]
fn test_heading_ids_injected() {
    let html = "<h1>Hello World</h1><h2>Section</h2>";
    let result = inject_heading_ids(html);
    assert!(result.contains(r#"id="hello-world""#));
    assert!(result.contains(r#"id="section""#));
}

#[test]
fn test_markdown_renders_heading() {
    let html = markdown_to_html("# Title", "", true, false);
    assert!(html.contains("<h1"));
    assert!(html.contains("Title"));
}

#[test]
fn test_has_toc_not_fooled_by_table() {
    let html = "<table><th>Flag</th><th>Description</th></table>";
    assert!(!has_toc(html));
}

#[test]
fn test_has_toc_detects_real_toc() {
    let html = inject_heading_ids("<h2>Table of Contents</h2>");
    println!("inject_heading_ids output: {html}");
    println!("has_toc result: {}", has_toc(&html));
    assert!(has_toc(&html));
}
