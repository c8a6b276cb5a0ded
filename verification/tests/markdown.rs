use serv::markdown::{render, render_with, slug};
use serv::pages::document::Document;

fn body(source: &str) -> String {
    render(source, "doc.md").body
}

/// The words on the page, with the markup taken off.
fn words(html: &str) -> String {
    let mut out = String::new();
    let mut inside = false;
    for ch in html.chars() {
        match ch {
            '<' => inside = true,
            '>' => inside = false,
            _ if !inside => out.push(ch),
            _ => {}
        }
    }
    out.replace("&lt;", "<").replace("&gt;", ">").replace("&amp;", "&")
}

#[test]
fn renders_a_paragraph() {
    assert_eq!(body("hello"), "<p>hello</p>\n");
}

#[test]
fn the_title_is_the_first_heading() {
    assert_eq!(render("# Reading\n\ntext", "doc.md").title, "Reading");
}

#[test]
fn a_document_without_a_heading_is_titled_by_its_file_name() {
    assert_eq!(render("just text", "notes.md").title, "notes.md");
}

#[test]
fn renders_a_table() {
    let html = body("| a | b |\n| - | - |\n| 1 | 2 |");
    assert!(html.contains("<table>"), "{html}");
    assert!(html.contains("<th>a</th>"), "{html}");
    assert!(html.contains("<td>2</td>"), "{html}");
}

#[test]
fn renders_strikethrough() {
    assert!(body("~~gone~~").contains("<del>gone</del>"));
}

#[test]
fn renders_a_task_list() {
    let html = body("- [x] done\n- [ ] todo");
    assert!(html.contains(r#"<input disabled="" type="checkbox" checked=""#), "{html}");
    assert_eq!(html.matches("type=\"checkbox\"").count(), 2, "{html}");
}

#[test]
fn renders_a_footnote() {
    let html = body("text[^a]\n\n[^a]: the note");
    assert!(html.contains("footnote-reference"), "{html}");
    assert!(html.contains("the note"), "{html}");
}

#[test]
fn straightens_quotes_into_typography() {
    let html = body(r#""quoted" and -- dashed"#);
    assert!(html.contains('\u{201c}') && html.contains('\u{201d}'), "{html}");
    assert!(html.contains('\u{2013}'), "{html}");
}

#[test]
fn front_matter_is_swallowed_rather_than_printed() {
    let html = body("---\ntitle: Notes\ndraft: true\n---\n\nthe body");
    assert!(!html.contains("draft"), "{html}");
    assert!(!html.contains("<hr"), "{html}");
    assert_eq!(html.trim(), "<p>the body</p>");
}

#[test]
fn plus_delimited_front_matter_is_swallowed_too() {
    let html = body("+++\ntitle = \"Notes\"\n+++\n\nthe body");
    assert!(!html.contains("title"), "{html}");
    assert_eq!(html.trim(), "<p>the body</p>");
}

#[test]
fn front_matter_does_not_become_the_title() {
    let doc = render("---\ntitle: Meta\n---\n\n# Real\n", "doc.md");
    assert_eq!(doc.title, "Real");
}

#[test]
fn headings_get_anchors_so_fragment_links_work() {
    let html = body("## Getting Started\n");
    assert!(html.contains(r#"<h2 id="getting-started">"#), "{html}");
}

#[test]
fn an_explicit_heading_id_is_left_alone() {
    let html = body("## Getting Started {#start}\n");
    assert!(html.contains(r#"<h2 id="start">"#), "{html}");
}

#[test]
fn anchors_are_unique_when_headings_repeat() {
    let html = body("## Notes\n\n## Notes\n");
    assert!(html.contains(r#"id="notes""#), "{html}");
    assert!(html.contains(r#"id="notes-1""#), "{html}");
}

#[test]
fn anchors_drop_punctuation_and_keep_unicode() {
    let html = body("## Что нового?\n");
    assert!(html.contains(r#"id="что-нового""#), "{html}");
}

#[test]
fn a_heading_of_only_punctuation_still_gets_some_anchor() {
    let html = body("## ???\n");
    assert!(html.contains("id=\""), "{html}");
}

#[test]
fn a_fenced_block_keeps_its_code_whatever_is_compiled_in() {
    let html = body("```rust\nlet x = 1;\n```\n");
    assert!(html.contains("<pre"), "{html}");
    assert!(words(&html).contains("let x = 1;"), "{html}");
}

#[test]
fn a_fence_in_an_unknown_language_is_left_plain() {
    let html = body("```nosuchlanguage\nwhatever\n```\n");
    assert!(words(&html).contains("whatever"), "{html}");
    assert!(!html.contains("<span class=\"hl-"), "{html}");
}

#[test]
fn an_unfenced_block_is_left_plain() {
    let html = body("    indented code\n");
    assert!(words(&html).contains("indented code"), "{html}");
    assert!(!html.contains("<span class=\"hl-"), "{html}");
}

#[test]
fn code_is_escaped_rather_than_interpreted() {
    let html = body("```rust\nlet s = \"<b>\";\n```\n");
    assert!(!html.contains("<b>"), "{html}");
    assert!(html.contains("&lt;b&gt;"), "{html}");
    assert!(words(&html).contains("<b>"), "{html}");
}

#[test]
fn without_the_feature_a_fence_keeps_its_language_class() {
    let html = body("```rust\nlet x = 1;\n```\n");
    assert!(html.contains(r#"<code class="language-rust">"#), "{html}");
    assert!(!html.contains("<span class=\"hl-"), "{html}");
}

#[test]
fn raw_html_passes_through() {
    assert!(body("<kbd>ctrl</kbd>").contains("<kbd>ctrl</kbd>"));
}

#[test]
fn slugs_keep_letters_and_digits_and_join_the_rest_with_dashes() {
    assert_eq!(slug("Getting Started?"), "getting-started");
    assert_eq!(slug("  A -- B  "), "a-b");
    assert_eq!(slug("???"), "section");
    assert_eq!(slug("Version 2.0"), "version-2-0");
}

#[test]
fn three_headings_alike_are_numbered_in_turn() {
    let html = body("# A\n\n## A\n\n### A\n");
    assert!(html.contains(r#"<h1 id="a">"#), "{html}");
    assert!(html.contains(r#"<h2 id="a-1">"#), "{html}");
    assert!(html.contains(r#"<h3 id="a-2">"#), "{html}");
}

#[test]
fn inline_code_in_a_heading_is_part_of_its_title() {
    assert_eq!(render("# Using `serv`\n", "doc.md").title, "Using serv");
}

fn page(source: &str, url_path: &str) -> String {
    Document::new(source, "doc.md", url_path, "/site", true).render()
}

#[test]
fn the_rendered_markdown_is_the_body_of_the_page() {
    let html = page("# Reading\n\nsome prose", "/reading");
    assert!(html.contains("<h1 id=\"reading\">Reading</h1>"), "{html}");
    assert!(html.contains("<p>some prose</p>"), "{html}");
}

#[test]
fn the_heading_becomes_the_tab_title() {
    assert!(page("# Reading\n", "/reading").contains("<title>Reading</title>"));
}

#[test]
fn the_body_is_not_escaped_into_visible_tags() {
    let html = page("**bold**", "/x");
    assert!(html.contains("<strong>bold</strong>"), "{html}");
    assert!(!html.contains("&lt;strong&gt;"), "{html}");
}

#[test]
fn the_title_is_escaped_because_it_is_text() {
    let html = page("# Tom & Jerry\n", "/x");
    assert!(html.contains("<title>Tom &amp; Jerry</title>"), "{html}");
}

#[test]
fn markup_in_a_heading_never_reaches_the_title() {
    let html = page("# a <script> tag\n", "/x");
    assert!(html.contains("<title>a  tag</title>"), "{html}");
}

#[test]
fn the_page_carries_a_trail_back_up() {
    let html = page("text", "/docs/guide");
    assert!(html.contains(r#"href="/docs/""#), "{html}");
}

#[test]
fn the_stylesheet_is_inlined_so_the_page_works_offline() {
    let html = page("text", "/x");
    assert!(html.contains("--vermilion"), "{html}");
    assert!(!html.contains("<link rel=\"stylesheet\""), "{html}");
}

#[test]
fn a_link_to_a_markdown_file_points_at_its_page() {
    let html = body("[guide](guide.md) and [setup](docs/setup.md#install)");
    assert!(html.contains(r#"<a href="guide">guide</a>"#), "{html}");
    assert!(html.contains(r#"<a href="docs/setup#install">setup</a>"#), "{html}");
}

#[test]
fn an_index_link_folds_into_its_folder() {
    let html = body("[docs](docs/index.md)");
    assert!(html.contains(r#"<a href="docs/">docs</a>"#), "{html}");
}

#[test]
fn with_literal_urls_a_markdown_link_is_left_alone() {
    let html = render_with("[guide](guide.md)", "doc.md", false).body;
    assert!(html.contains(r#"<a href="guide.md">guide</a>"#), "{html}");
}

#[test]
fn a_link_off_the_machine_opens_in_its_own_tab() {
    let html = body("[site](https://example.com/a.md \"Home\")");
    assert!(
        html.contains(
            r#"<a href="https://example.com/a.md" title="Home" target="_blank" rel="noopener">site</a>"#
        ),
        "{html}"
    );
}

#[test]
fn other_links_are_left_as_they_are() {
    let html = body("[mail](mailto:a@b.md) [top](#top) [pic](a.png)");
    assert!(html.contains(r#"href="mailto:a@b.md""#), "{html}");
    assert!(html.contains(r##"href="#top""##), "{html}");
    assert!(html.contains(r#"href="a.png""#), "{html}");
    assert!(!html.contains("target="), "{html}");
}

#[test]
fn a_mermaid_fence_is_drawn_as_a_diagram() {
    let doc = render("```mermaid\ngraph TD;\nA-->B;\n```\n", "doc.md");
    assert!(doc.diagrams);
    assert!(doc.body.contains("<pre class=\"mermaid\">graph TD;\nA--&gt;B;\n</pre>"), "{}", doc.body);
    assert!(!doc.body.contains("<code"), "{}", doc.body);
}

#[test]
fn only_a_page_with_a_diagram_loads_mermaid() {
    let with = page("```mermaid\ngraph TD;\n```\n", "/x");
    assert!(with.contains("cdn.jsdelivr.net/npm/mermaid"), "{with}");
    let without = page("```rust\nfn main() {}\n```\n", "/x");
    assert!(!without.contains("mermaid"), "{without}");
    assert!(!render("text", "doc.md").diagrams);
}
