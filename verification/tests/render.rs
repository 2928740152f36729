use mdblog::{
    escape_html, markdown_to_html, parse_bold, parse_image, parse_italic, parse_link,
    process_inline_markdown,
};

#[test]
fn escape_ampersand() {
    assert_eq!(escape_html("&"), "&amp;");
}

#[test]
fn escape_tag() {
    assert_eq!(escape_html("<img>"), "&lt;img&gt;");
}

#[test]
fn escape_quotes() {
    assert_eq!(escape_html("a\"b'c"), "a&quot;b&#39;c");
}

#[test]
fn escape_is_identity_without_reserved_characters() {
    assert_eq!(escape_html("hello world"), "hello world");
    let once = escape_html("hello world");
    assert_eq!(escape_html(&once), once);
}

#[test]
fn escape_not_idempotent_on_reserved() {
    let once = escape_html("&");
    assert_eq!(escape_html(&once), "&amp;amp;");
}

#[test]
fn bold_round_trip() {
    assert_eq!(process_inline_markdown("**bold**"), "<strong>bold</strong>");
}

#[test]
fn italic_round_trip() {
    assert_eq!(process_inline_markdown("*x*"), "<em>x</em>");
}

#[test]
fn bold_consumed_before_italic() {
    // The bold pass consumes the `**` span first, so it is not read as two
    // italic spans; the italic pass then re-scans the bold output and
    // converts the lone asterisks inside it — the accepted limitation of
    // sequential passes.
    assert_eq!(parse_bold("**a*b*c**"), "<strong>a*b*c</strong>");
    assert_eq!(
        process_inline_markdown("**a*b*c**"),
        "<strong>a<em>b</em>c</strong>"
    );
}

#[test]
fn unterminated_markup_is_lossless() {
    assert_eq!(process_inline_markdown("*unterminated"), "*unterminated");
}

#[test]
fn unterminated_bold_is_lossless() {
    assert_eq!(parse_bold("**open"), "**open");
}

#[test]
fn link_before_bold_and_italic() {
    assert_eq!(process_inline_markdown("[text](url)"), "<a href=\"url\">text</a>");
}

#[test]
fn image_before_link() {
    assert_eq!(
        process_inline_markdown("![alt](pic.png)"),
        "<img src=\"pic.png\" alt=\"alt\" />"
    );
}

#[test]
fn link_without_url_is_lossless() {
    assert_eq!(parse_link("[text] after"), "[text] after");
    assert_eq!(parse_link("[text](unclosed"), "[text](unclosed");
    assert_eq!(parse_link("[unclosed"), "[unclosed");
}

#[test]
fn image_without_url_is_lossless() {
    assert_eq!(parse_image("![alt] after"), "![alt] after");
    assert_eq!(parse_image("![alt](unclosed"), "![alt](unclosed");
    assert_eq!(parse_image("![unclosed"), "![unclosed");
    assert_eq!(parse_image("!x"), "!x");
}

#[test]
fn span_content_is_escaped() {
    assert_eq!(parse_bold("**a<b**"), "<strong>a&lt;b</strong>");
    assert_eq!(parse_italic("*a&b*"), "<em>a&amp;b</em>");
    assert_eq!(
        parse_link("[a<b](u&v)"),
        "<a href=\"u&amp;v\">a&lt;b</a>"
    );
}

#[test]
fn italic_skips_double_asterisk() {
    assert_eq!(parse_italic("*a**b*"), "<em>a*</em>b*");
}

#[test]
fn plain_line_becomes_paragraph() {
    assert_eq!(markdown_to_html("hello world"), "<p>hello world</p>\n");
}

#[test]
fn paragraph_text_outside_spans_passes_through() {
    // Only captured span content goes through the escaper; plain paragraph
    // text is emitted as it stands.
    assert_eq!(markdown_to_html("a & b"), "<p>a & b</p>\n");
}

#[test]
fn headings_by_level() {
    assert_eq!(
        markdown_to_html("# One\n## Two\n### Three"),
        "<h1>One</h1>\n<h2>Two</h2>\n<h3>Three</h3>\n"
    );
}

#[test]
fn list_items_are_bare() {
    assert_eq!(markdown_to_html("- one\n- two"), "<li>one</li>\n<li>two</li>\n");
}

#[test]
fn blank_lines_emit_nothing() {
    assert_eq!(markdown_to_html("a\n\n\nb"), "<p>a</p>\n<p>b</p>\n");
    assert_eq!(markdown_to_html(""), "");
    assert_eq!(markdown_to_html("   \n"), "");
}

#[test]
fn code_fence_content_is_never_inline_processed() {
    assert_eq!(
        markdown_to_html("```\n**x**\n```"),
        "<pre><code>**x**\n</code></pre>\n"
    );
}

#[test]
fn code_fence_content_is_escaped() {
    assert_eq!(
        markdown_to_html("```\n<b>&</b>\n```"),
        "<pre><code>&lt;b&gt;&amp;&lt;/b&gt;\n</code></pre>\n"
    );
}

#[test]
fn indented_fence_toggles() {
    assert_eq!(
        markdown_to_html("  ```\ncode\n  ```"),
        "<pre><code>code\n</code></pre>\n"
    );
}

#[test]
fn unterminated_fence_drops_buffer() {
    assert_eq!(markdown_to_html("```\ncode"), "");
    assert_eq!(markdown_to_html("before\n```\ncode"), "<p>before</p>\n");
}

#[test]
fn heading_inside_fence_stays_literal() {
    assert_eq!(markdown_to_html("```\n# x\n```"), "<pre><code># x\n</code></pre>\n");
}

#[test]
fn fences_between_paragraphs() {
    assert_eq!(
        markdown_to_html("a\n```\nc\n```\nb"),
        "<p>a</p>\n<pre><code>c\n</code></pre>\n<p>b</p>\n"
    );
}

#[test]
fn heading_with_inline_markup() {
    assert_eq!(markdown_to_html("# A **b**"), "<h1>A <strong>b</strong></h1>\n");
}
