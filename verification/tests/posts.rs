use mdblog::parse_post;

#[test]
fn frontmatter_round_trip() {
    let post = parse_post("hi.md", "---\ntitle: \"Hi\"\ndate: \"2024-01-01\"\n---\nHello")
        .expect("a valid post");
    assert_eq!(post.title, "Hi");
    assert_eq!(post.date, "2024-01-01");
    assert_eq!(post.excerpt, "");
    assert_eq!(post.html_content, "<p>Hello</p>\n");
    assert_eq!(post.slug, "hi");
}

#[test]
fn missing_leading_delimiter_is_no_post() {
    assert!(parse_post("x.md", "Hello\nworld").is_none());
}

#[test]
fn empty_file_is_no_post() {
    assert!(parse_post("x.md", "").is_none());
}

#[test]
fn delimiter_must_be_exact() {
    assert!(parse_post("x.md", "----\nbody").is_none());
    assert!(parse_post("x.md", " ---\nbody").is_none());
}

#[test]
fn slug_strips_directory_and_extension() {
    let post = parse_post("posts/my-post.md", "---\n---\nx").expect("a valid post");
    assert_eq!(post.slug, "my-post");
}

#[test]
fn slug_defaults_to_untitled() {
    let post = parse_post("", "---\n---\nx").expect("a valid post");
    assert_eq!(post.slug, "untitled");
    let post = parse_post("posts/", "---\n---\nx").expect("a valid post");
    assert_eq!(post.slug, "untitled");
}

#[test]
fn slug_keeps_leading_dot_name_whole() {
    let post = parse_post("posts/.hidden", "---\n---\nx").expect("a valid post");
    assert_eq!(post.slug, ".hidden");
}

#[test]
fn duplicate_key_last_occurrence_wins() {
    let post = parse_post("x.md", "---\ntitle: \"A\"\ntitle: \"B\"\n---\n")
        .expect("a valid post");
    assert_eq!(post.title, "B");
}

#[test]
fn unknown_keys_are_ignored_and_missing_keys_default_empty() {
    let post = parse_post("x.md", "---\nauthor: \"Y\"\nexcerpt: \"E\"\n---\nbody")
        .expect("a valid post");
    assert_eq!(post.title, "");
    assert_eq!(post.date, "");
    assert_eq!(post.excerpt, "E");
    assert_eq!(post.html_content, "<p>body</p>\n");
}

#[test]
fn unquoted_value_is_kept() {
    let post = parse_post("x.md", "---\ntitle: Hi there\n---\n").expect("a valid post");
    assert_eq!(post.title, "Hi there");
}

#[test]
fn lone_quote_is_kept() {
    let post = parse_post("x.md", "---\ntitle: \"Hi\n---\n").expect("a valid post");
    assert_eq!(post.title, "\"Hi");
}

#[test]
fn unclosed_frontmatter_swallows_the_rest() {
    let post = parse_post("x.md", "---\ntitle: \"Hi\"\nbody text").expect("a valid post");
    assert_eq!(post.title, "Hi");
    assert_eq!(post.html_content, "");
}

#[test]
fn body_renders_full_subset() {
    let text = "---\ntitle: \"T\"\n---\n# Head\n\n- item\n\npara **b** [l](u)\n```\n<code>\n```";
    let post = parse_post("x.md", text).expect("a valid post");
    assert_eq!(
        post.html_content,
        "<h1>Head</h1>\n<li>item</li>\n<p>para <strong>b</strong> <a href=\"u\">l</a></p>\n<pre><code>&lt;code&gt;\n</code></pre>\n"
    );
}

#[test]
fn crlf_line_endings_are_handled() {
    let post = parse_post("x.md", "---\r\ntitle: \"Hi\"\r\n---\r\nHello")
        .expect("a valid post");
    assert_eq!(post.title, "Hi");
    assert_eq!(post.html_content, "<p>Hello</p>\n");
}
