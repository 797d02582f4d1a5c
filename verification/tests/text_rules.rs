use moa::frontmatter::{
    frame_markdown_document, normalize_frontmatter, split_markdown_document, validate_rfc3339,
    Frontmatter,
};
use moa::normalize::{
    normalize_optional_string, normalize_required, normalize_tag, normalize_tags, normalize_title,
};
use moa::query::sanitize_fts_query;
use moa::slug::slugify_title;
use moa::text::{is_whitespace, join_strings, trim_str};

fn s(v: &str) -> String {
    v.to_string()
}

#[test]
fn trims_unicode_whitespace() {
    assert_eq!(trim_str("  a b \t\n"), "a b");
    assert_eq!(trim_str("\u{3000}note\u{a0}"), "note");
    assert_eq!(trim_str("   "), "");
    assert_eq!(trim_str(trim_str(" x ").as_str()), trim_str(" x "));
}

#[test]
fn normalizes_titles_and_optional_fields() {
    assert_eq!(normalize_title(Some(s("  My Note "))), "My Note");
    assert_eq!(normalize_title(Some(s("   "))), "Untitled");
    assert_eq!(normalize_title(None), "Untitled");
    assert_eq!(normalize_optional_string(Some(s(" Project "))), Some(s("Project")));
    assert_eq!(normalize_optional_string(Some(s(" "))), None);
    assert_eq!(normalize_optional_string(None), None);
}

#[test]
fn required_value_reports_its_field() {
    assert_eq!(normalize_required(s(" abc "), "id"), Ok(s("abc")));
    assert_eq!(normalize_required(s("  "), "id"), Err(s("id is required")));
}

#[test]
fn tags_are_trimmed_lowercased_sorted_and_unique() {
    assert_eq!(normalize_tag(s("  MarkDown ")), "markdown");
    assert_eq!(
        normalize_tags(vec![s("Markdown"), s(" local ")]),
        vec![s("local"), s("markdown")]
    );
    assert_eq!(
        normalize_tags(vec![s("b"), s("A"), s(" "), s("a"), s("B "), s("c")]),
        vec![s("a"), s("b"), s("c")]
    );
    assert!(normalize_tags(vec![]).is_empty());
    let once = normalize_tags(vec![s("Zeta"), s("alpha"), s("Beta")]);
    assert_eq!(normalize_tags(once.clone()), once);
}

#[test]
fn slugs_are_readable_file_name_parts() {
    assert_eq!(slugify_title("Local First Note"), "local-first-note");
    assert_eq!(slugify_title("  Hello,  World! "), "hello-world");
    assert_eq!(slugify_title("a/b:c*d"), "abcd");
    assert_eq!(slugify_title("***"), "untitled");
    assert_eq!(slugify_title(""), "untitled");
    assert_eq!(slugify_title("--Rust & Verus--"), "rust-verus");
    assert_eq!(slugify_title("Ünïcode Ä"), "ünïcode-ä");
    assert!(!slugify_title("x/y\\z").contains('/'));
}

#[test]
fn search_queries_keep_only_plain_terms() {
    assert_eq!(sanitize_fts_query("search"), "search");
    assert_eq!(sanitize_fts_query("  foo   bar* (baz) "), "foo bar baz");
    assert_eq!(sanitize_fts_query("a-b_c \"q\" :: **"), "a-b_c q");
    assert_eq!(sanitize_fts_query("   "), "");
    assert_eq!(sanitize_fts_query("NEAR(x y)"), "NEARx y");
}

#[test]
fn joins_with_separator() {
    assert_eq!(join_strings(&vec![s("a"), s("b"), s("c")], " "), "a b c");
    assert_eq!(join_strings(&vec![], " "), "");
    assert_eq!(join_strings(&vec![s("one")], ", "), "one");
}

#[test]
fn frames_and_splits_note_text() {
    let framed = frame_markdown_document("id: x\ntitle: T\n", "Body text");
    assert_eq!(framed, "---\nid: x\ntitle: T\n---\n\nBody text");
    assert_eq!(
        split_markdown_document(&framed),
        Ok((s("id: x\ntitle: T"), s("Body text")))
    );
}

#[test]
fn splitting_drops_only_the_separator_line() {
    assert_eq!(
        split_markdown_document("---\nid: x\n---\nHello"),
        Ok((s("id: x"), s("Hello")))
    );
    assert_eq!(
        split_markdown_document("---\nid\n---\n\n\nx"),
        Ok((s("id"), s("\nx")))
    );
    assert_eq!(split_markdown_document("---\nid\n---\n"), Ok((s("id"), s(""))));
    let framed = frame_markdown_document("id: x\n", "\nstarts blank");
    assert_eq!(
        split_markdown_document(&framed),
        Ok((s("id: x"), s("\nstarts blank")))
    );
}

#[test]
fn splitting_normalizes_line_endings_and_reports_bad_fences() {
    assert_eq!(
        split_markdown_document("---\r\nid: x\r\n---\r\nbody\r\nmore"),
        Ok((s("id: x"), s("body\nmore")))
    );
    assert_eq!(
        split_markdown_document("# no frontmatter"),
        Err(s("missing YAML frontmatter"))
    );
    assert_eq!(
        split_markdown_document("---\nid: x\n"),
        Err(s("unterminated YAML frontmatter"))
    );
    assert_eq!(
        split_markdown_document("---\na\n---\nb\n---\nc"),
        Ok((s("a"), s("b\n---\nc")))
    );
}

fn raw_frontmatter(id: &str, created: &str, updated: &str) -> Frontmatter {
    Frontmatter {
        id: s(id),
        title: s("  A Title "),
        category: Some(s("  ")),
        tags: vec![s("Search"), s("local"), s(" search ")],
        created_at: s(created),
        updated_at: s(updated),
    }
}

#[test]
fn frontmatter_is_checked_and_normalized() {
    let meta = normalize_frontmatter(raw_frontmatter(
        " 9f2a ",
        "2026-06-08T10:30:00+09:00",
        "2026-06-08T11:10:00+09:00",
    ))
    .expect("valid frontmatter");
    assert_eq!(meta.id, "9f2a");
    assert_eq!(meta.title, "A Title");
    assert_eq!(meta.category, None);
    assert_eq!(meta.tags, vec![s("local"), s("search")]);
    assert_eq!(meta.created_at, "2026-06-08T10:30:00+09:00");
}

#[test]
fn frontmatter_errors_come_in_field_order() {
    let err = normalize_frontmatter(raw_frontmatter(" ", "bad", "bad")).unwrap_err();
    assert_eq!(err, "id is required");
    let err = normalize_frontmatter(raw_frontmatter("x", "yesterday", "bad")).unwrap_err();
    assert_eq!(err, "created_at must be RFC3339");
    let err = normalize_frontmatter(raw_frontmatter("x", "2026-06-08T10:30:00Z", "soon")).unwrap_err();
    assert_eq!(err, "updated_at must be RFC3339");
}

#[test]
fn rfc3339_validation() {
    assert_eq!(validate_rfc3339("1996-12-19T16:39:57-08:00", "created_at"), Ok(()));
    assert_eq!(
        validate_rfc3339("1996-12-19", "updated_at"),
        Err(s("updated_at must be RFC3339"))
    );
}

#[test]
fn normalizing_an_optional_value_twice_changes_nothing() {
    let once = normalize_optional_string(Some(s("  Research \t")));
    assert_eq!(normalize_optional_string(once.clone()), once);
    assert_eq!(normalize_optional_string(normalize_optional_string(Some(s(" ")))), None);
}

#[test]
fn whitespace_is_the_unicode_white_space_set() {
    for c in ['\t', '\n', '\u{b}', '\u{c}', '\r', ' ', '\u{85}', '\u{a0}', '\u{1680}', '\u{2000}',
        '\u{200a}', '\u{2028}', '\u{2029}', '\u{202f}', '\u{205f}', '\u{3000}']
    {
        assert!(is_whitespace(c), "{c:?}");
        assert_eq!(is_whitespace(c), c.is_whitespace());
    }
    for c in ['a', '-', '_', '\u{0}', '\u{200b}', '\u{feff}', '\u{180e}', '越'] {
        assert!(!is_whitespace(c), "{c:?}");
        assert_eq!(is_whitespace(c), c.is_whitespace());
    }
}

#[test]
fn sanitizing_twice_changes_nothing() {
    for q in ["  rust*  \"ownership\" -x ", "a\tb\u{3000}c", "(()) ::", "", "one"] {
        let once = sanitize_fts_query(q);
        assert_eq!(sanitize_fts_query(&once), once);
    }
    assert_eq!(sanitize_fts_query("  rust*  \"ownership\" -x "), "rust ownership -x");
}

#[test]
fn slugs_have_no_edge_or_double_dashes() {
    for t in ["  Hello,  World!! ", "--a--b--", "a / b", "???", "Été à Paris", "x - - y"] {
        let slug = slugify_title(t);
        assert!(!slug.is_empty());
        assert!(!slug.starts_with('-') && !slug.ends_with('-'), "{slug}");
        assert!(!slug.contains("--"), "{slug}");
        assert!(slug.chars().all(|c| c.is_alphanumeric() || c == '-'), "{slug}");
    }
    assert_eq!(slugify_title("x - - y"), "x-y");
    assert_eq!(slugify_title("???"), "untitled");
}

#[test]
fn slugging_a_slug_of_an_ascii_title_changes_nothing() {
    for t in ["Hello, World!", "  --A--b--  ", "???", "Rust 2024: What's New?", "x - - y"] {
        let once = slugify_title(t);
        assert_eq!(slugify_title(&once), once, "{t}");
    }
    assert_eq!(slugify_title("Hello, World!"), "hello-world");
}

#[test]
fn normalizing_ascii_tags_twice_changes_nothing() {
    let once = normalize_tags(vec![s(" MarkDown "), s("rust"), s("RUST"), s("  "), s("Web Dev")]);
    assert_eq!(once, vec![s("markdown"), s("rust"), s("web dev")]);
    assert_eq!(normalize_tags(once.clone()), once);
    assert_eq!(normalize_tag(s(" MarkDown ")), normalize_tag(s("markdown")));
    assert_eq!(normalize_tag(normalize_tag(s("\tABC d "))), normalize_tag(s("\tABC d ")));
}
