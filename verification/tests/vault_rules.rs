use moa::cli::{optional_csv_flag, optional_flag, parse_flags, required_flag};
use moa::documents::{
    CreateDocumentInput, DocumentFilter, DocumentListItem, DocumentPayload, IndexStatus,
    IndexedDocument, SaveDocumentInput, SearchInput, SearchResult, StorageIssue,
};
use moa::listing::list_documents_in_vault;
use moa::names::{decimal_string, first_free_name, split_file_name};
use moa::rebuild::{index_status, missing_document_ids, plan_rebuild, NoteCandidate};
use moa::search::{
    filter_full_text_results, listing_search_results, plan_search, search_without_query, SearchPlan,
};
use moa::settings::{
    active_vault_path, chosen_vault_path, updated_global_settings, AppState, GlobalSettings,
};
use moa::vault::{
    count_from_index, get_storage_status_in_vault, initialize_vault_at, is_markdown_note,
    note_relative_path, prepare_new_document, prepare_saved_document, sha256_hex,
    trash_file_name, unique_note_file_name, unique_path, validate_relative_path,
};

fn s(v: &str) -> String {
    v.to_string()
}

fn strings(v: &[&str]) -> Vec<String> {
    v.iter().map(|x| x.to_string()).collect()
}

fn item(id: &str, title: &str, category: Option<&str>, tags: &[&str], updated: &str) -> DocumentListItem {
    DocumentListItem {
        id: s(id),
        title: s(title),
        category: category.map(s),
        tags: strings(tags),
        relative_path: format!("notes/{id}.md"),
        created_at: s("2026-01-01T00:00:00Z"),
        updated_at: s(updated),
        content_hash: s("hash"),
    }
}

fn hit(id: &str, category: Option<&str>, tags: &[&str], updated: &str, rank: usize) -> SearchResult {
    SearchResult {
        id: s(id),
        title: s(id),
        category: category.map(s),
        tags: strings(tags),
        relative_path: format!("notes/{id}.md"),
        updated_at: s(updated),
        snippet: s("..."),
        rank,
    }
}

fn ids(items: &[DocumentListItem]) -> Vec<String> {
    items.iter().map(|i| i.id.clone()).collect()
}

fn hit_ids(hits: &[SearchResult]) -> Vec<String> {
    hits.iter().map(|h| h.id.clone()).collect()
}

#[test]
fn active_vault_is_read_back_after_it_is_set() {
    let mut state = AppState::new();
    assert_eq!(active_vault_path(&state), Err(s("vault is not initialized")));
    assert_eq!(state.set_active_vault(s("/tmp/vault")), Ok(()));
    assert_eq!(active_vault_path(&state), Ok(s("/tmp/vault")));
    let fresh = AppState::default();
    assert!(active_vault_path(&fresh).is_err());
}

#[test]
fn recent_vaults_put_the_opened_one_first() {
    let first = updated_global_settings(None, s("/a"));
    assert_eq!(first.active_vault_path, "/a");
    assert_eq!(first.recent_vault_paths, strings(&["/a"]));

    let previous = GlobalSettings {
        active_vault_path: s("/b"),
        recent_vault_paths: strings(&["/b", "/a", "/c"]),
    };
    let next = updated_global_settings(Some(previous), s("/a"));
    assert_eq!(next.active_vault_path, "/a");
    assert_eq!(next.recent_vault_paths, strings(&["/a", "/b", "/c"]));
}

#[test]
fn recent_vaults_keep_ten_entries() {
    let many: Vec<String> = (0..12).map(|i| format!("/v{i}")).collect();
    let previous = GlobalSettings { active_vault_path: s("/v0"), recent_vault_paths: many };
    let next = updated_global_settings(Some(previous), s("/new"));
    assert_eq!(next.recent_vault_paths.len(), 10);
    assert_eq!(next.recent_vault_paths[0], "/new");
    assert_eq!(next.recent_vault_paths[9], "/v8");
    let again = updated_global_settings(
        Some(GlobalSettings { active_vault_path: s("/new"), recent_vault_paths: next.recent_vault_paths.clone() }),
        s("/new"),
    );
    assert_eq!(again.recent_vault_paths, next.recent_vault_paths);
}

#[test]
fn decimal_numbers() {
    assert_eq!(decimal_string(0), "0");
    assert_eq!(decimal_string(7), "7");
    assert_eq!(decimal_string(10), "10");
    assert_eq!(decimal_string(1234567890), "1234567890");
    assert_eq!(decimal_string(u64::MAX), u64::MAX.to_string());
}

#[test]
fn file_names_split_like_paths() {
    assert_eq!(split_file_name("note.md"), (s("note"), Some(s("md"))));
    assert_eq!(split_file_name("archive.tar.gz"), (s("archive.tar"), Some(s("gz"))));
    assert_eq!(split_file_name(".hidden"), (s(".hidden"), None));
    assert_eq!(split_file_name("plain"), (s("plain"), None));
    assert_eq!(split_file_name("dot."), (s("dot"), Some(s(""))));
}

#[test]
fn markdown_notes_are_recognized_by_extension() {
    assert!(is_markdown_note("2026-06-08-note.md"));
    assert!(!is_markdown_note(".md"));
    assert!(!is_markdown_note("note.MD"));
    assert!(!is_markdown_note("note.txt"));
    assert!(!is_markdown_note("README"));
}

#[test]
fn first_free_names_are_numbered_from_two() {
    assert_eq!(first_free_name("base", ".md", &vec![]), "base.md");
    assert_eq!(first_free_name("base", ".md", &strings(&["base.md"])), "base-2.md");
    assert_eq!(
        first_free_name("base", ".md", &strings(&["base.md", "base-2.md", "base-3.md", "other.md"])),
        "base-4.md"
    );
}

#[test]
fn note_file_names_are_single_path_components() {
    let name = unique_note_file_name("2026-06-08", "Local First Note", &vec![]);
    assert_eq!(name, "2026-06-08-local-first-note.md");
    let name = unique_note_file_name(
        "2026-06-08",
        "Local First Note",
        &strings(&["2026-06-08-local-first-note.md"]),
    );
    assert_eq!(name, "2026-06-08-local-first-note-2.md");
    let path = note_relative_path(&unique_note_file_name("2026-06-08", "a/b\\c", &vec![]));
    assert!(path.starts_with("notes/"));
    assert_eq!(path.matches('/').count(), 1);
}

#[test]
fn trash_names_are_unique() {
    assert_eq!(unique_path("x.md", &vec![]), "x.md");
    assert_eq!(unique_path("x.md", &strings(&["x.md"])), "x-2.md");
    assert_eq!(unique_path(".hidden", &strings(&[".hidden"])), ".hidden-2");
    assert_eq!(unique_path("plain", &strings(&["plain", "plain-2"])), "plain-3");
    assert_eq!(
        trash_file_name("2026-06-08T101010Z", "id1", "note.md", &vec![]),
        "2026-06-08T101010Z_id1_note.md"
    );
    assert_eq!(
        trash_file_name("2026-06-08T101010Z", "id1", "note.md", &strings(&["2026-06-08T101010Z_id1_note.md"])),
        "2026-06-08T101010Z_id1_note-2.md"
    );
}

#[test]
fn relative_paths_must_stay_in_the_vault() {
    assert_eq!(validate_relative_path("notes/a.md"), Ok(()));
    assert_eq!(
        validate_relative_path("../secret.md"),
        Err(s("unsafe relative path: ../secret.md"))
    );
    assert_eq!(
        validate_relative_path("notes\\a.md"),
        Err(s("unsafe relative path: notes\\a.md"))
    );
}

#[test]
fn content_hash_is_hex_sha256() {
    assert_eq!(
        sha256_hex(""),
        "e3b0c44298fc1c149afbf4c8996fb92427ae41e4649b934ca495991b7852b855"
    );
    assert_eq!(
        sha256_hex("abc"),
        "ba7816bf8f01cfea414140de5dae2223b00361a396177a9cb410ff61f20015ad"
    );
}

#[test]
fn counts_from_the_index() {
    assert_eq!(count_from_index(5), 5);
    assert_eq!(count_from_index(0), 0);
    assert_eq!(count_from_index(-3), 0);
}

#[test]
fn new_documents_are_normalized_and_named() {
    let input = CreateDocumentInput {
        title: Some(s("Local First Note")),
        category: Some(s("Project")),
        tags: Some(strings(&["Markdown", " local "])),
        body: Some(s("Body text for search.")),
    };
    let new_doc = prepare_new_document(input, s("id-1"), s("2026-06-08T10:30:00+09:00"), "2026-06-08", &vec![]);
    assert_eq!(new_doc.file_name, "2026-06-08-local-first-note.md");
    assert_eq!(new_doc.relative_path, "notes/2026-06-08-local-first-note.md");
    assert_eq!(new_doc.document.meta.id, "id-1");
    assert_eq!(new_doc.document.meta.title, "Local First Note");
    assert_eq!(new_doc.document.meta.category, Some(s("Project")));
    assert_eq!(new_doc.document.meta.tags, strings(&["local", "markdown"]));
    assert_eq!(new_doc.document.meta.created_at, new_doc.document.meta.updated_at);
    assert_eq!(new_doc.document.body, "Body text for search.");

    let empty = CreateDocumentInput { title: None, category: None, tags: None, body: None };
    let new_doc = prepare_new_document(empty, s("id-2"), s("now"), "2026-06-08", &strings(&["2026-06-08-untitled.md"]));
    assert_eq!(new_doc.document.meta.title, "Untitled");
    assert_eq!(new_doc.file_name, "2026-06-08-untitled-2.md");
    assert_eq!(new_doc.document.body, "");
}

#[test]
fn saving_keeps_id_creation_time_and_file() {
    let existing = DocumentPayload {
        id: s("doc-1"),
        title: s("Original Title"),
        category: None,
        tags: vec![],
        body: s("\nold"),
        relative_path: s("notes/2026-06-08-original-title.md"),
        created_at: s("2026-06-08T10:30:00+09:00"),
        updated_at: s("2026-06-08T10:30:00+09:00"),
    };
    let input = SaveDocumentInput {
        id: s("doc-1"),
        title: s("Changed Title"),
        category: Some(s("Research")),
        tags: strings(&["FTS"]),
        body: s("Changed body"),
    };
    let (parsed, result) = prepare_saved_document(existing, input, s("2026-06-09T08:00:00+09:00"));
    assert_eq!(result.relative_path, "notes/2026-06-08-original-title.md");
    assert_eq!(result.id, "doc-1");
    assert_eq!(result.updated_at, "2026-06-09T08:00:00+09:00");
    assert_eq!(parsed.meta.title, "Changed Title");
    assert_eq!(parsed.meta.category, Some(s("Research")));
    assert_eq!(parsed.meta.tags, strings(&["fts"]));
    assert_eq!(parsed.meta.created_at, "2026-06-08T10:30:00+09:00");
    assert_eq!(parsed.body, "Changed body");
}

#[test]
fn listing_filters_by_category_tag_and_query() {
    let rows = || {
        vec![
            item("1", "Local First Note", Some("Project"), &["local", "markdown"], "3"),
            item("2", "Vector Search", Some("Research"), &["search"], "2"),
            item("3", "Groceries", None, &[], "1"),
        ]
    };
    assert_eq!(ids(&list_documents_in_vault(rows(), None)), strings(&["1", "2", "3"]));
    let by_category = DocumentFilter { category: Some(s(" Project ")), tag: None, query: None };
    assert_eq!(ids(&list_documents_in_vault(rows(), Some(by_category))), strings(&["1"]));
    let by_tag = DocumentFilter { category: None, tag: Some(s(" SEARCH ")), query: None };
    assert_eq!(ids(&list_documents_in_vault(rows(), Some(by_tag))), strings(&["2"]));
    let by_query = DocumentFilter { category: None, tag: None, query: Some(s("RESEARCH")) };
    assert_eq!(ids(&list_documents_in_vault(rows(), Some(by_query))), strings(&["2"]));
    let by_tag_text = DocumentFilter { category: None, tag: None, query: Some(s("markdown")) };
    assert_eq!(ids(&list_documents_in_vault(rows(), Some(by_tag_text))), strings(&["1"]));
    let blank = DocumentFilter { category: Some(s(" ")), tag: Some(s("")), query: Some(s("  ")) };
    assert_eq!(ids(&list_documents_in_vault(rows(), Some(blank))).len(), 3);
    let none = DocumentFilter { category: Some(s("Nope")), tag: None, query: None };
    assert!(list_documents_in_vault(rows(), Some(none)).is_empty());
}

#[test]
fn searches_plan_a_listing_or_a_full_text_match() {
    let listing = SearchInput {
        query: s(" ** "),
        category: Some(s("Project")),
        tags: Some(strings(&["first", "second"])),
        sort: None,
    };
    match plan_search(&listing) {
        SearchPlan::Listing(filter) => {
            assert_eq!(filter.category, Some(s("Project")));
            assert_eq!(filter.tag, Some(s("first")));
            assert_eq!(filter.query, None);
        }
        SearchPlan::FullText(_) => panic!("expected a listing"),
    }
    let full_text = SearchInput { query: s("body* text"), category: None, tags: None, sort: None };
    match plan_search(&full_text) {
        SearchPlan::FullText(q) => assert_eq!(q, "body text"),
        SearchPlan::Listing(_) => panic!("expected a full-text match"),
    }
}

#[test]
fn listed_documents_become_hits_without_snippets() {
    let hits = listing_search_results(vec![item("1", "A", None, &["x"], "1"), item("2", "B", None, &[], "2")]);
    assert_eq!(hit_ids(&hits), strings(&["1", "2"]));
    assert_eq!(hits[1].rank, 1);
    assert_eq!(hits[0].snippet, "");
    assert_eq!(hits[0].tags, strings(&["x"]));
}

#[test]
fn full_text_hits_are_filtered_and_optionally_sorted() {
    let rows = || {
        vec![
            hit("a", Some("Project"), &["local", "search"], "2026-01-02", 0),
            hit("b", Some("Project"), &["search"], "2026-03-01", 1),
            hit("c", None, &["local", "search"], "2026-01-02", 2),
            hit("d", Some("Project"), &["local", "search"], "2026-02-01", 3),
        ]
    };
    let kept = filter_full_text_results(rows(), None, None, None);
    assert_eq!(hit_ids(&kept), strings(&["a", "b", "c", "d"]));
    let kept = filter_full_text_results(rows(), Some(s(" Project")), Some(strings(&["LOCAL"])), None);
    assert_eq!(hit_ids(&kept), strings(&["a", "d"]));
    let sorted = filter_full_text_results(rows(), None, None, Some(s("updatedAt")));
    assert_eq!(hit_ids(&sorted), strings(&["b", "d", "a", "c"]));
    let other_sort = filter_full_text_results(rows(), None, None, Some(s("relevance")));
    assert_eq!(hit_ids(&other_sort), strings(&["a", "b", "c", "d"]));
}

fn indexed(id: &str, path: &str) -> IndexedDocument {
    let mut it = item(id, "T", None, &[], "1");
    it.relative_path = s(path);
    IndexedDocument { item: it, body: s("body"), file_mtime: 7 }
}

#[test]
fn rebuild_indexes_each_id_once_and_reports_the_rest() {
    let candidates = vec![
        NoteCandidate { relative_path: s("notes/a.md"), document: Ok(indexed("1", "notes/a.md")) },
        NoteCandidate { relative_path: s("notes/b.md"), document: Err(s("missing YAML frontmatter")) },
        NoteCandidate { relative_path: s("notes/c.md"), document: Ok(indexed("1", "notes/c.md")) },
        NoteCandidate { relative_path: s("notes/d.md"), document: Ok(indexed("2", "notes/d.md")) },
    ];
    let plan = plan_rebuild(candidates);
    assert_eq!(plan.indexed_ids, strings(&["1", "2"]));
    assert_eq!(plan.upserts.len(), 2);
    assert_eq!(plan.upserts[0].item.relative_path, "notes/a.md");
    assert_eq!(plan.issues.len(), 2);
    assert_eq!(plan.issues[0].kind, "invalidDocument");
    assert_eq!(plan.issues[0].message, "missing YAML frontmatter");
    assert_eq!(plan.issues[0].relative_path, Some(s("notes/b.md")));
    assert_eq!(plan.issues[1].kind, "duplicateDocumentId");
    assert_eq!(plan.issues[1].message, "duplicate document id: 1");
    assert_eq!(plan.issues[1].relative_path, Some(s("notes/c.md")));
    let status = index_status(plan);
    assert_eq!(status.document_count, 2);
    assert_eq!(status.issue_count, 2);
}

#[test]
fn rebuild_of_an_empty_vault_indexes_nothing() {
    let status = index_status(plan_rebuild(vec![]));
    assert_eq!(status.document_count, 0);
    assert_eq!(status.issue_count, 0);
}

#[test]
fn stale_index_rows_are_found() {
    let missing = missing_document_ids(strings(&["1", "old", "2", "gone"]), &strings(&["2", "1", "3"]));
    assert_eq!(missing, strings(&["old", "gone"]));
    assert!(missing_document_ids(vec![], &strings(&["1"])).is_empty());
}

#[test]
fn summaries_and_status_carry_the_rebuild_outcome() {
    let issue = StorageIssue { kind: s("invalidDocument"), message: s("bad"), relative_path: None };
    let summary = initialize_vault_at(
        s("/v"),
        s("/v/notes"),
        s("/v/.moa/moa.sqlite"),
        IndexStatus { document_count: 3, issue_count: 1, issues: vec![issue] },
    );
    assert_eq!(summary.document_count, 3);
    assert_eq!(summary.issue_count, 1);
    assert_eq!(summary.issues[0].message, "bad");
    assert_eq!(summary.notes_path, "/v/notes");

    let status = get_storage_status_in_vault(
        s("/v"),
        s("/v/notes"),
        s("/v/.moa/moa.sqlite"),
        2,
        -1,
        1,
        IndexStatus { document_count: 2, issue_count: 0, issues: vec![] },
    );
    assert_eq!(status.document_count, 2);
    assert_eq!(status.tag_count, 0);
    assert_eq!(status.pending_embedding_jobs, 1);
    assert_eq!(status.issue_count, 0);
}

#[test]
fn flags_are_name_value_pairs() {
    let flags = parse_flags(strings(&["--title", " Test note ", "--tags", "markdown, local,,", "--title", "Again"]))
        .expect("flags parse");
    assert_eq!(optional_flag(&flags, "title"), Some(s("Again")));
    assert_eq!(optional_csv_flag(&flags, "tags"), Some(strings(&["markdown", "local"])));
    assert_eq!(optional_flag(&flags, "body"), None);
    assert_eq!(required_flag(&flags, "body"), Err(s("missing --body")));
    assert_eq!(required_flag(&flags, "title"), Ok(s("Again")));
    let blank = parse_flags(strings(&["--body", "  "])).expect("flags parse");
    assert_eq!(optional_flag(&blank, "body"), None);
    assert_eq!(optional_csv_flag(&blank, "body"), None);
    let dashes = parse_flags(strings(&["----vault", "/tmp/v"])).expect("flags parse");
    assert_eq!(optional_flag(&dashes, "vault"), Some(s("/tmp/v")));
}

#[test]
fn malformed_flags_are_reported() {
    assert_eq!(parse_flags(strings(&["title"])).err(), Some(s("unexpected argument: title")));
    assert_eq!(parse_flags(strings(&["--", "x"])).err(), Some(s("empty flag name")));
    assert_eq!(parse_flags(strings(&["--title"])).err(), Some(s("missing value for --title")));
    assert_eq!(
        parse_flags(strings(&["--title", "--body"])).err(),
        Some(s("missing value for --title"))
    );
    assert!(parse_flags(vec![]).is_ok());
}

#[test]
fn blank_listing_restrictions_are_ignored() {
    let rows = || {
        vec![
            item("a", "Alpha", Some("work"), &["rust"], "2026-01-02T00:00:00Z"),
            item("b", "Beta", None, &[], "2026-01-03T00:00:00Z"),
        ]
    };
    let blank = DocumentFilter { category: Some(s("  ")), tag: Some(s("")), query: Some(s(" \t ")) };
    assert_eq!(ids(&list_documents_in_vault(rows(), Some(blank))), strings(&["a", "b"]));
    assert_eq!(ids(&list_documents_in_vault(rows(), None)), strings(&["a", "b"]));
    let tagged = DocumentFilter { category: None, tag: Some(s(" Rust ")), query: None };
    assert_eq!(ids(&list_documents_in_vault(rows(), Some(tagged))), strings(&["a"]));
}

#[test]
fn full_text_hits_pass_the_restrictions() {
    let rows = vec![
        hit("a", Some("work"), &["rust", "db"], "2026-01-01T00:00:00Z", 0),
        hit("b", Some("home"), &["rust"], "2026-01-03T00:00:00Z", 1),
        hit("c", Some("work"), &["rust"], "2026-01-02T00:00:00Z", 2),
        hit("d", Some("work"), &["db", "rust"], "2026-01-04T00:00:00Z", 3),
    ];
    let kept = filter_full_text_results(
        rows,
        Some(s(" work ")),
        Some(strings(&["RUST", " db"])),
        Some(s("updatedAt")),
    );
    assert_eq!(hit_ids(&kept), strings(&["d", "a"]));
    for h in &kept {
        assert_eq!(h.category.as_deref(), Some("work"));
        assert!(h.tags.contains(&s("rust")) && h.tags.contains(&s("db")));
    }
}

#[test]
fn a_free_name_is_kept_as_it_is() {
    assert_eq!(unique_path("note.md", &strings(&["other.md"])), "note.md");
    assert_eq!(unique_path("note.md", &strings(&["note.md"])), "note-2.md");
    assert_eq!(
        trash_file_name("20260101", "id", "n.md", &vec![]),
        "20260101_id_n.md"
    );
}

#[test]
fn parent_directory_name_has_no_extension() {
    assert_eq!(split_file_name(".."), (s(".."), None));
    assert_eq!(unique_path("..", &strings(&[".."])), "..-2");
    assert_eq!(split_file_name("..."), (s(".."), Some(s(""))));
}

#[test]
fn the_vault_asked_for_wins_then_the_saved_one_then_the_default() {
    let saved = || Some(GlobalSettings { active_vault_path: s("/saved"), recent_vault_paths: vec![] });
    assert_eq!(chosen_vault_path(Some(s("/asked")), saved(), s("/default")), "/asked");
    assert_eq!(chosen_vault_path(None, saved(), s("/default")), "/saved");
    assert_eq!(chosen_vault_path(None, None, s("/default")), "/default");
}

#[test]
fn an_empty_query_search_is_the_filtered_listing() {
    let rows = || {
        vec![
            item("a", "Alpha", Some("work"), &["rust", "db"], "2026-01-02T00:00:00Z"),
            item("b", "Beta", Some("home"), &["rust"], "2026-01-03T00:00:00Z"),
            item("c", "Gamma", Some("work"), &["db"], "2026-01-04T00:00:00Z"),
        ]
    };
    let input = SearchInput {
        query: s(" ?!* "),
        category: Some(s(" work ")),
        tags: Some(strings(&["RUST", "nothing"])),
        sort: Some(s("updatedAt")),
    };
    let hits = search_without_query(&input, rows()).expect("empty query lists");
    assert_eq!(hit_ids(&hits), strings(&["a"]));
    assert_eq!(hits[0].snippet, "");
    assert_eq!(hits[0].rank, 0);
    let all = SearchInput { query: s(""), category: None, tags: None, sort: None };
    let hits = search_without_query(&all, rows()).expect("empty query lists");
    assert_eq!(hit_ids(&hits), strings(&["a", "b", "c"]));
    assert_eq!(hits.iter().map(|h| h.rank).collect::<Vec<_>>(), vec![0, 1, 2]);
    let full = SearchInput { query: s("rust"), category: None, tags: None, sort: None };
    assert!(search_without_query(&full, rows()).is_none());
}

#[test]
fn tag_filters_ignore_ascii_case_and_spaces() {
    let rows = || {
        vec![
            item("a", "Alpha", None, &["markdown"], "2026-01-02T00:00:00Z"),
            item("b", "Beta", None, &["rust"], "2026-01-03T00:00:00Z"),
        ]
    };
    let f = |t: &str| DocumentFilter { category: None, tag: Some(s(t)), query: None };
    assert_eq!(ids(&list_documents_in_vault(rows(), Some(f(" MarkDown ")))), strings(&["a"]));
    assert_eq!(ids(&list_documents_in_vault(rows(), Some(f("markdown")))), strings(&["a"]));
}
