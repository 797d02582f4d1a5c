//! The layout of a vault and the records built for its notes: relative
//! paths, note and trash file names, content hashes, and what creating,
//! saving and reporting on documents produce.

use vstd::prelude::*;
use crate::documents::{
    CreateDocumentInput, DocumentListItem, DocumentPayload, IndexedDocument, IndexStatus,
    SaveDocumentInput, SaveResult, StorageStatus, VaultSummary,
};
use crate::frontmatter::{Frontmatter, ParsedDocument, tags_normalized};
use crate::names::{
    decimal, digit, digit_char, first_free_name, is_first_free, numbered_name, split_file_name,
    stem_and_extension, dotted_extension, lemma_stem_and_extension_rejoin,
};
use crate::normalize::{
    opt_view, normalized_optional, normalized_title, normalize_optional_string, normalize_tags,
    normalize_title,
};
use crate::slug::{is_forbidden_char, lemma_slug_is_file_name_safe, slug_of, slugify_title};
use crate::text::{chars_of, contains_seq, contains_str, push_char, views, copy_string};

verus! {

/// The directory of the notes, relative to the vault.
pub const NOTES_DIR: &'static str = "notes";

/// The directory of the index and settings, relative to the vault.
pub const MOA_DIR: &'static str = ".moa";

/// The directory of deleted notes, relative to `MOA_DIR`.
pub const TRASH_DIR: &'static str = "trash";

/// The index database file, relative to `MOA_DIR`.
pub const DB_FILE: &'static str = "moa.sqlite";

/// The settings file, in `MOA_DIR` and in the application's configuration
/// directory.
pub const SETTINGS_FILE: &'static str = "settings.json";

/// The vault-relative path of the note file `file_name`.
pub fn note_relative_path(file_name: &str) -> (r: String)
    ensures
        r@ == "notes/"@ + file_name@,
{
    String::from_str("notes/").concat(file_name)
}

/// Whether a file in the notes directory is a note: its extension (as
/// `Path::extension` reads it) is `md`.
pub fn is_markdown_note(file_name: &str) -> (r: bool)
    ensures
        r == (stem_and_extension(file_name@).1 == Some("md"@)),
{
    let (_, ext) = split_file_name(file_name);
    match ext {
        Some(e) => e == String::from_str("md"),
        None => false,
    }
}

/// A vault-relative path is refused when it holds a backslash or `..`.
pub open spec fn is_unsafe_relative_path(p: Seq<char>) -> bool {
    contains_seq(p, "\\"@) || contains_seq(p, ".."@)
}

/// `Ok` for a vault-relative path that may be resolved, else the error
/// `unsafe relative path: <path>`.
pub fn validate_relative_path(relative_path: &str) -> (r: Result<(), String>)
    ensures
        r is Ok <==> !is_unsafe_relative_path(relative_path@),
        r matches Err(e) ==> e@ == "unsafe relative path: "@ + relative_path@,
{
    if contains_str(relative_path, "\\") || contains_str(relative_path, "..") {
        Err(String::from_str("unsafe relative path: ").concat(relative_path))
    } else {
        Ok(())
    }
}

/// The SHA-256 digest of some bytes.
pub uninterp spec fn sha256(data: Seq<u8>) -> Seq<u8>;

/// `sha2::Sha256::digest`. Claimed: the digest is a function of the bytes
/// alone and is 32 bytes long (the output size of SHA-256); the hash
/// function itself is left unstated.
#[verifier::external_body]
fn sha256_digest(data: &[u8]) -> (r: Vec<u8>)
    ensures
        r@ == sha256(data@),
        r@.len() == 32,
{
    <sha2::Sha256 as sha2::Digest>::digest(data).to_vec()
}

/// The lower-case hexadecimal digit for `d` (meant for `d < 16`).
pub open spec fn hex_digit(d: nat) -> char {
    if d < 10 {
        digit_char(d)
    } else if d == 10 {
        'a'
    } else if d == 11 {
        'b'
    } else if d == 12 {
        'c'
    } else if d == 13 {
        'd'
    } else if d == 14 {
        'e'
    } else {
        'f'
    }
}

/// The lower-case hexadecimal text of some bytes, two digits per byte, as
/// the `{:x}` format writes a digest.
pub open spec fn hex_lower(bytes: Seq<u8>) -> Seq<char>
    decreases bytes.len(),
{
    if bytes.len() == 0 {
        Seq::empty()
    } else {
        hex_lower(bytes.drop_last()) + seq![
            hex_digit((bytes.last() / 16) as nat),
            hex_digit((bytes.last() % 16) as nat),
        ]
    }
}

/// The value of a lower-case hexadecimal digit.
pub open spec fn hex_value(c: char) -> int {
    if '0' <= c && c <= '9' {
        (c as int) - ('0' as int)
    } else {
        (c as int) - ('a' as int) + 10
    }
}

/// The hexadecimal text of some bytes reads back as those bytes: two
/// lower-case hexadecimal digits per byte, high digit first.
pub proof fn lemma_hex_lower_decodes(bytes: Seq<u8>)
    ensures
        hex_lower(bytes).len() == 2 * bytes.len(),
        forall|i: int|
            0 <= i < hex_lower(bytes).len() ==> ('0' <= #[trigger] hex_lower(bytes)[i] <= '9') || (
            'a' <= hex_lower(bytes)[i] <= 'f'),
        forall|i: int|
            0 <= i < bytes.len() ==> hex_value(hex_lower(bytes)[2 * i]) * 16 + hex_value(
                hex_lower(bytes)[2 * i + 1],
            ) == #[trigger] bytes[i],
    decreases bytes.len(),
{
    if bytes.len() > 0 {
        let init = bytes.drop_last();
        lemma_hex_lower_decodes(init);
        let b = bytes.last();
        let hi = (b / 16) as nat;
        let lo = (b % 16) as nat;
        let h = hex_lower(bytes);
        let p = hex_lower(init);
        assert(h == p + seq![hex_digit(hi), hex_digit(lo)]);
        assert forall|d: nat| d < 16 implies #[trigger] hex_value(hex_digit(d)) == d && (('0'
            <= hex_digit(d) <= '9') || ('a' <= hex_digit(d) <= 'f')) by {
        }
        assert(hex_value(hex_digit(hi)) == hi);
        assert(hex_value(hex_digit(lo)) == lo);
        assert(hi * 16 + lo == b);
        assert forall|i: int| 0 <= i < h.len() implies ('0' <= #[trigger] h[i] <= '9') || ('a'
            <= h[i] <= 'f') by {
            if i < p.len() {
                assert(h[i] == p[i]);
            } else if i == p.len() {
                assert(h[i] == hex_digit(hi));
            } else {
                assert(h[i] == hex_digit(lo));
            }
        }
        assert forall|i: int| 0 <= i < bytes.len() implies hex_value(h[2 * i]) * 16 + hex_value(
            h[2 * i + 1],
        ) == #[trigger] bytes[i] by {
            if i < init.len() {
                assert(h[2 * i] == p[2 * i]);
                assert(h[2 * i + 1] == p[2 * i + 1]);
                assert(init[i] == bytes[i]);
            } else {
                assert(h[2 * i] == hex_digit(hi));
                assert(h[2 * i + 1] == hex_digit(lo));
            }
        }
    }
}

fn hex_digit_of(d: u8) -> (c: char)
    requires
        d < 16,
    ensures
        c == hex_digit(d as nat),
{
    if d < 10 {
        digit(d as u64)
    } else if d == 10 {
        'a'
    } else if d == 11 {
        'b'
    } else if d == 12 {
        'c'
    } else if d == 13 {
        'd'
    } else if d == 14 {
        'e'
    } else {
        'f'
    }
}

/// The content hash kept in the index: the lower-case hexadecimal SHA-256
/// digest of the note's text, encoded as UTF-8.
pub fn sha256_hex(content: &str) -> (r: String)
    ensures
        r@ == hex_lower(sha256(vstd::utf8::encode_utf8(content@))),
        r@.len() == 64,
{
    let digest = sha256_digest(content.as_bytes());
    let mut out = String::new();
    let mut i: usize = 0;
    while i < digest.len()
        invariant
            i <= digest.len(),
            out@ == hex_lower(digest@.take(i as int)),
            out@.len() == 2 * i,
        decreases digest.len() - i,
    {
        let b = digest[i];
        proof {
            assert(digest@.take(i + 1).drop_last() == digest@.take(i as int));
            assert(digest@.take(i + 1).last() == b);
        }
        push_char(&mut out, hex_digit_of(b / 16));
        push_char(&mut out, hex_digit_of(b % 16));
        i = i + 1;
    }
    proof {
        assert(digest@.take(digest@.len() as int) == digest@);
    }
    out
}

/// The index record of a note read from disk.
pub fn indexed_document(
    parsed: ParsedDocument,
    relative_path: String,
    content_hash: String,
    file_mtime: i64,
) -> (r: IndexedDocument)
    ensures
        r.item.id == parsed.meta.id,
        r.item.title == parsed.meta.title,
        r.item.category == parsed.meta.category,
        r.item.tags == parsed.meta.tags,
        r.item.relative_path == relative_path,
        r.item.created_at == parsed.meta.created_at,
        r.item.updated_at == parsed.meta.updated_at,
        r.item.content_hash == content_hash,
        r.body == parsed.body,
        r.file_mtime == file_mtime,
{
    let ParsedDocument { meta, body } = parsed;
    let Frontmatter { id, title, category, tags, created_at, updated_at } = meta;
    IndexedDocument {
        item: DocumentListItem {
            id,
            title,
            category,
            tags,
            relative_path,
            created_at,
            updated_at,
            content_hash,
        },
        body,
        file_mtime,
    }
}

/// A note as it is returned to the user.
pub fn document_payload(parsed: ParsedDocument, relative_path: String) -> (r: DocumentPayload)
    ensures
        r.id == parsed.meta.id,
        r.title == parsed.meta.title,
        r.category == parsed.meta.category,
        r.tags == parsed.meta.tags,
        r.body == parsed.body,
        r.relative_path == relative_path,
        r.created_at == parsed.meta.created_at,
        r.updated_at == parsed.meta.updated_at,
{
    let ParsedDocument { meta, body } = parsed;
    let Frontmatter { id, title, category, tags, created_at, updated_at } = meta;
    DocumentPayload { id, title, category, tags, body, relative_path, created_at, updated_at }
}

/// The file name of a new note: `<date>-<slug>.md`, or the first of
/// `<date>-<slug>-2.md`, `<date>-<slug>-3.md`, ... not among `taken`.
pub fn unique_note_file_name(date: &str, title: &str, taken: &Vec<String>) -> (r: String)
    requires
        taken.len() < u64::MAX,
    ensures
        is_first_free(date@ + "-"@ + slug_of(title@), ".md"@, views(taken@), r@),
{
    let slug = slugify_title(title);
    let base = String::from_str(date).concat("-").concat(slug.as_str());
    first_free_name(base.as_str(), ".md", taken)
}

/// Decimal digits are never a path separator.
proof fn lemma_decimal_has_no_separator(n: nat)
    ensures
        forall|i: int| 0 <= i < decimal(n).len() ==> #[trigger] decimal(n)[i] != '/',
    decreases n,
{
    if n >= 10 {
        lemma_decimal_has_no_separator(n / 10);
        let p = decimal(n / 10);
        let d = decimal(n);
        assert forall|i: int| 0 <= i < d.len() implies #[trigger] d[i] != '/' by {
            if i < p.len() {
                assert(d[i] == p[i]);
            }
        }
    }
}

/// A new note's file lies directly in the notes directory: when the date
/// holds no `/`, its vault-relative path holds exactly one `/`, the one
/// after `notes`.
pub proof fn lemma_note_path_has_one_separator(
    date: Seq<char>,
    title: Seq<char>,
    taken: Seq<Seq<char>>,
    name: Seq<char>,
)
    requires
        forall|i: int| 0 <= i < date.len() ==> date[i] != '/',
        is_first_free(date + "-"@ + slug_of(title), ".md"@, taken, name),
    ensures
        forall|i: int|
            0 <= i < ("notes/"@ + name).len() ==> (#[trigger] ("notes/"@ + name)[i] == '/' <==> i
                == 5),
{
    reveal_strlit("notes/");
    reveal_strlit("-");
    reveal_strlit(".md");
    let base = date + "-"@ + slug_of(title);
    let k = choose|k: nat|
        #![trigger numbered_name(base, ".md"@, k)]
        numbered_name(base, ".md"@, k) == name && !taken.contains(name) && forall|j: nat|
            j < k ==> taken.contains(#[trigger] numbered_name(base, ".md"@, j));
    lemma_slug_is_file_name_safe(title);
    let slug = slug_of(title);
    assert forall|i: int| 0 <= i < base.len() implies #[trigger] base[i] != '/' by {
        if i < date.len() {
            assert(base[i] == date[i]);
        } else if i == date.len() {
            assert(base[i] == '-');
        } else {
            assert(base[i] == slug[i - date.len() - 1]);
            assert(!is_forbidden_char(slug[i - date.len() - 1]));
        }
    }
    lemma_decimal_has_no_separator(k + 1);
    assert forall|i: int| 0 <= i < name.len() implies #[trigger] name[i] != '/' by {
        if k == 0 {
            if i >= base.len() {
                assert(name[i] == (".md"@)[i - base.len()]);
            } else {
                assert(name[i] == base[i]);
            }
        } else {
            let d = decimal(k + 1);
            if i < base.len() {
                assert(name[i] == base[i]);
            } else if i == base.len() {
                assert(name[i] == '-');
            } else if i < base.len() + 1 + d.len() {
                assert(name[i] == d[i - base.len() - 1]);
            } else {
                assert(name[i] == (".md"@)[i - base.len() - 1 - d.len()]);
            }
        }
    }
    let p = "notes/"@ + name;
    assert forall|i: int| 0 <= i < p.len() implies (#[trigger] p[i] == '/' <==> i == 5) by {
        if i >= 6 {
            assert(p[i] == name[i - 6]);
        }
    }
}

/// A free name for a file in a directory holding `taken`: the name itself
/// when free, else `<stem>-2.<ext>`, `<stem>-3.<ext>`, ... (or without the
/// extension when there is none), the first that is free.
pub fn unique_path(file_name: &str, taken: &Vec<String>) -> (r: String)
    requires
        taken.len() < u64::MAX,
    ensures
        ({
            let (stem, ext) = stem_and_extension(file_name@);
            let ext_part = match ext {
                Some(e) => "."@ + e,
                None => Seq::empty(),
            };
            is_first_free(stem, ext_part, views(taken@), r@)
        }),
        !views(taken@).contains(file_name@) ==> r@ == file_name@,
{
    let (stem, ext) = split_file_name(file_name);
    let ext_part = match ext {
        Some(e) => String::from_str(".").concat(e.as_str()),
        None => String::new(),
    };
    let r = first_free_name(stem.as_str(), ext_part.as_str(), taken);
    proof {
        lemma_stem_and_extension_rejoin(file_name@);
        assert(ext_part@ == dotted_extension(file_name@));
        assert(numbered_name(stem@, ext_part@, 0) == file_name@);
        if !views(taken@).contains(file_name@) {
            let k = choose|k: nat|
                #![trigger numbered_name(stem@, ext_part@, k)]
                numbered_name(stem@, ext_part@, k) == r@ && !views(taken@).contains(r@) && forall|
                    j: nat,
                | j < k ==> views(taken@).contains(#[trigger] numbered_name(stem@, ext_part@, j));
            if k > 0 {
                assert(views(taken@).contains(numbered_name(stem@, ext_part@, 0)));
            }
        }
    }
    r
}

/// The name a deleted note gets in the trash:
/// `<stamp>_<id>_<file name>`, made unique among `taken`.
pub fn trash_file_name(stamp: &str, id: &str, file_name: &str, taken: &Vec<String>) -> (r: String)
    requires
        taken.len() < u64::MAX,
    ensures
        ({
            let name = stamp@ + "_"@ + id@ + "_"@ + file_name@;
            let (stem, ext) = stem_and_extension(name);
            let ext_part = match ext {
                Some(e) => "."@ + e,
                None => Seq::empty(),
            };
            is_first_free(stem, ext_part, views(taken@), r@)
        }),
        !views(taken@).contains(stamp@ + "_"@ + id@ + "_"@ + file_name@) ==> r@ == stamp@ + "_"@
            + id@ + "_"@ + file_name@,
{
    let name = String::from_str(stamp).concat("_").concat(id).concat("_").concat(file_name);
    unique_path(name.as_str(), taken)
}

/// A new note, ready to be written: its file name and vault-relative path,
/// and its frontmatter and body.
#[derive(Debug)]
pub struct NewDocument {
    pub file_name: String,
    pub relative_path: String,
    pub document: ParsedDocument,
}

/// A new note created from `input`, with id `id`, created and updated at
/// `now`: the title, category and tags normalized, an absent body empty,
/// and a fresh file name (see `unique_note_file_name`) built from `date` and
/// the normalized title.
pub fn prepare_new_document(
    input: CreateDocumentInput,
    id: String,
    now: String,
    date: &str,
    taken: &Vec<String>,
) -> (r: NewDocument)
    requires
        taken.len() < u64::MAX,
    ensures
        r.document.meta.id == id,
        r.document.meta.title@ == normalized_title(opt_view(input.title)),
        opt_view(r.document.meta.category) == normalized_optional(opt_view(input.category)),
        tags_normalized(
            r.document.meta.tags@,
            match input.tags {
                Some(t) => t@,
                None => Seq::empty(),
            },
        ),
        r.document.meta.created_at@ == now@,
        r.document.meta.updated_at@ == now@,
        r.document.body@ == match input.body {
            Some(b) => b@,
            None => Seq::<char>::empty(),
        },
        is_first_free(
            date@ + "-"@ + slug_of(r.document.meta.title@),
            ".md"@,
            views(taken@),
            r.file_name@,
        ),
        r.relative_path@ == "notes/"@ + r.file_name@,
{
    let CreateDocumentInput { title, category, tags, body } = input;
    let title = normalize_title(title);
    let category = normalize_optional_string(category);
    let tag_list: Vec<String> = match tags {
        Some(t) => t,
        None => Vec::new(),
    };
    let tags = normalize_tags(tag_list);
    let body = match body {
        Some(b) => b,
        None => String::new(),
    };
    let file_name = unique_note_file_name(date, title.as_str(), taken);
    let relative_path = note_relative_path(file_name.as_str());
    let created_at = copy_string(&now);
    NewDocument {
        file_name,
        relative_path,
        document: ParsedDocument {
            meta: Frontmatter { id, title, category, tags, created_at, updated_at: now },
            body,
        },
    }
}

/// A saved note: the id, creation time and file of the existing note are
/// kept; the title, category and tags come from the input, normalized; the
/// body comes from the input as it is; the update time is `updated_at`.
pub fn prepare_saved_document(
    existing: DocumentPayload,
    input: SaveDocumentInput,
    updated_at: String,
) -> (r: (ParsedDocument, SaveResult))
    ensures
        r.0.meta.id@ == existing.id@,
        r.0.meta.title@ == normalized_title(Some(input.title@)),
        opt_view(r.0.meta.category) == normalized_optional(opt_view(input.category)),
        tags_normalized(r.0.meta.tags@, input.tags@),
        r.0.meta.created_at == existing.created_at,
        r.0.meta.updated_at@ == updated_at@,
        r.0.body == input.body,
        r.1.id@ == existing.id@,
        r.1.relative_path == existing.relative_path,
        r.1.updated_at@ == updated_at@,
{
    let SaveDocumentInput { id: _, title, category, tags, body } = input;
    let meta = Frontmatter {
        id: copy_string(&existing.id),
        title: normalize_title(Some(title)),
        category: normalize_optional_string(category),
        tags: normalize_tags(tags),
        created_at: existing.created_at,
        updated_at: copy_string(&updated_at),
    };
    let result = SaveResult { id: existing.id, relative_path: existing.relative_path, updated_at };
    (ParsedDocument { meta, body }, result)
}

/// A count read from the index as a `usize`, or 0 when it is negative or
/// does not fit.
pub fn count_from_index(n: i64) -> (r: usize)
    ensures
        0 <= n <= usize::MAX ==> r == n,
        !(0 <= n <= usize::MAX) ==> r == 0,
{
    if n < 0 {
        0
    } else if (n as u64) > (usize::MAX as u64) {
        0
    } else {
        n as usize
    }
}

/// What opening a vault reports: its paths, and what the rebuild found.
pub fn initialize_vault_at(
    vault_path: String,
    notes_path: String,
    database_path: String,
    status: IndexStatus,
) -> (r: VaultSummary)
    ensures
        r.vault_path == vault_path,
        r.notes_path == notes_path,
        r.database_path == database_path,
        r.document_count == status.document_count,
        r.issue_count == status.issue_count,
        r.issues == status.issues,
{
    VaultSummary {
        vault_path,
        notes_path,
        database_path,
        document_count: status.document_count,
        issue_count: status.issue_count,
        issues: status.issues,
    }
}

/// What the status of a vault reports: its paths, the counts read from the
/// index (see `count_from_index`), and the issues of the rebuild that
/// precedes it.
pub fn get_storage_status_in_vault(
    vault_path: String,
    notes_path: String,
    database_path: String,
    document_rows: i64,
    tag_rows: i64,
    pending_job_rows: i64,
    status: IndexStatus,
) -> (r: StorageStatus)
    ensures
        r.vault_path == vault_path,
        r.notes_path == notes_path,
        r.database_path == database_path,
        0 <= document_rows <= usize::MAX ==> r.document_count == document_rows,
        !(0 <= document_rows <= usize::MAX) ==> r.document_count == 0,
        0 <= tag_rows <= usize::MAX ==> r.tag_count == tag_rows,
        !(0 <= tag_rows <= usize::MAX) ==> r.tag_count == 0,
        0 <= pending_job_rows <= usize::MAX ==> r.pending_embedding_jobs == pending_job_rows,
        !(0 <= pending_job_rows <= usize::MAX) ==> r.pending_embedding_jobs == 0,
        r.issue_count == status.issue_count,
        r.issues == status.issues,
{
    StorageStatus {
        vault_path,
        notes_path,
        database_path,
        document_count: count_from_index(document_rows),
        tag_count: count_from_index(tag_rows),
        pending_embedding_jobs: count_from_index(pending_job_rows),
        issue_count: status.issue_count,
        issues: status.issues,
    }
}

} // verus!
