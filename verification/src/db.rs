//! The rows of the catalogue and of the indexing queue, and the rules by which they change.

use vstd::prelude::*;

use crate::text::{cat2, opt, split, splitted, str_eq, texts_of, to_chars, to_text, views};

verus! {

#[derive(Debug)]
pub struct FileRecord {
    pub id: i64,
    pub path: String,
    pub name: String,
    pub updated_at: String,
}

/// What the catalogue knows of a file or directory.
#[derive(Debug)]
pub struct FileMeta {
    pub path: String,
    pub parent_path: Option<String>,
    pub file_name: String,
    pub is_directory: bool,
    pub size_bytes: Option<i64>,
    pub modified_at: Option<i64>,
}

/// A path that waits for extraction, with the number of attempts made so far.
#[derive(Debug)]
pub struct ExtractionTask {
    pub id: i64,
    pub path: String,
    pub retry_count: i64,
}

/// Files of the same content.
#[derive(Debug)]
pub struct DuplicateGroup {
    pub content_hash: String,
    pub paths: Vec<String>,
}

/// A recorded plan: a draft, or one that was committed or discarded.
#[derive(Debug)]
pub struct TransactionRecord {
    pub id: i64,
    pub action: String,
    pub payload_json: String,
    pub status: String,
}

#[derive(Debug)]
pub struct IndexingStats {
    pub total: i64,
    pub pending: i64,
    pub completed: i64,
    pub failed: i64,
    /// Directories whose classification waits for a model.
    pub pending_folders: i64,
}

// ---------------------------------------------------------------------------
// Patterns
// ---------------------------------------------------------------------------

pub open spec fn is_like_meta(c: char) -> bool {
    c == '\\' || c == '%' || c == '_'
}

/// A text as a LIKE pattern that matches it alone, with `\` as the escape.
pub open spec fn like_escaped(s: Seq<char>) -> Seq<char>
    decreases s.len(),
{
    if s.len() == 0 {
        Seq::empty()
    } else if is_like_meta(s.last()) {
        like_escaped(s.drop_last()).push('\\').push(s.last())
    } else {
        like_escaped(s.drop_last()).push(s.last())
    }
}

pub fn escape_like(input: &str) -> (r: String)
    ensures
        r@ == like_escaped(input@),
{
    let c = to_chars(input);
    let mut out: Vec<char> = Vec::new();
    let mut i: usize = 0;
    assert(out@ =~= like_escaped(c@.take(0)));
    while i < c.len()
        invariant
            i <= c.len(),
            out@ == like_escaped(c@.take(i as int)),
        decreases c.len() - i,
    {
        assert(c@.take(i + 1).drop_last() =~= c@.take(i as int));
        let ch = c[i];
        if ch == '\\' || ch == '%' || ch == '_' {
            out.push('\\');
        }
        out.push(ch);
        i = i + 1;
    }
    assert(c@.take(i as int) =~= c@);
    to_text(out.as_slice())
}

/// The LIKE pattern of the texts that start with `prefix`.
pub fn like_prefix(prefix: &str) -> (r: String)
    ensures
        r@ == like_escaped(prefix@) + "%"@,
{
    cat2(escape_like(prefix).as_str(), "%")
}

/// Reads an escaped pattern back: each escape gives the character behind it.
pub open spec fn like_unescaped(p: Seq<char>) -> Seq<char>
    decreases p.len(),
{
    if p.len() == 0 {
        Seq::empty()
    } else if p[0] == '\\' && p.len() > 1 {
        seq![p[1]] + like_unescaped(p.skip(2))
    } else {
        seq![p[0]] + like_unescaped(p.skip(1))
    }
}

proof fn lemma_like_escaped_front(s: Seq<char>)
    requires
        s.len() > 0,
    ensures
        like_escaped(s) == (if is_like_meta(s[0]) {
            seq!['\\', s[0]]
        } else {
            seq![s[0]]
        }) + like_escaped(s.skip(1)),
    decreases s.len(),
{
    let head = if is_like_meta(s[0]) {
        seq!['\\', s[0]]
    } else {
        seq![s[0]]
    };
    if s.len() == 1 {
        assert(s.drop_last() =~= Seq::<char>::empty());
        assert(s.skip(1) =~= Seq::<char>::empty());
        assert(like_escaped(s) =~= head + like_escaped(s.skip(1)));
    } else {
        lemma_like_escaped_front(s.drop_last());
        assert(s.drop_last().skip(1) =~= s.skip(1).drop_last());
        assert(like_escaped(s) =~= head + like_escaped(s.skip(1)));
    }
}

/// An escaped text stands for that text and no other: reading it back gives it.
pub proof fn law_like_escape_is_undone(s: Seq<char>)
    ensures
        like_unescaped(like_escaped(s)) == s,
    decreases s.len(),
{
    if s.len() > 0 {
        lemma_like_escaped_front(s);
        law_like_escape_is_undone(s.skip(1));
        let e = like_escaped(s);
        if is_like_meta(s[0]) {
            assert(e.skip(2) =~= like_escaped(s.skip(1)));
        } else {
            assert(e.skip(1) =~= like_escaped(s.skip(1)));
        }
        assert(like_unescaped(e) =~= s);
    }
}

// ---------------------------------------------------------------------------
// The indexing queue
// ---------------------------------------------------------------------------

/// One path of the queue.
#[derive(Debug)]
pub struct QueueRow {
    pub status: String,
    pub priority: i64,
    pub retry_count: i64,
    pub last_error: Option<String>,
}

pub struct QueueRowView {
    pub status: Seq<char>,
    pub priority: int,
    pub retry_count: int,
    pub last_error: Option<Seq<char>>,
}

impl QueueRow {
    pub open spec fn view(self) -> QueueRowView {
        QueueRowView {
            status: self.status@,
            priority: self.priority as int,
            retry_count: self.retry_count as int,
            last_error: opt(self.last_error),
        }
    }
}

/// A path put into the queue: it takes the new status, keeps the higher priority, and
/// starts over with its attempts.
pub open spec fn enqueued(row: Option<QueueRowView>, status: Seq<char>, priority: int) -> QueueRowView {
    QueueRowView {
        status,
        priority: match row {
            Some(r) if r.priority >= priority => r.priority,
            _ => priority,
        },
        retry_count: 0,
        last_error: None,
    }
}

pub open spec fn row_view(r: Option<QueueRow>) -> Option<QueueRowView> {
    match r {
        Some(r) => Some(r.view()),
        None => None,
    }
}

pub fn enqueue_row(row: &Option<QueueRow>, target_status: Option<&str>, priority: i64) -> (r: QueueRow)
    ensures
        r.view() == enqueued(
            row_view(*row),
            match target_status {
                Some(s) => s@,
                None => "pending"@,
            },
            priority as int,
        ),
{
    let status = match target_status {
        Some(s) => s.to_owned(),
        None => "pending".to_owned(),
    };
    let kept: i64 = match row {
        Some(r) => if r.priority >= priority {
            r.priority
        } else {
            priority
        },
        None => priority,
    };
    QueueRow { status, priority: kept, retry_count: 0, last_error: None }
}

/// A failed attempt: it is counted, and the path waits again or is given up for good once
/// `max_retries` attempts were made.
pub open spec fn failed(row: QueueRowView, error: Seq<char>, max_retries: int) -> QueueRowView {
    QueueRowView {
        status: if row.retry_count + 1 >= max_retries {
            "failed_permanent"@
        } else {
            "pending_extraction"@
        },
        priority: row.priority,
        retry_count: row.retry_count + 1,
        last_error: Some(error),
    }
}

pub fn record_task_failure(row: &QueueRow, error: &str, max_retries: i64) -> (r: QueueRow)
    requires
        row.retry_count < i64::MAX,
    ensures
        r.view() == failed(row.view(), error@, max_retries as int),
{
    let retry_count: i64 = row.retry_count + 1;
    let status = if retry_count >= max_retries {
        "failed_permanent".to_owned()
    } else {
        "pending_extraction".to_owned()
    };
    QueueRow { status, priority: row.priority, retry_count, last_error: Some(error.to_owned()) }
}

/// `n` failed attempts in a row.
pub open spec fn failed_times(row: QueueRowView, error: Seq<char>, max_retries: int, n: nat) -> QueueRowView
    decreases n,
{
    if n == 0 {
        row
    } else {
        failed(failed_times(row, error, max_retries, (n - 1) as nat), error, max_retries)
    }
}

/// A path that was put into the queue is tried exactly `max_retries` times: it still waits
/// after every earlier failure and is given up with the last one.
pub proof fn law_a_path_is_tried_max_retries_times(
    row: Option<QueueRowView>,
    priority: int,
    error: Seq<char>,
    max_retries: int,
    n: nat,
)
    requires
        1 <= n <= max_retries,
    ensures
        ({
            let after = failed_times(
                enqueued(row, "pending_extraction"@, priority),
                error,
                max_retries,
                n,
            );
            &&& after.retry_count == n
            &&& n < max_retries ==> after.status == "pending_extraction"@
            &&& n == max_retries ==> after.status == "failed_permanent"@
        }),
    decreases n,
{
    let start = enqueued(row, "pending_extraction"@, priority);
    if n == 1 {
        assert(failed_times(start, error, max_retries, 0) == start);
    } else {
        law_a_path_is_tried_max_retries_times(row, priority, error, max_retries, (n - 1) as nat);
    }
}

/// Putting a path into the queue again never lowers its priority.
pub proof fn law_enqueue_keeps_the_higher_priority(row: QueueRowView, status: Seq<char>, priority: int)
    ensures
        enqueued(Some(row), status, priority).priority >= row.priority,
        enqueued(Some(row), status, priority).priority >= priority,
{
}

// ---------------------------------------------------------------------------
// What was seen and what was indexed
// ---------------------------------------------------------------------------

/// A file that was met: the modification time with which it was last indexed, nothing where it
/// never was, and when it was last seen.
#[derive(Debug, Clone, Copy, PartialEq, Eq, Structural)]
pub struct SeenRow {
    pub last_modified: Option<i64>,
    pub last_seen: i64,
}

pub open spec fn wants_indexing(row: Option<SeenRow>, current_mtime: i64) -> bool {
    match row {
        Some(s) => match s.last_modified {
            Some(m) => current_mtime > m,
            None => true,
        },
        None => true,
    }
}

/// A file is up to date only from the moment that it was really indexed.
pub fn needs_indexing(row: Option<SeenRow>, current_mtime: i64) -> (r: bool)
    ensures
        r == wants_indexing(row, current_mtime),
{
    match row {
        Some(s) => match s.last_modified {
            Some(m) => current_mtime > m,
            None => true,
        },
        None => true,
    }
}

/// A scan that meets a file marks it as seen and no more.
pub open spec fn touched(row: Option<SeenRow>, scan_time: i64) -> SeenRow {
    SeenRow {
        last_modified: match row {
            Some(s) => s.last_modified,
            None => None,
        },
        last_seen: scan_time,
    }
}

pub fn touch_seen(row: Option<SeenRow>, scan_time: i64) -> (r: SeenRow)
    ensures
        r == touched(row, scan_time),
{
    match row {
        Some(s) => SeenRow { last_modified: s.last_modified, last_seen: scan_time },
        None => SeenRow { last_modified: None, last_seen: scan_time },
    }
}

/// An indexed file takes its modification time.
pub open spec fn marked(row: Option<SeenRow>, mtime: i64) -> SeenRow {
    SeenRow {
        last_modified: Some(mtime),
        last_seen: match row {
            Some(s) => s.last_seen,
            None => mtime,
        },
    }
}

pub fn mark_indexed(row: Option<SeenRow>, mtime: i64) -> (r: SeenRow)
    ensures
        r == marked(row, mtime),
{
    match row {
        Some(s) => SeenRow { last_modified: Some(mtime), last_seen: s.last_seen },
        None => SeenRow { last_modified: Some(mtime), last_seen: mtime },
    }
}

/// A file that was really indexed, and not only seen.
pub open spec fn indexed_once(row: Option<SeenRow>) -> bool {
    row matches Some(s) && s.last_modified is Some
}

pub fn is_indexed(row: Option<SeenRow>) -> (r: bool)
    ensures
        r == indexed_once(row),
{
    match row {
        Some(s) => s.last_modified.is_some(),
        None => false,
    }
}

/// How the base holds a file that was met: a time, whether it is that of an indexed file, and
/// when the file was last seen. A base of before has no such mark, and the time 0 where a file
/// was only seen.
#[derive(Debug, Clone, Copy, PartialEq, Eq, Structural)]
pub struct StoredRow {
    pub last_modified: i64,
    pub indexed: Option<bool>,
    pub last_seen: i64,
}

pub open spec fn row_in(s: StoredRow) -> SeenRow {
    let indexed = match s.indexed {
        Some(b) => b,
        None => s.last_modified != 0,
    };
    SeenRow {
        last_modified: if indexed {
            Some(s.last_modified)
        } else {
            None
        },
        last_seen: s.last_seen,
    }
}

pub fn read_row(s: StoredRow) -> (r: SeenRow)
    ensures
        r == row_in(s),
{
    let indexed = match s.indexed {
        Some(b) => b,
        None => s.last_modified != 0,
    };
    SeenRow {
        last_modified: if indexed {
            Some(s.last_modified)
        } else {
            None
        },
        last_seen: s.last_seen,
    }
}

pub open spec fn stored(row: SeenRow) -> StoredRow {
    StoredRow {
        last_modified: match row.last_modified {
            Some(m) => m,
            None => 0,
        },
        indexed: Some(row.last_modified is Some),
        last_seen: row.last_seen,
    }
}

pub fn store_row(row: SeenRow) -> (r: StoredRow)
    ensures
        r == stored(row),
{
    let (last_modified, indexed) = match row.last_modified {
        Some(m) => (m, true),
        None => (0, false),
    };
    StoredRow { last_modified, indexed: Some(indexed), last_seen: row.last_seen }
}

/// The base gives back what was written to it.
pub proof fn law_the_base_keeps_what_was_seen(row: SeenRow)
    ensures
        row_in(stored(row)) == row,
{
}

/// A file that the last scan did not meet.
pub fn is_orphan(row: SeenRow, scan_time: i64) -> (r: bool)
    ensures
        r == (row.last_seen < scan_time),
{
    row.last_seen < scan_time
}

/// Being seen by a scan does not make a file count as indexed: what needed indexing before
/// still does, and what was only ever seen needs it whatever its time is and is not shown as
/// indexed. What was marked as indexed is.
pub proof fn law_seen_is_not_indexed(row: Option<SeenRow>, scan_time: i64, mtime: i64)
    ensures
        wants_indexing(Some(touched(row, scan_time)), mtime) == wants_indexing(row, mtime),
        wants_indexing(Some(touched(None, scan_time)), mtime),
        indexed_once(Some(touched(row, scan_time))) == indexed_once(row),
        !indexed_once(Some(touched(None, scan_time))),
        indexed_once(Some(marked(row, mtime))),
{
}

/// An indexed file needs indexing again exactly when it is modified later.
pub proof fn law_indexed_until_modified(row: Option<SeenRow>, mtime: i64, later: i64)
    ensures
        wants_indexing(Some(marked(row, mtime)), later) <==> later > mtime,
{
}

/// A file that a scan met is no orphan of that scan.
pub proof fn law_a_seen_file_is_no_orphan(row: Option<SeenRow>, scan_time: i64)
    ensures
        !(touched(row, scan_time).last_seen < scan_time),
{
}

// ---------------------------------------------------------------------------
// Folder profiles
// ---------------------------------------------------------------------------

/// How a directory is treated, and who decided it.
#[derive(Debug)]
pub struct FolderProfile {
    pub mode: String,
    pub source: String,
}

pub struct ProfileView {
    pub mode: Seq<char>,
    pub source: Seq<char>,
}

impl FolderProfile {
    pub open spec fn view(self) -> ProfileView {
        ProfileView { mode: self.mode@, source: self.source@ }
    }
}

/// An automatic classification gives way to a choice of the user.
pub open spec fn profiled(row: Option<ProfileView>, mode: Seq<char>, source: Seq<char>) -> ProfileView {
    match row {
        Some(p) if p.source == "manual"@ => p,
        _ => ProfileView { mode, source },
    }
}

pub fn set_folder_profile(row: Option<FolderProfile>, mode: &str, source: &str) -> (r: FolderProfile)
    ensures
        r.view() == profiled(
            match row {
                Some(p) => Some(p.view()),
                None => None,
            },
            mode@,
            source@,
        ),
{
    if let Some(p) = row {
        if str_eq(p.source.as_str(), "manual") {
            return p;
        }
    }
    FolderProfile { mode: mode.to_owned(), source: source.to_owned() }
}

/// A choice of the user stands against everything that came before.
pub fn set_folder_profile_manual(mode: &str) -> (r: FolderProfile)
    ensures
        r.view() == (ProfileView { mode: mode@, source: "manual"@ }),
{
    FolderProfile { mode: mode.to_owned(), source: "manual".to_owned() }
}

/// What the user chose for a directory outlives every automatic classification.
pub proof fn law_manual_choice_stays(chosen: Seq<char>, mode: Seq<char>, source: Seq<char>)
    ensures
        profiled(Some(ProfileView { mode: chosen, source: "manual"@ }), mode, source).mode == chosen,
        profiled(Some(ProfileView { mode: chosen, source: "manual"@ }), mode, source).source
            == "manual"@,
{
}

/// The directories of which it is known how they are treated.
pub type Profiles = Map<Seq<char>, ProfileView>;

/// An automatic classification of a directory.
pub struct Classified {
    pub path: Seq<char>,
    pub mode: Seq<char>,
    pub source: Seq<char>,
}

pub open spec fn classified(profiles: Profiles, c: Classified) -> Profiles {
    let row = if profiles.dom().contains(c.path) {
        Some(profiles[c.path])
    } else {
        None
    };
    profiles.insert(c.path, profiled(row, c.mode, c.source))
}

pub open spec fn classified_all(profiles: Profiles, calls: Seq<Classified>) -> Profiles
    decreases calls.len(),
{
    if calls.len() == 0 {
        profiles
    } else {
        classified(classified_all(profiles, calls.drop_last()), calls.last())
    }
}

/// What the user chose for a directory outlives any number of automatic classifications, of
/// that directory and of others.
pub proof fn law_a_manual_choice_outlives_all(
    profiles: Profiles,
    path: Seq<char>,
    mode: Seq<char>,
    calls: Seq<Classified>,
)
    ensures
        ({
            let chosen = ProfileView { mode, source: "manual"@ };
            let after = classified_all(profiles.insert(path, chosen), calls);
            after.dom().contains(path) && after[path] == chosen
        }),
    decreases calls.len(),
{
    if calls.len() > 0 {
        law_a_manual_choice_outlives_all(profiles, path, mode, calls.drop_last());
    }
}

/// An automatic classification of a directory for which the user chose nothing takes effect,
/// and changes no other directory.
pub proof fn law_a_classification_changes_one_directory(profiles: Profiles, c: Classified)
    ensures
        !(profiles.dom().contains(c.path) && profiles[c.path].source == "manual"@) ==> classified(
            profiles,
            c,
        )[c.path] == (ProfileView { mode: c.mode, source: c.source }),
        classified(profiles, c).dom() == profiles.dom().insert(c.path),
        forall|q: Seq<char>|
            q != c.path && profiles.dom().contains(q) ==> #[trigger] classified(profiles, c)[q]
                == profiles[q],
{
}

/// A directory, or one above it, is treated as a block. `modes` holds the mode of each
/// directory on the way from the path itself up to the top, where one is known.
pub fn is_under_block(modes: &Vec<Option<String>>) -> (r: bool)
    ensures
        r == exists|i: int| 0 <= i < modes@.len() && opt(#[trigger] modes@[i]) == Some("block"@),
{
    let mut i: usize = 0;
    while i < modes.len()
        invariant
            i <= modes.len(),
            forall|k: int| 0 <= k < i ==> opt(#[trigger] modes@[k]) != Some("block"@),
        decreases modes.len() - i,
    {
        if let Some(m) = &modes[i] {
            if str_eq(m.as_str(), "block") {
                assert(opt(modes@[i as int]) == Some("block"@));
                return true;
            }
        }
        i = i + 1;
    }
    false
}

/// The counts by status that the progress display shows.
pub open spec fn count_status(rows: Seq<QueueRow>, a: Seq<char>, b: Seq<char>) -> int
    decreases rows.len(),
{
    if rows.len() == 0 {
        0
    } else {
        count_status(rows.drop_last(), a, b) + if rows.last().status@ == a || rows.last().status@
            == b {
            1int
        } else {
            0int
        }
    }
}

pub fn indexing_stats(rows: &Vec<QueueRow>, pending_folders: i64) -> (r: IndexingStats)
    requires
        rows@.len() <= i64::MAX,
    ensures
        r.total == rows@.len(),
        r.pending == count_status(rows@, "pending"@, "pending_extraction"@),
        r.completed == count_status(rows@, "completed"@, "completed"@),
        r.failed == count_status(rows@, "failed_permanent"@, "failed_permanent"@),
        r.pending_folders == pending_folders,
{
    let mut pending: i64 = 0;
    let mut completed: i64 = 0;
    let mut failed: i64 = 0;
    let mut i: usize = 0;
    assert(rows@.take(0) =~= Seq::<QueueRow>::empty());
    while i < rows.len()
        invariant
            i <= rows.len(),
            rows@.len() <= i64::MAX,
            0 <= pending <= i,
            0 <= completed <= i,
            0 <= failed <= i,
            pending == count_status(rows@.take(i as int), "pending"@, "pending_extraction"@),
            completed == count_status(rows@.take(i as int), "completed"@, "completed"@),
            failed == count_status(
                rows@.take(i as int),
                "failed_permanent"@,
                "failed_permanent"@,
            ),
        decreases rows.len() - i,
    {
        assert(rows@.take(i + 1).drop_last() =~= rows@.take(i as int));
        assert(rows@.take(i + 1).last() == rows@[i as int]);
        let s = rows[i].status.as_str();
        if str_eq(s, "pending") || str_eq(s, "pending_extraction") {
            pending = pending + 1;
        }
        if str_eq(s, "completed") {
            completed = completed + 1;
        }
        if str_eq(s, "failed_permanent") {
            failed = failed + 1;
        }
        i = i + 1;
    }
    assert(rows@.take(i as int) =~= rows@);
    IndexingStats { total: rows.len() as i64, pending, completed, failed, pending_folders }
}

// ---------------------------------------------------------------------------
// The sense of a file
// ---------------------------------------------------------------------------

/// What a file is about, as it was found or as the user wrote it.
#[derive(Debug)]
pub struct SenseRow {
    pub summary: String,
    pub doc_type: String,
    pub extract: Option<String>,
    /// The user wrote the summary.
    pub pinned: bool,
}

pub struct SenseView {
    pub summary: Seq<char>,
    pub doc_type: Seq<char>,
    pub extract: Option<Seq<char>>,
    pub pinned: bool,
}

impl SenseRow {
    pub open spec fn view(self) -> SenseView {
        SenseView {
            summary: self.summary@,
            doc_type: self.doc_type@,
            extract: opt(self.extract),
            pinned: self.pinned,
        }
    }
}

pub open spec fn sense_view(row: Option<SenseRow>) -> Option<SenseView> {
    match row {
        Some(r) => Some(r.view()),
        None => None,
    }
}

/// The sense after the file was indexed: what was found, but for a summary of the user.
pub open spec fn indexed_sense(
    row: Option<SenseView>,
    summary: Seq<char>,
    extract: Option<Seq<char>>,
    doc_type: Seq<char>,
) -> SenseView {
    match row {
        Some(r) if r.pinned => SenseView { doc_type, extract, ..r },
        _ => SenseView { summary, doc_type, extract, pinned: false },
    }
}

/// Takes in what was found in a file.
pub fn upsert_file_semantics(
    row: Option<SenseRow>,
    summary: &str,
    extract: Option<String>,
    doc_type: &str,
) -> (r: SenseRow)
    ensures
        r.view() == indexed_sense(sense_view(row), summary@, opt(extract), doc_type@),
{
    match row {
        Some(old) if old.pinned => SenseRow {
            summary: old.summary,
            doc_type: doc_type.to_owned(),
            extract,
            pinned: true,
        },
        _ => SenseRow {
            summary: summary.to_owned(),
            doc_type: doc_type.to_owned(),
            extract,
            pinned: false,
        },
    }
}

/// The sense after the user corrected it.
pub open spec fn corrected_sense(row: SenseView, summary: Seq<char>) -> SenseView {
    SenseView { summary, pinned: true, ..row }
}

/// Takes in a summary that the user wrote.
pub fn set_file_summary(row: SenseRow, summary: &str) -> (r: SenseRow)
    ensures
        r.view() == corrected_sense(row.view(), summary@),
{
    SenseRow {
        summary: summary.to_owned(),
        doc_type: row.doc_type,
        extract: row.extract,
        pinned: true,
    }
}

/// The summary that the user wrote, where there is one.
pub open spec fn pinned_summary(row: Option<SenseView>) -> Option<Seq<char>> {
    match row {
        Some(r) if r.pinned => Some(r.summary),
        _ => None,
    }
}

pub fn summary_is_pinned(row: &Option<SenseRow>) -> (r: Option<String>)
    ensures
        opt(r) == pinned_summary(sense_view(*row)),
{
    match row {
        Some(s) => if s.pinned {
            Some(s.summary.clone())
        } else {
            None
        },
        None => None,
    }
}

/// A summary that the user wrote stays, however often the file is indexed afterwards.
pub proof fn law_a_corrected_sense_stays(
    row: SenseView,
    written: Seq<char>,
    later: SenseView,
    found: Seq<char>,
    extract: Option<Seq<char>>,
    doc_type: Seq<char>,
)
    requires
        pinned_summary(Some(later)) == Some(written),
    ensures
        pinned_summary(Some(corrected_sense(row, written))) == Some(written),
        pinned_summary(Some(indexed_sense(Some(later), found, extract, doc_type))) == Some(written),
{
}

// ---------------------------------------------------------------------------
// Duplicates
// ---------------------------------------------------------------------------

/// A group of files of the same content, whose paths stand in one text, split by `|`.
pub fn duplicate_group(content_hash: String, joined: &str) -> (r: DuplicateGroup)
    ensures
        r.content_hash@ == content_hash@,
        views(r.paths@) == split(joined@, "|"@),
{
    proof {
        reveal_strlit("|");
    }
    let parts = splitted(to_chars(joined).as_slice(), to_chars("|").as_slice());
    DuplicateGroup { content_hash, paths: texts_of(&parts) }
}

// ---------------------------------------------------------------------------
// Versions of the base
// ---------------------------------------------------------------------------

pub const SCHEMA_VERSION: i64 = 5;

/// What an older base has to forget, so that the index is built again where it has to be.
#[derive(Debug, Clone, Copy, PartialEq, Eq, Structural)]
pub enum Migration {
    /// Everything that was indexed.
    ForgetIndex,
    /// What was indexed by its context alone.
    ReadContextAgain,
    /// How folders were classified.
    ForgetProfiles,
}

pub open spec fn migrations_from(current: int) -> Seq<Migration> {
    (if current < 3 {
        seq![Migration::ForgetIndex]
    } else {
        Seq::empty()
    }) + (if current < 4 {
        seq![Migration::ReadContextAgain]
    } else {
        Seq::empty()
    }) + (if current < SCHEMA_VERSION {
        seq![Migration::ForgetProfiles]
    } else {
        Seq::empty()
    })
}

/// The migrations of a base of version `current`, in their order.
pub fn migrations(current: i64) -> (r: Vec<Migration>)
    ensures
        r@ == migrations_from(current as int),
{
    let mut out: Vec<Migration> = Vec::new();
    if current < 3 {
        out.push(Migration::ForgetIndex);
    }
    if current < 4 {
        out.push(Migration::ReadContextAgain);
    }
    if current < SCHEMA_VERSION {
        out.push(Migration::ForgetProfiles);
    }
    assert(out@ =~= migrations_from(current as int));
    out
}

/// A base of the current version is left as it is, and an older base takes the steps of a
/// newer one, with none or more before them.
pub proof fn law_a_current_base_is_left_alone(current: int, older: int)
    requires
        older <= current,
    ensures
        migrations_from(SCHEMA_VERSION as int).len() == 0,
        migrations_from(current).len() <= migrations_from(older).len(),
        migrations_from(current) == migrations_from(older).skip(
            migrations_from(older).len() - migrations_from(current).len(),
        ),
{
    assert(migrations_from(current) =~= migrations_from(older).skip(
        migrations_from(older).len() - migrations_from(current).len(),
    ));
}

/// What a LIKE pattern matches, with the backslash as its escape: `%` stands for any text,
/// `_` for any one character, and an escaped character for itself.
pub open spec fn like_matches(p: Seq<char>, t: Seq<char>) -> bool
    decreases p.len(),
{
    if p.len() == 0 {
        t.len() == 0
    } else if p[0] == '%' {
        exists|k: int| 0 <= k <= t.len() && like_matches(p.skip(1), #[trigger] t.skip(k))
    } else if p[0] == '_' {
        t.len() > 0 && like_matches(p.skip(1), t.skip(1))
    } else if p[0] == '\\' && p.len() > 1 {
        t.len() > 0 && t[0] == p[1] && like_matches(p.skip(2), t.skip(1))
    } else {
        t.len() > 0 && t[0] == p[0] && like_matches(p.skip(1), t.skip(1))
    }
}

/// The pattern of a prefix matches the texts that start with it and no others, whatever
/// characters the prefix holds.
pub proof fn law_a_prefix_pattern_matches_what_starts_so(prefix: Seq<char>, t: Seq<char>)
    ensures
        like_matches(like_escaped(prefix) + "%"@, t) == crate::text::starts_with(t, prefix),
    decreases prefix.len(),
{
    reveal_strlit("%");
    let p = like_escaped(prefix) + "%"@;
    if prefix.len() == 0 {
        assert(p =~= seq!['%']);
        assert(p.skip(1) =~= Seq::<char>::empty());
        assert(t.skip(t.len() as int).len() == 0);
        assert(like_matches(p.skip(1), t.skip(t.len() as int)));
        assert(t.subrange(0, 0) =~= prefix);
    } else {
        lemma_like_escaped_front(prefix);
        let rest = prefix.skip(1);
        if t.len() > 0 {
            law_a_prefix_pattern_matches_what_starts_so(rest, t.skip(1));
        }
        if is_like_meta(prefix[0]) {
            assert(p.skip(2) =~= like_escaped(rest) + "%"@);
        } else {
            assert(p.skip(1) =~= like_escaped(rest) + "%"@);
        }
        if crate::text::starts_with(t, prefix) {
            assert(t.subrange(0, prefix.len() as int)[0] == t[0]);
            assert(t.skip(1).subrange(0, rest.len() as int) =~= t.subrange(
                0,
                prefix.len() as int,
            ).skip(1));
        }
        if t.len() > 0 && t[0] == prefix[0] && crate::text::starts_with(t.skip(1), rest) {
            assert(t.subrange(0, prefix.len() as int) =~= prefix) by {
                assert forall|k: int| 0 <= k < prefix.len() implies t[k] == prefix[k] by {
                    if k > 0 {
                        assert(t.skip(1).subrange(0, rest.len() as int)[k - 1] == rest[k - 1]);
                    }
                }
            }
        }
    }
}

/// A failure changes neither the place of a path in the queue nor how urgent it is, and tells
/// why; putting the path into the queue again forgets all failures.
pub proof fn law_a_failure_is_told_and_forgotten(
    row: QueueRowView,
    error: Seq<char>,
    max_retries: int,
    status: Seq<char>,
    priority: int,
)
    ensures
        failed(row, error, max_retries).priority == row.priority,
        failed(row, error, max_retries).last_error == Some(error),
        enqueued(Some(failed(row, error, max_retries)), status, priority) == enqueued(
            Some(row),
            status,
            priority,
        ),
        enqueued(Some(row), status, priority).status == status,
        enqueued(Some(row), status, priority).retry_count == 0,
        enqueued(Some(row), status, priority).last_error is None,
        enqueued(None, status, priority).priority == priority,
        enqueued(Some(row), status, priority).priority == row.priority || enqueued(
            Some(row),
            status,
            priority,
        ).priority == priority,
{
}

/// Indexing a file takes over what was found in it; a summary is taken over unless the user
/// wrote one.
pub proof fn law_what_was_found_is_taken_over(
    row: Option<SenseView>,
    summary: Seq<char>,
    extract: Option<Seq<char>>,
    doc_type: Seq<char>,
)
    ensures
        indexed_sense(row, summary, extract, doc_type).extract == extract,
        indexed_sense(row, summary, extract, doc_type).doc_type == doc_type,
        indexed_sense(row, summary, extract, doc_type).summary == match pinned_summary(row) {
            Some(written) => written,
            None => summary,
        },
        pinned_summary(Some(indexed_sense(row, summary, extract, doc_type))) == pinned_summary(row),
{
}

/// The counts of the progress display count each row of that status once.
pub proof fn law_each_row_is_counted_once(rows: Seq<QueueRow>, a: Seq<char>, b: Seq<char>)
    ensures
        count_status(rows, a, b) == rows.filter(
            |r: QueueRow| r.status@ == a || r.status@ == b,
        ).len(),
    decreases rows.len(),
{
    reveal(Seq::filter);
    if rows.len() > 0 {
        law_each_row_is_counted_once(rows.drop_last(), a, b);
    }
}

/// The paths of a group, put together again, are the text that they were read from.
pub proof fn law_a_group_holds_every_path(text: Seq<char>)
    ensures
        crate::text::join(split(text, "|"@), "|"@) == text,
{
    reveal_strlit("|");
    crate::text::lemma_split_joins(text, "|"@, 0);
    assert(text.skip(0) =~= text);
}

/// An older base takes each step that its version asks for, and no other: what was indexed before
/// version 3 is forgotten, contexts from before version 4 are read again, and profiles of any
/// older version are made anew.
pub proof fn law_an_old_base_takes_every_step(current: int)
    ensures
        migrations_from(current).contains(Migration::ForgetIndex) <==> current < 3,
        migrations_from(current).contains(Migration::ReadContextAgain) <==> current < 4,
        migrations_from(current).contains(Migration::ForgetProfiles) <==> current < SCHEMA_VERSION,
{
    let m = migrations_from(current);
    if current < 3 {
        assert(m[0] == Migration::ForgetIndex);
        assert(m[1] == Migration::ReadContextAgain);
        assert(m[2] == Migration::ForgetProfiles);
    } else if current < 4 {
        assert(m[0] == Migration::ReadContextAgain);
        assert(m[1] == Migration::ForgetProfiles);
    } else if current < SCHEMA_VERSION {
        assert(m[0] == Migration::ForgetProfiles);
    }
}

} // verus!
