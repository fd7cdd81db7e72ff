//! Listings of directories and the details of a path, with what the index knows of them.

use vstd::prelude::*;

use crate::order::{insert_at, is_text_before, sorted_by, text_before};
use crate::text::{
    cat3, copy_opt, is_one_of, lower_case, one_of, opt, starts_with, str_eq, str_starts_with,
    to_chars, lowered, to_text, trim_end_of, trimmed_end_of,
};

verus! {

#[derive(Debug)]
pub struct DirEntryInfo {
    pub path: String,
    pub name: String,
    pub is_directory: bool,
    pub size_bytes: u64,
    pub modified: Option<i64>,
    pub extension: Option<String>,
    /// The status of the path in the indexing queue.
    pub index_status: Option<String>,
    /// For a directory: how it is treated, where that is known.
    pub folder_mode: Option<String>,
    pub indexed: bool,
}

/// An entry as it was read from the disk.
#[derive(Debug)]
pub struct RawEntry {
    pub path: String,
    pub name: String,
    pub is_directory: bool,
    pub size_bytes: u64,
    pub modified: Option<i64>,
    pub extension: Option<String>,
}

pub struct EntryView {
    pub path: Seq<char>,
    pub name: Seq<char>,
    pub is_directory: bool,
    pub size_bytes: u64,
    pub modified: Option<i64>,
    pub extension: Option<Seq<char>>,
    pub index_status: Option<Seq<char>>,
    pub folder_mode: Option<Seq<char>>,
    pub indexed: bool,
}

impl DirEntryInfo {
    pub open spec fn view(self) -> EntryView {
        EntryView {
            path: self.path@,
            name: self.name@,
            is_directory: self.is_directory,
            size_bytes: self.size_bytes,
            modified: self.modified,
            extension: opt(self.extension),
            index_status: opt(self.index_status),
            folder_mode: opt(self.folder_mode),
            indexed: self.indexed,
        }
    }
}

pub open spec fn entry_views(v: Seq<DirEntryInfo>) -> Seq<EntryView> {
    Seq::new(v.len(), |i: int| v[i].view())
}

/// The value of the last pair of that key.
pub open spec fn lookup(pairs: Seq<(String, String)>, key: Seq<char>) -> Option<Seq<char>>
    decreases pairs.len(),
{
    if pairs.len() == 0 {
        None
    } else if pairs.last().0@ == key {
        Some(pairs.last().1@)
    } else {
        lookup(pairs.drop_last(), key)
    }
}

pub fn find_value(pairs: &Vec<(String, String)>, key: &str) -> (r: Option<String>)
    ensures
        opt(r) == lookup(pairs@, key@),
{
    let mut i: usize = pairs.len();
    assert(pairs@.take(i as int) =~= pairs@);
    while i > 0
        invariant
            i <= pairs.len(),
            lookup(pairs@, key@) == lookup(pairs@.take(i as int), key@),
        decreases i,
    {
        assert(pairs@.take(i as int).drop_last() =~= pairs@.take(i - 1));
        assert(pairs@.take(i as int).last() == pairs@[i - 1]);
        if str_eq(pairs[i - 1].0.as_str(), key) {
            return Some(pairs[i - 1].1.clone());
        }
        i = i - 1;
    }
    None
}

/// What is shown of an entry.
pub open spec fn shown(
    e: RawEntry,
    statuses: Seq<(String, String)>,
    modes: Seq<(String, String)>,
    indexed: Seq<String>,
) -> EntryView {
    EntryView {
        path: e.path@,
        name: e.name@,
        is_directory: e.is_directory,
        size_bytes: if e.is_directory {
            0
        } else {
            e.size_bytes
        },
        modified: e.modified,
        extension: opt(e.extension),
        index_status: lookup(statuses, e.path@),
        folder_mode: if e.is_directory {
            lookup(modes, e.path@)
        } else {
            None
        },
        indexed: one_of(e.path@, indexed),
    }
}

/// Directories come before files, then the names decide, whatever their letter case.
pub open spec fn listed_before(a: EntryView, b: EntryView) -> bool {
    if a.is_directory != b.is_directory {
        a.is_directory
    } else {
        text_before(lower_case(a.name), lower_case(b.name))
    }
}

/// The entries that are not hidden.
pub open spec fn visible(
    entries: Seq<RawEntry>,
    statuses: Seq<(String, String)>,
    modes: Seq<(String, String)>,
    indexed: Seq<String>,
) -> Seq<EntryView>
    decreases entries.len(),
{
    if entries.len() == 0 {
        Seq::empty()
    } else if starts_with(entries.last().name@, "."@) {
        visible(entries.drop_last(), statuses, modes, indexed)
    } else {
        visible(entries.drop_last(), statuses, modes, indexed).push(
            shown(entries.last(), statuses, modes, indexed),
        )
    }
}

fn comes_before(a: &DirEntryInfo, b: &DirEntryInfo) -> (r: bool)
    ensures
        r == listed_before(a.view(), b.view()),
{
    if a.is_directory != b.is_directory {
        a.is_directory
    } else {
        is_text_before(lowered(a.name.as_str()).as_str(), lowered(b.name.as_str()).as_str())
    }
}

fn insert_entry(list: &mut Vec<DirEntryInfo>, e: DirEntryInfo)
    ensures
        entry_views(final(list)@) == entry_views(old(list)@).insert(
            insert_at(
                entry_views(old(list)@),
                e.view(),
                |a: EntryView, b: EntryView| listed_before(a, b),
            ),
            e.view(),
        ),
{
    let ghost before = |a: EntryView, b: EntryView| listed_before(a, b);
    let ghost all = entry_views(list@);
    let mut k: usize = list.len();
    assert(all.take(k as int) =~= all);
    while k > 0 && comes_before(&e, &list[k - 1])
        invariant
            k <= list.len(),
            all == entry_views(list@),
            list@ == old(list)@,
            before == (|a: EntryView, b: EntryView| listed_before(a, b)),
            insert_at(all, e.view(), before) == insert_at(all.take(k as int), e.view(), before),
        decreases k,
    {
        assert(all.take(k as int).drop_last() =~= all.take(k - 1));
        assert(all.take(k as int).last() == list@[k - 1].view());
        k = k - 1;
    }
    proof {
        if k > 0 {
            assert(all.take(k as int).last() == list@[k - 1].view());
        }
        assert(insert_at(all, e.view(), before) == k);
    }
    let ghost ev = e.view();
    list.insert(k, e);
    assert(entry_views(list@) =~= all.insert(k as int, ev));
}

/// The listing of a directory: what is not hidden, directories first, by name.
pub fn list_directory(
    entries: &Vec<RawEntry>,
    statuses: &Vec<(String, String)>,
    modes: &Vec<(String, String)>,
    indexed: &Vec<String>,
) -> (r: Vec<DirEntryInfo>)
    ensures
        entry_views(r@) == listing(entries@, statuses@, modes@, indexed@),
{
    let ghost before = |a: EntryView, b: EntryView| listed_before(a, b);
    let mut out: Vec<DirEntryInfo> = Vec::new();
    let mut i: usize = 0;
    assert(entries@.take(0) =~= Seq::<RawEntry>::empty());
    assert(entry_views(out@) =~= sorted_by(
        visible(entries@.take(0), statuses@, modes@, indexed@),
        before,
    ));
    while i < entries.len()
        invariant
            i <= entries.len(),
            before == (|a: EntryView, b: EntryView| listed_before(a, b)),
            entry_views(out@) == sorted_by(
                visible(entries@.take(i as int), statuses@, modes@, indexed@),
                before,
            ),
        decreases entries.len() - i,
    {
        assert(entries@.take(i + 1).drop_last() =~= entries@.take(i as int));
        assert(entries@.take(i + 1).last() == entries@[i as int]);
        let e = &entries[i];
        if !str_starts_with(e.name.as_str(), ".") {
            let ghost so_far = visible(entries@.take(i as int), statuses@, modes@, indexed@);
            let info = DirEntryInfo {
                path: e.path.clone(),
                name: e.name.clone(),
                is_directory: e.is_directory,
                size_bytes: if e.is_directory {
                    0
                } else {
                    e.size_bytes
                },
                modified: e.modified,
                extension: copy_opt(&e.extension),
                index_status: find_value(statuses, e.path.as_str()),
                folder_mode: if e.is_directory {
                    find_value(modes, e.path.as_str())
                } else {
                    None
                },
                indexed: is_one_of(e.path.as_str(), indexed),
            };
            assert(so_far.push(info.view()).drop_last() =~= so_far);
            insert_entry(&mut out, info);
        }
        i = i + 1;
    }
    assert(entries@.take(i as int) =~= entries@);
    out
}

/// Listings are ordered: directories before files, then by name.
pub proof fn law_listing_order_is_an_order()
    ensures
        crate::order::is_order(|a: EntryView, b: EntryView| listed_before(a, b)),
{
    let before = |a: EntryView, b: EntryView| listed_before(a, b);
    assert forall|a: EntryView, b: EntryView| #[trigger] before(a, b) implies !before(b, a) by {
        if a.is_directory == b.is_directory {
            crate::order::lemma_text_before_asymmetric(lower_case(a.name), lower_case(b.name));
        }
    }
    assert forall|a: EntryView, b: EntryView, c: EntryView|
        #![trigger before(a, b), before(b, c)]
        !before(a, b) && !before(b, c) implies !before(a, c) by {
        if a.is_directory == b.is_directory && b.is_directory == c.is_directory {
            let (x, y, z) = (lower_case(a.name), lower_case(b.name), lower_case(c.name));
            crate::order::lemma_text_before_total(x, y);
            crate::order::lemma_text_before_total(y, z);
            if text_before(x, z) {
                if x == y {
                } else if y == z {
                } else {
                    crate::order::lemma_text_before_transitive(z, y, x);
                    crate::order::lemma_text_before_asymmetric(x, z);
                }
            }
        }
    }
}

// ---------------------------------------------------------------------------
// Details
// ---------------------------------------------------------------------------

#[derive(Debug)]
pub struct PathDetails {
    pub path: String,
    pub name: String,
    pub is_directory: bool,
    pub size_bytes: u64,
    pub modified: Option<i64>,
    pub extension: Option<String>,
    pub indexed: bool,
    pub status: Option<String>,
    pub last_error: Option<String>,
    pub doc_type: Option<String>,
    pub summary: Option<String>,
    /// How the content was obtained, in words.
    pub content_kind: String,
    pub folder_mode: Option<String>,
}

/// How the content of a path was obtained. The hash tells a block and a context apart from
/// real content by its prefix.
pub open spec fn content_kind_of(
    hash: Option<Seq<char>>,
    doc_type: Option<Seq<char>>,
    indexed: bool,
    status: Option<Seq<char>>,
) -> Seq<char> {
    if !indexed {
        if status == Some("pending"@) || status == Some("pending_extraction"@) {
            "En file d'attente"@
        } else if status == Some("failed"@) || status == Some("failed_permanent"@) {
            "Échec d'indexation"@
        } else {
            "Non indexé"@
        }
    } else if hash is Some && starts_with(hash->0, "block:"@) {
        "Bloc sémantique"@
    } else if hash is Some && starts_with(hash->0, "ctx:"@) {
        if doc_type is Some && doc_type->0.len() > 0 {
            "Contexte ("@ + doc_type->0 + ")"@
        } else {
            "Contexte"@
        }
    } else if doc_type == Some("pdf-ocr"@) {
        "OCR (vision)"@
    } else if doc_type == Some("image"@) {
        "Image décrite (vision)"@
    } else if doc_type == Some("llm-extrait"@) {
        "Contenu extrait par le LLM"@
    } else {
        "Contenu extrait"@
    }
}

fn is_text(o: &Option<String>, s: &str) -> (r: bool)
    ensures
        r == (opt(*o) == Some(s@)),
{
    match o {
        Some(x) => str_eq(x.as_str(), s),
        None => false,
    }
}

pub fn derive_content_kind(
    hash: &Option<String>,
    doc_type: &Option<String>,
    indexed: bool,
    status: &Option<String>,
) -> (r: String)
    ensures
        r@ == content_kind_of(opt(*hash), opt(*doc_type), indexed, opt(*status)),
{
    if !indexed {
        return if is_text(status, "pending") || is_text(status, "pending_extraction") {
            "En file d'attente".to_owned()
        } else if is_text(status, "failed") || is_text(status, "failed_permanent") {
            "Échec d'indexation".to_owned()
        } else {
            "Non indexé".to_owned()
        };
    }
    if let Some(h) = hash {
        if str_starts_with(h.as_str(), "block:") {
            return "Bloc sémantique".to_owned();
        }
        if str_starts_with(h.as_str(), "ctx:") {
            if let Some(k) = doc_type {
                if !k.as_str().is_empty() {
                    return cat3("Contexte (", k.as_str(), ")");
                }
            }
            return "Contexte".to_owned();
        }
    }
    if is_text(doc_type, "pdf-ocr") {
        "OCR (vision)".to_owned()
    } else if is_text(doc_type, "image") {
        "Image décrite (vision)".to_owned()
    } else if is_text(doc_type, "llm-extrait") {
        "Contenu extrait par le LLM".to_owned()
    } else {
        "Contenu extrait".to_owned()
    }
}

/// What the index knows of a path.
#[derive(Debug)]
pub struct IndexedFacts {
    pub indexed: bool,
    /// The status in the queue and the last error.
    pub queue: Option<(String, Option<String>)>,
    /// The summary and the type of the document.
    pub semantics: Option<(String, String)>,
    pub hash: Option<String>,
    pub folder_mode: Option<String>,
}

pub open spec fn unless_empty(s: Seq<char>) -> Option<Seq<char>> {
    if s.len() == 0 {
        None
    } else {
        Some(s)
    }
}

fn some_unless_empty(s: String) -> (r: Option<String>)
    ensures
        opt(r) == unless_empty(s@),
{
    if s.as_str().is_empty() {
        None
    } else {
        Some(s)
    }
}

/// The details of a path: what was read from the disk and what the index knows.
pub fn path_details(entry: RawEntry, facts: IndexedFacts) -> (r: PathDetails)
    ensures
        r.path == entry.path,
        r.name == entry.name,
        r.is_directory == entry.is_directory,
        r.size_bytes == (if entry.is_directory {
            0
        } else {
            entry.size_bytes
        }),
        r.modified == entry.modified,
        r.extension == entry.extension,
        r.indexed == facts.indexed,
        opt(r.status) == (match facts.queue {
            Some(q) => Some(q.0@),
            None => None,
        }),
        opt(r.last_error) == (match facts.queue {
            Some(q) => opt(q.1),
            None => None,
        }),
        opt(r.summary) == (match facts.semantics {
            Some(s) => unless_empty(s.0@),
            None => None,
        }),
        opt(r.doc_type) == (match facts.semantics {
            Some(s) => unless_empty(s.1@),
            None => None,
        }),
        opt(r.folder_mode) == (if entry.is_directory {
            opt(facts.folder_mode)
        } else {
            None
        }),
        r.content_kind@ == content_kind_of(
            opt(facts.hash),
            opt(r.doc_type),
            facts.indexed,
            opt(r.status),
        ),
{
    let (status, last_error) = match facts.queue {
        Some((s, e)) => (Some(s), e),
        None => (None, None),
    };
    let (summary, doc_type) = match facts.semantics {
        Some((s, d)) => (some_unless_empty(s), some_unless_empty(d)),
        None => (None, None),
    };
    let content_kind = derive_content_kind(&facts.hash, &doc_type, facts.indexed, &status);
    PathDetails {
        path: entry.path,
        name: entry.name,
        is_directory: entry.is_directory,
        size_bytes: if entry.is_directory {
            0
        } else {
            entry.size_bytes
        },
        modified: entry.modified,
        extension: entry.extension,
        indexed: facts.indexed,
        status,
        last_error,
        doc_type,
        summary,
        content_kind,
        folder_mode: if entry.is_directory {
            facts.folder_mode
        } else {
            None
        },
    }
}

// ---------------------------------------------------------------------------
// Paths
// ---------------------------------------------------------------------------

/// A directory with exactly one separator at its end, the one of the system.
pub fn normalize(path: &str, separator: char) -> (r: String)
    ensures
        r@ == trim_end_of(path@, '/', '\\').push(separator),
{
    let c = to_chars(path);
    let mut s = to_text(trimmed_end_of(c.as_slice(), '/', '\\'));
    s.push(separator);
    s
}

/// A path in which a separator right behind another is dropped, but for a pair at the very
/// start, which names a server.
pub open spec fn collapsed(p: Seq<char>) -> Seq<char>
    decreases p.len(),
{
    if p.len() == 0 {
        Seq::empty()
    } else if p.len() > 2 && crate::actions::is_sep(p.last()) && crate::actions::is_sep(
        p[p.len() - 2],
    ) {
        collapsed(p.drop_last())
    } else {
        collapsed(p.drop_last()).push(p.last())
    }
}

pub fn collapse_separators(path: &str) -> (r: String)
    ensures
        r@ == collapsed(path@),
{
    let c = to_chars(path);
    let mut out: Vec<char> = Vec::new();
    let mut prev_sep: bool = false;
    let mut i: usize = 0;
    assert(out@ =~= collapsed(c@.take(0)));
    while i < c.len()
        invariant
            i <= c.len(),
            out@ == collapsed(c@.take(i as int)),
            prev_sep == (i > 0 && crate::actions::is_sep(c@[i - 1])),
        decreases c.len() - i,
    {
        assert(c@.take(i + 1).drop_last() =~= c@.take(i as int));
        let ch = c[i];
        let sep = ch == '/' || ch == '\\';
        if sep && prev_sep && i > 1 {
        } else {
            out.push(ch);
            prev_sep = sep;
        }
        i = i + 1;
    }
    assert(c@.take(i as int) =~= c@);
    to_text(out.as_slice())
}

// ---------------------------------------------------------------------------
// What a listing shows
// ---------------------------------------------------------------------------

/// The listing of a directory.
pub open spec fn listing(
    entries: Seq<RawEntry>,
    statuses: Seq<(String, String)>,
    modes: Seq<(String, String)>,
    indexed: Seq<String>,
) -> Seq<EntryView> {
    sorted_by(
        visible(entries, statuses, modes, indexed),
        |a: EntryView, b: EntryView| listed_before(a, b),
    )
}

/// An entry whose name starts with a dot is hidden.
pub open spec fn is_hidden(e: RawEntry) -> bool {
    e.name@.len() > 0 && e.name@[0] == '.'
}

/// What is shown of an entry is what the disk and the index tell of its path.
pub open spec fn shows(
    v: EntryView,
    e: RawEntry,
    statuses: Seq<(String, String)>,
    modes: Seq<(String, String)>,
    indexed: Seq<String>,
) -> bool {
    &&& v.path == e.path@ && v.name == e.name@ && v.is_directory == e.is_directory
    &&& v.modified == e.modified && v.extension == opt(e.extension)
    &&& v.size_bytes == if e.is_directory {
        0u64
    } else {
        e.size_bytes
    }
    &&& v.index_status == lookup(statuses, e.path@)
    &&& v.folder_mode == if e.is_directory {
        lookup(modes, e.path@)
    } else {
        None
    }
    &&& v.indexed == exists|i: int| 0 <= i < indexed.len() && (#[trigger] indexed[i])@ == e.path@
}

proof fn lemma_dot(name: Seq<char>)
    ensures
        starts_with(name, "."@) == (name.len() > 0 && name[0] == '.'),
{
    reveal_strlit(".");
    if name.len() > 0 {
        assert(name.subrange(0, 1)[0] == name[0]);
        if name[0] == '.' {
            assert(name.subrange(0, 1) =~= "."@);
        }
    }
}

proof fn lemma_visible(
    entries: Seq<RawEntry>,
    statuses: Seq<(String, String)>,
    modes: Seq<(String, String)>,
    indexed: Seq<String>,
    i: int,
) -> (k: int)
    requires
        0 <= i < entries.len(),
        !is_hidden(entries[i]),
    ensures
        0 <= k < visible(entries, statuses, modes, indexed).len(),
        shows(visible(entries, statuses, modes, indexed)[k], entries[i], statuses, modes, indexed),
    decreases entries.len(),
{
    let less = entries.drop_last();
    lemma_dot(entries.last().name@);
    if i == entries.len() - 1 {
        visible(less, statuses, modes, indexed).len() as int
    } else {
        assert(less[i] == entries[i]);
        lemma_visible(less, statuses, modes, indexed, i)
    }
}

proof fn lemma_visible_entry(
    entries: Seq<RawEntry>,
    statuses: Seq<(String, String)>,
    modes: Seq<(String, String)>,
    indexed: Seq<String>,
    k: int,
) -> (i: int)
    requires
        0 <= k < visible(entries, statuses, modes, indexed).len(),
    ensures
        0 <= i < entries.len(),
        !is_hidden(entries[i]),
        shows(visible(entries, statuses, modes, indexed)[k], entries[i], statuses, modes, indexed),
    decreases entries.len(),
{
    let less = entries.drop_last();
    let before = visible(less, statuses, modes, indexed);
    lemma_dot(entries.last().name@);
    if k < before.len() {
        let i = lemma_visible_entry(less, statuses, modes, indexed, k);
        assert(less[i] == entries[i]);
        i
    } else {
        entries.len() - 1
    }
}

/// Every entry that is not hidden is listed, with what the disk and the index tell of it.
pub proof fn law_every_entry_is_listed(
    entries: Seq<RawEntry>,
    statuses: Seq<(String, String)>,
    modes: Seq<(String, String)>,
    indexed: Seq<String>,
    i: int,
) -> (k: int)
    requires
        0 <= i < entries.len(),
        !is_hidden(entries[i]),
    ensures
        0 <= k < listing(entries, statuses, modes, indexed).len(),
        shows(listing(entries, statuses, modes, indexed)[k], entries[i], statuses, modes, indexed),
{
    let all = visible(entries, statuses, modes, indexed);
    let before = |a: EntryView, b: EntryView| listed_before(a, b);
    let out = sorted_by(all, before);
    law_listing_order_is_an_order();
    crate::order::law_sorting_orders_and_keeps(all, before);
    let j = lemma_visible(entries, statuses, modes, indexed, i);
    assert(all.contains(all[j]));
    vstd::seq_lib::to_multiset_contains(all, all[j]);
    vstd::seq_lib::to_multiset_contains(out, all[j]);
    choose|k: int| 0 <= k < out.len() && out[k] == all[j]
}

/// Nothing else is listed, and nothing that is hidden.
pub proof fn law_only_entries_are_listed(
    entries: Seq<RawEntry>,
    statuses: Seq<(String, String)>,
    modes: Seq<(String, String)>,
    indexed: Seq<String>,
    k: int,
) -> (i: int)
    requires
        0 <= k < listing(entries, statuses, modes, indexed).len(),
    ensures
        0 <= i < entries.len(),
        !is_hidden(entries[i]),
        shows(listing(entries, statuses, modes, indexed)[k], entries[i], statuses, modes, indexed),
{
    let all = visible(entries, statuses, modes, indexed);
    let before = |a: EntryView, b: EntryView| listed_before(a, b);
    let out = sorted_by(all, before);
    law_listing_order_is_an_order();
    crate::order::law_sorting_orders_and_keeps(all, before);
    vstd::seq_lib::to_multiset_contains(out, out[k]);
    assert(out.contains(out[k]));
    vstd::seq_lib::to_multiset_contains(all, out[k]);
    let j = choose|j: int| 0 <= j < all.len() && all[j] == out[k];
    lemma_visible_entry(entries, statuses, modes, indexed, j)
}

/// No file is listed before a directory, and among those of a kind none before one whose name
/// comes first, whatever the letter case. There are as many as are not hidden.
pub proof fn law_a_listing_is_in_order(
    entries: Seq<RawEntry>,
    statuses: Seq<(String, String)>,
    modes: Seq<(String, String)>,
    indexed: Seq<String>,
)
    ensures
        ({
            let v = listing(entries, statuses, modes, indexed);
            &&& v.len() == entries.filter(|e: RawEntry| !is_hidden(e)).len()
            &&& forall|i: int, j: int|
                0 <= i < j < v.len() ==> ((#[trigger] v[j]).is_directory ==> (
                #[trigger] v[i]).is_directory)
            &&& forall|i: int, j: int|
                0 <= i < j < v.len() && (#[trigger] v[i]).is_directory == (
                #[trigger] v[j]).is_directory ==> !text_before(
                    lower_case(v[j].name),
                    lower_case(v[i].name),
                )
        }),
{
    let all = visible(entries, statuses, modes, indexed);
    let before = |a: EntryView, b: EntryView| listed_before(a, b);
    let v = listing(entries, statuses, modes, indexed);
    law_listing_order_is_an_order();
    crate::order::law_sorting_orders_and_keeps(all, before);
    lemma_visible_count(entries, statuses, modes, indexed);
    assert forall|i: int, j: int| 0 <= i < j < v.len() implies !listed_before(
        #[trigger] v[j],
        #[trigger] v[i],
    ) by {
        assert(!before(v[j], v[i]));
    }
}

proof fn lemma_visible_count(
    entries: Seq<RawEntry>,
    statuses: Seq<(String, String)>,
    modes: Seq<(String, String)>,
    indexed: Seq<String>,
)
    ensures
        visible(entries, statuses, modes, indexed).len() == entries.filter(
            |e: RawEntry| !is_hidden(e),
        ).len(),
    decreases entries.len(),
{
    reveal(Seq::filter);
    if entries.len() > 0 {
        lemma_dot(entries.last().name@);
        lemma_visible_count(entries.drop_last(), statuses, modes, indexed);
    }
}

/// The value of a key is that of the last pair that has it; a key that no pair has has none.
pub proof fn law_the_last_value_counts(pairs: Seq<(String, String)>, key: Seq<char>)
    ensures
        forall|i: int|
            0 <= i < pairs.len() && (#[trigger] pairs[i]).0@ == key && (forall|j: int|
                i < j < pairs.len() ==> (#[trigger] pairs[j]).0@ != key) ==> lookup(pairs, key)
                == Some(pairs[i].1@),
        (forall|i: int| 0 <= i < pairs.len() ==> (#[trigger] pairs[i]).0@ != key) ==> lookup(
            pairs,
            key,
        ) is None,
    decreases pairs.len(),
{
    if pairs.len() > 0 {
        let less = pairs.drop_last();
        law_the_last_value_counts(less, key);
        let last = pairs[pairs.len() - 1];
        if last.0@ != key {
            assert forall|i: int|
                0 <= i < pairs.len() && (#[trigger] pairs[i]).0@ == key && (forall|j: int|
                    i < j < pairs.len() ==> (#[trigger] pairs[j]).0@ != key) implies lookup(
                pairs,
                key,
            ) == Some(pairs[i].1@) by {
                assert(less[i] == pairs[i]);
                assert forall|j: int| i < j < less.len() implies (#[trigger] less[j]).0@ != key by {
                    assert(less[j] == pairs[j]);
                }
            }
            if forall|i: int| 0 <= i < pairs.len() ==> (#[trigger] pairs[i]).0@ != key {
                assert forall|i: int| 0 <= i < less.len() implies (#[trigger] less[i]).0@ != key by {
                    assert(less[i] == pairs[i]);
                }
            }
        }
    }
}

/// Separators that follow each other are one, save for the two that start a network path; nothing
/// else is taken out.
pub proof fn law_separators_are_collapsed(p: Seq<char>)
    ensures
        forall|k: int|
            2 <= k < collapsed(p).len() ==> !(crate::actions::is_sep(#[trigger] collapsed(p)[k])
                && crate::actions::is_sep(collapsed(p)[k - 1])),
        collapsed(p).filter(|c: char| !crate::actions::is_sep(c)) == p.filter(
            |c: char| !crate::actions::is_sep(c),
        ),
        p.len() > 0 ==> collapsed(p).len() > 0 && crate::actions::is_sep(collapsed(p).last())
            == crate::actions::is_sep(p.last()),
        p.len() >= 2 ==> collapsed(p).len() >= 2,
        p.len() <= 2 ==> collapsed(p) == p,
    decreases p.len(),
{
    reveal(Seq::filter);
    let f = |c: char| !crate::actions::is_sep(c);
    let out = collapsed(p);
    if p.len() == 0 {
        assert(out =~= p);
        assert(out.filter(f) =~= p.filter(f));
    } else {
        let less = p.drop_last();
        law_separators_are_collapsed(less);
        let before = collapsed(less);
        if p.len() > 2 && crate::actions::is_sep(p.last()) && crate::actions::is_sep(
            p[p.len() - 2],
        ) {
        } else {
            assert(out.drop_last() =~= before);
            if p.len() <= 2 {
                assert(less.push(p.last()) =~= p);
            }
            assert forall|k: int| 2 <= k < out.len() implies !(crate::actions::is_sep(
                #[trigger] out[k],
            ) && crate::actions::is_sep(out[k - 1])) by {
                if k < before.len() {
                    assert(out[k] == before[k] && out[k - 1] == before[k - 1]);
                } else {
                    assert(out[k - 1] == before.last());
                    assert(less.last() == p[p.len() - 2]);
                }
            }
        }
    }
}

} // verus!
