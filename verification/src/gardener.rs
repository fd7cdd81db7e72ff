//! The structural diagnosis of directories. It only reads: tidying up always goes through
//! an action plan.

use vstd::prelude::*;

use crate::actions::is_sep;
use crate::db::DuplicateGroup;
use crate::text::{
    cat2, cat3, decimal, decimal_text, join, joined, str_eq, to_chars, to_text, trim_end_of,
    trimmed_end_of, views,
};

verus! {

/// More files than this directly in a directory are a clutter.
pub const CLUTTER_THRESHOLD: usize = 40;

/// A tree deeper than this is too deep.
pub const DEEP_THRESHOLD: usize = 6;

/// How many entries of a tree are looked at.
pub const WALK_CAP: usize = 200_000;

/// The seconds between two diagnoses of the same roots.
pub const INTERVAL_SECS: u64 = 300;

#[derive(Debug, Clone, Copy, PartialEq, Eq, Structural)]
pub enum HealthSeverity {
    Healthy,
    Info,
    Warn,
}

#[derive(Debug)]
pub struct FolderHealth {
    pub path: String,
    pub name: String,
    pub file_count: usize,
    pub direct_files: usize,
    pub duplicate_files: usize,
    pub duplicate_groups: usize,
    pub empty_dirs: usize,
    pub max_depth: usize,
    pub cluttered: bool,
    pub severity: HealthSeverity,
    pub headline: String,
}

#[derive(Debug)]
pub struct GardenerReport {
    pub folders: Vec<FolderHealth>,
    pub anomaly_count: usize,
    /// In seconds since the epoch; 0 before the first diagnosis.
    pub scanned_at: u64,
}

impl Default for GardenerReport {
    fn default() -> (r: GardenerReport)
        ensures
            r.folders@.len() == 0,
            r.anomaly_count == 0,
            r.scanned_at == 0,
    {
        GardenerReport { folders: Vec::new(), anomaly_count: 0, scanned_at: 0 }
    }
}

// ---------------------------------------------------------------------------
// Names
// ---------------------------------------------------------------------------

/// What stands behind the last separator.
pub open spec fn last_segment(s: Seq<char>) -> Seq<char>
    decreases s.len(),
{
    if s.len() == 0 || is_sep(s.last()) {
        Seq::empty()
    } else {
        last_segment(s.drop_last()).push(s.last())
    }
}

/// The last named segment of a path, or the path where it has none.
pub open spec fn name_of_folder(path: Seq<char>) -> Seq<char> {
    let segment = last_segment(trim_end_of(path, '\\', '/'));
    if segment.len() == 0 {
        path
    } else {
        segment
    }
}

proof fn lemma_last_segment(s: Seq<char>, k: int)
    requires
        0 <= k <= s.len(),
        forall|i: int| k <= i < s.len() ==> !is_sep(#[trigger] s[i]),
        k > 0 ==> is_sep(s[k - 1]),
    ensures
        last_segment(s) == s.skip(k),
    decreases s.len(),
{
    if s.len() == k {
        assert(s.skip(k) =~= Seq::<char>::empty());
    } else {
        lemma_last_segment(s.drop_last(), k);
        assert(s.drop_last().skip(k).push(s.last()) =~= s.skip(k));
    }
}

pub fn folder_name(path: &str) -> (r: String)
    ensures
        r@ == name_of_folder(path@),
{
    let c = to_chars(path);
    let t = trimmed_end_of(c.as_slice(), '\\', '/');
    let mut k: usize = t.len();
    while k > 0 && t[k - 1] != '\\' && t[k - 1] != '/'
        invariant
            k <= t.len(),
            forall|i: int| k <= i < t@.len() ==> !is_sep(#[trigger] t@[i]),
        decreases k,
    {
        k = k - 1;
    }
    proof {
        lemma_last_segment(t@, k as int);
        assert(t@.skip(k as int) =~= t@.subrange(k as int, t@.len() as int));
    }
    if k == t.len() {
        path.to_owned()
    } else {
        to_text(crate::text::part(t, k, t.len()))
    }
}

// ---------------------------------------------------------------------------
// Diagnosis
// ---------------------------------------------------------------------------

pub open spec fn severity_of(duplicates: nat, direct: nat, empty: nat, depth: nat) -> HealthSeverity {
    if duplicates > 0 || direct > CLUTTER_THRESHOLD {
        HealthSeverity::Warn
    } else if empty > 0 || depth > DEEP_THRESHOLD {
        HealthSeverity::Info
    } else {
        HealthSeverity::Healthy
    }
}

pub open spec fn only_if(b: bool, s: Seq<char>) -> Seq<Seq<char>> {
    if b {
        seq![s]
    } else {
        Seq::empty()
    }
}

/// What is wrong, one entry for each symptom.
pub open spec fn symptoms(duplicates: nat, direct: nat, empty: nat, depth: nat) -> Seq<Seq<char>> {
    only_if(duplicates > 0, decimal(duplicates) + " doublon(s)"@) + only_if(
        direct > CLUTTER_THRESHOLD,
        "en vrac ("@ + decimal(direct) + ")"@,
    ) + only_if(depth > DEEP_THRESHOLD, "profond (niv. "@ + decimal(depth) + ")"@) + only_if(
        empty > 0,
        decimal(empty) + " dossier(s) vide(s)"@,
    )
}

pub open spec fn headline_of(duplicates: nat, direct: nat, empty: nat, depth: nat) -> Seq<char> {
    let parts = symptoms(duplicates, direct, empty, depth);
    if parts.len() == 0 {
        "Bien rangé"@
    } else {
        join(parts, " · "@)
    }
}

pub fn diagnose(
    duplicate_files: usize,
    direct_files: usize,
    empty_dirs: usize,
    max_depth: usize,
) -> (r: (HealthSeverity, String))
    ensures
        r.0 == severity_of(
            duplicate_files as nat,
            direct_files as nat,
            empty_dirs as nat,
            max_depth as nat,
        ),
        r.1@ == headline_of(
            duplicate_files as nat,
            direct_files as nat,
            empty_dirs as nat,
            max_depth as nat,
        ),
{
    let cluttered = direct_files > CLUTTER_THRESHOLD;
    let deep = max_depth > DEEP_THRESHOLD;
    let severity = if duplicate_files > 0 || cluttered {
        HealthSeverity::Warn
    } else if empty_dirs > 0 || deep {
        HealthSeverity::Info
    } else {
        HealthSeverity::Healthy
    };
    let mut parts: Vec<String> = Vec::new();
    if duplicate_files > 0 {
        parts.push(cat2(decimal_text(duplicate_files as u64).as_str(), " doublon(s)"));
    }
    assert(views(parts@) =~= only_if(
        duplicate_files > 0,
        decimal(duplicate_files as nat) + " doublon(s)"@,
    ));
    let ghost p1 = views(parts@);
    if cluttered {
        parts.push(cat3("en vrac (", decimal_text(direct_files as u64).as_str(), ")"));
    }
    assert(views(parts@) =~= p1 + only_if(
        cluttered,
        "en vrac ("@ + decimal(direct_files as nat) + ")"@,
    ));
    let ghost p2 = views(parts@);
    if deep {
        parts.push(cat3("profond (niv. ", decimal_text(max_depth as u64).as_str(), ")"));
    }
    assert(views(parts@) =~= p2 + only_if(
        deep,
        "profond (niv. "@ + decimal(max_depth as nat) + ")"@,
    ));
    let ghost p3 = views(parts@);
    if empty_dirs > 0 {
        parts.push(cat2(decimal_text(empty_dirs as u64).as_str(), " dossier(s) vide(s)"));
    }
    assert(views(parts@) =~= p3 + only_if(
        empty_dirs > 0,
        decimal(empty_dirs as nat) + " dossier(s) vide(s)"@,
    ));
    let headline = if parts.len() == 0 {
        "Bien rangé".to_owned()
    } else {
        joined(&parts, " · ")
    };
    (severity, headline)
}

// ---------------------------------------------------------------------------
// Counting a tree
// ---------------------------------------------------------------------------

#[derive(Debug, Clone, Copy, PartialEq, Eq, Structural)]
pub enum EntryKind {
    File,
    Dir,
    Other,
}

/// One entry of a walk through a tree. `is_empty` says of a directory that it holds nothing.
#[derive(Debug)]
pub struct WalkEntry {
    pub path: String,
    pub depth: usize,
    pub kind: EntryKind,
    pub is_empty: bool,
}

pub open spec fn files_in(e: Seq<WalkEntry>) -> nat
    decreases e.len(),
{
    if e.len() == 0 {
        0
    } else {
        files_in(e.drop_last()) + if e.last().kind == EntryKind::File {
            1nat
        } else {
            0
        }
    }
}

/// The files directly in the directory that was walked.
pub open spec fn direct_files_in(e: Seq<WalkEntry>) -> nat
    decreases e.len(),
{
    if e.len() == 0 {
        0
    } else {
        direct_files_in(e.drop_last()) + if e.last().kind == EntryKind::File && e.last().depth
            == 1 {
            1nat
        } else {
            0
        }
    }
}

/// The depth of the deepest file.
pub open spec fn depth_of(e: Seq<WalkEntry>) -> nat
    decreases e.len(),
{
    if e.len() == 0 {
        0
    } else if e.last().kind == EntryKind::File && e.last().depth > depth_of(e.drop_last()) {
        e.last().depth as nat
    } else {
        depth_of(e.drop_last())
    }
}

/// The empty directories below the one that was walked.
pub open spec fn empty_dirs_in(e: Seq<WalkEntry>) -> Seq<Seq<char>>
    decreases e.len(),
{
    if e.len() == 0 {
        Seq::empty()
    } else if e.last().kind == EntryKind::Dir && e.last().depth > 0 && e.last().is_empty {
        empty_dirs_in(e.drop_last()).push(e.last().path@)
    } else {
        empty_dirs_in(e.drop_last())
    }
}

#[derive(Debug)]
pub struct Survey {
    pub file_count: usize,
    pub direct_files: usize,
    pub max_depth: usize,
    pub empty_dirs: Vec<String>,
}

pub open spec fn capped(e: Seq<WalkEntry>, cap: nat) -> Seq<WalkEntry> {
    if e.len() <= cap {
        e
    } else {
        e.take(cap as int)
    }
}

/// Counts the first `cap` entries of a walk.
pub fn survey(entries: &Vec<WalkEntry>, cap: usize) -> (r: Survey)
    ensures
        r.file_count == files_in(capped(entries@, cap as nat)),
        r.direct_files == direct_files_in(capped(entries@, cap as nat)),
        r.max_depth == depth_of(capped(entries@, cap as nat)),
        views(r.empty_dirs@) == empty_dirs_in(capped(entries@, cap as nat)),
{
    let mut file_count: usize = 0;
    let mut direct_files: usize = 0;
    let mut max_depth: usize = 0;
    let mut empty_dirs: Vec<String> = Vec::new();
    let mut i: usize = 0;
    assert(entries@.take(0) =~= Seq::<WalkEntry>::empty());
    assert(views(empty_dirs@) =~= Seq::<Seq<char>>::empty());
    while i < entries.len() && i < cap
        invariant
            i <= entries.len(),
            i <= cap,
            file_count <= i,
            direct_files <= i,
            file_count == files_in(entries@.take(i as int)),
            direct_files == direct_files_in(entries@.take(i as int)),
            max_depth == depth_of(entries@.take(i as int)),
            views(empty_dirs@) == empty_dirs_in(entries@.take(i as int)),
        decreases entries.len() - i,
    {
        assert(entries@.take(i + 1).drop_last() =~= entries@.take(i as int));
        assert(entries@.take(i + 1).last() == entries@[i as int]);
        let e = &entries[i];
        if e.kind == EntryKind::File {
            file_count = file_count + 1;
            if e.depth == 1 {
                direct_files = direct_files + 1;
            }
            if e.depth > max_depth {
                max_depth = e.depth;
            }
        } else if e.kind == EntryKind::Dir && e.depth > 0 && e.is_empty {
            let ghost before = views(empty_dirs@);
            empty_dirs.push(e.path.clone());
            assert(views(empty_dirs@) =~= before.push(e.path@));
        }
        i = i + 1;
    }
    assert(entries@.take(i as int) =~= capped(entries@, cap as nat));
    Survey { file_count, direct_files, max_depth, empty_dirs }
}

/// The number of files in all groups.
pub open spec fn duplicates_in(groups: Seq<DuplicateGroup>) -> nat
    decreases groups.len(),
{
    if groups.len() == 0 {
        0
    } else {
        duplicates_in(groups.drop_last()) + groups.last().paths@.len()
    }
}

proof fn lemma_duplicates_prefix(groups: Seq<DuplicateGroup>, n: int)
    requires
        0 <= n <= groups.len(),
    ensures
        duplicates_in(groups.take(n)) <= duplicates_in(groups),
    decreases groups.len() - n,
{
    if n < groups.len() {
        assert(groups.take(n + 1).drop_last() =~= groups.take(n));
        lemma_duplicates_prefix(groups, n + 1);
    } else {
        assert(groups.take(n) =~= groups);
    }
}

pub fn count_duplicates(groups: &Vec<DuplicateGroup>) -> (r: usize)
    requires
        duplicates_in(groups@) <= usize::MAX,
    ensures
        r == duplicates_in(groups@),
{
    let mut total: usize = 0;
    let mut i: usize = 0;
    assert(groups@.take(0) =~= Seq::<DuplicateGroup>::empty());
    while i < groups.len()
        invariant
            i <= groups.len(),
            total == duplicates_in(groups@.take(i as int)),
            duplicates_in(groups@) <= usize::MAX,
        decreases groups.len() - i,
    {
        assert(groups@.take(i + 1).drop_last() =~= groups@.take(i as int));
        assert(groups@.take(i + 1).last() == groups@[i as int]);
        proof {
            lemma_duplicates_prefix(groups@, i + 1);
        }
        total = total + groups[i].paths.len();
        i = i + 1;
    }
    assert(groups@.take(i as int) =~= groups@);
    total
}

/// The health of a directory, from a walk through it and its duplicates.
pub fn compute_health(path: &str, entries: &Vec<WalkEntry>, groups: &Vec<DuplicateGroup>) -> (r:
    FolderHealth)
    requires
        duplicates_in(groups@) <= usize::MAX,
    ensures
        ({
            let seen = capped(entries@, WALK_CAP as nat);
            let empty = empty_dirs_in(seen).len();
            &&& r.path@ == path@
            &&& r.name@ == name_of_folder(path@)
            &&& r.file_count == files_in(seen)
            &&& r.direct_files == direct_files_in(seen)
            &&& r.max_depth == depth_of(seen)
            &&& r.empty_dirs == empty
            &&& r.duplicate_groups == groups@.len()
            &&& r.duplicate_files == duplicates_in(groups@)
            &&& r.cluttered == (direct_files_in(seen) > CLUTTER_THRESHOLD)
            &&& r.severity == severity_of(
                duplicates_in(groups@),
                direct_files_in(seen),
                empty,
                depth_of(seen),
            )
            &&& r.headline@ == headline_of(
                duplicates_in(groups@),
                direct_files_in(seen),
                empty,
                depth_of(seen),
            )
        }),
{
    let s = survey(entries, WALK_CAP);
    let duplicate_files: usize = count_duplicates(groups);
    let empty_dirs: usize = s.empty_dirs.len();
    assert(views(s.empty_dirs@).len() == empty_dirs);
    let (severity, headline) = diagnose(duplicate_files, s.direct_files, empty_dirs, s.max_depth);
    FolderHealth {
        path: path.to_owned(),
        name: folder_name(path),
        file_count: s.file_count,
        direct_files: s.direct_files,
        duplicate_files,
        duplicate_groups: groups.len(),
        empty_dirs,
        max_depth: s.max_depth,
        cluttered: s.direct_files > CLUTTER_THRESHOLD,
        severity,
        headline,
    }
}

pub open spec fn anomalies(folders: Seq<FolderHealth>) -> nat
    decreases folders.len(),
{
    if folders.len() == 0 {
        0
    } else {
        anomalies(folders.drop_last()) + if folders.last().severity != HealthSeverity::Healthy {
            1nat
        } else {
            0
        }
    }
}

pub fn build_report(folders: Vec<FolderHealth>, scanned_at: u64) -> (r: GardenerReport)
    ensures
        r.folders == folders,
        r.anomaly_count == anomalies(folders@),
        r.scanned_at == scanned_at,
{
    let mut n: usize = 0;
    let mut i: usize = 0;
    assert(folders@.take(0) =~= Seq::<FolderHealth>::empty());
    while i < folders.len()
        invariant
            i <= folders.len(),
            n <= i,
            n == anomalies(folders@.take(i as int)),
        decreases folders.len() - i,
    {
        assert(folders@.take(i + 1).drop_last() =~= folders@.take(i as int));
        assert(folders@.take(i + 1).last() == folders@[i as int]);
        if folders[i].severity != HealthSeverity::Healthy {
            n = n + 1;
        }
        i = i + 1;
    }
    assert(folders@.take(i as int) =~= folders@);
    GardenerReport { folders, anomaly_count: n, scanned_at }
}

fn same_texts(a: &Vec<String>, b: &Vec<String>) -> (r: bool)
    ensures
        r == (views(a@) == views(b@)),
{
    if a.len() != b.len() {
        assert(views(a@).len() != views(b@).len());
        return false;
    }
    let mut i: usize = 0;
    while i < a.len()
        invariant
            i <= a.len(),
            a.len() == b.len(),
            forall|k: int| 0 <= k < i ==> views(a@)[k] == views(b@)[k],
        decreases a.len() - i,
    {
        if !str_eq(a[i].as_str(), b[i].as_str()) {
            assert(views(a@)[i as int] != views(b@)[i as int]);
            return false;
        }
        i = i + 1;
    }
    assert(views(a@) =~= views(b@));
    true
}

/// A new diagnosis is due: none was made, or the last one is old, or the roots changed.
pub fn diagnosis_due(elapsed_secs: Option<u64>, roots: &Vec<String>, last_roots: &Vec<String>) -> (r:
    bool)
    ensures
        r == (match elapsed_secs {
            None => true,
            Some(t) => t >= INTERVAL_SECS || views(roots@) != views(last_roots@),
        }),
{
    match elapsed_secs {
        None => true,
        Some(t) => t >= INTERVAL_SECS || !same_texts(roots, last_roots),
    }
}

// ---------------------------------------------------------------------------
// Laws
// ---------------------------------------------------------------------------

/// A directory has the headline of a tidy one exactly when its severity says so.
pub proof fn law_tidy_means_no_symptom(duplicates: nat, direct: nat, empty: nat, depth: nat)
    ensures
        severity_of(duplicates, direct, empty, depth) == HealthSeverity::Healthy <==> symptoms(
            duplicates,
            direct,
            empty,
            depth,
        ).len() == 0,
{
}

/// The files directly in a directory are among its files.
pub proof fn law_direct_files_are_files(e: Seq<WalkEntry>)
    ensures
        direct_files_in(e) <= files_in(e) <= e.len(),
    decreases e.len(),
{
    if e.len() > 0 {
        law_direct_files_are_files(e.drop_last());
    }
}

/// The counts of a tree count what they say: each file once, each file directly in the
/// directory once, and each empty directory below it by its path.
pub proof fn law_each_entry_is_counted_once(e: Seq<WalkEntry>)
    ensures
        files_in(e) == e.filter(|x: WalkEntry| x.kind == EntryKind::File).len(),
        direct_files_in(e) == e.filter(
            |x: WalkEntry| x.kind == EntryKind::File && x.depth == 1,
        ).len(),
        empty_dirs_in(e) == e.filter(
            |x: WalkEntry| x.kind == EntryKind::Dir && x.depth > 0 && x.is_empty,
        ).map_values(|x: WalkEntry| x.path@),
    decreases e.len(),
{
    reveal(Seq::filter);
    let empty = |x: WalkEntry| x.kind == EntryKind::Dir && x.depth > 0 && x.is_empty;
    let path = |x: WalkEntry| x.path@;
    if e.len() > 0 {
        law_each_entry_is_counted_once(e.drop_last());
        if empty(e.last()) {
            assert(e.filter(empty).map_values(path) =~= e.drop_last().filter(empty).map_values(
                path,
            ).push(e.last().path@));
        }
    } else {
        assert(empty_dirs_in(e) =~= e.filter(empty).map_values(path));
    }
}

/// The depth is that of the deepest file.
pub proof fn law_the_depth_is_that_of_the_deepest_file(e: Seq<WalkEntry>)
    ensures
        forall|i: int|
            0 <= i < e.len() && (#[trigger] e[i]).kind == EntryKind::File ==> e[i].depth <= depth_of(
                e,
            ),
        depth_of(e) == 0 || exists|i: int|
            0 <= i < e.len() && (#[trigger] e[i]).kind == EntryKind::File && e[i].depth == depth_of(e),
    decreases e.len(),
{
    if e.len() > 0 {
        let less = e.drop_last();
        law_the_depth_is_that_of_the_deepest_file(less);
        assert forall|i: int| 0 <= i < e.len() && (#[trigger] e[i]).kind == EntryKind::File implies e[i].depth
            <= depth_of(e) by {
            if i < less.len() {
                assert(less[i] == e[i]);
            }
        }
        if depth_of(e) != 0 {
            if e.last().kind == EntryKind::File && e.last().depth > depth_of(less) {
                assert(e[e.len() - 1].depth == depth_of(e));
            } else {
                let i = choose|i: int|
                    0 <= i < less.len() && (#[trigger] less[i]).kind == EntryKind::File
                        && less[i].depth == depth_of(less);
                assert(e[i] == less[i]);
            }
        }
    }
}

/// What weighs: a duplicate or more than 40 loose files are a warning, whatever else holds; an
/// empty directory or a tree deeper than 6 is worth a word; nothing of these is healthy.
pub proof fn law_each_symptom_weighs(duplicates: nat, direct: nat, empty: nat, depth: nat)
    ensures
        duplicates > 0 ==> severity_of(duplicates, direct, empty, depth) == HealthSeverity::Warn,
        direct > 40 ==> severity_of(duplicates, direct, empty, depth) == HealthSeverity::Warn,
        duplicates == 0 && direct <= 40 && (empty > 0 || depth > 6) ==> severity_of(
            duplicates,
            direct,
            empty,
            depth,
        ) == HealthSeverity::Info,
        duplicates == 0 && direct <= 40 && empty == 0 && depth <= 6 ==> severity_of(
            duplicates,
            direct,
            empty,
            depth,
        ) == HealthSeverity::Healthy,
        symptoms(duplicates, direct, empty, depth).len() == (if duplicates > 0 {
            1int
        } else {
            0
        }) + (if direct > 40 {
            1int
        } else {
            0
        }) + (if depth > 6 {
            1int
        } else {
            0
        }) + (if empty > 0 {
            1int
        } else {
            0
        }),
{
}

/// The duplicates are all the files of all the groups.
pub proof fn law_duplicates_add_up(a: Seq<DuplicateGroup>, b: Seq<DuplicateGroup>)
    ensures
        duplicates_in(a + b) == duplicates_in(a) + duplicates_in(b),
        a.len() == 1 ==> duplicates_in(a) == a[0].paths@.len(),
    decreases b.len(),
{
    if a.len() == 1 {
        assert(duplicates_in(a.drop_last()) == 0);
    }
    if b.len() == 0 {
        assert(a + b =~= a);
    } else {
        law_duplicates_add_up(a, b.drop_last());
        assert((a + b).drop_last() =~= a + b.drop_last());
        assert((a + b).last() == b.last());
    }
}

/// The report counts each folder that is not healthy.
pub proof fn law_each_anomaly_is_counted_once(folders: Seq<FolderHealth>)
    ensures
        anomalies(folders) == folders.filter(
            |f: FolderHealth| f.severity != HealthSeverity::Healthy,
        ).len(),
    decreases folders.len(),
{
    reveal(Seq::filter);
    if folders.len() > 0 {
        law_each_anomaly_is_counted_once(folders.drop_last());
    }
}

/// The name of a folder is what stands behind its last separator, whatever separators end it.
pub proof fn law_a_folder_is_named_by_its_last_segment(above: Seq<char>, name: Seq<char>, c: char)
    requires
        is_sep(c),
        name.len() > 0,
        forall|i: int| 0 <= i < name.len() ==> !is_sep(#[trigger] name[i]),
    ensures
        name_of_folder(above.push(c) + name) == name,
        name_of_folder((above.push(c) + name).push(c)) == name,
{
    let p = above.push(c) + name;
    assert(!is_sep(name[name.len() - 1]));
    assert(p.last() == name.last());
    assert(trim_end_of(p, '\\', '/') == p);
    assert(p.push(c).drop_last() =~= p);
    assert(trim_end_of(p.push(c), '\\', '/') == p);
    lemma_segment_behind(above.push(c), name);
}

proof fn lemma_segment_behind(front: Seq<char>, name: Seq<char>)
    requires
        front.len() > 0,
        is_sep(front.last()),
        forall|i: int| 0 <= i < name.len() ==> !is_sep(#[trigger] name[i]),
    ensures
        last_segment(front + name) == name,
    decreases name.len(),
{
    if name.len() == 0 {
        assert(front + name =~= front);
        assert(last_segment(front) =~= name);
    } else {
        let less = name.drop_last();
        assert forall|i: int| 0 <= i < less.len() implies !is_sep(#[trigger] less[i]) by {
            assert(less[i] == name[i]);
        }
        lemma_segment_behind(front, less);
        assert((front + name).drop_last() =~= front + less);
        assert(!is_sep(name[name.len() - 1]));
        assert((front + name).last() == name.last());
        assert(less.push(name.last()) =~= name);
    }
}

/// The headline tells every symptom, with its number, and says that all is well only where there
/// is none.
pub proof fn law_the_headline_tells_every_symptom(
    duplicates: nat,
    direct: nat,
    empty: nat,
    depth: nat,
    i: int,
)
    ensures
        0 <= i < symptoms(duplicates, direct, empty, depth).len() ==> crate::reading::holds(
            headline_of(duplicates, direct, empty, depth),
            symptoms(duplicates, direct, empty, depth)[i],
        ),
        duplicates > 0 ==> crate::reading::holds(
            headline_of(duplicates, direct, empty, depth),
            decimal(duplicates) + " doublon(s)"@,
        ),
        empty > 0 ==> crate::reading::holds(
            headline_of(duplicates, direct, empty, depth),
            decimal(empty) + " dossier(s) vide(s)"@,
        ),
        depth > DEEP_THRESHOLD ==> crate::reading::holds(
            headline_of(duplicates, direct, empty, depth),
            "profond (niv. "@ + decimal(depth) + ")"@,
        ),
        direct > CLUTTER_THRESHOLD ==> crate::reading::holds(
            headline_of(duplicates, direct, empty, depth),
            "en vrac ("@ + decimal(direct) + ")"@,
        ),
{
    let s = symptoms(duplicates, direct, empty, depth);
    if 0 <= i < s.len() {
        crate::reading::lemma_join_holds(s, " · "@, i);
    }
    let a: int = if duplicates > 0 {
        1
    } else {
        0
    };
    let b: int = if direct > CLUTTER_THRESHOLD {
        1
    } else {
        0
    };
    let c: int = if depth > DEEP_THRESHOLD {
        1
    } else {
        0
    };
    if duplicates > 0 {
        assert(s[0] == decimal(duplicates) + " doublon(s)"@);
        crate::reading::lemma_join_holds(s, " · "@, 0);
    }
    if direct > CLUTTER_THRESHOLD {
        assert(s[a] == "en vrac ("@ + decimal(direct) + ")"@);
        crate::reading::lemma_join_holds(s, " · "@, a);
    }
    if depth > DEEP_THRESHOLD {
        assert(s[a + b] == "profond (niv. "@ + decimal(depth) + ")"@);
        crate::reading::lemma_join_holds(s, " · "@, a + b);
    }
    if empty > 0 {
        assert(s[a + b + c] == decimal(empty) + " dossier(s) vide(s)"@);
        crate::reading::lemma_join_holds(s, " · "@, a + b + c);
    }
}

} // verus!
