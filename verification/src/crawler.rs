//! The walk through a root: which scan runs, which directories it enters and what it puts
//! into the queue.

use vstd::prelude::*;

use crate::db::FileMeta;
use crate::folders::{hard_ignore, ignored_dir, Decision};
use crate::text::{
    cat2, decimal, decimal_text, lower_case, str_eq, str_trim_end_of, lowered, trim_end_of,
};

verus! {

/// How many records of the catalogue are written at a time.
pub const CATALOG_FLUSH: usize = 256;

pub const PRIORITY_FILE: i64 = 5;

pub const PRIORITY_BLOCK: i64 = 6;

pub const PRIORITY_ORPHAN: i64 = 8;

pub const PRIORITY_CHANGED: i64 = 10;

// ---------------------------------------------------------------------------
// One scan of a root at a time
// ---------------------------------------------------------------------------

/// The roots that are being scanned, each with a flag: another scan of it was asked for.
#[derive(Debug)]
pub struct ScanRegistry {
    pub running: Vec<(String, bool)>,
}

/// The flag of a root; `None` where it is not being scanned.
pub open spec fn flag_of(s: Seq<(String, bool)>, key: Seq<char>) -> Option<bool>
    decreases s.len(),
{
    if s.len() == 0 {
        None
    } else if s.last().0@ == key {
        Some(s.last().1)
    } else {
        flag_of(s.drop_last(), key)
    }
}

/// Two roots of the same name, whatever the case of their letters, share a scan.
pub open spec fn key_of(path: Seq<char>) -> Seq<char> {
    lower_case(trim_end_of(path, '/', '\\'))
}

pub fn scan_key(path: &str) -> (r: String)
    ensures
        r@ == key_of(path@),
{
    lowered(str_trim_end_of(path, '/', '\\').as_str())
}

impl ScanRegistry {
    pub open spec fn flag(self, key: Seq<char>) -> Option<bool> {
        flag_of(self.running@, key)
    }

    pub fn new() -> (r: ScanRegistry)
        ensures
            forall|k: Seq<char>| #[trigger] r.flag(k) is None,
    {
        ScanRegistry { running: Vec::new() }
    }

    fn get(&self, key: &str) -> (r: Option<bool>)
        ensures
            r == self.flag(key@),
    {
        let mut i: usize = self.running.len();
        assert(self.running@.take(i as int) =~= self.running@);
        while i > 0
            invariant
                i <= self.running.len(),
                self.flag(key@) == flag_of(self.running@.take(i as int), key@),
            decreases i,
        {
            assert(self.running@.take(i as int).drop_last() =~= self.running@.take(i - 1));
            assert(self.running@.take(i as int).last() == self.running@[i - 1]);
            if str_eq(self.running[i - 1].0.as_str(), key) {
                return Some(self.running[i - 1].1);
            }
            i = i - 1;
        }
        None
    }

    /// The scan of a root is over.
    pub fn release(&mut self, key: &str)
        ensures
            forall|k: Seq<char>|
                #[trigger] final(self).flag(k) == (if k == key@ {
                    None
                } else {
                    old(self).flag(k)
                }),
    {
        let mut kept: Vec<(String, bool)> = Vec::new();
        let ghost all = self.running@;
        let mut i: usize = 0;
        assert(all.take(0) =~= Seq::<(String, bool)>::empty());
        while i < self.running.len()
            invariant
                i <= self.running.len(),
                all == self.running@,
                forall|k: Seq<char>|
                    #[trigger] flag_of(kept@, k) == (if k == key@ {
                        None
                    } else {
                        flag_of(all.take(i as int), k)
                    }),
            decreases self.running.len() - i,
        {
            assert(all.take(i + 1).drop_last() =~= all.take(i as int));
            assert(all.take(i + 1).last() == all[i as int]);
            let ghost before = kept@;
            if !str_eq(self.running[i].0.as_str(), key) {
                kept.push((self.running[i].0.clone(), self.running[i].1));
                assert(kept@.drop_last() =~= before);
                assert(kept@.last().0@ == all[i as int].0@);
            }
            assert forall|k: Seq<char>| #[trigger]
                flag_of(kept@, k) == (if k == key@ {
                    None
                } else {
                    flag_of(all.take(i + 1), k)
                }) by {
                let was = flag_of(before, k);
                assert(was == (if k == key@ {
                    None
                } else {
                    flag_of(all.take(i as int), k)
                }));
            }
            i = i + 1;
        }
        assert(all.take(i as int) =~= all);
        self.running = kept;
    }

    fn set(&mut self, key: &str, flag: bool)
        ensures
            forall|k: Seq<char>|
                #[trigger] final(self).flag(k) == (if k == key@ {
                    Some(flag)
                } else {
                    old(self).flag(k)
                }),
    {
        self.release(key);
        let ghost before = *self;
        self.running.push((key.to_owned(), flag));
        assert(self.running@.drop_last() =~= before.running@);
        assert forall|k: Seq<char>| #[trigger]
            self.flag(k) == (if k == key@ {
                Some(flag)
            } else {
                old(self).flag(k)
            }) by {
            let was = before.flag(k);
        }
    }

    /// Asks for a scan of a root. It may start (`true`) unless one is running, which then
    /// notes that another was asked for.
    pub fn request(&mut self, key: &str) -> (r: bool)
        ensures
            r == (old(self).flag(key@) is None),
            final(self).flag(key@) == flag_after_request(old(self).flag(key@)),
            forall|k: Seq<char>| k != key@ ==> #[trigger] final(self).flag(k) == old(self).flag(k),
    {
        match self.get(key) {
            Some(_) => {
                self.set(key, true);
                false
            },
            None => {
                self.set(key, false);
                true
            },
        }
    }

    /// A pass over a root is over: was another one asked for meanwhile?
    pub fn finish_pass(&mut self, key: &str) -> (r: bool)
        ensures
            r == another_pass(old(self).flag(key@)),
            final(self).flag(key@) == Some(false),
            forall|k: Seq<char>| k != key@ ==> #[trigger] final(self).flag(k) == old(self).flag(k),
    {
        let rerun = match self.get(key) {
            Some(f) => f,
            None => false,
        };
        self.set(key, false);
        rerun
    }
}

/// The flag of a root after a scan of it was asked for.
pub open spec fn flag_after_request(flag: Option<bool>) -> Option<bool> {
    Some(flag is Some)
}

/// A pass that ends with this flag is followed by another.
pub open spec fn another_pass(flag: Option<bool>) -> bool {
    flag == Some(true)
}

/// A scan that is asked for while one is running is not lost: the running one makes another
/// pass. A first request alone does not ask for a second pass.
pub proof fn law_a_request_during_a_scan_is_not_lost(flag: Option<bool>)
    ensures
        another_pass(flag_after_request(flag)) <==> flag is Some,
{
}

// ---------------------------------------------------------------------------
// The steps of a scan
// ---------------------------------------------------------------------------

/// A scan goes on as long as no new index was asked for since it started. `started` is the
/// count of such requests when it started, `now` that of the moment.
pub fn scan_goes_on(started: usize, now: usize) -> (r: bool)
    ensures
        r == (started == now),
{
    started == now
}

/// What a scan does before each entry.
#[derive(Debug, Clone, Copy, PartialEq, Eq, Structural)]
pub enum WalkStep {
    /// Leave everything as it is: what was noted belongs to an index that is gone.
    Stop,
    /// Wait a while, then ask again.
    Wait,
    /// Take the next entry.
    Next,
}

pub open spec fn walk_step_of(started: usize, now: usize, paused: bool) -> WalkStep {
    if started != now {
        WalkStep::Stop
    } else if paused {
        WalkStep::Wait
    } else {
        WalkStep::Next
    }
}

pub fn walk_step(started: usize, now: usize, paused: bool) -> (r: WalkStep)
    ensures
        r == walk_step_of(started, now, paused),
{
    if !scan_goes_on(started, now) {
        WalkStep::Stop
    } else if paused {
        WalkStep::Wait
    } else {
        WalkStep::Next
    }
}

/// The count of requests for a new index after one more.
pub open spec fn next_epoch_of(now: usize) -> usize {
    if now == usize::MAX {
        0
    } else {
        (now + 1) as usize
    }
}

pub fn next_epoch(now: usize) -> (r: usize)
    ensures
        r == next_epoch_of(now),
{
    if now == usize::MAX {
        0
    } else {
        now + 1
    }
}

/// A scan that was going on takes no other entry once a new index is asked for, whether it is
/// paused or not.
pub proof fn law_a_new_index_stops_the_scans(started: usize, now: usize, paused: bool)
    requires
        walk_step_of(started, now, paused) != WalkStep::Stop,
    ensures
        forall|p: bool|
            #[trigger] walk_step_of(started, next_epoch_of(now), p) == WalkStep::Stop,
{
}

/// What to do with an entry of the walk.
#[derive(Debug, Clone, Copy, PartialEq, Eq, Structural)]
pub enum EntryStep {
    /// The root itself: its content follows.
    Enter,
    /// A directory that is never indexed: it is not entered.
    Skip,
    /// A directory that has to be classified first.
    Classify,
    /// A file.
    File,
}

pub open spec fn entry_step_of(depth: nat, is_dir: bool, name: Seq<char>) -> EntryStep {
    if !is_dir {
        EntryStep::File
    } else if depth == 0 {
        EntryStep::Enter
    } else if ignored_dir(name) {
        EntryStep::Skip
    } else {
        EntryStep::Classify
    }
}

pub fn entry_step(depth: usize, is_dir: bool, name: &str) -> (r: EntryStep)
    ensures
        r == entry_step_of(depth as nat, is_dir, name@),
{
    if !is_dir {
        EntryStep::File
    } else if depth == 0 {
        EntryStep::Enter
    } else if hard_ignore(name) {
        EntryStep::Skip
    } else {
        EntryStep::Classify
    }
}

/// What a scan counts, and the records that wait to be written.
#[derive(Debug)]
pub struct ScanState {
    pub batch: Vec<FileMeta>,
    pub scanned: u64,
    pub queued: u64,
    pub skipped: u64,
    pub blocks: u64,
    pub deferred: u64,
}

/// What to do with a classified directory.
#[derive(Debug, Clone, Copy, PartialEq, Eq, Structural)]
pub struct DirStep {
    /// The priority with which the directory itself is put into the queue.
    pub enqueue: Option<i64>,
    pub enter: bool,
}

pub open spec fn dir_step_of(d: Decision) -> DirStep {
    match d {
        Decision::Block => DirStep { enqueue: Some(PRIORITY_BLOCK), enter: false },
        Decision::Defer => DirStep { enqueue: None, enter: false },
        Decision::Recursive => DirStep { enqueue: None, enter: true },
    }
}

impl ScanState {
    pub open spec fn counts(self) -> (u64, u64, u64, u64, u64) {
        (self.scanned, self.queued, self.skipped, self.blocks, self.deferred)
    }

    pub fn new() -> (r: ScanState)
        ensures
            r.batch@.len() == 0,
            r.counts() == (0u64, 0u64, 0u64, 0u64, 0u64),
    {
        ScanState {
            batch: Vec::new(),
            scanned: 0,
            queued: 0,
            skipped: 0,
            blocks: 0,
            deferred: 0,
        }
    }

    /// Notes an entry for the catalogue; a full batch is handed out to be written.
    pub fn note(&mut self, meta: FileMeta) -> (r: Option<Vec<FileMeta>>)
        requires
            old(self).batch@.len() < CATALOG_FLUSH,
        ensures
            final(self).batch@.len() < CATALOG_FLUSH,
            final(self).counts() == old(self).counts(),
            match r {
                Some(full) => full@ == old(self).batch@.push(meta) && final(self).batch@.len() == 0
                    && full@.len() == CATALOG_FLUSH,
                None => final(self).batch@ == old(self).batch@.push(meta),
            },
    {
        self.batch.push(meta);
        if self.batch.len() >= CATALOG_FLUSH {
            let mut full: Vec<FileMeta> = Vec::new();
            std::mem::swap(&mut full, &mut self.batch);
            Some(full)
        } else {
            None
        }
    }

    /// Takes note of how a directory is treated.
    pub fn on_directory(&mut self, d: Decision) -> (r: DirStep)
        requires
            old(self).blocks < u64::MAX,
            old(self).deferred < u64::MAX,
        ensures
            r == dir_step_of(d),
            final(self).batch == old(self).batch,
            final(self).counts() == (
                old(self).scanned,
                old(self).queued,
                old(self).skipped,
                if d == Decision::Block {
                    (old(self).blocks + 1) as u64
                } else {
                    old(self).blocks
                },
                if d == Decision::Defer {
                    (old(self).deferred + 1) as u64
                } else {
                    old(self).deferred
                },
            ),
    {
        match d {
            Decision::Block => {
                self.blocks = self.blocks + 1;
                DirStep { enqueue: Some(PRIORITY_BLOCK), enter: false }
            },
            Decision::Defer => {
                self.deferred = self.deferred + 1;
                DirStep { enqueue: None, enter: false }
            },
            Decision::Recursive => DirStep { enqueue: None, enter: true },
        }
    }

    /// Takes note of a file; gives the priority with which it is put into the queue.
    /// A file that is up to date or ignored is not.
    pub fn on_file(&mut self, needs_indexing: bool, ignored: bool) -> (r: Option<i64>)
        requires
            old(self).scanned < u64::MAX,
            old(self).queued < u64::MAX,
            old(self).skipped < u64::MAX,
        ensures
            r == (if needs_indexing && !ignored {
                Some(PRIORITY_FILE)
            } else {
                None
            }),
            final(self).batch == old(self).batch,
            final(self).counts() == (
                (old(self).scanned + 1) as u64,
                if needs_indexing && !ignored {
                    (old(self).queued + 1) as u64
                } else {
                    old(self).queued
                },
                if !needs_indexing {
                    (old(self).skipped + 1) as u64
                } else {
                    old(self).skipped
                },
                old(self).blocks,
                old(self).deferred,
            ),
    {
        self.scanned = self.scanned + 1;
        if !needs_indexing {
            self.skipped = self.skipped + 1;
            return None;
        }
        if ignored {
            return None;
        }
        self.queued = self.queued + 1;
        Some(PRIORITY_FILE)
    }

    /// Ends a scan. The records that are left are handed out to be written, and what the scan
    /// did not meet is gone from the disk; a scan that was stopped says neither.
    pub fn finish(&mut self, stopped: bool) -> (r: Option<Vec<FileMeta>>)
        ensures
            final(self).counts() == old(self).counts(),
            final(self).batch@.len() == 0,
            match r {
                Some(rest) => !stopped && rest@ == old(self).batch@,
                None => stopped,
            },
    {
        let mut rest: Vec<FileMeta> = Vec::new();
        std::mem::swap(&mut rest, &mut self.batch);
        if stopped {
            None
        } else {
            Some(rest)
        }
    }

    /// The counts in words.
    pub fn summary(&self, orphans: usize) -> (r: String)
        ensures
            r@ == "Fichiers: "@ + decimal(self.scanned as nat) + ", à jour: "@ + decimal(
                self.skipped as nat,
            ) + ", en file: "@ + decimal(self.queued as nat) + ", blocs: "@ + decimal(
                self.blocks as nat,
            ) + ", reportés: "@ + decimal(self.deferred as nat) + ", orphelins: "@ + decimal(
                orphans as nat,
            ) + "."@,
    {
        let mut s = cat2("Fichiers: ", decimal_text(self.scanned).as_str());
        s.append(", à jour: ");
        s.append(decimal_text(self.skipped).as_str());
        s.append(", en file: ");
        s.append(decimal_text(self.queued).as_str());
        s.append(", blocs: ");
        s.append(decimal_text(self.blocks).as_str());
        s.append(", reportés: ");
        s.append(decimal_text(self.deferred).as_str());
        s.append(", orphelins: ");
        s.append(decimal_text(orphans as u64).as_str());
        s.append(".");
        s
    }
}

// ---------------------------------------------------------------------------
// The classifier that catches up
// ---------------------------------------------------------------------------

/// What the background classifier does with a directory that had been put off.
#[derive(Debug, Clone, Copy, PartialEq, Eq, Structural)]
pub enum CatchUp {
    /// It is a block: put it into the queue with this priority.
    Enqueue(i64),
    Scan,
    /// No model answers: the round is over.
    StopRound,
}

pub fn catch_up(d: Decision) -> (r: CatchUp)
    ensures
        r == (match d {
            Decision::Block => CatchUp::Enqueue(PRIORITY_BLOCK),
            Decision::Recursive => CatchUp::Scan,
            Decision::Defer => CatchUp::StopRound,
        }),
{
    match d {
        Decision::Block => CatchUp::Enqueue(PRIORITY_BLOCK),
        Decision::Recursive => CatchUp::Scan,
        Decision::Defer => CatchUp::StopRound,
    }
}

/// The seconds until the next round: long where there is nothing to do or no model answers.
pub fn next_round_secs(worked: bool, ai_unavailable: bool) -> (r: u64)
    ensures
        r == (if !worked || ai_unavailable {
            20
        } else {
            2u64
        }),
{
    if !worked || ai_unavailable {
        20
    } else {
        2
    }
}

/// The folder that is scanned is entered whatever its name; below it no hidden folder is, nor one
/// of tools, and every file is looked at.
pub proof fn law_a_scan_enters_what_is_asked_for(depth: nat, name: Seq<char>)
    ensures
        entry_step_of(0, true, name) == EntryStep::Enter,
        entry_step_of(depth, false, name) == EntryStep::File,
        depth > 0 && name.len() > 0 && name[0] == '.' ==> entry_step_of(depth, true, name)
            == EntryStep::Skip,
        depth > 0 && name == "node_modules"@ ==> entry_step_of(depth, true, name)
            == EntryStep::Skip,
        depth > 0 && !ignored_dir(name) ==> entry_step_of(depth, true, name)
            == EntryStep::Classify,
{
    reveal_strlit(".");
    if name.len() > 0 && name[0] == '.' {
        assert(name.subrange(0, 1) =~= "."@);
    }
}

/// A folder is either explored or queued as a block, never both; one that is put off is neither.
pub proof fn law_a_folder_is_explored_or_queued(d: Decision)
    ensures
        dir_step_of(d).enter <==> d == Decision::Recursive,
        dir_step_of(d).enqueue is Some <==> d == Decision::Block,
{
}

/// A folder is scanned once at a time, however its path ends.
pub proof fn law_separators_at_the_end_make_no_difference(path: Seq<char>, sep: char)
    requires
        sep == '/' || sep == '\\',
    ensures
        key_of(path.push(sep)) == key_of(path),
{
    assert(path.push(sep).drop_last() =~= path);
}

} // verus!
