//! What follows from a change on disk while the application runs.

use vstd::prelude::*;

use crate::crawler::{PRIORITY_BLOCK, PRIORITY_CHANGED, PRIORITY_ORPHAN};
use crate::folders::{hard_ignore, ignored_dir, Decision};
use crate::text::{is_one_of, opt, views};

verus! {

/// What is known of a changed path before a directory is classified.
#[derive(Debug)]
pub struct Change {
    pub exists: bool,
    pub is_dir: bool,
    pub name: String,
    /// The file is of a kind that is never indexed.
    pub ignored: bool,
    pub parent_name: Option<String>,
}

/// What to do about a change.
#[derive(Debug, Clone, Copy, PartialEq, Eq, Structural)]
pub enum WatchStep {
    Nothing,
    /// Put the path into the queue with this priority.
    Enqueue(i64),
    /// Put the directory above it into the queue with this priority.
    EnqueueParent(i64),
    /// Record the file in the catalogue and put it into the queue with this priority.
    Index(i64),
    /// The directory has to be classified first.
    AskSelf,
    /// The directory above has to be classified first.
    AskParent,
}

/// What is gone is put into the queue so that its vectors are purged; a directory is
/// classified; a file follows the directory that holds it.
pub open spec fn watch_step_of(c: Change) -> WatchStep {
    if !c.exists {
        WatchStep::Enqueue(PRIORITY_ORPHAN)
    } else if c.is_dir {
        if ignored_dir(c.name@) {
            WatchStep::Nothing
        } else {
            WatchStep::AskSelf
        }
    } else if c.ignored {
        WatchStep::Nothing
    } else {
        match opt(c.parent_name) {
            None => WatchStep::Index(PRIORITY_CHANGED),
            Some(p) => if ignored_dir(p) {
                WatchStep::Nothing
            } else {
                WatchStep::AskParent
            },
        }
    }
}

pub fn watch_step(c: &Change) -> (r: WatchStep)
    ensures
        r == watch_step_of(*c),
{
    if !c.exists {
        WatchStep::Enqueue(PRIORITY_ORPHAN)
    } else if c.is_dir {
        if hard_ignore(c.name.as_str()) {
            WatchStep::Nothing
        } else {
            WatchStep::AskSelf
        }
    } else if c.ignored {
        WatchStep::Nothing
    } else {
        match &c.parent_name {
            None => WatchStep::Index(PRIORITY_CHANGED),
            Some(p) => if hard_ignore(p.as_str()) {
                WatchStep::Nothing
            } else {
                WatchStep::AskParent
            },
        }
    }
}

/// The step once the directory that was asked about is classified.
pub open spec fn answered(step: WatchStep, d: Decision) -> WatchStep {
    match (step, d) {
        (WatchStep::AskSelf, Decision::Block) => WatchStep::Enqueue(PRIORITY_BLOCK),
        (WatchStep::AskSelf, _) => WatchStep::Nothing,
        (WatchStep::AskParent, Decision::Block) => WatchStep::EnqueueParent(PRIORITY_BLOCK),
        (WatchStep::AskParent, Decision::Defer) => WatchStep::Nothing,
        (WatchStep::AskParent, Decision::Recursive) => WatchStep::Index(PRIORITY_CHANGED),
        (s, _) => s,
    }
}

pub fn with_decision(step: WatchStep, d: Decision) -> (r: WatchStep)
    ensures
        r == answered(step, d),
{
    match (step, d) {
        (WatchStep::AskSelf, Decision::Block) => WatchStep::Enqueue(PRIORITY_BLOCK),
        (WatchStep::AskSelf, _) => WatchStep::Nothing,
        (WatchStep::AskParent, Decision::Block) => WatchStep::EnqueueParent(PRIORITY_BLOCK),
        (WatchStep::AskParent, Decision::Defer) => WatchStep::Nothing,
        (WatchStep::AskParent, Decision::Recursive) => WatchStep::Index(PRIORITY_CHANGED),
        (s, _) => s,
    }
}

/// The paths of `p`, each once, where it comes first.
pub open spec fn distinct(p: Seq<Seq<char>>) -> Seq<Seq<char>>
    decreases p.len(),
{
    if p.len() == 0 {
        Seq::empty()
    } else if p.drop_last().contains(p.last()) {
        distinct(p.drop_last())
    } else {
        distinct(p.drop_last()).push(p.last())
    }
}

proof fn lemma_distinct_contains(p: Seq<Seq<char>>, x: Seq<char>)
    ensures
        distinct(p).contains(x) <==> p.contains(x),
    decreases p.len(),
{
    if p.len() > 0 {
        let rest = p.drop_last();
        lemma_distinct_contains(rest, x);
        lemma_distinct_contains(rest, p.last());
        if p.contains(x) {
            let i = choose|i: int| 0 <= i < p.len() && p[i] == x;
            if i < rest.len() {
                assert(rest[i] == x);
            }
        }
        if rest.contains(x) {
            let i = choose|i: int| 0 <= i < rest.len() && rest[i] == x;
            assert(p[i] == x);
        }
        assert(p[p.len() - 1] == p.last());
        if !rest.contains(p.last()) {
            let d = distinct(rest);
            if d.contains(x) {
                let i = choose|i: int| 0 <= i < d.len() && d[i] == x;
                assert(d.push(p.last())[i] == x);
            }
            assert(d.push(p.last())[d.len() as int] == p.last());
            if d.push(p.last()).contains(x) {
                let i = choose|i: int| 0 <= i < d.push(p.last()).len() && d.push(p.last())[i] == x;
                if i < d.len() {
                    assert(d[i] == x);
                }
            }
        }
    }
}

/// A burst of events names a path once.
pub fn unique_paths(paths: &Vec<String>) -> (r: Vec<String>)
    ensures
        views(r@) == distinct(views(paths@)),
{
    let ghost all = views(paths@);
    let mut out: Vec<String> = Vec::new();
    let mut i: usize = 0;
    assert(views(out@) =~= distinct(all.take(0)));
    while i < paths.len()
        invariant
            i <= paths.len(),
            all == views(paths@),
            views(out@) == distinct(all.take(i as int)),
        decreases paths.len() - i,
    {
        assert(all.take(i + 1).drop_last() =~= all.take(i as int));
        assert(all.take(i + 1).last() == paths@[i as int]@);
        let known = is_one_of(paths[i].as_str(), &out);
        proof {
            let x = paths@[i as int]@;
            lemma_distinct_contains(all.take(i as int), x);
            if known {
                let k = choose|k: int| 0 <= k < out@.len() && (#[trigger] out@[k])@ == x;
                assert(views(out@)[k] == x);
            } else if views(out@).contains(x) {
                let k = choose|k: int| 0 <= k < views(out@).len() && views(out@)[k] == x;
                assert(out@[k]@ == x);
            }
        }
        if !known {
            let ghost before = views(out@);
            out.push(paths[i].clone());
            assert(views(out@) =~= before.push(paths@[i as int]@));
        }
        i = i + 1;
    }
    assert(all.take(i as int) =~= all);
    out
}

/// A file inside of a block is never indexed by itself: its block is refreshed.
pub proof fn law_a_file_in_a_block_refreshes_the_block(c: Change)
    requires
        watch_step_of(c) == WatchStep::AskParent,
    ensures
        answered(watch_step_of(c), Decision::Block) == WatchStep::EnqueueParent(PRIORITY_BLOCK),
{
}

/// A burst names each path once, all of its paths and no others, in the order in which they
/// first came.
pub proof fn law_a_burst_names_each_path_once(p: Seq<Seq<char>>)
    ensures
        distinct(p).no_duplicates(),
        forall|x: Seq<char>| distinct(p).contains(x) <==> #[trigger] p.contains(x),
        p.len() > 0 ==> distinct(p).len() > 0 && distinct(p)[0] == p[0],
    decreases p.len(),
{
    assert forall|x: Seq<char>| distinct(p).contains(x) <==> #[trigger] p.contains(x) by {
        lemma_distinct_contains(p, x);
    }
    if p.len() > 0 {
        let less = p.drop_last();
        law_a_burst_names_each_path_once(less);
        lemma_distinct_contains(less, p.last());
        if !less.contains(p.last()) {
            let d = distinct(less);
            let all = d.push(p.last());
            assert forall|i: int, j: int| 0 <= i < all.len() && 0 <= j < all.len() && i != j implies all[i]
                != all[j] by {
                if i < d.len() && j < d.len() {
                    assert(d[i] != d[j]);
                } else if i < d.len() {
                    assert(d.contains(d[i]));
                } else {
                    assert(d.contains(d[j]));
                }
            }
        }
        if less.len() > 0 {
            assert(distinct(p)[0] == distinct(less)[0]);
            assert(less[0] == p[0]);
        } else {
            assert(!less.contains(p.last()));
            assert(distinct(less) =~= Seq::<Seq<char>>::empty());
        }
    }
}

} // verus!
