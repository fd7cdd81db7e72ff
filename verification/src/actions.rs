//! Action plans: what may be done to the files of the user, and how it is done and undone.
//!
//! Nothing is written to disk without a plan that was recorded as a draft and approved.
//! A plan runs as a transaction: at the first failure everything done so far is undone, in
//! reverse order. A deletion is a move to a local trash and so can be undone too.

use vstd::prelude::*;

use crate::db::DuplicateGroup;
use crate::explorer::{find_value, lookup};
use crate::gardener::{
    count_duplicates, depth_of, direct_files_in, duplicates_in, empty_dirs_in, files_in, survey,
    only_if, WalkEntry, CLUTTER_THRESHOLD, DEEP_THRESHOLD,
};
use crate::text::{
    at, cat2, cat3, cat4, cat5, decimal, decimal_text, find, index_of, join, joined,
    char_views, last_index_of, lemma_split_is_some, lemma_split_joins, lower_case, lowered, opt,
    opt_eq, part, rfind, split, splitted, starts_with, str_eq, to_chars, to_text, trim_end_of,
    trimmed_end_of, views,
};

verus! {

// ---------------------------------------------------------------------------
// Plans
// ---------------------------------------------------------------------------

#[derive(Debug, Clone, Copy, PartialEq, Eq, Structural)]
pub enum OpKind {
    Move,
    Rename,
    Delete,
    Mkdir,
}

#[derive(Debug)]
pub struct Operation {
    pub kind: OpKind,
    pub old_path: Option<String>,
    pub new_path: Option<String>,
    pub reason: String,
}

pub struct OpView {
    pub kind: OpKind,
    pub old_path: Option<Seq<char>>,
    pub new_path: Option<Seq<char>>,
    pub reason: Seq<char>,
}

impl Operation {
    pub open spec fn view(self) -> OpView {
        OpView {
            kind: self.kind,
            old_path: opt(self.old_path),
            new_path: opt(self.new_path),
            reason: self.reason@,
        }
    }

    pub fn same(&self, other: &Operation) -> (r: bool)
        ensures
            r == (self.view() == other.view()),
    {
        self.kind == other.kind && opt_eq(&self.old_path, &other.old_path) && opt_eq(
            &self.new_path,
            &other.new_path,
        ) && str_eq(self.reason.as_str(), other.reason.as_str())
    }

    pub fn copy(&self) -> (r: Operation)
        ensures
            r.view() == self.view(),
    {
        Operation {
            kind: self.kind,
            old_path: crate::text::copy_opt(&self.old_path),
            new_path: crate::text::copy_opt(&self.new_path),
            reason: self.reason.clone(),
        }
    }
}

pub open spec fn op_views(ops: Seq<Operation>) -> Seq<OpView> {
    Seq::new(ops.len(), |i: int| ops[i].view())
}

#[derive(Debug)]
pub struct ActionPlan {
    pub transaction_id: Option<i64>,
    pub summary: String,
    pub operations: Vec<Operation>,
}

#[derive(Debug)]
pub struct ApplyResult {
    pub applied: usize,
    pub message: String,
}

// ---------------------------------------------------------------------------
// Paths and roots
// ---------------------------------------------------------------------------

pub open spec fn is_sep(c: char) -> bool {
    c == '\\' || c == '/'
}

/// Every run of separators as one backslash.
pub open spec fn unified(p: Seq<char>) -> Seq<char>
    decreases p.len(),
{
    if p.len() == 0 {
        Seq::empty()
    } else if !is_sep(p.last()) {
        unified(p.drop_last()).push(p.last())
    } else if p.len() >= 2 && is_sep(p[p.len() - 2]) {
        unified(p.drop_last())
    } else {
        unified(p.drop_last()).push('\\')
    }
}

/// A path for comparison: separators unified, none at the end, letter case dropped.
pub open spec fn normalized_path(p: Seq<char>) -> Seq<char> {
    lower_case(trim_end_of(unified(p), '\\', '\\'))
}

/// The names in a normalized path.
pub open spec fn segments(p: Seq<char>) -> Seq<Seq<char>> {
    split(p, "\\"@)
}

/// A path that starts with two separators may name a share of another machine, whose own two
/// names are no directories.
pub open spec fn may_name_a_share(p: Seq<char>) -> bool {
    p.len() >= 2 && is_sep(p[0]) && is_sep(p[1])
}

/// A name that starts a full path: nothing before the first separator, or a drive.
pub open spec fn is_top(name: Seq<char>) -> bool {
    name.len() == 0 || name.last() == ':'
}

/// Goes one name further. One dot stays, two dots step back; a step back from the top of a
/// disk stays there. Of one that passes the `fixed` names at the start of another path nothing
/// says where it leads.
pub open spec fn walked(
    trail: Option<Seq<Seq<char>>>,
    name: Seq<char>,
    fixed: int,
    from_top: bool,
) -> Option<Seq<Seq<char>>> {
    match trail {
        None => None,
        Some(t) => if name == "."@ {
            Some(t)
        } else if name != ".."@ {
            Some(t.push(name))
        } else if t.len() > fixed {
            Some(t.drop_last())
        } else if from_top {
            Some(t)
        } else {
            None
        },
    }
}

pub open spec fn walk(names: Seq<Seq<char>>, fixed: int, from_top: bool) -> Option<Seq<Seq<char>>>
    decreases names.len(),
{
    if names.len() == 0 {
        Some(Seq::empty())
    } else {
        walked(walk(names.drop_last(), fixed, from_top), names.last(), fixed, from_top)
    }
}

/// The names that are left of a path once every step back is taken; nothing where that does
/// not say where it leads.
pub open spec fn trail_of(p: Seq<char>) -> Option<Seq<Seq<char>>> {
    let names = segments(normalized_path(p));
    if may_name_a_share(p) {
        walk(names, 3, false)
    } else if is_top(names[0]) {
        walk(names, 1, true)
    } else {
        walk(names, 0, false)
    }
}

/// Where a path leads, as a normalized path without dots.
pub open spec fn place_of(p: Seq<char>) -> Option<Seq<char>> {
    match trail_of(p) {
        Some(t) => Some(join(t, "\\"@)),
        None => None,
    }
}

/// A normalized path is a normalized root or lies under it, on a segment boundary.
pub open spec fn within(path: Seq<char>, root: Seq<char>) -> bool {
    root.len() > 0 && (path == root || starts_with(path, root.push('\\')))
}

/// A path leads to a place in a root.
pub open spec fn leads_into(path: Seq<char>, root: Seq<char>) -> bool {
    match (place_of(path), place_of(root)) {
        (Some(p), Some(r)) => within(p, r),
        _ => false,
    }
}

/// A path leads into one of the roots; without roots nothing is restricted.
pub open spec fn within_roots(path: Seq<char>, roots: Seq<String>) -> bool {
    roots.len() == 0 || exists|i: int|
        0 <= i < roots.len() && leads_into(path, (#[trigger] roots[i])@)
}

pub fn normalize_path(p: &str) -> (r: String)
    ensures
        r@ == normalized_path(p@),
{
    let c = to_chars(p);
    let mut out: Vec<char> = Vec::new();
    let mut prev_sep: bool = false;
    let mut i: usize = 0;
    assert(out@ =~= unified(c@.take(0)));
    while i < c.len()
        invariant
            i <= c.len(),
            out@ == unified(c@.take(i as int)),
            prev_sep == (i > 0 && is_sep(c@[i - 1])),
        decreases c.len() - i,
    {
        let ch = c[i];
        assert(c@.take(i + 1).drop_last() =~= c@.take(i as int));
        if ch == '\\' || ch == '/' {
            if !prev_sep {
                out.push('\\');
            }
            prev_sep = true;
        } else {
            out.push(ch);
            prev_sep = false;
        }
        i = i + 1;
    }
    assert(c@.take(i as int) =~= c@);
    lowered(to_text(trimmed_end_of(out.as_slice(), '\\', '\\')).as_str())
}

proof fn lemma_walk_stays_none(names: Seq<Seq<char>>, fixed: int, from_top: bool, n: int)
    requires
        0 <= n <= names.len(),
        walk(names.take(n), fixed, from_top) is None,
    ensures
        walk(names, fixed, from_top) is None,
    decreases names.len(),
{
    if n < names.len() {
        assert(names.drop_last().take(n) =~= names.take(n));
        lemma_walk_stays_none(names.drop_last(), fixed, from_top, n);
    } else {
        assert(names.take(n) =~= names);
    }
}

/// Takes every step back of a path.
fn resolve_path(path: &str) -> (r: Option<String>)
    ensures
        opt(r) == place_of(path@),
{
    let c = to_chars(path);
    let share = c.len() >= 2 && (c[0] == '\\' || c[0] == '/') && (c[1] == '\\' || c[1] == '/');
    let np = to_chars(normalize_path(path).as_str());
    let sep = to_chars("\\");
    proof {
        reveal_strlit("\\");
        lemma_split_is_some(np@, sep@, 0);
    }
    let names = splitted(np.as_slice(), sep.as_slice());
    let ghost all = char_views(names@);
    assert(all == segments(normalized_path(path@)));
    let first = &names[0];
    assert(all[0] == first@);
    let top = first.len() == 0 || first[first.len() - 1] == ':';
    let fixed: usize = if share {
        3
    } else if top {
        1
    } else {
        0
    };
    let from_top = top && !share;
    let mut trail: Vec<String> = Vec::new();
    let mut i: usize = 0;
    assert(views(trail@) =~= Seq::<Seq<char>>::empty());
    while i < names.len()
        invariant
            i <= names.len(),
            all == char_views(names@),
            trail_of(path@) == walk(all, fixed as int, from_top),
            walk(all.take(i as int), fixed as int, from_top) == Some(views(trail@)),
        decreases names.len() - i,
    {
        let name = to_text(names[i].as_slice());
        let ghost before = views(trail@);
        assert(all.take(i + 1).drop_last() =~= all.take(i as int));
        assert(all.take(i + 1).last() == name@);
        if str_eq(name.as_str(), ".") {
        } else if !str_eq(name.as_str(), "..") {
            trail.push(name);
            assert(views(trail@) =~= before.push(name@));
        } else if trail.len() > fixed {
            let _ = trail.pop();
            assert(views(trail@) =~= before.drop_last());
        } else if !from_top {
            proof {
                lemma_walk_stays_none(all, fixed as int, from_top, i + 1);
            }
            return None;
        }
        i = i + 1;
    }
    assert(all.take(i as int) =~= all);
    Some(joined(&trail, "\\"))
}

pub fn path_within_roots(path: &str, roots: &Vec<String>) -> (r: bool)
    ensures
        r == within_roots(path@, roots@),
{
    if roots.len() == 0 {
        return true;
    }
    let place = match resolve_path(path) {
        Some(p) => to_chars(p.as_str()),
        None => {
            return false;
        },
    };
    let mut i: usize = 0;
    while i < roots.len()
        invariant
            i <= roots.len(),
            roots.len() > 0,
            place_of(path@) == Some(place@),
            forall|k: int| 0 <= k < i ==> !leads_into(path@, (#[trigger] roots@[k])@),
        decreases roots.len() - i,
    {
        if let Some(root) = resolve_path(roots[i].as_str()) {
            let mut nr = to_chars(root.as_str());
            if nr.len() > 0 {
                let same = crate::text::chars_eq(place.as_slice(), nr.as_slice());
                nr.push('\\');
                if same || at(place.as_slice(), nr.as_slice(), 0) {
                    assert(leads_into(path@, roots@[i as int]@));
                    return true;
                }
            }
        }
        i = i + 1;
    }
    false
}

/// The first path of an operation that lies outside of the roots.
pub open spec fn offending_path(op: OpView, roots: Seq<String>) -> Option<Seq<char>> {
    match (op.old_path, op.new_path) {
        (Some(p), _) if !within_roots(p, roots) => Some(p),
        (_, Some(p)) if !within_roots(p, roots) => Some(p),
        _ => None,
    }
}

/// The first path outside of the roots among the operations from `from` on.
pub open spec fn first_offending(ops: Seq<OpView>, roots: Seq<String>, from: int) -> Option<Seq<char>>
    decreases ops.len() - from,
{
    if from < 0 || from >= ops.len() {
        None
    } else if offending_path(ops[from], roots) is Some {
        offending_path(ops[from], roots)
    } else {
        first_offending(ops, roots, from + 1)
    }
}

/// Refuses a list of operations of which a path lies outside of the roots.
pub fn validate_operations(ops: &Vec<Operation>, roots: &Vec<String>) -> (r: Result<(), String>)
    ensures
        match r {
            Ok(_) => first_offending(op_views(ops@), roots@, 0) is None,
            Err(e) => first_offending(op_views(ops@), roots@, 0) matches Some(p) && e@
                == "chemin hors périmètre autorisé: "@ + p,
        },
{
    let mut i: usize = 0;
    while i < ops.len()
        invariant
            i <= ops.len(),
            first_offending(op_views(ops@), roots@, 0) == first_offending(
                op_views(ops@),
                roots@,
                i as int,
            ),
        decreases ops.len() - i,
    {
        let ghost v = op_views(ops@)[i as int];
        if let Some(p) = &ops[i].old_path {
            if !path_within_roots(p.as_str(), roots) {
                assert(offending_path(v, roots@) == Some(p@));
                return Err(cat2("chemin hors périmètre autorisé: ", p.as_str()));
            }
        }
        if let Some(p) = &ops[i].new_path {
            if !path_within_roots(p.as_str(), roots) {
                assert(offending_path(v, roots@) == Some(p@));
                return Err(cat2("chemin hors périmètre autorisé: ", p.as_str()));
            }
        }
        assert(offending_path(v, roots@) is None);
        i = i + 1;
    }
    Ok(())
}

/// The part of a model's answer that holds the plan: from its first `{` to its last `}`.
pub open spec fn plan_text(raw: Seq<char>) -> Seq<char> {
    match (find(raw, seq!['{']), rfind(raw, seq!['}'])) {
        (Some(s), Some(e)) if e > s => raw.subrange(s, e + 1),
        _ => raw,
    }
}

pub fn isolate_plan(raw: &str) -> (r: String)
    ensures
        r@ == plan_text(raw@),
{
    let c = to_chars(raw);
    let mut open: Vec<char> = Vec::new();
    open.push('{');
    assert(open@ =~= seq!['{']);
    let mut close: Vec<char> = Vec::new();
    close.push('}');
    assert(close@ =~= seq!['}']);
    let n: usize = c.len();
    match (index_of(c.as_slice(), open.as_slice()), last_index_of(c.as_slice(), close.as_slice())) {
        (Some(s), Some(e)) if e > s => {
            assert(e + 1 <= n);
            to_text(part(c.as_slice(), s, e + 1))
        },
        _ => to_text(c.as_slice()),
    }
}

// ---------------------------------------------------------------------------
// Approval
// ---------------------------------------------------------------------------

/// Only a draft may be run.
pub fn check_draft(status: &str) -> (r: Result<(), String>)
    ensures
        match r {
            Ok(_) => status@ == "draft"@,
            Err(e) => status@ != "draft"@ && e@ == "transaction déjà '"@ + status@
                + "', non ré-exécutable"@,
        },
{
    if str_eq(status, "draft") {
        Ok(())
    } else {
        Err(cat3("transaction déjà '", status, "', non ré-exécutable"))
    }
}

pub open spec fn is_planned(plan: Seq<OpView>, op: OpView) -> bool {
    exists|i: int| 0 <= i < plan.len() && #[trigger] plan[i] == op
}

pub open spec fn all_planned(plan: Seq<OpView>, ops: Seq<OpView>) -> bool {
    forall|i: int| 0 <= i < ops.len() ==> is_planned(plan, #[trigger] ops[i])
}

fn find_op(plan: &Vec<Operation>, op: &Operation) -> (r: bool)
    ensures
        r == is_planned(op_views(plan@), op.view()),
{
    let mut i: usize = 0;
    while i < plan.len()
        invariant
            i <= plan.len(),
            forall|k: int| 0 <= k < i ==> #[trigger] op_views(plan@)[k] != op.view(),
        decreases plan.len() - i,
    {
        if plan[i].same(op) {
            assert(op_views(plan@)[i as int] == op.view());
            return true;
        }
        i = i + 1;
    }
    false
}

/// The operations to run: those that the user kept, each of which must stand in the plan,
/// or the whole plan where the user changed nothing.
pub fn select_operations(plan: Vec<Operation>, edited: Option<Vec<Operation>>) -> (r: Result<
    Vec<Operation>,
    String,
>)
    ensures
        match edited {
            None => r matches Ok(ops) && op_views(ops@) == op_views(plan@),
            Some(kept) => if kept@.len() == 0 {
                r matches Err(e) && e@ == "aucune opération sélectionnée"@
            } else if all_planned(op_views(plan@), op_views(kept@)) {
                r matches Ok(ops) && op_views(ops@) == op_views(kept@)
            } else {
                r matches Err(e) && e@ == "opération absente du plan d'origine : refusée"@
            },
        },
{
    match edited {
        None => Ok(plan),
        Some(kept) => {
            if kept.len() == 0 {
                return Err("aucune opération sélectionnée".to_owned());
            }
            let mut i: usize = 0;
            while i < kept.len()
                invariant
                    i <= kept.len(),
                    edited == Some(kept),
                    kept@.len() > 0,
                    forall|k: int|
                        0 <= k < i ==> is_planned(op_views(plan@), #[trigger] op_views(kept@)[k]),
                decreases kept.len() - i,
            {
                if !find_op(&plan, &kept[i]) {
                    assert(!is_planned(op_views(plan@), op_views(kept@)[i as int]));
                    return Err("opération absente du plan d'origine : refusée".to_owned());
                }
                i = i + 1;
            }
            Ok(kept)
        },
    }
}

/// The operations that run once the user has approved a plan, or why none does: only a draft
/// runs, only operations that it holds, and none that leaves the roots. `plan` is what the
/// draft holds, or why it cannot be read.
pub open spec fn approved(
    status: Seq<char>,
    plan: Result<Seq<OpView>, Seq<char>>,
    edited: Option<Seq<OpView>>,
    roots: Seq<String>,
) -> Result<Seq<OpView>, Seq<char>> {
    if status != "draft"@ {
        Err("transaction déjà '"@ + status + "', non ré-exécutable"@)
    } else {
        match plan {
            Err(e) => Err("plan corrompu: "@ + e),
            Ok(p) => {
                let ops = match edited {
                    Some(kept) => kept,
                    None => p,
                };
                if edited is Some && ops.len() == 0 {
                    Err("aucune opération sélectionnée"@)
                } else if edited is Some && !all_planned(p, ops) {
                    Err("opération absente du plan d'origine : refusée"@)
                } else {
                    match first_offending(ops, roots, 0) {
                        Some(path) => Err("chemin hors périmètre autorisé: "@ + path),
                        None => Ok(ops),
                    }
                }
            },
        }
    }
}

pub open spec fn ops_result(r: Result<Vec<Operation>, String>) -> Result<Seq<OpView>, Seq<char>> {
    match r {
        Ok(ops) => Ok(op_views(ops@)),
        Err(e) => Err(e@),
    }
}

/// Decides what an approved plan runs.
pub fn apply_action_plan(
    status: &str,
    plan: Result<Vec<Operation>, String>,
    edited: Option<Vec<Operation>>,
    roots: &Vec<String>,
) -> (r: Result<Vec<Operation>, String>)
    ensures
        ops_result(r) == approved(
            status@,
            ops_result(plan),
            match edited {
                Some(kept) => Some(op_views(kept@)),
                None => None,
            },
            roots@,
        ),
{
    if let Err(e) = check_draft(status) {
        return Err(e);
    }
    match plan {
        Err(e) => Err(cat2("plan corrompu: ", e.as_str())),
        Ok(planned) => match select_operations(planned, edited) {
            Err(e) => Err(e),
            Ok(ops) => match validate_operations(&ops, roots) {
                Err(e) => Err(e),
                Ok(_) => Ok(ops),
            },
        },
    }
}

// ---------------------------------------------------------------------------
// Steps on disk, and how each is undone
// ---------------------------------------------------------------------------

/// One thing to do on disk. `context` starts the message of its failure.
#[derive(Debug)]
pub enum DiskStep {
    /// Make one directory, unless it is there.
    MakeDir { dir: String, context: String },
    /// Move something to a place that is free; it fails where the place is taken.
    Rename { from: String, to: String, context: String },
    /// Move something that is deleted to its place in the trash.
    Trash { original: String, trashed: String, context: String },
    /// Give another name to a file that stands where `mover` is to go, unless it is `mover`
    /// itself.
    SetAside { original: String, aside: String, mover: String, context: String },
    /// Remove a directory that is empty.
    RemoveDir { dir: String, context: String },
}

pub enum StepView {
    MakeDir { dir: Seq<char>, context: Seq<char> },
    Rename { from: Seq<char>, to: Seq<char>, context: Seq<char> },
    Trash { original: Seq<char>, trashed: Seq<char>, context: Seq<char> },
    SetAside { original: Seq<char>, aside: Seq<char>, mover: Seq<char>, context: Seq<char> },
    RemoveDir { dir: Seq<char>, context: Seq<char> },
}

impl DiskStep {
    pub open spec fn view(self) -> StepView {
        match self {
            DiskStep::MakeDir { dir, context } => StepView::MakeDir {
                dir: dir@,
                context: context@,
            },
            DiskStep::Rename { from, to, context } => StepView::Rename {
                from: from@,
                to: to@,
                context: context@,
            },
            DiskStep::Trash { original, trashed, context } => StepView::Trash {
                original: original@,
                trashed: trashed@,
                context: context@,
            },
            DiskStep::SetAside { original, aside, mover, context } => StepView::SetAside {
                original: original@,
                aside: aside@,
                mover: mover@,
                context: context@,
            },
            DiskStep::RemoveDir { dir, context } => StepView::RemoveDir {
                dir: dir@,
                context: context@,
            },
        }
    }

    pub fn copy(&self) -> (r: DiskStep)
        ensures
            r.view() == self.view(),
    {
        match self {
            DiskStep::MakeDir { dir, context } => DiskStep::MakeDir {
                dir: dir.clone(),
                context: context.clone(),
            },
            DiskStep::Rename { from, to, context } => DiskStep::Rename {
                from: from.clone(),
                to: to.clone(),
                context: context.clone(),
            },
            DiskStep::Trash { original, trashed, context } => DiskStep::Trash {
                original: original.clone(),
                trashed: trashed.clone(),
                context: context.clone(),
            },
            DiskStep::SetAside { original, aside, mover, context } => DiskStep::SetAside {
                original: original.clone(),
                aside: aside.clone(),
                mover: mover.clone(),
                context: context.clone(),
            },
            DiskStep::RemoveDir { dir, context } => DiskStep::RemoveDir {
                dir: dir.clone(),
                context: context.clone(),
            },
        }
    }

    fn context(&self) -> (r: &String)
        ensures
            r@ == context_of(self.view()),
    {
        match self {
            DiskStep::MakeDir { dir, context } => context,
            DiskStep::Rename { from, to, context } => context,
            DiskStep::Trash { original, trashed, context } => context,
            DiskStep::SetAside { original, aside, mover, context } => context,
            DiskStep::RemoveDir { dir, context } => context,
        }
    }
}

pub open spec fn step_views(s: Seq<DiskStep>) -> Seq<StepView> {
    Seq::new(s.len(), |i: int| s[i].view())
}

pub open spec fn context_of(s: StepView) -> Seq<char> {
    match s {
        StepView::MakeDir { context, .. } => context,
        StepView::Rename { context, .. } => context,
        StepView::Trash { context, .. } => context,
        StepView::SetAside { context, .. } => context,
        StepView::RemoveDir { context, .. } => context,
    }
}

/// How a step went.
#[derive(Debug)]
pub enum Outcome {
    /// It changed the disk.
    Changed,
    /// There was nothing to do.
    Unchanged,
    Failed(String),
}

pub enum OutcomeView {
    Changed,
    Unchanged,
    Failed(Seq<char>),
}

impl Outcome {
    pub open spec fn view(self) -> OutcomeView {
        match self {
            Outcome::Changed => OutcomeView::Changed,
            Outcome::Unchanged => OutcomeView::Unchanged,
            Outcome::Failed(e) => OutcomeView::Failed(e@),
        }
    }
}

/// The trace of a step that changed the disk.
#[derive(Debug)]
pub enum Done {
    Renamed { from: String, to: String },
    Created { dir: String },
    Trashed { original: String, trashed: String },
    SetAside { original: String, aside: String },
}

pub enum DoneView {
    Renamed { from: Seq<char>, to: Seq<char> },
    Created { dir: Seq<char> },
    Trashed { original: Seq<char>, trashed: Seq<char> },
    SetAside { original: Seq<char>, aside: Seq<char> },
}

impl Done {
    pub open spec fn view(self) -> DoneView {
        match self {
            Done::Renamed { from, to } => DoneView::Renamed { from: from@, to: to@ },
            Done::Created { dir } => DoneView::Created { dir: dir@ },
            Done::Trashed { original, trashed } => DoneView::Trashed {
                original: original@,
                trashed: trashed@,
            },
            Done::SetAside { original, aside } => DoneView::SetAside {
                original: original@,
                aside: aside@,
            },
        }
    }
}

pub open spec fn done_views(s: Seq<Done>) -> Seq<DoneView> {
    Seq::new(s.len(), |i: int| s[i].view())
}

/// The trace that a step leaves where it changed the disk. What undoes a step leaves none.
pub open spec fn trace_of(s: StepView) -> Option<DoneView> {
    match s {
        StepView::MakeDir { dir, .. } => Some(DoneView::Created { dir }),
        StepView::Rename { from, to, .. } => Some(DoneView::Renamed { from, to }),
        StepView::Trash { original, trashed, .. } => Some(DoneView::Trashed { original, trashed }),
        StepView::SetAside { original, aside, .. } => Some(DoneView::SetAside { original, aside }),
        StepView::RemoveDir { .. } => None,
    }
}

fn trace(s: &DiskStep) -> (r: Option<Done>)
    ensures
        match r {
            Some(d) => trace_of(s.view()) == Some(d.view()),
            None => trace_of(s.view()) is None,
        },
{
    match s {
        DiskStep::MakeDir { dir, context } => Some(Done::Created { dir: dir.clone() }),
        DiskStep::Rename { from, to, context } => Some(
            Done::Renamed { from: from.clone(), to: to.clone() },
        ),
        DiskStep::Trash { original, trashed, context } => Some(
            Done::Trashed { original: original.clone(), trashed: trashed.clone() },
        ),
        DiskStep::SetAside { original, aside, mover, context } => Some(
            Done::SetAside { original: original.clone(), aside: aside.clone() },
        ),
        DiskStep::RemoveDir { dir, context } => None,
    }
}

/// What undoes a step: a move back, or the removal of a created directory.
pub open spec fn undo_of(d: DoneView) -> StepView {
    match d {
        DoneView::Renamed { from, to } => StepView::Rename {
            from: to,
            to: from,
            context: Seq::empty(),
        },
        DoneView::Trashed { original, trashed } => StepView::Rename {
            from: trashed,
            to: original,
            context: Seq::empty(),
        },
        DoneView::SetAside { original, aside } => StepView::Rename {
            from: aside,
            to: original,
            context: Seq::empty(),
        },
        DoneView::Created { dir } => StepView::RemoveDir { dir, context: Seq::empty() },
    }
}

/// What undoes the steps carried out so far: the last one first.
pub open spec fn undo_all(done: Seq<DoneView>) -> Seq<StepView>
    decreases done.len(),
{
    if done.len() == 0 {
        Seq::empty()
    } else {
        seq![undo_of(done.last())] + undo_all(done.drop_last())
    }
}

fn undo_step(d: &Done) -> (r: DiskStep)
    ensures
        r.view() == undo_of(d.view()),
{
    let context = String::new();
    assert(context@ =~= Seq::<char>::empty());
    match d {
        Done::Renamed { from, to } => DiskStep::Rename {
            from: to.clone(),
            to: from.clone(),
            context,
        },
        Done::Trashed { original, trashed } => DiskStep::Rename {
            from: trashed.clone(),
            to: original.clone(),
            context,
        },
        Done::SetAside { original, aside } => DiskStep::Rename {
            from: aside.clone(),
            to: original.clone(),
            context,
        },
        Done::Created { dir } => DiskStep::RemoveDir { dir: dir.clone(), context },
    }
}

/// The steps that undo what was done, in reverse order.
pub fn rollback(done: &Vec<Done>) -> (r: Vec<DiskStep>)
    ensures
        step_views(r@) == undo_all(done_views(done@)),
{
    let ghost all = done_views(done@);
    let mut out: Vec<DiskStep> = Vec::new();
    let mut i: usize = done.len();
    assert(all.take(i as int) =~= all);
    assert(step_views(out@) + undo_all(all.take(i as int)) =~= undo_all(all));
    while i > 0
        invariant
            i <= done.len(),
            all == done_views(done@),
            step_views(out@) + undo_all(all.take(i as int)) == undo_all(all),
        decreases i,
    {
        let ghost before = step_views(out@);
        let ghost rest = undo_all(all.take(i - 1));
        assert(all.take(i as int).drop_last() =~= all.take(i - 1));
        assert(all.take(i as int).last() == done@[i - 1].view());
        out.push(undo_step(&done[i - 1]));
        assert(step_views(out@) =~= before.push(undo_of(done@[i - 1].view())));
        assert(step_views(out@) + rest =~= before + (seq![undo_of(done@[i - 1].view())] + rest));
        i = i - 1;
    }
    assert(step_views(out@) =~= undo_all(all));
    out
}

/// How a rollback went, in words.
pub open spec fn rollback_summary(failures: nat) -> Seq<char> {
    if failures == 0 {
        "complet"@
    } else {
        decimal(failures) + " opération(s) non annulée(s)"@
    }
}

pub fn summarize_rollback(failures: u64) -> (r: String)
    ensures
        r@ == rollback_summary(failures as nat),
{
    if failures == 0 {
        "complet".to_owned()
    } else {
        cat2(decimal_text(failures).as_str(), " opération(s) non annulée(s)")
    }
}

/// Where a moved file and a deleted one go. Directories are listed from the outermost on.
#[derive(Debug)]
pub struct Places {
    /// The directories above the target of a move or of a new directory.
    pub target_dirs: Vec<String>,
    /// The trash and the directories above it.
    pub trash_dirs: Vec<String>,
    /// The place in the trash that a deletion takes.
    pub trashed: String,
    /// The name beside it that a file takes which stands at the target of a move.
    pub aside: String,
}

/// Makes directories that are not there.
pub open spec fn made(dirs: Seq<Seq<char>>, context: Seq<char>) -> Seq<StepView> {
    Seq::new(dirs.len(), |i: int| StepView::MakeDir { dir: dirs[i], context })
}

/// What an operation does on disk, or why it cannot be done. A file at the target of a move
/// is not written over before the whole plan is done: it is set aside, where it can be had
/// again. A move needs no trash.
pub open spec fn op_steps(
    op: OpView,
    target_dirs: Seq<Seq<char>>,
    trash_dirs: Seq<Seq<char>>,
    trashed: Seq<char>,
    aside: Seq<char>,
) -> Result<Seq<StepView>, Seq<char>> {
    match op.kind {
        OpKind::Mkdir => match op.new_path {
            None => Err("mkdir sans new_path"@),
            Some(dir) => Ok(made(target_dirs.push(dir), "mkdir "@ + dir + ": "@)),
        },
        OpKind::Move | OpKind::Rename => match (op.old_path, op.new_path) {
            (None, _) => Err("move/rename sans old_path"@),
            (Some(_), None) => Err("move/rename sans new_path"@),
            (Some(from), Some(to)) => Ok(
                made(target_dirs, "création parent: "@) + seq![
                    StepView::SetAside {
                        original: to,
                        aside,
                        mover: from,
                        context: "déplacement "@ + from + " → "@ + to + ": "@,
                    },
                    StepView::Rename {
                        from,
                        to,
                        context: "déplacement "@ + from + " → "@ + to + ": "@,
                    },
                ],
            ),
        },
        OpKind::Delete => match op.old_path {
            None => Err("delete sans old_path"@),
            Some(target) => Ok(
                made(trash_dirs, "corbeille: "@) + seq![
                    StepView::Trash {
                        original: target,
                        trashed,
                        context: "mise en corbeille "@ + target + ": "@,
                    },
                ],
            ),
        },
    }
}

fn make_dirs(steps: &mut Vec<DiskStep>, dirs: &Vec<String>, context: &str)
    ensures
        step_views(final(steps)@) == step_views(old(steps)@) + made(views(dirs@), context@),
{
    let ghost before = step_views(steps@);
    let ghost all = made(views(dirs@), context@);
    let mut i: usize = 0;
    assert(before + all.take(0) =~= before);
    while i < dirs.len()
        invariant
            i <= dirs.len(),
            all == made(views(dirs@), context@),
            step_views(steps@) == before + all.take(i as int),
        decreases dirs.len() - i,
    {
        let ghost so_far = step_views(steps@);
        steps.push(DiskStep::MakeDir { dir: dirs[i].clone(), context: context.to_owned() });
        assert(step_views(steps@) =~= so_far.push(all[i as int]));
        i = i + 1;
        assert(so_far.push(all[i - 1]) =~= before + all.take(i as int));
    }
    assert(all.take(i as int) =~= all);
}

/// Steps of a plan: one at least, and each leaves a trace where it changes the disk.
pub open spec fn runnable(steps: Seq<StepView>) -> bool {
    steps.len() > 0 && forall|k: int|
        0 <= k < steps.len() ==> trace_of(#[trigger] steps[k]) is Some
}

pub open spec fn steps_result(r: Result<Vec<DiskStep>, String>) -> Result<Seq<StepView>, Seq<char>> {
    match r {
        Ok(s) => Ok(step_views(s@)),
        Err(e) => Err(e@),
    }
}

pub fn execute_op(op: &Operation, places: &Places) -> (r: Result<Vec<DiskStep>, String>)
    ensures
        steps_result(r) == op_steps(
            op.view(),
            views(places.target_dirs@),
            views(places.trash_dirs@),
            places.trashed@,
            places.aside@,
        ),
        r matches Ok(s) ==> runnable(step_views(s@)),
{
    let ghost dirs = views(places.target_dirs@);
    let ghost trash = views(places.trash_dirs@);
    let mut steps: Vec<DiskStep> = Vec::new();
    assert(step_views(steps@) =~= Seq::<StepView>::empty());
    match op.kind {
        OpKind::Mkdir => match &op.new_path {
            None => Err("mkdir sans new_path".to_owned()),
            Some(dir) => {
                let context = cat3("mkdir ", dir.as_str(), ": ");
                make_dirs(&mut steps, &places.target_dirs, context.as_str());
                let ghost above = step_views(steps@);
                assert(above =~= made(dirs, context@));
                let last = DiskStep::MakeDir { dir: dir.clone(), context };
                let ghost lv = last.view();
                steps.push(last);
                assert(step_views(steps@) =~= above.push(lv));
                assert(above.push(lv) =~= made(dirs.push(dir@), "mkdir "@ + dir@ + ": "@));
                Ok(steps)
            },
        },
        OpKind::Move | OpKind::Rename => match (&op.old_path, &op.new_path) {
            (None, _) => Err("move/rename sans old_path".to_owned()),
            (Some(_), None) => Err("move/rename sans new_path".to_owned()),
            (Some(from), Some(to)) => {
                make_dirs(&mut steps, &places.target_dirs, "création parent: ");
                let ghost above = made(dirs, "création parent: "@);
                assert(step_views(steps@) =~= above);
                let context = cat5("déplacement ", from.as_str(), " → ", to.as_str(), ": ");
                let aside = DiskStep::SetAside {
                    original: to.clone(),
                    aside: places.aside.clone(),
                    mover: from.clone(),
                    context: context.clone(),
                };
                let moving = DiskStep::Rename { from: from.clone(), to: to.clone(), context };
                let ghost last = seq![aside.view(), moving.view()];
                steps.push(aside);
                steps.push(moving);
                assert(step_views(steps@) =~= above + last);
                Ok(steps)
            },
        },
        OpKind::Delete => match &op.old_path {
            None => Err("delete sans old_path".to_owned()),
            Some(target) => {
                make_dirs(&mut steps, &places.trash_dirs, "corbeille: ");
                let ghost above = made(trash, "corbeille: "@);
                assert(step_views(steps@) =~= above);
                let gone = DiskStep::Trash {
                    original: target.clone(),
                    trashed: places.trashed.clone(),
                    context: cat3("mise en corbeille ", target.as_str(), ": "),
                };
                let ghost last = seq![gone.view()];
                steps.push(gone);
                assert(step_views(steps@) =~= above + last);
                Ok(steps)
            },
        },
    }
}

/// The text of a random identifier: five groups of hexadecimal digits in lower case, with a
/// hyphen between them. The third group starts with the number of the version.
pub open spec fn is_random_id(id: Seq<char>) -> bool {
    &&& id.len() == 36
    &&& id[14] == '4'
    &&& forall|i: int|
        0 <= i < 36 ==> if i == 8 || i == 13 || i == 18 || i == 23 {
            #[trigger] id[i] == '-'
        } else {
            '0' <= id[i] <= '9' || 'a' <= id[i] <= 'f'
        }
}

/// Calls `uuid::Uuid::new_v4` and renders the identifier with its `Display`: the hyphenated
/// form of a random identifier. Which one comes is left to chance, so nothing says that two
/// of them differ.
#[verifier::external_body]
pub(crate) fn fresh_id() -> (r: String)
    ensures
        is_random_id(r@),
{
    uuid::Uuid::new_v4().to_string()
}

/// The name of a deleted file in the trash.
pub open spec fn trash_name_of(id: Seq<char>, name: Option<Seq<char>>) -> Seq<char> {
    id + "__"@ + match name {
        Some(n) => n,
        None => "fichier"@,
    }
}

pub fn trash_name(id: &str, name: &Option<String>) -> (r: String)
    ensures
        r@ == trash_name_of(id@, opt(*name)),
{
    match name {
        Some(n) => cat3(id, "__", n.as_str()),
        None => cat3(id, "__", "fichier"),
    }
}

/// A new name in the trash for a deleted file.
pub fn new_trash_name(name: &Option<String>) -> (r: String)
    ensures
        exists|id: Seq<char>|
            is_random_id(id) && r@ == #[trigger] trash_name_of(id, opt(*name)),
{
    let id = fresh_id();
    trash_name(id.as_str(), name)
}

// ---------------------------------------------------------------------------
// A plan as a transaction
// ---------------------------------------------------------------------------

/// One operation of a running plan: its steps, or the reason why it cannot be done.
#[derive(Debug)]
pub enum Planned {
    Steps(Vec<DiskStep>),
    Refused(String),
}

impl Planned {
    pub open spec fn view(self) -> Result<Seq<StepView>, Seq<char>> {
        match self {
            Planned::Steps(s) => Ok(step_views(s@)),
            Planned::Refused(e) => Err(e@),
        }
    }
}

pub open spec fn planned_views(p: Seq<Planned>) -> Seq<Result<Seq<StepView>, Seq<char>>> {
    Seq::new(p.len(), |i: int| p[i].view())
}

/// A change to the index that follows from one on disk.
#[derive(Debug)]
pub enum IndexUpdate {
    Rename { from: String, to: String },
    Forget { path: String },
}

pub enum UpdateView {
    Rename { from: Seq<char>, to: Seq<char> },
    Forget { path: Seq<char> },
}

impl IndexUpdate {
    pub open spec fn view(self) -> UpdateView {
        match self {
            IndexUpdate::Rename { from, to } => UpdateView::Rename { from: from@, to: to@ },
            IndexUpdate::Forget { path } => UpdateView::Forget { path: path@ },
        }
    }
}

pub open spec fn update_views(u: Seq<IndexUpdate>) -> Seq<UpdateView> {
    Seq::new(u.len(), |i: int| u[i].view())
}

/// The index follows the disk: a moved file is renamed in it, a deleted one leaves it.
pub open spec fn updates_of(done: Seq<DoneView>) -> Seq<UpdateView>
    decreases done.len(),
{
    if done.len() == 0 {
        Seq::empty()
    } else {
        updates_of(done.drop_last()) + match done.last() {
            DoneView::Renamed { from, to } => seq![UpdateView::Rename { from, to }],
            DoneView::Trashed { original, .. } => seq![UpdateView::Forget { path: original }],
            DoneView::SetAside { original, .. } => seq![UpdateView::Forget { path: original }],
            DoneView::Created { .. } => Seq::empty(),
        }
    }
}

/// The path of something after a move: another one where it lies in what was moved.
pub open spec fn carried(p: Seq<char>, from: Seq<char>, to: Seq<char>) -> Seq<char> {
    if below(p, from) {
        origin(p, to, from)
    } else {
        p
    }
}

/// Where the files that were set aside are found in the end.
pub open spec fn leftovers_of(done: Seq<DoneView>) -> Seq<Seq<char>>
    decreases done.len(),
{
    if done.len() == 0 {
        Seq::empty()
    } else {
        let before = leftovers_of(done.drop_last());
        match done.last() {
            DoneView::Created { .. } => before,
            DoneView::Renamed { from, to } => all_carried(before, from, to),
            DoneView::Trashed { original, trashed } => all_carried(before, original, trashed),
            DoneView::SetAside { original, aside } => all_carried(before, original, aside).push(
                aside,
            ),
        }
    }
}

pub open spec fn all_carried(paths: Seq<Seq<char>>, from: Seq<char>, to: Seq<char>) -> Seq<Seq<char>> {
    Seq::new(paths.len(), |i: int| carried(paths[i], from, to))
}

fn carry(path: &str, from: &str, to: &str) -> (r: String)
    ensures
        r@ == carried(path@, from@, to@),
{
    let p = to_chars(path);
    let f = to_chars(from);
    let n: usize = f.len();
    if p.len() >= n && crate::text::chars_eq(part(p.as_slice(), 0, n), f.as_slice()) && (p.len() == n
        || p[n] == '\\' || p[n] == '/') {
        proof {
            assert(p@.take(n as int) =~= f@);
            if p@.len() == n {
                assert(p@ =~= f@);
            }
            assert(p@.subrange(n as int, p@.len() as int) =~= p@.skip(n as int));
        }
        cat2(to, to_text(part(p.as_slice(), n, p.len())).as_str())
    } else {
        proof {
            if below(path@, from@) {
                assert(p@.subrange(0, n as int) =~= f@);
            }
        }
        path.to_owned()
    }
}

fn carry_all(paths: &Vec<String>, from: &str, to: &str) -> (r: Vec<String>)
    ensures
        views(r@) == all_carried(views(paths@), from@, to@),
{
    let mut out: Vec<String> = Vec::new();
    let ghost all = all_carried(views(paths@), from@, to@);
    let mut i: usize = 0;
    while i < paths.len()
        invariant
            i <= paths.len(),
            all == all_carried(views(paths@), from@, to@),
            views(out@) == all.take(i as int),
        decreases paths.len() - i,
    {
        let ghost before = views(out@);
        out.push(carry(paths[i].as_str(), from, to));
        assert(views(out@) =~= before.push(all[i as int]));
        i = i + 1;
        assert(views(out@) =~= all.take(i as int));
    }
    assert(all.take(i as int) =~= all);
    out
}

/// What is to be done next.
#[derive(Debug)]
pub enum Action {
    /// Do this on disk and report how it went.
    Do(DiskStep),
    /// The whole plan is on disk: bring the index up to date and close the transaction. What
    /// still stands aside in the end has been written over: it goes to the trash, or for good
    /// where it cannot.
    Commit { updates: Vec<IndexUpdate>, leftovers: Vec<String>, result: ApplyResult },
    /// The plan failed and was undone.
    Refuse(String),
}

/// A plan that is being carried out. `op` and `step` say what comes next, and `done` is the
/// journal of what changed the disk; after a failure it is what is still to be undone.
#[derive(Debug)]
pub struct ApplyRun {
    pub plan: Vec<Planned>,
    pub op: usize,
    pub step: usize,
    pub failure: Option<String>,
    pub done: Vec<Done>,
    pub failures: u64,
}

pub struct RunView {
    pub op: int,
    pub step: int,
    pub failure: Option<Seq<char>>,
    pub done: Seq<DoneView>,
    pub failures: nat,
}

pub type PlanView = Seq<Result<Seq<StepView>, Seq<char>>>;

/// Where the next operation cannot be done, the run has failed.
pub open spec fn settled(plan: PlanView, v: RunView) -> RunView {
    if v.failure is None && 0 <= v.op < plan.len() && plan[v.op] is Err {
        RunView { failure: Some(plan[v.op]->Err_0), ..v }
    } else {
        v
    }
}

pub open spec fn run_start(plan: PlanView) -> RunView {
    settled(plan, RunView { op: 0, step: 0, failure: None, done: Seq::empty(), failures: 0 })
}

/// What is to be done in a state: the next step of the plan, or after a failure what undoes
/// the last step that still stands.
pub open spec fn run_step(plan: PlanView, v: RunView) -> Option<StepView> {
    if v.failure is None {
        if 0 <= v.op < plan.len() {
            Some(plan[v.op]->Ok_0[v.step])
        } else {
            None
        }
    } else if v.done.len() > 0 {
        Some(undo_of(v.done.last()))
    } else {
        None
    }
}

/// The journal after a step: only what changed the disk is written down.
pub open spec fn journaled(done: Seq<DoneView>, s: StepView, o: OutcomeView) -> Seq<DoneView> {
    match (o, trace_of(s)) {
        (OutcomeView::Changed, Some(t)) => done.push(t),
        _ => done,
    }
}

/// The state after a step.
pub open spec fn run_after(plan: PlanView, v: RunView, o: OutcomeView) -> RunView {
    if v.failure is None {
        let s = plan[v.op]->Ok_0[v.step];
        match o {
            OutcomeView::Failed(e) => RunView { failure: Some(context_of(s) + e), ..v },
            _ => {
                let done = journaled(v.done, s, o);
                if v.step + 1 < plan[v.op]->Ok_0.len() {
                    RunView { step: v.step + 1, done, ..v }
                } else {
                    settled(plan, RunView { op: v.op + 1, step: 0, done, ..v })
                }
            },
        }
    } else {
        RunView {
            done: v.done.drop_last(),
            failures: if o is Failed {
                v.failures + 1
            } else {
                v.failures
            },
            ..v
        }
    }
}

/// What holds in every state of a run.
pub open spec fn run_wf(plan: PlanView, v: RunView) -> bool {
    &&& forall|i: int| 0 <= i < plan.len() && (#[trigger] plan[i]) is Ok ==> runnable(plan[i]->Ok_0)
    &&& 0 <= v.op <= plan.len()
    &&& forall|i: int| 0 <= i < v.op ==> (#[trigger] plan[i]) is Ok
    &&& v.failure is None ==> v.failures == 0 && (v.op < plan.len() ==> plan[v.op] is Ok && 0 <= v.step
        < plan[v.op]->Ok_0.len())
}

pub open spec fn failure_message(error: Seq<char>, failures: nat) -> Seq<char> {
    "échec sur l'opération ("@ + error + "). Rollback: "@ + rollback_summary(failures)
        + ". Aucune modification conservée."@
}

pub open spec fn success_message(n: nat) -> Seq<char> {
    decimal(n) + " opération(s) appliquée(s)."@
}

impl ApplyRun {
    pub open spec fn plan_view(self) -> PlanView {
        planned_views(self.plan@)
    }

    pub open spec fn state(self) -> RunView {
        RunView {
            op: self.op as int,
            step: self.step as int,
            failure: opt(self.failure),
            done: done_views(self.done@),
            failures: self.failures as nat,
        }
    }

    pub open spec fn wf(self) -> bool {
        &&& run_wf(self.plan_view(), self.state())
        &&& self.failures + self.done@.len() <= usize::MAX
    }

    fn settle(&mut self)
        ensures
            final(self).plan_view() == old(self).plan_view(),
            final(self).state() == settled(old(self).plan_view(), old(self).state()),
            final(self).done == old(self).done,
    {
        if self.failure.is_none() && self.op < self.plan.len() {
            let ghost v = self.plan_view()[self.op as int];
            if let Planned::Refused(e) = &self.plan[self.op] {
                self.failure = Some(e.clone());
            }
        }
    }

    /// Starts a plan whose operations were each turned into their steps.
    pub fn start(plan: Vec<Planned>) -> (r: ApplyRun)
        requires
            forall|i: int|
                0 <= i < plan@.len() && (#[trigger] planned_views(plan@)[i]) is Ok
                    ==> runnable(planned_views(plan@)[i]->Ok_0),
        ensures
            r.wf(),
            r.plan_view() == planned_views(plan@),
            r.state() == run_start(planned_views(plan@)),
    {
        let mut r = ApplyRun {
            plan,
            op: 0,
            step: 0,
            failure: None,
            done: Vec::new(),
            failures: 0,
        };
        assert(done_views(r.done@) =~= Seq::<DoneView>::empty());
        r.settle();
        r
    }

    /// What to do next.
    pub fn next(&self) -> (r: Action)
        requires
            self.wf(),
        ensures
            match run_step(self.plan_view(), self.state()) {
                Some(s) => r matches Action::Do(d) && d.view() == s,
                None => match self.state().failure {
                    None => r matches Action::Commit { updates, leftovers, result } && update_views(
                        updates@,
                    ) == updates_of(self.state().done) && views(leftovers@) == leftovers_of(
                        self.state().done,
                    ) && result.applied == self.plan@.len() && result.message@ == success_message(
                        self.plan@.len(),
                    ),
                    Some(e) => r matches Action::Refuse(m) && m@ == failure_message(
                        e,
                        self.state().failures,
                    ),
                },
            },
    {
        let ghost pv = self.plan_view();
        match &self.failure {
            None => {
                if self.op < self.plan.len() {
                    assert(pv[self.op as int] == self.plan@[self.op as int].view());
                    if let Planned::Steps(s) = &self.plan[self.op] {
                        assert(step_views(s@)[self.step as int] == s@[self.step as int].view());
                        return Action::Do(s[self.step].copy());
                    }
                }
                let n: usize = self.plan.len();
                let message = cat2(
                    decimal_text(n as u64).as_str(),
                    " opération(s) appliquée(s).",
                );
                Action::Commit {
                    updates: self.updates(),
                    leftovers: self.leftovers(),
                    result: ApplyResult { applied: n, message },
                }
            },
            Some(e) => {
                let n: usize = self.done.len();
                if n > 0 {
                    assert(done_views(self.done@).last() == self.done@[n - 1].view());
                    return Action::Do(undo_step(&self.done[n - 1]));
                }
                let rolled = summarize_rollback(self.failures);
                let m = cat5(
                    "échec sur l'opération (",
                    e.as_str(),
                    "). Rollback: ",
                    rolled.as_str(),
                    ". Aucune modification conservée.",
                );
                Action::Refuse(m)
            },
        }
    }

    fn updates(&self) -> (r: Vec<IndexUpdate>)
        ensures
            update_views(r@) == updates_of(done_views(self.done@)),
    {
        let ghost all = done_views(self.done@);
        let mut out: Vec<IndexUpdate> = Vec::new();
        let mut i: usize = 0;
        assert(update_views(out@) =~= updates_of(all.take(0)));
        while i < self.done.len()
            invariant
                i <= self.done.len(),
                all == done_views(self.done@),
                update_views(out@) == updates_of(all.take(i as int)),
            decreases self.done.len() - i,
        {
            assert(all.take(i + 1).drop_last() =~= all.take(i as int));
            assert(all.take(i + 1).last() == self.done@[i as int].view());
            let ghost before = update_views(out@);
            match &self.done[i] {
                Done::Renamed { from, to } => {
                    out.push(IndexUpdate::Rename { from: from.clone(), to: to.clone() });
                    assert(update_views(out@) =~= before + seq![
                        UpdateView::Rename { from: from@, to: to@ },
                    ]);
                },
                Done::Trashed { original, trashed } => {
                    out.push(IndexUpdate::Forget { path: original.clone() });
                    assert(update_views(out@) =~= before + seq![
                        UpdateView::Forget { path: original@ },
                    ]);
                },
                Done::SetAside { original, aside } => {
                    out.push(IndexUpdate::Forget { path: original.clone() });
                    assert(update_views(out@) =~= before + seq![
                        UpdateView::Forget { path: original@ },
                    ]);
                },
                Done::Created { dir } => {
                    assert(update_views(out@) =~= before + Seq::<UpdateView>::empty());
                },
            }
            i = i + 1;
        }
        assert(all.take(i as int) =~= all);
        out
    }

    fn leftovers(&self) -> (r: Vec<String>)
        ensures
            views(r@) == leftovers_of(done_views(self.done@)),
    {
        let ghost all = done_views(self.done@);
        let mut out: Vec<String> = Vec::new();
        let mut i: usize = 0;
        assert(views(out@) =~= leftovers_of(all.take(0)));
        while i < self.done.len()
            invariant
                i <= self.done.len(),
                all == done_views(self.done@),
                views(out@) == leftovers_of(all.take(i as int)),
            decreases self.done.len() - i,
        {
            assert(all.take(i + 1).drop_last() =~= all.take(i as int));
            assert(all.take(i + 1).last() == self.done@[i as int].view());
            match &self.done[i] {
                Done::Created { dir } => {},
                Done::Renamed { from, to } => {
                    out = carry_all(&out, from.as_str(), to.as_str());
                },
                Done::Trashed { original, trashed } => {
                    out = carry_all(&out, original.as_str(), trashed.as_str());
                },
                Done::SetAside { original, aside } => {
                    out = carry_all(&out, original.as_str(), aside.as_str());
                    let ghost before = views(out@);
                    out.push(aside.clone());
                    assert(views(out@) =~= before.push(aside@));
                },
            }
            i = i + 1;
        }
        assert(all.take(i as int) =~= all);
        out
    }

    /// Takes note of how the last step went.
    pub fn report(&mut self, outcome: Outcome)
        requires
            old(self).wf(),
            run_step(old(self).plan_view(), old(self).state()) is Some,
        ensures
            final(self).wf(),
            final(self).plan_view() == old(self).plan_view(),
            final(self).state() == run_after(
                old(self).plan_view(),
                old(self).state(),
                outcome.view(),
            ),
    {
        let ghost pv = self.plan_view();
        let ghost v = self.state();
        let total: usize = self.plan.len();
        if self.failure.is_none() {
            assert(pv[self.op as int] == self.plan@[self.op as int].view());
            if let Planned::Steps(s) = &self.plan[self.op] {
                let count: usize = s.len();
                assert(step_views(s@).len() == count);
                assert(self.step < count && self.op < total);
                let step = &s[self.step];
                assert(step_views(s@)[self.step as int] == step.view());
                match outcome {
                    Outcome::Failed(e) => {
                        self.failure = Some(cat2(step.context().as_str(), e.as_str()));
                        assert(self.state() == run_after(pv, v, outcome.view()));
                    },
                    _ => {
                        let changed = match outcome {
                            Outcome::Changed => true,
                            _ => false,
                        };
                        let left = trace(step);
                        if changed {
                            if let Some(t) = left {
                                let ghost tv = t.view();
                                self.done.push(t);
                                assert(done_views(self.done@) =~= v.done.push(tv));
                            }
                        }
                        assert(done_views(self.done@) == journaled(v.done, step.view(), outcome.view()));
                        let journal: usize = self.done.len();
                        assert(self.done@.len() == journal);
                        if self.step + 1 < count {
                            self.step = self.step + 1;
                        } else {
                            self.op = self.op + 1;
                            self.step = 0;
                            self.settle();
                        }
                    },
                }
            }
        } else {
            let failed = match outcome {
                Outcome::Failed(_) => true,
                _ => false,
            };
            let _ = self.done.pop();
            assert(done_views(self.done@) =~= v.done.drop_last());
            if failed {
                self.failures = self.failures + 1;
            }
        }
    }
}

// ---------------------------------------------------------------------------
// Listings and the diagnosis of one directory
// ---------------------------------------------------------------------------

/// An entry of a directory that is shown to the planner.
#[derive(Debug)]
pub struct ListedPath {
    pub path: String,
    pub is_dir: bool,
}

/// A line of the listing: the kind, the path, and the summary where there is one.
pub open spec fn listing_line(p: ListedPath, summaries: Seq<(String, String)>) -> Seq<char> {
    let tag = if p.is_dir {
        "[dossier]"@
    } else {
        "[fichier]"@
    };
    match lookup(summaries, p.path@) {
        Some(s) if s.len() > 0 => "- "@ + tag + " "@ + p.path@ + " — "@ + s,
        _ => "- "@ + tag + " "@ + p.path@,
    }
}

pub open spec fn listing_lines(paths: Seq<ListedPath>, summaries: Seq<(String, String)>) -> Seq<Seq<char>> {
    Seq::new(paths.len(), |i: int| listing_line(paths[i], summaries))
}

pub fn build_listing(paths: &Vec<ListedPath>, summaries: &Vec<(String, String)>) -> (r: String)
    ensures
        r@ == join(listing_lines(paths@, summaries@), "\n"@),
{
    let ghost want = listing_lines(paths@, summaries@);
    let mut lines: Vec<String> = Vec::new();
    let mut i: usize = 0;
    while i < paths.len()
        invariant
            i <= paths.len(),
            want == listing_lines(paths@, summaries@),
            views(lines@) == want.take(i as int),
        decreases paths.len() - i,
    {
        let ghost before = views(lines@);
        let p = &paths[i];
        let tag = if p.is_dir {
            "[dossier]"
        } else {
            "[fichier]"
        };
        let mut line = cat4("- ", tag, " ", p.path.as_str());
        if let Some(s) = find_value(summaries, p.path.as_str()) {
            if !s.as_str().is_empty() {
                line.append(" — ");
                line.append(s.as_str());
            }
        }
        lines.push(line);
        assert(views(lines@) =~= before.push(listing_line(paths@[i as int], summaries@)));
        i = i + 1;
        assert(views(lines@) =~= want.take(i as int));
    }
    assert(want.take(i as int) =~= want);
    joined(&lines, "\n")
}

/// The request that goes to the planner with its system prompt.
pub fn plan_request(instruction: &str, scope: &str, listing: &str) -> (r: String)
    ensures
        r@ == "Instruction: "@ + instruction@ + "\n\nDossier cible: "@ + scope@
            + "\n\nFichiers:\n"@ + listing@,
{
    let mut s = cat5("Instruction: ", instruction, "\n\nDossier cible: ", scope, "\n\nFichiers:\n");
    s.append(listing);
    s
}

#[derive(Debug)]
pub struct DirectoryReport {
    pub scanned_path: String,
    pub file_count: usize,
    pub max_depth: usize,
    pub empty_dirs: Vec<String>,
    pub duplicate_groups: Vec<DuplicateGroup>,
    pub cluttered: bool,
    pub suggestions: Vec<String>,
}

/// What is suggested for a directory.
pub open spec fn suggestions_for(
    direct: nat,
    depth: nat,
    empty: nat,
    duplicates: nat,
    groups: nat,
) -> Seq<Seq<char>> {
    let found = only_if(
        direct > CLUTTER_THRESHOLD,
        "Ce dossier contient "@ + decimal(direct)
            + " fichiers en vrac : envisagez des sous-dossiers thématiques."@,
    ) + only_if(
        depth > DEEP_THRESHOLD,
        "Arborescence profonde (niveau "@ + decimal(depth) + ") : elle pourrait être aplatie."@,
    ) + only_if(empty > 0, decimal(empty) + " dossier(s) vide(s) à supprimer."@) + only_if(
        groups > 0,
        decimal(duplicates) + " fichier(s) en doublon exact détecté(s) sur "@ + decimal(groups)
            + " groupe(s)."@,
    );
    if found.len() == 0 {
        seq!["Aucune anomalie majeure détectée. 🌱"@]
    } else {
        found
    }
}

fn suggest(direct: usize, depth: usize, empty: usize, duplicates: usize, groups: usize) -> (r: Vec<
    String,
>)
    ensures
        views(r@) == suggestions_for(
            direct as nat,
            depth as nat,
            empty as nat,
            duplicates as nat,
            groups as nat,
        ),
{
    let mut out: Vec<String> = Vec::new();
    if direct > CLUTTER_THRESHOLD {
        out.push(
            cat3(
                "Ce dossier contient ",
                decimal_text(direct as u64).as_str(),
                " fichiers en vrac : envisagez des sous-dossiers thématiques.",
            ),
        );
    }
    let ghost s1 = only_if(
        direct > CLUTTER_THRESHOLD,
        "Ce dossier contient "@ + decimal(direct as nat)
            + " fichiers en vrac : envisagez des sous-dossiers thématiques."@,
    );
    assert(views(out@) =~= s1);
    if depth > DEEP_THRESHOLD {
        out.push(
            cat3(
                "Arborescence profonde (niveau ",
                decimal_text(depth as u64).as_str(),
                ") : elle pourrait être aplatie.",
            ),
        );
    }
    let ghost s2 = s1 + only_if(
        depth > DEEP_THRESHOLD,
        "Arborescence profonde (niveau "@ + decimal(depth as nat)
            + ") : elle pourrait être aplatie."@,
    );
    assert(views(out@) =~= s2);
    if empty > 0 {
        out.push(cat2(decimal_text(empty as u64).as_str(), " dossier(s) vide(s) à supprimer."));
    }
    let ghost s3 = s2 + only_if(
        empty > 0,
        decimal(empty as nat) + " dossier(s) vide(s) à supprimer."@,
    );
    assert(views(out@) =~= s3);
    if groups > 0 {
        out.push(
            cat4(
                decimal_text(duplicates as u64).as_str(),
                " fichier(s) en doublon exact détecté(s) sur ",
                decimal_text(groups as u64).as_str(),
                " groupe(s).",
            ),
        );
    }
    let ghost s4 = s3 + only_if(
        groups > 0,
        decimal(duplicates as nat) + " fichier(s) en doublon exact détecté(s) sur "@ + decimal(
            groups as nat,
        ) + " groupe(s)."@,
    );
    assert(views(out@) =~= s4);
    if out.len() == 0 {
        out.push("Aucune anomalie majeure détectée. 🌱".to_owned());
        assert(views(out@) =~= seq!["Aucune anomalie majeure détectée. 🌱"@]);
    }
    out
}

/// The diagnosis of a directory, from a walk through it and its duplicates.
pub fn analyze_directory(
    path: String,
    entries: &Vec<WalkEntry>,
    duplicate_groups: Vec<DuplicateGroup>,
) -> (r: DirectoryReport)
    requires
        duplicates_in(duplicate_groups@) <= usize::MAX,
    ensures
        r.scanned_path == path,
        r.file_count == files_in(entries@),
        r.max_depth == depth_of(entries@),
        views(r.empty_dirs@) == empty_dirs_in(entries@),
        r.duplicate_groups == duplicate_groups,
        r.cluttered == (direct_files_in(entries@) > CLUTTER_THRESHOLD),
        views(r.suggestions@) == suggestions_for(
            direct_files_in(entries@),
            depth_of(entries@),
            empty_dirs_in(entries@).len(),
            duplicates_in(duplicate_groups@),
            duplicate_groups@.len(),
        ),
{
    let s = survey(entries, entries.len());
    let total: usize = count_duplicates(&duplicate_groups);
    let empty: usize = s.empty_dirs.len();
    assert(views(s.empty_dirs@).len() == empty);
    let suggestions = suggest(
        s.direct_files,
        s.max_depth,
        empty,
        total,
        duplicate_groups.len(),
    );
    DirectoryReport {
        scanned_path: path,
        file_count: s.file_count,
        max_depth: s.max_depth,
        empty_dirs: s.empty_dirs,
        duplicate_groups,
        cluttered: s.direct_files > CLUTTER_THRESHOLD,
        suggestions,
    }
}

// ---------------------------------------------------------------------------
// Laws
// ---------------------------------------------------------------------------

/// A name that only starts like a root is outside of it: what continues a root by anything
/// but a separator does not lie in it.
pub proof fn law_roots_end_on_a_segment(root: Seq<char>, rest: Seq<char>)
    requires
        rest.len() > 0,
        rest[0] != '\\',
    ensures
        !within(root + rest, root),
{
    let path = root + rest;
    if within(path, root) {
        assert(path != root) by {
            assert(path.len() > root.len());
        }
        assert(path.subrange(0, (root.len() + 1) as int)[root.len() as int] == '\\');
        assert(path[root.len() as int] == rest[0]);
    }
}

/// A root lies in itself, and so does everything below it.
pub proof fn law_roots_hold_what_is_below(root: Seq<char>, rest: Seq<char>)
    requires
        root.len() > 0,
    ensures
        within(root, root),
        within(root.push('\\') + rest, root),
{
    let path = root.push('\\') + rest;
    assert(path.subrange(0, (root.len() + 1) as int) =~= root.push('\\'));
}

/// Lying in a root is passed on from a directory to what lies in it.
pub proof fn law_within_is_transitive(a: Seq<char>, b: Seq<char>, c: Seq<char>)
    requires
        within(a, b),
        within(b, c),
    ensures
        within(a, c),
{
    if a != b && b != c {
        assert(a.subrange(0, (c.len() + 1) as int) =~= c.push('\\')) by {
            assert forall|i: int| 0 <= i < c.len() + 1 implies a[i] == c.push('\\')[i] by {
                assert(a.subrange(0, (b.len() + 1) as int)[i] == b.push('\\')[i]);
                assert(b.subrange(0, (c.len() + 1) as int)[i] == c.push('\\')[i]);
            }
        }
    }
}

proof fn lemma_none_offending(ops: Seq<OpView>, roots: Seq<String>, from: int, i: int)
    requires
        first_offending(ops, roots, from) is None,
        0 <= from <= i < ops.len(),
    ensures
        offending_path(ops[i], roots) is None,
    decreases ops.len() - from,
{
    if from < i {
        lemma_none_offending(ops, roots, from + 1, i);
    }
}

/// What is left of a path once its steps back are taken holds no dots.
pub proof fn law_a_place_holds_no_dots(path: Seq<char>, i: int)
    requires
        trail_of(path) is Some,
        0 <= i < trail_of(path)->Some_0.len(),
    ensures
        trail_of(path)->Some_0[i] != "."@,
        trail_of(path)->Some_0[i] != ".."@,
{
    let names = segments(normalized_path(path));
    lemma_no_dots(names, 3, false);
    lemma_no_dots(names, 1, true);
    lemma_no_dots(names, 0, false);
}

proof fn lemma_no_dots(names: Seq<Seq<char>>, fixed: int, from_top: bool)
    requires
        fixed >= 0,
    ensures
        walk(names, fixed, from_top) matches Some(t) ==> forall|i: int|
            0 <= i < t.len() ==> #[trigger] t[i] != "."@ && t[i] != ".."@,
    decreases names.len(),
{
    if names.len() > 0 {
        lemma_no_dots(names.drop_last(), fixed, from_top);
        if let (Some(s), Some(t)) = (
            walk(names.drop_last(), fixed, from_top),
            walk(names, fixed, from_top),
        ) {
            assert forall|i: int| 0 <= i < t.len() implies #[trigger] t[i] != "."@ && t[i] != ".."@ by {
                if i < s.len() {
                    assert(t[i] == s[i]);
                }
            }
        }
    }
}

/// A path without dots leads where its text says: nothing of it is changed.
pub proof fn law_a_path_without_dots_is_its_place(path: Seq<char>)
    requires
        forall|i: int|
            0 <= i < segments(normalized_path(path)).len() ==> #[trigger] segments(
                normalized_path(path),
            )[i] != "."@ && segments(normalized_path(path))[i] != ".."@,
    ensures
        place_of(path) == Some(normalized_path(path)),
{
    let p = normalized_path(path);
    let names = segments(p);
    lemma_walk_without_dots(names, 3, false);
    lemma_walk_without_dots(names, 1, true);
    lemma_walk_without_dots(names, 0, false);
    reveal_strlit("\\");
    lemma_split_joins(p, "\\"@, 0);
    assert(p.skip(0) =~= p);
}

proof fn lemma_walk_without_dots(names: Seq<Seq<char>>, fixed: int, from_top: bool)
    requires
        forall|i: int| 0 <= i < names.len() ==> #[trigger] names[i] != "."@ && names[i] != ".."@,
    ensures
        walk(names, fixed, from_top) == Some(names),
    decreases names.len(),
{
    if names.len() > 0 {
        let rest = names.drop_last();
        assert forall|i: int| 0 <= i < rest.len() implies #[trigger] rest[i] != "."@ && rest[i]
            != ".."@ by {
            assert(rest[i] == names[i]);
        }
        lemma_walk_without_dots(rest, fixed, from_top);
        assert(rest.push(names.last()) =~= names);
    } else {
        assert(names =~= Seq::<Seq<char>>::empty());
    }
}

/// A step into a directory and back leads nowhere new.
pub proof fn law_a_step_back_undoes_a_step(
    names: Seq<Seq<char>>,
    name: Seq<char>,
    fixed: int,
    from_top: bool,
)
    requires
        name != "."@,
        name != ".."@,
        walk(names, fixed, from_top) matches Some(t) ==> t.len() >= fixed,
    ensures
        walk(names.push(name).push(".."@), fixed, from_top) == walk(names, fixed, from_top),
{
    assert(names.push(name).push(".."@).drop_last() =~= names.push(name));
    assert(names.push(name).drop_last() =~= names);
    reveal_strlit(".");
    reveal_strlit("..");
    assert("."@.len() == 1 && ".."@.len() == 2);
    if let Some(t) = walk(names, fixed, from_top) {
        assert(walk(names.push(name), fixed, from_top) == Some(t.push(name)));
        assert(t.push(name).drop_last() =~= t);
    }
}

/// A list of operations that is not refused touches nothing outside of the roots.
pub proof fn law_accepted_paths_lie_in_the_roots(ops: Seq<OpView>, roots: Seq<String>, i: int)
    requires
        first_offending(ops, roots, 0) is None,
        0 <= i < ops.len(),
    ensures
        ops[i].old_path matches Some(p) ==> within_roots(p, roots),
        ops[i].new_path matches Some(p) ==> within_roots(p, roots),
{
    lemma_none_offending(ops, roots, 0, i);
}

/// What runs was approved: it comes from a draft, each operation stands in the plan that was
/// recorded, and each path lies in the roots.
pub proof fn law_only_approved_operations_run(
    status: Seq<char>,
    plan: Result<Seq<OpView>, Seq<char>>,
    edited: Option<Seq<OpView>>,
    roots: Seq<String>,
    i: int,
)
    requires
        approved(status, plan, edited, roots) is Ok,
        0 <= i < approved(status, plan, edited, roots)->Ok_0.len(),
    ensures
        status == "draft"@,
        plan is Ok,
        is_planned(plan->Ok_0, approved(status, plan, edited, roots)->Ok_0[i]),
        approved(status, plan, edited, roots)->Ok_0[i].old_path matches Some(p) ==> within_roots(
            p,
            roots,
        ),
        approved(status, plan, edited, roots)->Ok_0[i].new_path matches Some(p) ==> within_roots(
            p,
            roots,
        ),
{
    let ops = approved(status, plan, edited, roots)->Ok_0;
    law_accepted_paths_lie_in_the_roots(ops, roots, i);
    assert(is_planned(plan->Ok_0, ops[i]));
}

/// A plan that was run or discarded never runs again.
pub proof fn law_a_plan_runs_once(
    status: Seq<char>,
    plan: Result<Seq<OpView>, Seq<char>>,
    edited: Option<Seq<OpView>>,
    roots: Seq<String>,
)
    requires
        status == "committed"@ || status == "discarded"@,
    ensures
        approved(status, plan, edited, roots) is Err,
{
    reveal_strlit("draft");
    reveal_strlit("committed");
    reveal_strlit("discarded");
    assert("draft"@.len() == 5);
    assert("committed"@.len() == 9);
    assert("discarded"@.len() == 9);
}

/// After a failure the steps are undone in reverse order: the `k`-th thing to undo is
/// the `k`-th last that was done.
pub proof fn law_rollback_runs_backwards(done: Seq<DoneView>, k: int)
    requires
        0 <= k < done.len(),
    ensures
        undo_all(done).len() == done.len(),
        undo_all(done)[k] == undo_of(done[done.len() - 1 - k]),
    decreases done.len(),
{
    let rest = done.drop_last();
    if k > 0 {
        law_rollback_runs_backwards(rest, k - 1);
    } else if rest.len() > 0 {
        law_rollback_runs_backwards(rest, 0);
    } else {
        assert(undo_all(rest) =~= Seq::<StepView>::empty());
    }
}

/// What stands at a place of the disk.
pub enum Entry {
    Dir,
    /// A file, by its content.
    File(int),
}

/// The files and directories of a disk, by their paths.
pub type Disk = Map<Seq<char>, Entry>;

/// A path is that of a directory or lies below it.
pub open spec fn below(p: Seq<char>, dir: Seq<char>) -> bool {
    p == dir || (p.len() > dir.len() && p.take(dir.len() as int) == dir && is_sep(
        p[dir.len() as int],
    ))
}

/// Nothing stands at a place.
pub open spec fn is_free(d: Disk, p: Seq<char>) -> bool {
    forall|q: Seq<char>| #[trigger] d.dom().contains(q) ==> !below(q, p)
}

/// The path in `from` of what is found at `q` in `to` after a move.
pub open spec fn origin(q: Seq<char>, from: Seq<char>, to: Seq<char>) -> Seq<char> {
    from + q.skip(to.len() as int)
}

/// What stands at a place after a move, with all that lies below it.
pub open spec fn stands_after_move(d: Disk, from: Seq<char>, to: Seq<char>, q: Seq<char>) -> bool {
    if below(q, to) {
        d.dom().contains(origin(q, from, to))
    } else {
        !below(q, from) && d.dom().contains(q)
    }
}

/// A disk after a move. A path names another place on it only where a part of it was moved.
pub open spec fn is_moved(d: Disk, from: Seq<char>, to: Seq<char>, after: Disk) -> bool {
    &&& forall|q: Seq<char>| #[trigger]
        after.dom().contains(q) <==> stands_after_move(d, from, to, q)
    &&& forall|q: Seq<char>| #[trigger]
        after.dom().contains(q) ==> after[q] == if below(q, to) {
            d[origin(q, from, to)]
        } else {
            d[q]
        }
}

/// What changes the disk by a move: something that is there goes to a place that is free, and
/// not into itself. A move to where it stands changes nothing.
pub open spec fn moves(d: Disk, from: Seq<char>, to: Seq<char>, after: Disk) -> bool {
    d.dom().contains(from) && if from == to {
        after == d
    } else {
        is_free(d, to) && !below(to, from) && is_moved(d, from, to, after)
    }
}

/// How a step changes a disk, where it does.
pub open spec fn changes(d: Disk, s: StepView, after: Disk) -> bool {
    match s {
        StepView::MakeDir { dir, .. } => is_free(d, dir) && after == d.insert(dir, Entry::Dir),
        StepView::Rename { from, to, .. } => moves(d, from, to, after),
        StepView::Trash { original, trashed, .. } => moves(d, original, trashed, after),
        StepView::SetAside { original, aside, .. } => moves(d, original, aside, after),
        StepView::RemoveDir { dir, .. } => d.dom().contains(dir) && d[dir] == Entry::Dir && (
        forall|q: Seq<char>| #[trigger] d.dom().contains(q) && below(q, dir) ==> q == dir)
            && after == d.remove(dir),
    }
}

/// What a disk can answer to a step, and what it is then. A step can fail for any reason; then
/// nothing was changed. Only a directory to make and a file to set aside can need nothing.
pub open spec fn answers(d: Disk, s: StepView, o: OutcomeView, after: Disk) -> bool {
    match o {
        OutcomeView::Changed => changes(d, s, after),
        OutcomeView::Unchanged => after == d && (s is MakeDir || s is SetAside),
        OutcomeView::Failed(_) => after == d,
    }
}

/// The step of which a trace was left.
pub open spec fn redo_of(t: DoneView) -> StepView {
    match t {
        DoneView::Renamed { from, to } => StepView::Rename { from, to, context: Seq::empty() },
        DoneView::Trashed { original, trashed } => StepView::Trash {
            original,
            trashed,
            context: Seq::empty(),
        },
        DoneView::SetAside { original, aside } => StepView::SetAside {
            original,
            aside,
            mover: Seq::empty(),
            context: Seq::empty(),
        },
        DoneView::Created { dir } => StepView::MakeDir { dir, context: Seq::empty() },
    }
}

/// A disk as it was found, and what became of it step by step: `disks` holds it before the
/// first step that changed it, and after each.
pub open spec fn tells(done: Seq<DoneView>, disks: Seq<Disk>) -> bool {
    &&& disks.len() == done.len() + 1
    &&& forall|i: int|
        0 <= i < done.len() ==> changes(disks[i], redo_of(#[trigger] done[i]), disks[i + 1])
}

proof fn lemma_below_both(q: Seq<char>, a: Seq<char>, b: Seq<char>)
    requires
        below(q, a),
        below(q, b),
    ensures
        below(a, b) || below(b, a),
    decreases
        if a.len() <= b.len() {
            0int
        } else {
            1int
        },
{
    if a.len() <= b.len() {
        assert(b.take(a.len() as int) =~= a) by {
            assert forall|k: int| 0 <= k < a.len() implies b[k] == a[k] by {
                if q != a {
                    assert(q.take(a.len() as int)[k] == a[k]);
                }
                if q != b {
                    assert(q.take(b.len() as int)[k] == b[k]);
                }
            }
        }
        if a.len() == b.len() {
            assert(b.take(a.len() as int) =~= b);
        } else {
            if q != b {
                assert(q.take(b.len() as int)[a.len() as int] == b[a.len() as int]);
            }
        }
    } else {
        lemma_below_both(q, b, a);
    }
}

proof fn lemma_origin(q: Seq<char>, from: Seq<char>, to: Seq<char>)
    requires
        below(q, to),
    ensures
        below(origin(q, from, to), from),
        origin(origin(q, from, to), to, from) == q,
{
    let p = origin(q, from, to);
    let rest = q.skip(to.len() as int);
    assert(p.skip(from.len() as int) =~= rest);
    assert(to + rest =~= q) by {
        if q != to {
            assert(q.take(to.len() as int) + rest =~= q);
        } else {
            assert(rest =~= Seq::<char>::empty());
        }
    }
    if q == to {
        assert(p =~= from);
    } else {
        assert(p.take(from.len() as int) =~= from);
        assert(p[from.len() as int] == rest[0]);
        assert(rest[0] == q[to.len() as int]);
    }
}

/// A move back is possible, and gives back the disk that was.
proof fn lemma_move_back(d: Disk, from: Seq<char>, to: Seq<char>, after: Disk)
    requires
        moves(d, from, to, after),
    ensures
        moves(after, to, from, d),
{
    if from != to {
        assert(below(to, to));
        assert(origin(to, from, to) =~= from);
        assert(after.dom().contains(to));
        assert(is_free(after, from)) by {
            assert forall|q: Seq<char>| #[trigger] after.dom().contains(q) implies !below(q, from) by {
                if below(q, from) && below(q, to) {
                    lemma_below_both(q, from, to);
                }
            }
        }
        assert forall|q: Seq<char>| #[trigger]
            d.dom().contains(q) <==> stands_after_move(after, to, from, q) by {
            if below(q, from) {
                lemma_origin(q, to, from);
                let p = origin(q, to, from);
                assert(after.dom().contains(p) <==> stands_after_move(d, from, to, p));
            } else {
                assert(after.dom().contains(q) <==> stands_after_move(d, from, to, q));
            }
        }
        assert forall|q: Seq<char>| #[trigger] d.dom().contains(q) implies d[q] == if below(q, from) {
            after[origin(q, to, from)]
        } else {
            after[q]
        } by {
            if below(q, from) {
                lemma_origin(q, to, from);
                let p = origin(q, to, from);
                assert(after.dom().contains(p) <==> stands_after_move(d, from, to, p));
            } else {
                assert(after.dom().contains(q) <==> stands_after_move(d, from, to, q));
            }
        }
    }
}

/// What a step changed can be undone, and undoing it gives back the disk that was. Nothing
/// else can come of it.
pub proof fn law_a_step_is_undone(d: Disk, s: StepView, after: Disk)
    requires
        changes(d, s, after),
        trace_of(s) is Some,
    ensures
        changes(after, undo_of(trace_of(s)->Some_0), d),
        forall|back: Disk|
            #[trigger] changes(after, undo_of(trace_of(s)->Some_0), back) ==> back == d,
{
    let undo = undo_of(trace_of(s)->Some_0);
    match s {
        StepView::MakeDir { dir, .. } => {
            assert forall|q: Seq<char>| #[trigger]
                after.dom().contains(q) && below(q, dir) implies q == dir by {
                if q != dir {
                    assert(d.dom().contains(q));
                }
            }
            assert(below(dir, dir));
            assert(after.remove(dir) =~= d);
        },
        StepView::Rename { from, to, .. } => {
            lemma_move_back(d, from, to, after);
        },
        StepView::Trash { original, trashed, .. } => {
            lemma_move_back(d, original, trashed, after);
        },
        StepView::SetAside { original, aside, .. } => {
            lemma_move_back(d, original, aside, after);
        },
        StepView::RemoveDir { .. } => {},
    }
    assert forall|back: Disk| #[trigger] changes(after, undo, back) implies back == d by {
        if let StepView::Rename { from, to, .. } = undo {
            if from != to {
                assert(is_moved(after, from, to, back) && is_moved(after, from, to, d));
                assert forall|q: Seq<char>| #[trigger]
                    back.dom().contains(q) <==> d.dom().contains(q) by {
                    assert(d.dom().contains(q) <==> stands_after_move(after, from, to, q));
                }
                assert(back =~= d);
            }
        }
    }
}

/// A run and the disk that it works on: `disks[i]` is the disk before the `i`-th answer.
pub open spec fn runs(plan: PlanView, v: RunView, outcomes: Seq<OutcomeView>, disks: Seq<Disk>) -> bool
    decreases outcomes.len(),
{
    disks.len() == outcomes.len() + 1 && (outcomes.len() == 0 || {
        &&& run_step(plan, v) is Some
        &&& answers(disks[0], run_step(plan, v)->Some_0, outcomes[0], disks[1])
        &&& runs(plan, run_after(plan, v, outcomes[0]), outcomes.skip(1), disks.skip(1))
    })
}

/// The state of a run after some answers.
pub open spec fn run_end(plan: PlanView, v: RunView, outcomes: Seq<OutcomeView>) -> RunView
    decreases outcomes.len(),
{
    if outcomes.len() == 0 {
        v
    } else {
        run_end(plan, run_after(plan, v, outcomes[0]), outcomes.skip(1))
    }
}

/// As long as nothing failed to be undone, the journal tells how the disk came to be what it
/// is from what it was.
pub open spec fn journal_holds(first: Disk, now: Disk, v: RunView) -> bool {
    v.failures == 0 ==> exists|path: Seq<Disk>| #[trigger]
        tells(v.done, path) && path[0] == first && path.last() == now
}

proof fn lemma_journal_step(plan: PlanView, v: RunView, o: OutcomeView, first: Disk, d: Disk, after: Disk)
    requires
        run_wf(plan, v),
        run_step(plan, v) is Some,
        answers(d, run_step(plan, v)->Some_0, o, after),
        journal_holds(first, d, v),
    ensures
        run_wf(plan, run_after(plan, v, o)),
        journal_holds(first, after, run_after(plan, v, o)),
{
    let s = run_step(plan, v)->Some_0;
    let w = run_after(plan, v, o);
    if w.failures == 0 {
        let path = choose|path: Seq<Disk>| #[trigger]
            tells(v.done, path) && path[0] == first && path.last() == d;
        if v.failure is None {
            if o == OutcomeView::Changed && trace_of(s) is Some {
                let more = path.push(after);
                assert(w.done == v.done.push(trace_of(s)->Some_0));
                assert forall|i: int| 0 <= i < w.done.len() implies changes(
                    more[i],
                    redo_of(#[trigger] w.done[i]),
                    more[i + 1],
                ) by {
                    if i < v.done.len() {
                        assert(w.done[i] == v.done[i]);
                        assert(changes(path[i], redo_of(v.done[i]), path[i + 1]));
                    } else {
                        assert(more[i] == d);
                    }
                }
                assert(tells(w.done, more));
                assert(more[0] == first && more.last() == after);
            } else {
                assert(w.done == v.done);
                assert(after == d);
            }
        } else {
            let n = v.done.len() as int;
            let less = path.drop_last();
            assert(changes(path[n - 1], redo_of(v.done[n - 1]), path[n]));
            law_a_step_is_undone(path[n - 1], redo_of(v.done[n - 1]), path[n]);
            assert(trace_of(redo_of(v.done[n - 1])) == Some(v.done[n - 1]));
            assert(after == path[n - 1]);
            assert forall|i: int| 0 <= i < w.done.len() implies changes(
                less[i],
                redo_of(#[trigger] w.done[i]),
                less[i + 1],
            ) by {
                assert(w.done[i] == v.done[i]);
            }
            assert(tells(w.done, less));
            assert(less[0] == first && less.last() == after);
        }
    }
}

proof fn lemma_journal_run(
    plan: PlanView,
    v: RunView,
    outcomes: Seq<OutcomeView>,
    disks: Seq<Disk>,
    first: Disk,
)
    requires
        run_wf(plan, v),
        runs(plan, v, outcomes, disks),
        journal_holds(first, disks[0], v),
    ensures
        run_wf(plan, run_end(plan, v, outcomes)),
        journal_holds(first, disks.last(), run_end(plan, v, outcomes)),
    decreases outcomes.len(),
{
    if outcomes.len() > 0 {
        lemma_journal_step(plan, v, outcomes[0], first, disks[0], disks[1]);
        lemma_journal_run(
            plan,
            run_after(plan, v, outcomes[0]),
            outcomes.skip(1),
            disks.skip(1),
            first,
        );
        assert(disks.skip(1).last() == disks.last());
    }
}

proof fn lemma_journal_starts(plan: PlanView, d: Disk)
    ensures
        journal_holds(d, d, run_start(plan)),
{
    assert(tells(run_start(plan).done, seq![d]));
}

/// A plan that failed leaves every file and every directory as it was, whatever the disk
/// answered to its steps, unless something could not be undone.
pub proof fn law_a_failed_plan_leaves_no_trace(
    plan: PlanView,
    outcomes: Seq<OutcomeView>,
    disks: Seq<Disk>,
)
    requires
        run_wf(plan, run_start(plan)),
        runs(plan, run_start(plan), outcomes, disks),
        run_end(plan, run_start(plan), outcomes).failure is Some,
        run_step(plan, run_end(plan, run_start(plan), outcomes)) is None,
        run_end(plan, run_start(plan), outcomes).failures == 0,
    ensures
        disks.last() == disks[0],
{
    lemma_journal_starts(plan, disks[0]);
    lemma_journal_run(plan, run_start(plan), outcomes, disks, disks[0]);
    let end = run_end(plan, run_start(plan), outcomes);
    let path = choose|path: Seq<Disk>| #[trigger]
        tells(end.done, path) && path[0] == disks[0] && path.last() == disks.last();
    assert(path.len() == 1);
}

/// Nothing stands in the way of undoing a plan: as long as the disk holds what the plan made
/// of it, what comes next to be undone can be undone.
pub proof fn law_undoing_is_always_possible(
    plan: PlanView,
    outcomes: Seq<OutcomeView>,
    disks: Seq<Disk>,
)
    requires
        run_wf(plan, run_start(plan)),
        runs(plan, run_start(plan), outcomes, disks),
        run_end(plan, run_start(plan), outcomes).failure is Some,
        run_end(plan, run_start(plan), outcomes).done.len() > 0,
        run_end(plan, run_start(plan), outcomes).failures == 0,
    ensures
        exists|after: Disk|
            #[trigger] changes(
                disks.last(),
                run_step(plan, run_end(plan, run_start(plan), outcomes))->Some_0,
                after,
            ),
{
    lemma_journal_starts(plan, disks[0]);
    lemma_journal_run(plan, run_start(plan), outcomes, disks, disks[0]);
    let end = run_end(plan, run_start(plan), outcomes);
    let n = end.done.len() as int;
    let path = choose|path: Seq<Disk>| #[trigger]
        tells(end.done, path) && path[0] == disks[0] && path.last() == disks.last();
    assert(changes(path[n - 1], redo_of(end.done[n - 1]), path[n]));
    law_a_step_is_undone(path[n - 1], redo_of(end.done[n - 1]), path[n]);
    assert(trace_of(redo_of(end.done[n - 1])) == Some(end.done[n - 1]));
    assert(run_step(plan, end) == Some(undo_of(end.done[n - 1])));
    assert(changes(disks.last(), run_step(plan, end)->Some_0, path[n - 1]));
}

proof fn lemma_carried(d: Disk, from: Seq<char>, to: Seq<char>, after: Disk, p: Seq<char>)
    requires
        moves(d, from, to, after),
        d.dom().contains(p),
    ensures
        after.dom().contains(carried(p, from, to)),
        after[carried(p, from, to)] == d[p],
{
    let q = carried(p, from, to);
    if from == to {
        if below(p, from) {
            lemma_origin(p, from, to);
            assert(from + p.skip(from.len() as int) =~= p);
        }
    } else {
        assert(after.dom().contains(q) <==> stands_after_move(d, from, to, q));
        if below(p, from) {
            lemma_origin(p, to, from);
        }
    }
}

/// What a plan set aside is found where the commit says, and nothing of it was changed: it is
/// what stood in the way.
pub proof fn law_what_was_set_aside_is_found_again(done: Seq<DoneView>, disks: Seq<Disk>, i: int)
    requires
        tells(done, disks),
        0 <= i < leftovers_of(done).len(),
    ensures
        disks.last().dom().contains(leftovers_of(done)[i]),
        exists|k: int|
            0 <= k < done.len() && (#[trigger] done[k] matches DoneView::SetAside { original, .. }
                && disks[k].dom().contains(original) && disks[k][original]
                == disks.last()[leftovers_of(done)[i]]),
    decreases done.len(),
{
    let n = done.len() as int;
    let less = done.drop_last();
    let before = disks.drop_last();
    assert(changes(disks[n - 1], redo_of(done[n - 1]), disks[n]));
    assert forall|j: int| 0 <= j < less.len() implies changes(
        before[j],
        redo_of(#[trigger] less[j]),
        before[j + 1],
    ) by {
        assert(less[j] == done[j]);
    }
    assert(tells(less, before));
    assert(before.last() == disks[n - 1]);
    if i < leftovers_of(less).len() {
        law_what_was_set_aside_is_found_again(less, before, i);
        let p = leftovers_of(less)[i];
        match done.last() {
            DoneView::Created { dir } => {
                assert(below(dir, dir));
                assert(p != dir);
            },
            DoneView::Renamed { from, to } => {
                lemma_carried(disks[n - 1], from, to, disks[n], p);
            },
            DoneView::Trashed { original, trashed } => {
                lemma_carried(disks[n - 1], original, trashed, disks[n], p);
            },
            DoneView::SetAside { original, aside } => {
                lemma_carried(disks[n - 1], original, aside, disks[n], p);
            },
        }
        let k = choose|k: int|
            0 <= k < less.len() && (#[trigger] less[k] matches DoneView::SetAside { original, .. }
                && before[k].dom().contains(original) && before[k][original] == before.last()[p]);
        assert(done[k] == less[k]);
        assert(disks[k] == before[k]);
    } else {
        if let DoneView::SetAside { original, aside } = done[n - 1] {
            assert(below(original, original));
            lemma_carried(disks[n - 1], original, aside, disks[n], original);
            assert(carried(original, original, aside) =~= aside);
            assert(done[n - 1] is SetAside);
        }
    }
}

/// A run ends: each report goes on in the plan, or after a failure leaves one thing less to
/// be undone.
pub proof fn law_every_report_makes_progress(plan: PlanView, v: RunView, o: OutcomeView)
    requires
        run_wf(plan, v),
        run_step(plan, v) is Some,
    ensures
        run_wf(plan, run_after(plan, v, o)),
        v.failure is None ==> run_after(plan, v, o).failure is Some || run_after(plan, v, o).op
            > v.op || (run_after(plan, v, o).op == v.op && run_after(plan, v, o).step > v.step),
        v.failure is Some ==> run_after(plan, v, o).done.len() == v.done.len() - 1,
{
}

/// Once a step failed the run never commits: it goes on failed with that error until
/// everything is undone.
pub proof fn law_a_failed_run_stays_failed(plan: PlanView, v: RunView, o: OutcomeView)
    requires
        run_wf(plan, v),
        run_step(plan, v) is Some,
        v.failure is Some,
    ensures
        run_after(plan, v, o).failure == v.failure,
        run_after(plan, v, o).done == v.done.drop_last(),
{
}

/// What runs is what was asked for, whole and in its order: the operations that the user kept,
/// or all of the plan. A draft whose operations all stay in the roots does run.
pub proof fn law_an_approved_plan_runs_whole(
    status: Seq<char>,
    plan: Seq<OpView>,
    edited: Option<Seq<OpView>>,
    roots: Seq<String>,
)
    ensures
        approved(status, Ok(plan), edited, roots) matches Ok(ops) ==> ops == match edited {
            Some(kept) => kept,
            None => plan,
        },
        status == "draft"@ && edited is None && (forall|i: int|
            0 <= i < plan.len() ==> in_roots(#[trigger] plan[i], roots)) ==> approved(
            status,
            Ok(plan),
            edited,
            roots,
        ) is Ok,
        status == "draft"@ && (edited matches Some(kept) && kept.len() > 0 && (forall|i: int|
            0 <= i < kept.len() ==> in_roots(#[trigger] kept[i], roots) && plan.contains(kept[i])))
            ==> approved(status, Ok(plan), edited, roots) is Ok,
{
    let ops = match edited {
        Some(kept) => kept,
        None => plan,
    };
    if forall|i: int| 0 <= i < ops.len() ==> in_roots(#[trigger] ops[i], roots) {
        lemma_all_in_roots(ops, roots, 0);
    }
    if let Some(kept) = edited {
        if forall|i: int|
            0 <= i < kept.len() ==> in_roots(#[trigger] kept[i], roots) && plan.contains(kept[i]) {
            assert forall|i: int| 0 <= i < kept.len() implies is_planned(plan, #[trigger] kept[i]) by {
                assert(in_roots(kept[i], roots));
                let j = choose|j: int| 0 <= j < plan.len() && plan[j] == kept[i];
                assert(plan[j] == kept[i]);
            }
        }
    }
}

/// Every path that an operation names lies in the roots.
pub open spec fn in_roots(op: OpView, roots: Seq<String>) -> bool {
    (op.old_path matches Some(p) ==> within_roots(p, roots)) && (op.new_path matches Some(p)
        ==> within_roots(p, roots))
}

proof fn lemma_all_in_roots(ops: Seq<OpView>, roots: Seq<String>, from: int)
    requires
        0 <= from,
        forall|i: int| 0 <= i < ops.len() ==> in_roots(#[trigger] ops[i], roots),
    ensures
        first_offending(ops, roots, from) is None,
    decreases ops.len() - from,
{
    if from < ops.len() {
        assert(in_roots(ops[from], roots));
        lemma_all_in_roots(ops, roots, from + 1);
    }
}

// ---------------------------------------------------------------------------
// What an operation does to a disk
// ---------------------------------------------------------------------------

/// A step went well: it changed the disk, or there was nothing to do.
pub open spec fn goes_well(d: Disk, s: StepView, after: Disk) -> bool {
    changes(d, s, after) || (after == d && match s {
        StepView::MakeDir { dir, .. } => d.dom().contains(dir) && d[dir] == Entry::Dir,
        StepView::SetAside { .. } => true,
        _ => false,
    })
}

/// All steps went well, one after the other: `disks` holds the disk before the first and after
/// each.
pub open spec fn all_go_well(steps: Seq<StepView>, disks: Seq<Disk>) -> bool {
    &&& disks.len() == steps.len() + 1
    &&& forall|i: int| 0 <= i < steps.len() ==> goes_well(disks[i], #[trigger] steps[i], disks[i + 1])
}

/// What stood on a disk still stands there.
pub open spec fn keeps(before: Disk, after: Disk) -> bool {
    forall|q: Seq<char>| #[trigger]
        before.dom().contains(q) ==> after.dom().contains(q) && after[q] == before[q]
}

/// What stands on a disk stood there, or is a new directory of those listed.
pub open spec fn adds_only(before: Disk, after: Disk, dirs: Seq<Seq<char>>) -> bool {
    forall|q: Seq<char>| #[trigger]
        after.dom().contains(q) ==> before.dom().contains(q) || (after[q] == Entry::Dir
            && dirs.contains(q))
}

proof fn lemma_made(steps: Seq<StepView>, disks: Seq<Disk>, dirs: Seq<Seq<char>>, context: Seq<char>, n: int)
    requires
        all_go_well(steps, disks),
        0 <= n <= dirs.len() <= steps.len(),
        forall|i: int|
            0 <= i < dirs.len() ==> #[trigger] steps[i] == (StepView::MakeDir { dir: dirs[i], context }),
    ensures
        keeps(disks[0], disks[n]),
        adds_only(disks[0], disks[n], dirs),
        forall|i: int|
            0 <= i < n ==> disks[n].dom().contains(#[trigger] dirs[i]) && disks[n][dirs[i]]
                == Entry::Dir,
    decreases n,
{
    if n > 0 {
        lemma_made(steps, disks, dirs, context, n - 1);
        let d = disks[n - 1];
        let dir = dirs[n - 1];
        assert(steps[n - 1] == (StepView::MakeDir { dir, context }));
        assert(goes_well(d, steps[n - 1], disks[n]));
        assert(below(dir, dir));
        assert(dirs.contains(dir));
    }
}

/// Where all steps of a move or a renaming went well, what stood at the old path stands at the
/// new one, with all that lies below it and unchanged, and the old path is free. What stood in
/// the way is found where it was set aside. Nothing else changes, but that directories are made.
pub proof fn law_a_move_moves(
    op: OpView,
    target_dirs: Seq<Seq<char>>,
    trash_dirs: Seq<Seq<char>>,
    trashed: Seq<char>,
    aside: Seq<char>,
    from: Seq<char>,
    to: Seq<char>,
    steps: Seq<StepView>,
    disks: Seq<Disk>,
)
    requires
        op.kind == OpKind::Move || op.kind == OpKind::Rename,
        op.old_path == Some(from),
        op.new_path == Some(to),
        from != to,
        op_steps(op, target_dirs, trash_dirs, trashed, aside) == Ok::<Seq<StepView>, Seq<char>>(
            steps,
        ),
        all_go_well(steps, disks),
        disks[0].dom().contains(from),
    ensures
        disks.last().dom().contains(to),
        disks.last()[to] == disks[0][from],
        is_free(disks.last(), from),
        forall|q: Seq<char>| #[trigger]
            disks[0].dom().contains(q) && below(q, from) ==> disks.last().dom().contains(
                carried(q, from, to),
            ) && disks.last()[carried(q, from, to)] == disks[0][q],
        disks[0].dom().contains(to) ==> disks.last().dom().contains(carried(aside, from, to))
            && disks.last()[carried(aside, from, to)] == disks[0][to],
        forall|q: Seq<char>| #[trigger]
            disks[0].dom().contains(q) && !below(q, from) && !below(q, to)
                ==> disks.last().dom().contains(q) && disks.last()[q] == disks[0][q],
        forall|q: Seq<char>| #[trigger]
            disks.last().dom().contains(q) && !below(q, to) && !below(q, aside)
                ==> disks[0].dom().contains(q) || (disks.last()[q] == Entry::Dir
                && target_dirs.contains(q)),
{
    let n = target_dirs.len() as int;
    let context = "création parent: "@;
    let tail = steps.skip(n);
    assert(steps.len() == n + 2);
    assert forall|i: int| 0 <= i < n implies #[trigger] steps[i] == (StepView::MakeDir {
        dir: target_dirs[i],
        context,
    }) by {}
    lemma_made(steps, disks, target_dirs, context, n);
    let d = disks[0];
    let d1 = disks[n];
    let d2 = disks[n + 1];
    let d3 = disks[n + 2];
    assert(disks.last() == d3);
    assert(goes_well(d1, steps[n], d2));
    assert(goes_well(d2, steps[n + 1], d3));
    assert(moves(d2, from, to, d3));
    assert(d1.dom().contains(from) && d1[from] == d[from]);
    assert(below(from, from) && below(to, to));
    let set = d2 != d1;
    if set {
        assert(moves(d1, to, aside, d2));
    }
    assert(!below(from, to)) by {
        if below(from, to) {
            if set {
                assert(d2.dom().contains(from) <==> stands_after_move(d1, to, aside, from));
            } else {
                assert(d1.dom().contains(from));
            }
        }
    }
    assert forall|q: Seq<char>| #[trigger] d.dom().contains(q) && !below(q, to) implies d2.dom().contains(q)
        && d2[q] == d[q] by {
        if set {
            assert(d2.dom().contains(q) <==> stands_after_move(d1, to, aside, q));
        }
    }
    assert forall|q: Seq<char>| #[trigger] d.dom().contains(q) && below(q, from) implies d3.dom().contains(
        carried(q, from, to),
    ) && d3[carried(q, from, to)] == d[q] by {
        if below(q, to) {
            lemma_below_both(q, from, to);
        }
        lemma_carried(d2, from, to, d3, q);
    }
    assert(carried(from, from, to) =~= to);
    assert(is_free(d3, from)) by {
        lemma_move_back(d2, from, to, d3);
    }
    if d.dom().contains(to) {
        assert(set);
        assert(to != aside);
        assert(below(aside, aside));
        assert(origin(aside, to, aside) =~= to);
        assert(d2.dom().contains(aside) <==> stands_after_move(d1, to, aside, aside));
        lemma_carried(d2, from, to, d3, aside);
    }
    assert forall|q: Seq<char>| #[trigger]
        d.dom().contains(q) && !below(q, from) && !below(q, to) implies d3.dom().contains(q) && d3[q]
        == d[q] by {
        assert(d3.dom().contains(q) <==> stands_after_move(d2, from, to, q));
    }
    assert forall|q: Seq<char>| #[trigger]
        d3.dom().contains(q) && !below(q, to) && !below(q, aside) implies d.dom().contains(q) || (
    d3[q] == Entry::Dir && target_dirs.contains(q)) by {
        assert(d3.dom().contains(q) <==> stands_after_move(d2, from, to, q));
        if set {
            assert(d2.dom().contains(q) <==> stands_after_move(d1, to, aside, q));
        }
        assert(d1.dom().contains(q));
    }
}

/// Where all steps of a deletion went well, the path is free, and what stood there is in the
/// trash, with all that lies below it and unchanged. Nothing else changes.
pub proof fn law_a_deletion_goes_to_the_trash(
    op: OpView,
    target_dirs: Seq<Seq<char>>,
    trash_dirs: Seq<Seq<char>>,
    trashed: Seq<char>,
    aside: Seq<char>,
    path: Seq<char>,
    steps: Seq<StepView>,
    disks: Seq<Disk>,
)
    requires
        op.kind == OpKind::Delete,
        op.old_path == Some(path),
        path != trashed,
        op_steps(op, target_dirs, trash_dirs, trashed, aside) == Ok::<Seq<StepView>, Seq<char>>(
            steps,
        ),
        all_go_well(steps, disks),
        disks[0].dom().contains(path),
    ensures
        is_free(disks.last(), path),
        disks.last().dom().contains(trashed),
        disks.last()[trashed] == disks[0][path],
        forall|q: Seq<char>| #[trigger]
            disks[0].dom().contains(q) && below(q, path) ==> disks.last().dom().contains(
                carried(q, path, trashed),
            ) && disks.last()[carried(q, path, trashed)] == disks[0][q],
        forall|q: Seq<char>| #[trigger]
            disks[0].dom().contains(q) && !below(q, path) ==> disks.last().dom().contains(q)
                && disks.last()[q] == disks[0][q],
        forall|q: Seq<char>| #[trigger]
            disks.last().dom().contains(q) && !below(q, trashed) ==> disks[0].dom().contains(q) || (
            disks.last()[q] == Entry::Dir && trash_dirs.contains(q)),
{
    let n = trash_dirs.len() as int;
    let context = "corbeille: "@;
    assert(steps.len() == n + 1);
    assert forall|i: int| 0 <= i < n implies #[trigger] steps[i] == (StepView::MakeDir {
        dir: trash_dirs[i],
        context,
    }) by {}
    lemma_made(steps, disks, trash_dirs, context, n);
    let d = disks[0];
    let d1 = disks[n];
    let d2 = disks[n + 1];
    assert(disks.last() == d2);
    assert(goes_well(d1, steps[n], d2));
    assert(moves(d1, path, trashed, d2));
    assert(below(path, path));
    assert forall|q: Seq<char>| #[trigger] d.dom().contains(q) && below(q, path) implies d2.dom().contains(
        carried(q, path, trashed),
    ) && d2[carried(q, path, trashed)] == d[q] by {
        lemma_carried(d1, path, trashed, d2, q);
    }
    assert(carried(path, path, trashed) =~= trashed);
    lemma_move_back(d1, path, trashed, d2);
    assert forall|q: Seq<char>| #[trigger] d.dom().contains(q) && !below(q, path) implies d2.dom().contains(q)
        && d2[q] == d[q] by {
        assert(d2.dom().contains(q) <==> stands_after_move(d1, path, trashed, q));
    }
    assert forall|q: Seq<char>| #[trigger] d2.dom().contains(q) && !below(q, trashed) implies d.dom().contains(
        q,
    ) || (d2[q] == Entry::Dir && trash_dirs.contains(q)) by {
        assert(d2.dom().contains(q) <==> stands_after_move(d1, path, trashed, q));
        assert(d1.dom().contains(q));
    }
}

/// Where all steps of a new directory went well, the path is a directory, as are those above
/// it. Nothing else changes.
pub proof fn law_a_new_directory_is_there(
    op: OpView,
    target_dirs: Seq<Seq<char>>,
    trash_dirs: Seq<Seq<char>>,
    trashed: Seq<char>,
    aside: Seq<char>,
    dir: Seq<char>,
    steps: Seq<StepView>,
    disks: Seq<Disk>,
)
    requires
        op.kind == OpKind::Mkdir,
        op.new_path == Some(dir),
        op_steps(op, target_dirs, trash_dirs, trashed, aside) == Ok::<Seq<StepView>, Seq<char>>(
            steps,
        ),
        all_go_well(steps, disks),
    ensures
        disks.last().dom().contains(dir),
        disks.last()[dir] == Entry::Dir,
        forall|i: int|
            0 <= i < target_dirs.len() ==> disks.last().dom().contains(#[trigger] target_dirs[i])
                && disks.last()[target_dirs[i]] == Entry::Dir,
        keeps(disks[0], disks.last()),
        adds_only(disks[0], disks.last(), target_dirs.push(dir)),
{
    let dirs = target_dirs.push(dir);
    let context = "mkdir "@ + dir + ": "@;
    let n = dirs.len() as int;
    assert(steps.len() == n);
    assert forall|i: int| 0 <= i < n implies #[trigger] steps[i] == (StepView::MakeDir {
        dir: dirs[i],
        context,
    }) by {}
    lemma_made(steps, disks, dirs, context, n);
    assert(dirs[n - 1] == dir);
    assert forall|i: int| 0 <= i < target_dirs.len() implies disks.last().dom().contains(
        #[trigger] target_dirs[i],
    ) && disks.last()[target_dirs[i]] == Entry::Dir by {
        assert(dirs[i] == target_dirs[i]);
    }
}

/// A disk after a move.
spec fn moved_disk(d: Disk, from: Seq<char>, to: Seq<char>) -> Disk {
    Map::new(
        |q: Seq<char>| stands_after_move(d, from, to, q),
        |q: Seq<char>|
            if below(q, to) {
                d[origin(q, from, to)]
            } else {
                d[q]
            },
    )
}

/// A move can be done on every disk that allows it: where the file is there, the target does
/// not lie in it and is free or a file that can be set aside, and the directories above it are
/// there, all steps can go well, and the last of them is the move.
pub proof fn law_a_move_can_be_done(
    op: OpView,
    target_dirs: Seq<Seq<char>>,
    trash_dirs: Seq<Seq<char>>,
    trashed: Seq<char>,
    aside: Seq<char>,
    from: Seq<char>,
    to: Seq<char>,
    d: Disk,
) -> (r: (Seq<StepView>, Seq<Disk>))
    requires
        op.kind == OpKind::Move || op.kind == OpKind::Rename,
        op.old_path == Some(from),
        op.new_path == Some(to),
        d.dom().contains(from),
        !below(to, from),
        !below(from, to),
        is_free(d, to) || (d.dom().contains(to) && is_free(d, aside) && !below(aside, to)),
        forall|i: int|
            0 <= i < target_dirs.len() ==> d.dom().contains(#[trigger] target_dirs[i])
                && d[target_dirs[i]] == Entry::Dir,
    ensures
        op_steps(op, target_dirs, trash_dirs, trashed, aside) == Ok::<Seq<StepView>, Seq<char>>(
            r.0,
        ),
        all_go_well(r.0, r.1),
        r.1[0] == d,
{
    let steps = op_steps(op, target_dirs, trash_dirs, trashed, aside)->Ok_0;
    let n = target_dirs.len();
    assert(steps.len() == n + 2);
    assert(below(from, from) && below(to, to));
    let d2 = if is_free(d, to) {
        d
    } else {
        moved_disk(d, to, aside)
    };
    if !is_free(d, to) {
        assert(moves(d, to, aside, d2));
        assert(d2.dom().contains(from) <==> stands_after_move(d, to, aside, from));
        assert forall|q: Seq<char>| #[trigger] d2.dom().contains(q) implies !below(q, to) by {
            assert(stands_after_move(d, to, aside, q));
            if below(q, to) && below(q, aside) {
                lemma_below_both(q, to, aside);
            }
        }
    }
    assert(is_free(d2, to));
    let d3 = moved_disk(d2, from, to);
    assert(moves(d2, from, to, d3));
    let disks = Seq::new(n + 1, |i: int| d).push(d2).push(d3);
    assert forall|i: int| 0 <= i < steps.len() implies goes_well(
        disks[i],
        #[trigger] steps[i],
        disks[i + 1],
    ) by {
        if i < n {
            assert(d.dom().contains(target_dirs[i]));
        }
    }
    (steps, disks)
}

/// The steps of a plan, one operation after the other.
pub open spec fn all_steps(plan: PlanView) -> Seq<StepView>
    decreases plan.len(),
{
    if plan.len() == 0 {
        Seq::empty()
    } else {
        plan[0]->Ok_0 + all_steps(plan.skip(1))
    }
}

/// What a run asks the disk to do, as it is answered.
pub open spec fn asked(plan: PlanView, v: RunView, outcomes: Seq<OutcomeView>) -> Seq<StepView>
    decreases outcomes.len(),
{
    if outcomes.len() == 0 {
        Seq::empty()
    } else {
        seq![run_step(plan, v)->Some_0] + asked(
            plan,
            run_after(plan, v, outcomes[0]),
            outcomes.skip(1),
        )
    }
}

/// The traces of the steps that changed the disk.
pub open spec fn traces(steps: Seq<StepView>, outcomes: Seq<OutcomeView>) -> Seq<DoneView>
    decreases outcomes.len(),
{
    if outcomes.len() == 0 {
        Seq::empty()
    } else {
        (match (outcomes[0], trace_of(steps[0])) {
            (OutcomeView::Changed, Some(t)) => seq![t],
            _ => Seq::empty(),
        }) + traces(steps.skip(1), outcomes.skip(1))
    }
}

/// What is still to be done of a plan that goes well.
spec fn still_to_do(plan: PlanView, v: RunView) -> Seq<StepView> {
    if 0 <= v.op < plan.len() {
        plan[v.op]->Ok_0.skip(v.step) + all_steps(plan.skip(v.op + 1))
    } else {
        Seq::empty()
    }
}

proof fn lemma_stays_failed(plan: PlanView, v: RunView, outcomes: Seq<OutcomeView>)
    requires
        v.failure is Some,
    ensures
        run_end(plan, v, outcomes).failure is Some,
    decreases outcomes.len(),
{
    if outcomes.len() > 0 {
        lemma_stays_failed(plan, run_after(plan, v, outcomes[0]), outcomes.skip(1));
    }
}

/// The outcomes of a run each come to a step that was asked for.
pub open spec fn is_run(plan: PlanView, v: RunView, outcomes: Seq<OutcomeView>) -> bool
    decreases outcomes.len(),
{
    outcomes.len() == 0 || (run_step(plan, v) is Some && is_run(
        plan,
        run_after(plan, v, outcomes[0]),
        outcomes.skip(1),
    ))
}

proof fn lemma_run_goes_on(plan: PlanView, v: RunView, outcomes: Seq<OutcomeView>)
    requires
        run_wf(plan, v),
        v.failure is None,
        is_run(plan, v, outcomes),
        run_end(plan, v, outcomes).failure is None,
    ensures
        run_wf(plan, run_end(plan, v, outcomes)),
        asked(plan, v, outcomes) + still_to_do(plan, run_end(plan, v, outcomes)) == still_to_do(
            plan,
            v,
        ),
        asked(plan, v, outcomes).len() == outcomes.len(),
        forall|i: int| 0 <= i < outcomes.len() ==> !(#[trigger] outcomes[i] is Failed),
        run_end(plan, v, outcomes).done == v.done + traces(asked(plan, v, outcomes), outcomes),
    decreases outcomes.len(),
{
    if outcomes.len() == 0 {
        assert(asked(plan, v, outcomes) + still_to_do(plan, v) =~= still_to_do(plan, v));
        assert(v.done + traces(asked(plan, v, outcomes), outcomes) =~= v.done);
    } else {
        let o = outcomes[0];
        let w = run_after(plan, v, o);
        let rest = outcomes.skip(1);
        law_every_report_makes_progress(plan, v, o);
        if w.failure is Some {
            lemma_stays_failed(plan, w, rest);
        }
        lemma_run_goes_on(plan, w, rest);
        let s = run_step(plan, v)->Some_0;
        let steps = plan[v.op]->Ok_0;
        assert(s == steps[v.step]);
        assert forall|i: int| 0 <= i < outcomes.len() implies !(#[trigger] outcomes[i] is Failed) by {
            if i > 0 {
                assert(rest[i - 1] == outcomes[i]);
            }
        }
        let all = asked(plan, v, outcomes);
        assert(all.skip(1) =~= asked(plan, w, rest));
        assert(all[0] == s);
        assert(w.done =~= v.done + match (o, trace_of(s)) {
            (OutcomeView::Changed, Some(t)) => seq![t],
            _ => Seq::empty(),
        });
        assert(run_end(plan, v, outcomes).done =~= v.done + traces(all, outcomes));
        assert(still_to_do(plan, v) =~= seq![s] + still_to_do(plan, w)) by {
            if v.step + 1 < steps.len() {
                assert(steps.skip(v.step) =~= seq![s] + steps.skip(v.step + 1));
            } else {
                assert(steps.skip(v.step) =~= seq![s]);
                let behind = plan.skip(v.op + 1);
                if v.op + 1 < plan.len() {
                    assert(behind[0] == plan[v.op + 1]);
                    assert(behind.skip(1) =~= plan.skip(v.op + 2));
                    assert(plan[v.op + 1]->Ok_0.skip(0) =~= plan[v.op + 1]->Ok_0);
                } else {
                    assert(behind =~= Seq::empty());
                    assert(all_steps(behind) =~= Seq::<StepView>::empty());
                }
            }
        }
        assert(all + still_to_do(plan, run_end(plan, v, outcomes)) =~= seq![s] + (asked(
            plan,
            w,
            rest,
        ) + still_to_do(plan, run_end(plan, v, outcomes))));
    }
}

/// A plan is committed only once every step of every operation was carried out, each once and
/// in order, and none failed. The journal then tells exactly what changed the disk.
pub proof fn law_a_committed_plan_was_carried_out(plan: PlanView, outcomes: Seq<OutcomeView>)
    requires
        run_wf(plan, run_start(plan)),
        is_run(plan, run_start(plan), outcomes),
        run_end(plan, run_start(plan), outcomes).failure is None,
        run_step(plan, run_end(plan, run_start(plan), outcomes)) is None,
    ensures
        asked(plan, run_start(plan), outcomes) == all_steps(plan),
        outcomes.len() == all_steps(plan).len(),
        forall|i: int| 0 <= i < outcomes.len() ==> !(#[trigger] outcomes[i] is Failed),
        run_end(plan, run_start(plan), outcomes).done == traces(all_steps(plan), outcomes),
{
    let v = run_start(plan);
    if v.failure is Some {
        lemma_stays_failed(plan, v, outcomes);
    }
    lemma_run_goes_on(plan, v, outcomes);
    let end = run_end(plan, v, outcomes);
    assert(still_to_do(plan, end) =~= Seq::<StepView>::empty());
    assert(asked(plan, v, outcomes) =~= still_to_do(plan, v));
    if plan.len() > 0 {
        assert(plan[0]->Ok_0.skip(0) =~= plan[0]->Ok_0);
        assert(plan.skip(1) =~= plan.skip(v.op + 1));
    }
    assert(still_to_do(plan, v) =~= all_steps(plan));
    assert(v.done + traces(all_steps(plan), outcomes) =~= traces(all_steps(plan), outcomes));
}

/// The first step that fails ends the plan: nothing more of it is done, and the error is that
/// of the step. An operation that cannot be done fails as soon as its turn comes.
pub proof fn law_a_failure_ends_the_plan(plan: PlanView, v: RunView, e: Seq<char>)
    requires
        run_wf(plan, v),
        v.failure is None,
        run_step(plan, v) is Some,
    ensures
        run_after(plan, v, OutcomeView::Failed(e)).failure == Some(
            context_of(run_step(plan, v)->Some_0) + e,
        ),
        run_after(plan, v, OutcomeView::Failed(e)).done == v.done,
        v.op + 1 < plan.len() && plan[v.op + 1] is Err && v.step + 1 == plan[v.op]->Ok_0.len()
            ==> run_after(plan, v, OutcomeView::Changed).failure == Some(plan[v.op + 1]->Err_0),
{
}

/// The index follows each change of the disk: what was moved is renamed in it, what was deleted
/// or written over leaves it, and a new directory is nothing to it.
pub proof fn law_the_index_follows_the_disk(
    done: Seq<DoneView>,
    a: Seq<char>,
    b: Seq<char>,
)
    ensures
        updates_of(done.push(DoneView::Renamed { from: a, to: b })) == updates_of(done).push(
            UpdateView::Rename { from: a, to: b },
        ),
        updates_of(done.push(DoneView::Trashed { original: a, trashed: b })) == updates_of(
            done,
        ).push(UpdateView::Forget { path: a }),
        updates_of(done.push(DoneView::SetAside { original: a, aside: b })) == updates_of(
            done,
        ).push(UpdateView::Forget { path: a }),
        updates_of(done.push(DoneView::Created { dir: a })) == updates_of(done),
        updates_of(Seq::empty()) == Seq::<UpdateView>::empty(),
{
    let renamed = done.push(DoneView::Renamed { from: a, to: b });
    let trashed = done.push(DoneView::Trashed { original: a, trashed: b });
    let aside = done.push(DoneView::SetAside { original: a, aside: b });
    let created = done.push(DoneView::Created { dir: a });
    assert(renamed.drop_last() =~= done);
    assert(trashed.drop_last() =~= done);
    assert(aside.drop_last() =~= done);
    assert(created.drop_last() =~= done);
    assert(updates_of(renamed) =~= updates_of(done).push(UpdateView::Rename { from: a, to: b }));
    assert(updates_of(trashed) =~= updates_of(done).push(UpdateView::Forget { path: a }));
    assert(updates_of(aside) =~= updates_of(done).push(UpdateView::Forget { path: a }));
    assert(updates_of(created) =~= updates_of(done));
}

/// What the model is shown of a folder tells every path in it, and what is known of it.
pub proof fn law_the_listing_tells_every_path(
    paths: Seq<ListedPath>,
    summaries: Seq<(String, String)>,
    i: int,
)
    requires
        0 <= i < paths.len(),
    ensures
        crate::reading::holds(join(listing_lines(paths, summaries), "\n"@), paths[i].path@),
        lookup(summaries, paths[i].path@) matches Some(s) ==> crate::reading::holds(
            join(listing_lines(paths, summaries), "\n"@),
            s,
        ),
{
    let none = Seq::<char>::empty();
    let lines = listing_lines(paths, summaries);
    let all = join(lines, "\n"@);
    crate::reading::lemma_join_holds(lines, "\n"@, i);
    let p = paths[i];
    let tag = if p.is_dir {
        "[dossier]"@
    } else {
        "[fichier]"@
    };
    let head = "- "@ + tag + " "@;
    match lookup(summaries, p.path@) {
        Some(s) if s.len() > 0 => {
            assert(lines[i] =~= head + p.path@ + (" — "@ + s));
            crate::reading::lemma_holds(head, p.path@, " — "@ + s);
            assert(lines[i] =~= (head + p.path@ + " — "@) + s + none);
            crate::reading::lemma_holds(head + p.path@ + " — "@, s, none);
            crate::reading::lemma_holds_through(all, lines[i], s);
        },
        _ => {
            assert(lines[i] =~= head + p.path@ + none);
            crate::reading::lemma_holds(head, p.path@, none);
            if let Some(s) = lookup(summaries, p.path@) {
                assert(s =~= none);
                assert(all =~= none + s + all);
                crate::reading::lemma_holds(none, s, all);
            }
        },
    }
    crate::reading::lemma_holds_through(all, lines[i], p.path@);
}

/// What the model says around its plan is left out: the plan goes from the first brace to the
/// last.
pub proof fn law_the_plan_is_taken_out_of_the_answer(a: Seq<char>, x: Seq<char>, b: Seq<char>)
    requires
        forall|i: int| 0 <= i < a.len() ==> #[trigger] a[i] != '{',
        forall|i: int| 0 <= i < b.len() ==> #[trigger] b[i] != '}',
    ensures
        plan_text(a + seq!['{'] + x + seq!['}'] + b) == seq!['{'] + x + seq!['}'],
{
    let s = a + seq!['{'] + x + seq!['}'] + b;
    let n = a.len() as int;
    let e = n + 1 + x.len();
    assert forall|i: int| 0 <= i < n implies #[trigger] s[i] != '{' by {
        assert(s[i] == a[i]);
    }
    crate::text::lemma_find_char(s, '{', 0, n);
    assert(rfind(s, seq!['}']) == Some(e)) by {
        crate::text::lemma_rfind_upto(s, seq!['}'], s.len() as int);
        assert(s.subrange(e, e + 1) =~= seq!['}']);
        assert(crate::text::matches_at(s, seq!['}'], e));
        let k = rfind(s, seq!['}'])->Some_0;
        if k > e {
            assert(s.subrange(k, k + 1)[0] == s[k]);
            assert(s[k] == b[k - e - 1]);
        }
    }
    assert(s.subrange(n, e + 1) =~= seq!['{'] + x + seq!['}']);
}

/// Every suggestion tells of something that was found, and each thing that was found is told.
pub proof fn law_every_finding_is_suggested(
    direct: nat,
    depth: nat,
    empty: nat,
    duplicates: nat,
    groups: nat,
)
    ensures
        ({
            let s = suggestions_for(direct, depth, empty, duplicates, groups);
            let n = (if direct > CLUTTER_THRESHOLD {
                1int
            } else {
                0
            }) + (if depth > DEEP_THRESHOLD {
                1int
            } else {
                0
            }) + (if empty > 0 {
                1int
            } else {
                0
            }) + (if groups > 0 {
                1int
            } else {
                0
            });
            &&& s.len() == (if n == 0 {
                1
            } else {
                n
            })
            &&& groups > 0 ==> crate::reading::holds(s.last(), decimal(duplicates))
                && crate::reading::holds(s.last(), decimal(groups))
            &&& direct > CLUTTER_THRESHOLD ==> crate::reading::holds(s[0], decimal(direct))
        }),
{
    let none = Seq::<char>::empty();
    let s = suggestions_for(direct, depth, empty, duplicates, groups);
    if groups > 0 {
        let mid = " fichier(s) en doublon exact détecté(s) sur "@;
        let t = decimal(duplicates) + mid + decimal(groups) + " groupe(s)."@;
        assert(s.last() == t);
        assert(t =~= none + decimal(duplicates) + (mid + decimal(groups) + " groupe(s)."@));
        crate::reading::lemma_holds(
            none,
            decimal(duplicates),
            mid + decimal(groups) + " groupe(s)."@,
        );
        assert(t =~= (decimal(duplicates) + mid) + decimal(groups) + " groupe(s)."@);
        crate::reading::lemma_holds(
            decimal(duplicates) + mid,
            decimal(groups),
            " groupe(s)."@,
        );
    }
    if direct > CLUTTER_THRESHOLD {
        let tail = " fichiers en vrac : envisagez des sous-dossiers thématiques."@;
        assert(s[0] == "Ce dossier contient "@ + decimal(direct) + tail);
        crate::reading::lemma_holds("Ce dossier contient "@, decimal(direct), tail);
    }
}

/// What a failed plan is told with holds the error, and how many operations could not be undone
/// where there are any.
pub proof fn law_a_failure_tells_its_cause(error: Seq<char>, failures: nat)
    ensures
        crate::reading::holds(failure_message(error, failures), error),
        failures > 0 ==> crate::reading::holds(failure_message(error, failures), decimal(failures)),
{
    let head = "échec sur l'opération ("@;
    let end = ". Aucune modification conservée."@;
    let m = failure_message(error, failures);
    let sum = rollback_summary(failures);
    assert(m =~= head + error + ("). Rollback: "@ + sum + end));
    crate::reading::lemma_holds(head, error, "). Rollback: "@ + sum + end);
    if failures > 0 {
        let tail = " opération(s) non annulée(s)"@;
        assert(m =~= (head + error + "). Rollback: "@) + decimal(failures) + (tail + end));
        crate::reading::lemma_holds(
            head + error + "). Rollback: "@,
            decimal(failures),
            tail + end,
        );
    }
}

/// A file keeps its name in the trash, behind what tells it from others.
pub proof fn law_a_file_keeps_its_name_in_the_trash(id: Seq<char>, name: Seq<char>)
    ensures
        starts_with(trash_name_of(id, Some(name)), id),
        crate::text::ends_with(trash_name_of(id, Some(name)), name),
{
    let t = trash_name_of(id, Some(name));
    assert(t.subrange(0, id.len() as int) =~= id);
    let k = t.len() - name.len();
    assert(t.subrange(k, k + name.len()) =~= name);
}

/// Whatever a plan set aside is told when it is done, each once.
pub proof fn law_whatever_was_set_aside_is_told(done: Seq<DoneView>)
    ensures
        leftovers_of(done).len() == done.filter(|t: DoneView| t is SetAside).len(),
        done.len() > 0 ==> (done.last() matches DoneView::SetAside { aside, .. } ==> leftovers_of(
            done,
        ).last() == aside),
    decreases done.len(),
{
    reveal(Seq::filter);
    if done.len() > 0 {
        law_whatever_was_set_aside_is_told(done.drop_last());
    }
}

} // verus!
