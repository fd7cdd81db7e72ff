//! The tree of what is relevant below a folder: a folder scores as its best file does.

use vstd::prelude::*;

use crate::order::{
    all_below, as_ints, is_text_before, lemma_sorted_items, picked, sort_places, sorted_by,
    text_before, Ranked,
};
use crate::text::{
    copied, is_blank, opt, part, starts_with, str_eq, str_is_blank, str_is_empty, str_starts_with,
    str_trim_end_of, to_chars, to_text, trim_end_of, views,
};

verus! {

/// A file or a folder of the tree.
#[derive(Debug)]
pub struct TreeNode {
    pub name: String,
    pub path: String,
    pub is_dir: bool,
    pub score: u32,
    pub children: Vec<TreeNode>,
}

pub struct NodeView {
    pub name: Seq<char>,
    pub path: Seq<char>,
    pub is_dir: bool,
    pub score: u32,
    pub children: Seq<NodeView>,
}

impl TreeNode {
    pub open spec fn view(self) -> NodeView
        decreases self,
    {
        NodeView {
            name: self.name@,
            path: self.path@,
            is_dir: self.is_dir,
            score: self.score,
            children: node_views(self.children@),
        }
    }
}

pub open spec fn node_views(v: Seq<TreeNode>) -> Seq<NodeView>
    decreases v,
{
    if v.len() == 0 {
        Seq::empty()
    } else {
        node_views(v.drop_last()).push(v.last().view())
    }
}

proof fn lemma_node_views(v: Seq<TreeNode>)
    ensures
        node_views(v).len() == v.len(),
        forall|i: int| 0 <= i < v.len() ==> #[trigger] node_views(v)[i] == v[i].view(),
    decreases v.len(),
{
    if v.len() > 0 {
        lemma_node_views(v.drop_last());
        assert forall|i: int| 0 <= i < v.len() implies #[trigger] node_views(v)[i]
            == v[i].view() by {
            if i < v.len() - 1 {
                assert(node_views(v.drop_last())[i] == v.drop_last()[i].view());
            }
        }
    }
}

// ---------------------------------------------------------------------------
// Where the tree starts
// ---------------------------------------------------------------------------

/// How many chunks are looked at.
pub fn tree_limit(limit: Option<usize>) -> (r: usize)
    ensures
        r == (match limit {
            Some(n) => crate::search::clamped(n as int, 10, 1000),
            None => 400,
        }),
{
    match limit {
        Some(n) => if n < 10 {
            10
        } else if n > 1000 {
            1000
        } else {
            n
        },
        None => 400,
    }
}

/// The folder at the root of the tree: the one that was asked for, else the first root of
/// the index, without separators at its end; `None` where there is none.
pub open spec fn root_spec(scope: Option<Seq<char>>, roots: Seq<Seq<char>>) -> Option<Seq<char>> {
    let chosen = match scope {
        Some(s) if !is_blank(s) => s,
        _ => if roots.len() > 0 {
            roots[0]
        } else {
            Seq::empty()
        },
    };
    let root = trim_end_of(chosen, '/', '\\');
    if root.len() == 0 {
        None
    } else {
        Some(root)
    }
}

pub fn tree_root(scope: &Option<String>, roots: &Vec<String>) -> (r: Option<String>)
    ensures
        opt(r) == root_spec(opt(*scope), views(roots@)),
{
    let mut chosen: Option<String> = None;
    if let Some(s) = scope {
        if !str_is_blank(s.as_str()) {
            chosen = Some(s.clone());
        }
    }
    let root = match chosen {
        Some(s) => str_trim_end_of(s.as_str(), '/', '\\'),
        None => if roots.len() > 0 {
            assert(views(roots@)[0] == roots@[0]@);
            str_trim_end_of(roots[0].as_str(), '/', '\\')
        } else {
            let s = String::new();
            assert(s@ =~= trim_end_of(Seq::<char>::empty(), '/', '\\'));
            s
        },
    };
    if str_is_empty(root.as_str()) {
        None
    } else {
        Some(root)
    }
}

// ---------------------------------------------------------------------------
// The best score of each file
// ---------------------------------------------------------------------------

/// A file and what it scored.
#[derive(Debug)]
pub struct ScoredPath {
    pub path: String,
    pub score: u32,
    pub is_dir: bool,
}

pub struct ScoredView {
    pub path: Seq<char>,
    pub score: u32,
    pub is_dir: bool,
}

impl ScoredPath {
    pub open spec fn view(self) -> ScoredView {
        ScoredView { path: self.path@, score: self.score, is_dir: self.is_dir }
    }
}

pub open spec fn scored_views(v: Seq<ScoredPath>) -> Seq<ScoredView> {
    Seq::new(v.len(), |i: int| v[i].view())
}

pub open spec fn path_place(v: Seq<ScoredView>, path: Seq<char>) -> Option<int>
    decreases v.len(),
{
    if v.len() == 0 {
        None
    } else if v.last().path == path {
        Some(v.len() - 1)
    } else {
        path_place(v.drop_last(), path)
    }
}

/// Each path once, with the best score of its hits.
pub open spec fn best_scores(hits: Seq<ScoredView>) -> Seq<ScoredView>
    decreases hits.len(),
{
    if hits.len() == 0 {
        Seq::empty()
    } else {
        let so_far = best_scores(hits.drop_last());
        let h = hits.last();
        match path_place(so_far, h.path) {
            Some(k) => if h.score > so_far[k].score {
                so_far.update(k, ScoredView { score: h.score, ..so_far[k] })
            } else {
                so_far
            },
            None => so_far.push(h),
        }
    }
}

fn find_path(v: &Vec<ScoredPath>, path: &str) -> (r: Option<usize>)
    ensures
        match r {
            Some(k) => k < v@.len() && path_place(scored_views(v@), path@) == Some(k as int),
            None => path_place(scored_views(v@), path@) is None,
        },
{
    let ghost all = scored_views(v@);
    let mut i: usize = v.len();
    assert(all.take(i as int) =~= all);
    while i > 0
        invariant
            i <= v.len(),
            all == scored_views(v@),
            path_place(all, path@) == path_place(all.take(i as int), path@),
        decreases i,
    {
        assert(all.take(i as int).drop_last() =~= all.take(i - 1));
        assert(all.take(i as int).last() == all[i - 1]);
        if str_eq(v[i - 1].path.as_str(), path) {
            return Some(i - 1);
        }
        i = i - 1;
    }
    None
}

/// The best score of each file among the hits that are still there.
pub fn best_per_file(hits: &Vec<ScoredPath>) -> (r: Vec<ScoredPath>)
    ensures
        scored_views(r@) == best_scores(scored_views(hits@)),
{
    let ghost all = scored_views(hits@);
    let mut out: Vec<ScoredPath> = Vec::new();
    let mut i: usize = 0;
    assert(all.take(0) =~= Seq::<ScoredView>::empty());
    assert(scored_views(out@) =~= Seq::<ScoredView>::empty());
    while i < hits.len()
        invariant
            i <= hits.len(),
            all == scored_views(hits@),
            scored_views(out@) == best_scores(all.take(i as int)),
        decreases hits.len() - i,
    {
        assert(all.take(i + 1).drop_last() =~= all.take(i as int));
        assert(all.take(i + 1).last() == hits@[i as int].view());
        let h = &hits[i];
        let ghost before = scored_views(out@);
        match find_path(&out, h.path.as_str()) {
            Some(k) => {
                if h.score > out[k].score {
                    let better = ScoredPath {
                        path: out[k].path.clone(),
                        score: h.score,
                        is_dir: out[k].is_dir,
                    };
                    let ghost bv = better.view();
                    out.set(k, better);
                    assert(scored_views(out@) =~= before.update(k as int, bv));
                }
            },
            None => {
                out.push(
                    ScoredPath { path: h.path.clone(), score: h.score, is_dir: h.is_dir },
                );
                assert(scored_views(out@) =~= before.push(h.view()));
            },
        }
        i = i + 1;
    }
    assert(all.take(i as int) =~= all);
    out
}

// ---------------------------------------------------------------------------
// Building
// ---------------------------------------------------------------------------

pub open spec fn is_separator(c: char) -> bool {
    c == '/' || c == '\\'
}

/// The components of a path, without empty ones; `run` is the one that is being read.
pub open spec fn components_from(s: Seq<char>, run: Seq<char>) -> Seq<Seq<char>>
    decreases s.len(),
{
    if s.len() == 0 {
        if run.len() == 0 {
            Seq::empty()
        } else {
            seq![run]
        }
    } else if is_separator(s[0]) {
        if run.len() == 0 {
            components_from(s.skip(1), Seq::empty())
        } else {
            seq![run] + components_from(s.skip(1), Seq::empty())
        }
    } else {
        components_from(s.skip(1), run.push(s[0]))
    }
}

/// The components of a path below a root.
pub open spec fn components_below(path: Seq<char>, root: Seq<char>) -> Seq<Seq<char>> {
    components_from(
        if starts_with(path, root) {
            path.skip(root.len() as int)
        } else {
            path
        },
        Seq::empty(),
    )
}

fn split_components(s: &[char]) -> (r: Vec<String>)
    ensures
        views(r@) == components_from(s@, Seq::empty()),
{
    let mut out: Vec<String> = Vec::new();
    let mut run: Vec<char> = Vec::new();
    let mut i: usize = 0;
    assert(s@.skip(0) =~= s@);
    assert(run@ =~= Seq::<char>::empty());
    assert(views(out@) + components_from(s@, Seq::empty()) =~= components_from(s@, Seq::empty()));
    while i < s.len()
        invariant
            i <= s.len(),
            components_from(s@, Seq::empty()) == views(out@) + components_from(
                s@.skip(i as int),
                run@,
            ),
        decreases s.len() - i,
    {
        assert(s@.skip(i as int).skip(1) =~= s@.skip(i + 1));
        let c = s[i];
        let ghost rest = components_from(s@.skip(i + 1), Seq::empty());
        if c == '/' || c == '\\' {
            if run.len() > 0 {
                let ghost before = views(out@);
                let ghost word = run@;
                out.push(to_text(run.as_slice()));
                assert(views(out@) =~= before.push(word));
                assert(before + (seq![word] + rest) =~= views(out@) + rest);
                run = Vec::new();
                assert(run@ =~= Seq::<char>::empty());
            } else {
                assert(run@ =~= Seq::<char>::empty());
            }
        } else {
            run.push(c);
        }
        i = i + 1;
    }
    let ghost before = views(out@);
    if run.len() > 0 {
        let ghost word = run@;
        out.push(to_text(run.as_slice()));
        assert(views(out@) =~= before + seq![word]);
    } else {
        assert(before + Seq::<Seq<char>>::empty() =~= before);
    }
    out
}

pub open spec fn better(a: u32, b: u32) -> u32 {
    if b > a {
        b
    } else {
        a
    }
}

/// Where a child of that name stands, or would stand: the children are ordered by name.
pub open spec fn child_place(children: Seq<NodeView>, name: Seq<char>) -> int
    decreases children.len(),
{
    if children.len() == 0 {
        0
    } else if text_before(children.last().name, name) {
        children.len() as int
    } else {
        child_place(children.drop_last(), name)
    }
}

pub open spec fn has_child(children: Seq<NodeView>, name: Seq<char>) -> bool {
    let k = child_place(children, name);
    0 <= k < children.len() && children[k].name == name
}

/// The children of the folder `at` once a file is put below it. The folders on its way score
/// at least as it does.
pub open spec fn with_path(
    children: Seq<NodeView>,
    at: Seq<char>,
    comps: Seq<Seq<char>>,
    score: u32,
    leaf_is_dir: bool,
    separator: char,
) -> Seq<NodeView>
    decreases comps.len(),
{
    if comps.len() == 0 {
        children
    } else {
        let name = comps[0];
        let here = at.push(separator) + name;
        let k = child_place(children, name);
        if has_child(children, name) {
            let c = children[k];
            children.update(
                k,
                NodeView {
                    score: better(c.score, score),
                    children: with_path(
                        c.children,
                        here,
                        comps.skip(1),
                        score,
                        leaf_is_dir,
                        separator,
                    ),
                    ..c
                },
            )
        } else {
            children.insert(
                k,
                NodeView {
                    name,
                    path: here,
                    is_dir: comps.len() > 1 || leaf_is_dir,
                    score,
                    children: with_path(
                        Seq::empty(),
                        here,
                        comps.skip(1),
                        score,
                        leaf_is_dir,
                        separator,
                    ),
                },
            )
        }
    }
}

proof fn lemma_child_place(children: Seq<NodeView>, name: Seq<char>)
    ensures
        0 <= child_place(children, name) <= children.len(),
    decreases children.len(),
{
    if children.len() > 0 {
        lemma_child_place(children.drop_last(), name);
    }
}

fn find_child(children: &Vec<TreeNode>, name: &str) -> (r: (usize, bool))
    ensures
        r.0 == child_place(node_views(children@), name@),
        r.0 <= children@.len(),
        r.1 == has_child(node_views(children@), name@),
{
    let ghost all = node_views(children@);
    proof {
        lemma_node_views(children@);
    }
    let mut i: usize = children.len();
    assert(all.take(i as int) =~= all);
    while i > 0 && !is_text_before(children[i - 1].name.as_str(), name)
        invariant
            i <= children.len(),
            all.len() == children@.len(),
            forall|k: int| 0 <= k < all.len() ==> #[trigger] all[k] == children@[k].view(),
            child_place(all, name@) == child_place(all.take(i as int), name@),
        decreases i,
    {
        assert(all.take(i as int).drop_last() =~= all.take(i - 1));
        assert(all.take(i as int).last() == all[i - 1]);
        i = i - 1;
    }
    if i > 0 {
        assert(all.take(i as int).last() == all[i - 1]);
    }
    let known = i < children.len() && str_eq(children[i].name.as_str(), name);
    (i, known)
}

fn put_path(
    children: Vec<TreeNode>,
    at: &str,
    comps: &Vec<String>,
    from: usize,
    score: u32,
    leaf_is_dir: bool,
    separator: char,
) -> (r: Vec<TreeNode>)
    requires
        from <= comps@.len(),
    ensures
        node_views(r@) == with_path(
            node_views(children@),
            at@,
            views(comps@).skip(from as int),
            score,
            leaf_is_dir,
            separator,
        ),
    decreases comps@.len() - from,
{
    let ghost cv = views(comps@).skip(from as int);
    let ghost before = node_views(children@);
    let n: usize = comps.len();
    if from == n {
        return children;
    }
    assert(cv.skip(1) =~= views(comps@).skip(from + 1));
    assert(cv[0] == comps@[from as int]@);
    let name = comps[from].as_str();
    let mut here = at.to_owned();
    here.push(separator);
    here.append(name);
    assert(here@ =~= at@.push(separator) + name@);
    let (k, known) = find_child(&children, name);
    let mut out = children;
    proof {
        lemma_node_views(out@);
    }
    if known {
        let old_child = out.remove(k);
        let ghost ov = old_child.view();
        assert(ov == before[k as int]);
        let TreeNode { name: old_name, path, is_dir, score: old_score, children: below } = old_child;
        let new_children = put_path(
            below,
            here.as_str(),
            comps,
            from + 1,
            score,
            leaf_is_dir,
            separator,
        );
        let node = TreeNode {
            name: old_name,
            path,
            is_dir,
            score: if score > old_score {
                score
            } else {
                old_score
            },
            children: new_children,
        };
        let ghost nv = node.view();
        out.insert(k, node);
        proof {
            lemma_node_views(out@);
            assert(node_views(out@) =~= before.update(k as int, nv));
        }
    } else {
        let none: Vec<TreeNode> = Vec::new();
        assert(node_views(none@) =~= Seq::<NodeView>::empty());
        let new_children = put_path(
            none,
            here.as_str(),
            comps,
            from + 1,
            score,
            leaf_is_dir,
            separator,
        );
        let node = TreeNode {
            name: comps[from].clone(),
            path: here,
            is_dir: from + 1 < n || leaf_is_dir,
            score,
            children: new_children,
        };
        let ghost nv = node.view();
        out.insert(k, node);
        proof {
            lemma_node_views(out@);
            assert(node_views(out@) =~= before.insert(k as int, nv));
        }
    }
    out
}

// ---------------------------------------------------------------------------
// Ordering
// ---------------------------------------------------------------------------

pub open spec fn scores_above(a: NodeView, b: NodeView) -> bool {
    a.score > b.score
}

/// A node with the children of every node below it ordered by their scores.
pub open spec fn ordered(n: NodeView) -> NodeView
    decreases n,
{
    NodeView {
        children: sorted_by(
            ordered_all(n.children),
            |a: NodeView, b: NodeView| scores_above(a, b),
        ),
        ..n
    }
}

pub open spec fn ordered_all(v: Seq<NodeView>) -> Seq<NodeView>
    decreases v,
{
    if v.len() == 0 {
        Seq::empty()
    } else {
        ordered_all(v.drop_last()).push(ordered(v.last()))
    }
}

struct ScoredNodes<'a> {
    list: &'a Vec<TreeNode>,
}

impl<'a> Ranked for ScoredNodes<'a> {
    closed spec fn count(&self) -> nat {
        self.list@.len()
    }

    closed spec fn comes_before(&self, a: int, b: int) -> bool {
        self.list@[a].score > self.list@[b].score
    }

    fn is_before(&self, a: usize, b: usize) -> (r: bool) {
        self.list[a].score > self.list[b].score
    }
}

fn order_node(n: &TreeNode) -> (r: TreeNode)
    ensures
        r.view() == ordered(n.view()),
    decreases n,
{
    let mut below: Vec<TreeNode> = Vec::new();
    let mut i: usize = 0;
    let ghost all = node_views(n.children@);
    proof {
        lemma_node_views(n.children@);
        assert(all.take(0) =~= Seq::<NodeView>::empty());
    }
    while i < n.children.len()
        invariant
            i <= n.children.len(),
            all.len() == n.children@.len(),
            forall|k: int| 0 <= k < all.len() ==> #[trigger] all[k] == n.children@[k].view(),
            node_views(below@) == ordered_all(all.take(i as int)),
        decreases n.children.len() - i,
    {
        proof {
            assert(decreases_to!(n => n.children));
            assert(decreases_to!(n.children => n.children@));
            assert(decreases_to!(n.children@ => n.children@[i as int]));
        }
        let ghost before = below@;
        below.push(order_node(&n.children[i]));
        assert(below@.drop_last() =~= before);
        assert(all.take(i + 1).drop_last() =~= all.take(i as int));
        assert(all.take(i + 1).last() == all[i as int]);
        i = i + 1;
    }
    assert(all.take(i as int) =~= all);
    let m: usize = below.len();
    let ghost bv = node_views(below@);
    proof {
        lemma_node_views(below@);
    }
    let list = ScoredNodes { list: &below };
    let order = sort_places(&list, m);
    proof {
        assert forall|a: int, b: int| 0 <= a < bv.len() && 0 <= b < bv.len() implies (
        #[trigger] list.comes_before(a, b)) == scores_above(bv[a], bv[b]) by {
            assert(bv[a] == below@[a].view() && bv[b] == below@[b].view());
        }
        lemma_sorted_items(&list, bv, |a: NodeView, b: NodeView| scores_above(a, b));
    }
    let ghost want = picked(bv, as_ints(order@));
    let mut children: Vec<TreeNode> = Vec::new();
    let mut j: usize = 0;
    assert(node_views(children@) =~= Seq::<NodeView>::empty());
    assert(want.take(0) =~= Seq::<NodeView>::empty());
    while j < m
        invariant
            j <= m,
            m == below@.len(),
            order@.len() == m,
            bv.len() == m,
            forall|k: int| 0 <= k < bv.len() ==> #[trigger] bv[k] == below@[k].view(),
            all_below(as_ints(order@), m as nat),
            want == picked(bv, as_ints(order@)),
            node_views(children@) == want.take(j as int),
        decreases m - j,
    {
        assert(0 <= as_ints(order@)[j as int] < m);
        let ghost before = children@;
        children.push(copy_node(&below[order[j]]));
        assert(children@.drop_last() =~= before);
        j = j + 1;
        assert(node_views(children@) =~= want.take(j as int));
    }
    assert(want.take(j as int) =~= want);
    TreeNode {
        name: n.name.clone(),
        path: n.path.clone(),
        is_dir: n.is_dir,
        score: n.score,
        children,
    }
}

fn copy_node(n: &TreeNode) -> (r: TreeNode)
    ensures
        r.view() == n.view(),
    decreases n,
{
    let mut children: Vec<TreeNode> = Vec::new();
    let mut i: usize = 0;
    assert(n.children@.take(0) =~= Seq::<TreeNode>::empty());
    while i < n.children.len()
        invariant
            i <= n.children.len(),
            node_views(children@) == node_views(n.children@.take(i as int)),
        decreases n.children.len() - i,
    {
        proof {
            assert(decreases_to!(n => n.children));
            assert(decreases_to!(n.children => n.children@));
            assert(decreases_to!(n.children@ => n.children@[i as int]));
        }
        let ghost before = children@;
        children.push(copy_node(&n.children[i]));
        assert(children@.drop_last() =~= before);
        assert(n.children@.take(i + 1).drop_last() =~= n.children@.take(i as int));
        i = i + 1;
    }
    assert(n.children@.take(i as int) =~= n.children@);
    TreeNode {
        name: n.name.clone(),
        path: n.path.clone(),
        is_dir: n.is_dir,
        score: n.score,
        children,
    }
}

// ---------------------------------------------------------------------------
// The tree
// ---------------------------------------------------------------------------

/// The root and its children once the files are put below it.
pub open spec fn built(
    root: Seq<char>,
    name: Seq<char>,
    files: Seq<ScoredView>,
    separator: char,
) -> NodeView
    decreases files.len(),
{
    if files.len() == 0 {
        NodeView { name, path: root, is_dir: true, score: 0, children: Seq::empty() }
    } else {
        let so_far = built(root, name, files.drop_last(), separator);
        let f = files.last();
        let comps = components_below(f.path, root);
        if comps.len() == 0 {
            so_far
        } else {
            NodeView {
                score: better(so_far.score, f.score),
                children: with_path(
                    so_far.children,
                    root,
                    comps,
                    f.score,
                    f.is_dir,
                    separator,
                ),
                ..so_far
            }
        }
    }
}

/// The tree of the files that a question found below a root; `None` where it found none.
pub fn semantic_tree(root: &str, root_name: &str, hits: &Vec<ScoredPath>, separator: char) -> (r:
    Option<TreeNode>)
    ensures
        match r {
            Some(t) => hits@.len() > 0 && t.view() == tree_of(
                root@,
                root_name@,
                scored_views(hits@),
                separator,
            ) && paths_hold(t.view(), separator) && best_first(t.view()),
            None => hits@.len() == 0,
        },
{
    if hits.len() == 0 {
        return None;
    }
    let files = best_per_file(hits);
    let ghost all = scored_views(files@);
    let mut score: u32 = 0;
    let mut children: Vec<TreeNode> = Vec::new();
    let mut i: usize = 0;
    assert(all.take(0) =~= Seq::<ScoredView>::empty());
    assert(node_views(children@) =~= Seq::<NodeView>::empty());
    while i < files.len()
        invariant
            i <= files.len(),
            all == scored_views(files@),
            ({
                let b = built(root@, root_name@, all.take(i as int), separator);
                score == b.score && node_views(children@) == b.children && b.path == root@ && b.name
                    == root_name@ && b.is_dir
            }),
        decreases files.len() - i,
    {
        assert(all.take(i + 1).drop_last() =~= all.take(i as int));
        assert(all.take(i + 1).last() == files@[i as int].view());
        let f = &files[i];
        let p = to_chars(f.path.as_str());
        let rest = if str_starts_with(f.path.as_str(), root) {
            let skipped = to_chars(root).len();
            let t = part(p.as_slice(), skipped, p.len());
            assert(t@ =~= f.path@.skip(root@.len() as int));
            copied(t)
        } else {
            p
        };
        let comps = split_components(rest.as_slice());
        assert(views(comps@).len() == comps@.len());
        if comps.len() > 0 {
            if f.score > score {
                score = f.score;
            }
            assert(views(comps@).skip(0) =~= views(comps@));
            children = put_path(children, root, &comps, 0, f.score, f.is_dir, separator);
        }
        i = i + 1;
    }
    assert(all.take(i as int) =~= all);
    let node = TreeNode {
        name: root_name.to_owned(),
        path: root.to_owned(),
        is_dir: true,
        score,
        children,
    };
    proof {
        law_a_path_goes_on_from_its_parent(root@, root_name@, scored_views(hits@), separator);
        law_the_best_come_first(node.view());
    }
    Some(order_node(&node))
}

/// No node scores more than its parent, anywhere below a node.
pub open spec fn scores_descend(n: NodeView) -> bool
    decreases n,
{
    forall|i: int|
        0 <= i < n.children.len() ==> {
            &&& (#[trigger] n.children[i]).score <= n.score
            &&& scores_descend(n.children[i])
        }
}

pub open spec fn all_descend(children: Seq<NodeView>, top: u32) -> bool {
    forall|i: int|
        0 <= i < children.len() ==> (#[trigger] children[i]).score <= top && scores_descend(
            children[i],
        )
}

proof fn lemma_with_path_descends(
    children: Seq<NodeView>,
    at: Seq<char>,
    comps: Seq<Seq<char>>,
    score: u32,
    leaf_is_dir: bool,
    separator: char,
    top: u32,
)
    requires
        all_descend(children, top),
    ensures
        all_descend(
            with_path(children, at, comps, score, leaf_is_dir, separator),
            better(top, score),
        ),
    decreases comps.len(),
{
    if comps.len() > 0 {
        let name = comps[0];
        let here = at.push(separator) + name;
        let k = child_place(children, name);
        lemma_child_place(children, name);
        let after = with_path(children, at, comps, score, leaf_is_dir, separator);
        if has_child(children, name) {
            let c = children[k];
            assert(scores_descend(c));
            assert(all_descend(c.children, c.score));
            lemma_with_path_descends(
                c.children,
                here,
                comps.skip(1),
                score,
                leaf_is_dir,
                separator,
                c.score,
            );
            assert(scores_descend(after[k]));
            assert forall|i: int| 0 <= i < after.len() implies (#[trigger] after[i]).score
                <= better(top, score) && scores_descend(after[i]) by {
                if i != k {
                    assert(after[i] == children[i]);
                }
            }
        } else {
            lemma_with_path_descends(
                Seq::empty(),
                here,
                comps.skip(1),
                score,
                leaf_is_dir,
                separator,
                score,
            );
            assert(scores_descend(after[k]));
            assert forall|i: int| 0 <= i < after.len() implies (#[trigger] after[i]).score
                <= better(top, score) && scores_descend(after[i]) by {
                if i < k {
                    assert(after[i] == children[i]);
                } else if i > k {
                    assert(after[i] == children[i - 1]);
                }
            }
        }
    }
}

/// A folder scores at least as everything below it.
pub proof fn law_a_folder_scores_as_its_best_file(
    root: Seq<char>,
    name: Seq<char>,
    files: Seq<ScoredView>,
    separator: char,
)
    ensures
        scores_descend(built(root, name, files, separator)),
    decreases files.len(),
{
    if files.len() > 0 {
        law_a_folder_scores_as_its_best_file(root, name, files.drop_last(), separator);
        let before = built(root, name, files.drop_last(), separator);
        let f = files.last();
        let comps = components_below(f.path, root);
        assert(all_descend(before.children, before.score));
        if comps.len() > 0 {
            lemma_with_path_descends(
                before.children,
                root,
                comps,
                f.score,
                f.is_dir,
                separator,
                before.score,
            );
        }
    }
}

// ---------------------------------------------------------------------------
// Where the files stand
// ---------------------------------------------------------------------------

/// Below a node, the path of each node is that of its parent, a separator and its name.
pub open spec fn paths_hold(n: NodeView, separator: char) -> bool
    decreases n,
{
    forall|i: int|
        0 <= i < n.children.len() ==> {
            &&& (#[trigger] n.children[i]).path == n.path.push(separator) + n.children[i].name
            &&& paths_hold(n.children[i], separator)
        }
}

pub open spec fn all_hold(children: Seq<NodeView>, at: Seq<char>, separator: char) -> bool {
    forall|i: int|
        0 <= i < children.len() ==> (#[trigger] children[i]).path == at.push(separator)
            + children[i].name && paths_hold(children[i], separator)
}

/// Below a node, the children of each node come in the order of their names, each name once.
pub open spec fn names_ascend(n: NodeView) -> bool
    decreases n,
{
    &&& forall|i: int, j: int|
        0 <= i < j < n.children.len() ==> text_before(
            (#[trigger] n.children[i]).name,
            (#[trigger] n.children[j]).name,
        )
    &&& forall|i: int| 0 <= i < n.children.len() ==> names_ascend(#[trigger] n.children[i])
}

pub open spec fn all_ascend(children: Seq<NodeView>) -> bool {
    &&& forall|i: int, j: int|
        0 <= i < j < children.len() ==> text_before(
            (#[trigger] children[i]).name,
            (#[trigger] children[j]).name,
        )
    &&& forall|i: int| 0 <= i < children.len() ==> names_ascend(#[trigger] children[i])
}

/// The node `m` is reached from some children by the names of `q`.
pub open spec fn reached(children: Seq<NodeView>, q: Seq<Seq<char>>, m: NodeView) -> bool
    decreases q.len(),
{
    q.len() > 0 && exists|i: int|
        0 <= i < children.len() && (#[trigger] children[i]).name == q[0] && if q.len() == 1 {
            m == children[i]
        } else {
            reached(children[i].children, q.skip(1), m)
        }
}

/// `q` starts `comps`.
pub open spec fn starts_way(q: Seq<Seq<char>>, comps: Seq<Seq<char>>) -> bool {
    q.len() <= comps.len() && comps.take(q.len() as int) == q
}

/// Names behind separators.
pub open spec fn path_below(comps: Seq<Seq<char>>, separator: char) -> Seq<char>
    decreases comps.len(),
{
    if comps.len() == 0 {
        Seq::empty()
    } else {
        seq![separator] + comps[0] + path_below(comps.skip(1), separator)
    }
}

/// Names that a path can be made of.
pub open spec fn proper(comps: Seq<Seq<char>>) -> bool {
    &&& forall|i: int| 0 <= i < comps.len() ==> (#[trigger] comps[i]).len() > 0
    &&& forall|i: int, k: int|
        0 <= i < comps.len() && 0 <= k < comps[i].len() ==> !is_separator(#[trigger] comps[i][k])
}

proof fn lemma_child_place_in_order(children: Seq<NodeView>, name: Seq<char>)
    requires
        all_ascend(children),
    ensures
        forall|i: int|
            0 <= i < child_place(children, name) ==> text_before(
                (#[trigger] children[i]).name,
                name,
            ),
        forall|i: int|
            child_place(children, name) <= i < children.len() ==> !text_before(
                (#[trigger] children[i]).name,
                name,
            ),
    decreases children.len(),
{
    lemma_child_place(children, name);
    if children.len() > 0 {
        let less = children.drop_last();
        assert(all_ascend(less)) by {
            assert forall|i: int, j: int| 0 <= i < j < less.len() implies text_before(
                (#[trigger] less[i]).name,
                (#[trigger] less[j]).name,
            ) by {
                assert(less[i] == children[i] && less[j] == children[j]);
            }
            assert forall|i: int| 0 <= i < less.len() implies names_ascend(#[trigger] less[i]) by {
                assert(less[i] == children[i]);
            }
        }
        lemma_child_place_in_order(less, name);
        if text_before(children.last().name, name) {
            assert forall|i: int| 0 <= i < children.len() implies text_before(
                (#[trigger] children[i]).name,
                name,
            ) by {
                if i < children.len() - 1 {
                    let last = children[children.len() - 1];
                    crate::order::lemma_text_before_transitive(children[i].name, last.name, name);
                }
            }
        } else {
            lemma_child_place(less, name);
            assert forall|i: int| 0 <= i < child_place(children, name) implies text_before(
                (#[trigger] children[i]).name,
                name,
            ) by {
                assert(less[i] == children[i]);
            }
            assert forall|i: int| child_place(children, name) <= i < children.len() implies !text_before(
                (#[trigger] children[i]).name,
                name,
            ) by {
                if i < children.len() - 1 {
                    assert(less[i] == children[i]);
                }
            }
        }
    }
}

/// A child of that name is the one that is found.
proof fn lemma_child_is_found(children: Seq<NodeView>, name: Seq<char>, i: int)
    requires
        all_ascend(children),
        0 <= i < children.len(),
        children[i].name == name,
    ensures
        has_child(children, name),
        child_place(children, name) == i,
{
    lemma_child_place(children, name);
    lemma_child_place_in_order(children, name);
    let k = child_place(children, name);
    if i < k {
        crate::order::lemma_text_before_asymmetric(name, name);
    }
    if k < i {
        assert(text_before(children[k].name, children[i].name));
    }
}

proof fn lemma_with_path_shape(
    children: Seq<NodeView>,
    at: Seq<char>,
    comps: Seq<Seq<char>>,
    score: u32,
    leaf_is_dir: bool,
    separator: char,
)
    requires
        all_hold(children, at, separator),
        all_ascend(children),
    ensures
        all_hold(with_path(children, at, comps, score, leaf_is_dir, separator), at, separator),
        all_ascend(with_path(children, at, comps, score, leaf_is_dir, separator)),
    decreases comps.len(),
{
    if comps.len() > 0 {
        let name = comps[0];
        let here = at.push(separator) + name;
        let k = child_place(children, name);
        lemma_child_place(children, name);
        lemma_child_place_in_order(children, name);
        let after = with_path(children, at, comps, score, leaf_is_dir, separator);
        if has_child(children, name) {
            let c = children[k];
            assert(paths_hold(c, separator) && names_ascend(c));
            assert(all_hold(c.children, here, separator));
            assert(all_ascend(c.children));
            lemma_with_path_shape(c.children, here, comps.skip(1), score, leaf_is_dir, separator);
            assert(paths_hold(after[k], separator));
            assert(names_ascend(after[k]));
            assert forall|i: int| 0 <= i < after.len() implies (#[trigger] after[i]).path
                == at.push(separator) + after[i].name && paths_hold(after[i], separator) by {
                if i != k {
                    assert(after[i] == children[i]);
                }
            }
            assert forall|i: int, j: int| 0 <= i < j < after.len() implies text_before(
                (#[trigger] after[i]).name,
                (#[trigger] after[j]).name,
            ) by {
                assert(after[i].name == children[i].name && after[j].name == children[j].name);
            }
            assert forall|i: int| 0 <= i < after.len() implies names_ascend(#[trigger] after[i]) by {
                if i != k {
                    assert(after[i] == children[i]);
                }
            }
        } else {
            let none = Seq::<NodeView>::empty();
            lemma_with_path_shape(none, here, comps.skip(1), score, leaf_is_dir, separator);
            assert(paths_hold(after[k], separator));
            assert(names_ascend(after[k]));
            assert forall|i: int| 0 <= i < after.len() implies (#[trigger] after[i]).path
                == at.push(separator) + after[i].name && paths_hold(after[i], separator) by {
                if i < k {
                    assert(after[i] == children[i]);
                } else if i > k {
                    assert(after[i] == children[i - 1]);
                }
            }
            assert forall|i: int, j: int| 0 <= i < j < after.len() implies text_before(
                (#[trigger] after[i]).name,
                (#[trigger] after[j]).name,
            ) by {
                if j == k {
                    assert(after[i] == children[i]);
                } else if i == k {
                    assert(after[j] == children[j - 1]);
                    let n = children[j - 1].name;
                    assert(!text_before(n, name));
                    crate::order::lemma_text_before_total(n, name);
                    if n == name {
                        lemma_child_is_found(children, name, j - 1);
                    }
                } else {
                    let a: int = if i < k {
                        i
                    } else {
                        i - 1
                    };
                    let b: int = if j < k {
                        j
                    } else {
                        j - 1
                    };
                    assert(after[i] == children[a] && after[j] == children[b]);
                }
            }
            assert forall|i: int| 0 <= i < after.len() implies names_ascend(#[trigger] after[i]) by {
                if i < k {
                    assert(after[i] == children[i]);
                } else if i > k {
                    assert(after[i] == children[i - 1]);
                }
            }
        }
    }
}

/// Where names stand once, one way leads to one node.
proof fn lemma_reached_once(children: Seq<NodeView>, q: Seq<Seq<char>>, a: NodeView, b: NodeView)
    requires
        all_ascend(children),
        reached(children, q, a),
        reached(children, q, b),
    ensures
        a == b,
    decreases q.len(),
{
    let i = choose|i: int|
        0 <= i < children.len() && (#[trigger] children[i]).name == q[0] && if q.len() == 1 {
            a == children[i]
        } else {
            reached(children[i].children, q.skip(1), a)
        };
    let j = choose|j: int|
        0 <= j < children.len() && (#[trigger] children[j]).name == q[0] && if q.len() == 1 {
            b == children[j]
        } else {
            reached(children[j].children, q.skip(1), b)
        };
    lemma_child_is_found(children, q[0], i);
    lemma_child_is_found(children, q[0], j);
    if q.len() > 1 {
        assert(names_ascend(children[i]));
        assert(all_ascend(children[i].children));
        lemma_reached_once(children[i].children, q.skip(1), a, b);
    }
}

/// A file that is put below a folder is reached by its way, with its score at least.
proof fn lemma_put_is_reached(
    children: Seq<NodeView>,
    at: Seq<char>,
    comps: Seq<Seq<char>>,
    score: u32,
    leaf_is_dir: bool,
    separator: char,
    q: Seq<Seq<char>>,
) -> (m: NodeView)
    requires
        q.len() > 0,
        starts_way(q, comps),
    ensures
        reached(with_path(children, at, comps, score, leaf_is_dir, separator), q, m),
        m.score >= score,
        m.name == q.last(),
    decreases comps.len(),
{
    let name = comps[0];
    let here = at.push(separator) + name;
    let k = child_place(children, name);
    lemma_child_place(children, name);
    let after = with_path(children, at, comps, score, leaf_is_dir, separator);
    assert(q[0] == comps.take(q.len() as int)[0]);
    let c = after[k];
    assert(c.name == name);
    if q.len() == 1 {
        assert(reached(after, q, c));
        c
    } else {
        let rest = comps.skip(1);
        assert(rest.take(q.len() - 1) =~= comps.take(q.len() as int).skip(1));
        let below = if has_child(children, name) {
            children[k].children
        } else {
            Seq::empty()
        };
        let m = lemma_put_is_reached(
            below,
            here,
            rest,
            score,
            leaf_is_dir,
            separator,
            q.skip(1),
        );
        assert(reached(after[k].children, q.skip(1), m));
        assert(q.skip(1).last() == q.last());
        assert(reached(after, q, m));
        m
    }
}

/// What was reached still is, with a score that is no less.
proof fn lemma_put_keeps(
    children: Seq<NodeView>,
    at: Seq<char>,
    comps: Seq<Seq<char>>,
    score: u32,
    leaf_is_dir: bool,
    separator: char,
    q: Seq<Seq<char>>,
    m: NodeView,
) -> (r: NodeView)
    requires
        reached(children, q, m),
    ensures
        reached(with_path(children, at, comps, score, leaf_is_dir, separator), q, r),
        r.score >= m.score,
        r.name == m.name,
    decreases q.len(),
{
    if comps.len() == 0 {
        m
    } else {
        let name = comps[0];
        let here = at.push(separator) + name;
        let k = child_place(children, name);
        lemma_child_place(children, name);
        let after = with_path(children, at, comps, score, leaf_is_dir, separator);
        let i = choose|i: int|
            0 <= i < children.len() && (#[trigger] children[i]).name == q[0] && if q.len() == 1 {
                m == children[i]
            } else {
                reached(children[i].children, q.skip(1), m)
            };
        if has_child(children, name) && i == k {
            assert(after[k].name == q[0]);
            if q.len() == 1 {
                assert(reached(after, q, after[k]));
                after[k]
            } else {
                let r = lemma_put_keeps(
                    children[k].children,
                    here,
                    comps.skip(1),
                    score,
                    leaf_is_dir,
                    separator,
                    q.skip(1),
                    m,
                );
                assert(reached(after[k].children, q.skip(1), r));
                assert(reached(after, q, r));
                r
            }
        } else {
            let j: int = if has_child(children, name) || i < k {
                i
            } else {
                i + 1
            };
            assert(after[j] == children[i]);
            assert(reached(after, q, m));
            m
        }
    }
}

/// Where a node that is reached comes from: it was there, or it is on the way of the file.
pub open spec fn comes_from(
    children: Seq<NodeView>,
    comps: Seq<Seq<char>>,
    score: u32,
    leaf_is_dir: bool,
    q: Seq<Seq<char>>,
    m: NodeView,
) -> bool {
    ||| starts_way(q, comps) && m.score == score && m.is_dir == (q.len() < comps.len()
        || leaf_is_dir)
    ||| exists|o: NodeView| #[trigger]
        reached(children, q, o) && m.is_dir == o.is_dir && (m.score == o.score || (starts_way(
            q,
            comps,
        ) && m.score == score))
}

proof fn lemma_put_comes_from(
    children: Seq<NodeView>,
    at: Seq<char>,
    comps: Seq<Seq<char>>,
    score: u32,
    leaf_is_dir: bool,
    separator: char,
    q: Seq<Seq<char>>,
    m: NodeView,
)
    requires
        reached(with_path(children, at, comps, score, leaf_is_dir, separator), q, m),
    ensures
        comes_from(children, comps, score, leaf_is_dir, q, m),
    decreases q.len(),
{
    if comps.len() == 0 {
        assert(reached(children, q, m));
    } else {
        let name = comps[0];
        let here = at.push(separator) + name;
        let k = child_place(children, name);
        lemma_child_place(children, name);
        let after = with_path(children, at, comps, score, leaf_is_dir, separator);
        let i = choose|i: int|
            0 <= i < after.len() && (#[trigger] after[i]).name == q[0] && if q.len() == 1 {
                m == after[i]
            } else {
                reached(after[i].children, q.skip(1), m)
            };
        if i == k {
            assert(q[0] == name);
            if q.len() == 1 {
                assert(comps.take(1) =~= q);
                if has_child(children, name) {
                    assert(reached(children, q, children[k]));
                }
            } else {
                let below = if has_child(children, name) {
                    children[k].children
                } else {
                    Seq::empty()
                };
                let rest = comps.skip(1);
                lemma_put_comes_from(
                    below,
                    here,
                    rest,
                    score,
                    leaf_is_dir,
                    separator,
                    q.skip(1),
                    m,
                );
                if starts_way(q.skip(1), rest) {
                    assert(comps.take(q.len() as int) =~= q) by {
                        assert forall|x: int| 0 <= x < q.len() implies comps[x] == q[x] by {
                            if x > 0 {
                                assert(rest.take(q.len() - 1)[x - 1] == q.skip(1)[x - 1]);
                            }
                        }
                    }
                }
                if exists|o: NodeView| #[trigger]
                    reached(below, q.skip(1), o) && m.is_dir == o.is_dir && (m.score == o.score || (
                    starts_way(q.skip(1), rest) && m.score == score)) {
                    let o = choose|o: NodeView| #[trigger]
                        reached(below, q.skip(1), o) && m.is_dir == o.is_dir && (m.score == o.score
                            || (starts_way(q.skip(1), rest) && m.score == score));
                    assert(has_child(children, name));
                    assert(children[k].name == q[0]);
                    assert(reached(children[k].children, q.skip(1), o));
                    assert(reached(children, q, o));
                }
            }
        } else {
            let j: int = if has_child(children, name) || i < k {
                i
            } else {
                i - 1
            };
            assert(after[i] == children[j]);
            assert(reached(children, q, m));
        }
    }
}

/// What a node that is reached tells of the files: its score is that of the best file at it or
/// below it, and it is a folder unless a file stands at it.
pub open spec fn tells_files(
    files: Seq<ScoredView>,
    root: Seq<char>,
    q: Seq<Seq<char>>,
    m: NodeView,
) -> bool {
    &&& exists|i: int|
        0 <= i < files.len() && starts_way(q, components_below((#[trigger] files[i]).path, root))
            && m.score == files[i].score
    &&& forall|i: int|
        0 <= i < files.len() && starts_way(q, components_below((#[trigger] files[i]).path, root))
            ==> m.score >= files[i].score
    &&& exists|i: int|
        0 <= i < files.len() && starts_way(q, components_below((#[trigger] files[i]).path, root))
            && m.is_dir == (q.len() < components_below(files[i].path, root).len()
            || files[i].is_dir)
}

proof fn lemma_built(root: Seq<char>, name: Seq<char>, files: Seq<ScoredView>, separator: char)
    ensures
        ({
            let t = built(root, name, files, separator);
            &&& t.path == root && t.name == name && t.is_dir
            &&& all_hold(t.children, root, separator)
            &&& all_ascend(t.children)
            &&& forall|i: int|
                0 <= i < files.len() && components_below((#[trigger] files[i]).path, root).len() > 0
                    ==> t.score >= files[i].score
            &&& t.score == 0 || exists|i: int|
                0 <= i < files.len() && components_below((#[trigger] files[i]).path, root).len() > 0
                    && t.score == files[i].score
        }),
    decreases files.len(),
{
    if files.len() > 0 {
        let less = files.drop_last();
        lemma_built(root, name, less, separator);
        let before = built(root, name, less, separator);
        let t = built(root, name, files, separator);
        let f = files.last();
        let comps = components_below(f.path, root);
        lemma_with_path_shape(before.children, root, comps, f.score, f.is_dir, separator);
        assert forall|i: int|
            0 <= i < files.len() && components_below((#[trigger] files[i]).path, root).len()
                > 0 implies t.score >= files[i].score by {
            if i < less.len() {
                assert(less[i] == files[i]);
            }
        }
        if t.score != 0 {
            if comps.len() > 0 && t.score == f.score {
                assert(files[files.len() - 1] == f);
            } else {
                let i = choose|i: int|
                    0 <= i < less.len() && components_below((#[trigger] less[i]).path, root).len() > 0
                        && before.score == less[i].score;
                assert(files[i] == less[i]);
            }
        }
    }
}

proof fn lemma_built_holds_files(
    root: Seq<char>,
    name: Seq<char>,
    files: Seq<ScoredView>,
    separator: char,
    i: int,
    q: Seq<Seq<char>>,
) -> (m: NodeView)
    requires
        0 <= i < files.len(),
        q.len() > 0,
        starts_way(q, components_below(files[i].path, root)),
    ensures
        reached(built(root, name, files, separator).children, q, m),
        m.score >= files[i].score,
        m.name == q.last(),
    decreases files.len(),
{
    let less = files.drop_last();
    let before = built(root, name, less, separator);
    let f = files.last();
    let comps = components_below(f.path, root);
    if i == files.len() - 1 {
        lemma_put_is_reached(before.children, root, comps, f.score, f.is_dir, separator, q)
    } else {
        assert(less[i] == files[i]);
        let m = lemma_built_holds_files(root, name, less, separator, i, q);
        lemma_put_keeps(before.children, root, comps, f.score, f.is_dir, separator, q, m)
    }
}

proof fn lemma_built_tells_files(
    root: Seq<char>,
    name: Seq<char>,
    files: Seq<ScoredView>,
    separator: char,
    q: Seq<Seq<char>>,
    m: NodeView,
)
    requires
        reached(built(root, name, files, separator).children, q, m),
    ensures
        tells_files(files, root, q, m),
    decreases files.len(),
{
    let t = built(root, name, files, separator);
    lemma_built(root, name, files, separator);
    assert forall|i: int|
        0 <= i < files.len() && starts_way(q, components_below((#[trigger] files[i]).path, root)) implies m.score
        >= files[i].score by {
        let r = lemma_built_holds_files(root, name, files, separator, i, q);
        lemma_reached_once(t.children, q, m, r);
    }
    assert(files.len() > 0);
    let less = files.drop_last();
    let before = built(root, name, less, separator);
    let f = files.last();
    let n = files.len() - 1;
    assert(files[n] == f);
    let comps = components_below(f.path, root);
    lemma_put_comes_from(before.children, root, comps, f.score, f.is_dir, separator, q, m);
    if starts_way(q, comps) && m.score == f.score && m.is_dir == (q.len() < comps.len() || f.is_dir) {
    } else {
        let o = choose|o: NodeView| #[trigger]
            reached(before.children, q, o) && m.is_dir == o.is_dir && (m.score == o.score || (
            starts_way(q, comps) && m.score == f.score));
        lemma_built_tells_files(root, name, less, separator, q, o);
        let a = choose|i: int|
            0 <= i < less.len() && starts_way(q, components_below((#[trigger] less[i]).path, root))
                && o.score == less[i].score;
        let b = choose|i: int|
            0 <= i < less.len() && starts_way(q, components_below((#[trigger] less[i]).path, root))
                && o.is_dir == (q.len() < components_below(less[i].path, root).len()
                || less[i].is_dir);
        assert(files[a] == less[a]);
        assert(files[b] == less[b]);
    }
}

proof fn lemma_ordered_all(v: Seq<NodeView>)
    ensures
        ordered_all(v).len() == v.len(),
        forall|i: int| 0 <= i < v.len() ==> #[trigger] ordered_all(v)[i] == ordered(v[i]),
    decreases v.len(),
{
    if v.len() > 0 {
        let less = v.drop_last();
        lemma_ordered_all(less);
        assert forall|i: int| 0 <= i < v.len() implies #[trigger] ordered_all(v)[i] == ordered(v[i]) by {
            if i < less.len() {
                assert(ordered_all(less)[i] == ordered(less[i]));
                assert(less[i] == v[i]);
            }
        }
    }
}

/// The children of a node come in descending order of their scores.
proof fn lemma_ordered_children(n: NodeView)
    ensures
        ordered(n).children.len() == n.children.len(),
        forall|i: int, j: int|
            0 <= i < j < n.children.len() ==> (#[trigger] ordered(n).children[i]).score >= (
            #[trigger] ordered(n).children[j]).score,
{
    let all = ordered_all(n.children);
    let above = |a: NodeView, b: NodeView| scores_above(a, b);
    let out = sorted_by(all, above);
    lemma_ordered_all(n.children);
    crate::order::law_sorting_orders_and_keeps(all, above);
    assert forall|i: int, j: int| 0 <= i < j < out.len() implies (#[trigger] out[i]).score >= (
    #[trigger] out[j]).score by {
        assert(!above(out[j], out[i]));
    }
}

/// A child in order is one of the children.
proof fn lemma_ordered_child(n: NodeView, i: int) -> (j: int)
    requires
        0 <= i < ordered(n).children.len(),
    ensures
        0 <= j < n.children.len(),
        ordered(n).children[i] == ordered(n.children[j]),
{
    let all = ordered_all(n.children);
    let above = |a: NodeView, b: NodeView| scores_above(a, b);
    let out = sorted_by(all, above);
    lemma_ordered_all(n.children);
    crate::order::law_sorting_orders_and_keeps(all, above);
    vstd::seq_lib::to_multiset_contains(out, out[i]);
    assert(out.contains(out[i]));
    vstd::seq_lib::to_multiset_contains(all, out[i]);
    let j = choose|j: int| 0 <= j < all.len() && all[j] == out[i];
    assert(all[j] == ordered(n.children[j]));
    j
}

/// Every child comes in order.
proof fn lemma_child_ordered(n: NodeView, j: int) -> (i: int)
    requires
        0 <= j < n.children.len(),
    ensures
        0 <= i < ordered(n).children.len(),
        ordered(n).children[i] == ordered(n.children[j]),
{
    let all = ordered_all(n.children);
    let above = |a: NodeView, b: NodeView| scores_above(a, b);
    let out = sorted_by(all, above);
    lemma_ordered_all(n.children);
    crate::order::law_sorting_orders_and_keeps(all, above);
    assert(all[j] == ordered(n.children[j]));
    assert(all.contains(all[j]));
    vstd::seq_lib::to_multiset_contains(all, all[j]);
    vstd::seq_lib::to_multiset_contains(out, all[j]);
    let i = choose|i: int| 0 <= i < out.len() && out[i] == all[j];
    i
}

proof fn lemma_ordered_paths(n: NodeView, separator: char)
    requires
        paths_hold(n, separator),
    ensures
        paths_hold(ordered(n), separator),
    decreases n,
{
    let o = ordered(n);
    assert forall|i: int| 0 <= i < o.children.len() implies (#[trigger] o.children[i]).path
        == o.path.push(separator) + o.children[i].name && paths_hold(o.children[i], separator) by {
        let j = lemma_ordered_child(n, i);
        lemma_ordered_paths(n.children[j], separator);
    }
}

proof fn lemma_ordered_reached(n: NodeView, q: Seq<Seq<char>>, m: NodeView)
    requires
        reached(n.children, q, m),
    ensures
        reached(ordered(n).children, q, ordered(m)),
    decreases q.len(),
{
    lemma_ordered_children(n);
    let o = ordered(n);
    let j = choose|j: int|
        0 <= j < n.children.len() && (#[trigger] n.children[j]).name == q[0] && if q.len() == 1 {
            m == n.children[j]
        } else {
            reached(n.children[j].children, q.skip(1), m)
        };
    let i = lemma_child_ordered(n, j);
    assert(o.children[i].name == q[0]);
    if q.len() > 1 {
        lemma_ordered_reached(n.children[j], q.skip(1), m);
    }
}

proof fn lemma_reached_ordered(n: NodeView, q: Seq<Seq<char>>, m: NodeView) -> (r: NodeView)
    requires
        reached(ordered(n).children, q, m),
    ensures
        reached(n.children, q, r),
        m == ordered(r),
    decreases q.len(),
{
    lemma_ordered_children(n);
    let o = ordered(n);
    let i = choose|i: int|
        0 <= i < o.children.len() && (#[trigger] o.children[i]).name == q[0] && if q.len() == 1 {
            m == o.children[i]
        } else {
            reached(o.children[i].children, q.skip(1), m)
        };
    let j = lemma_ordered_child(n, i);
    assert(n.children[j].name == q[0]);
    if q.len() == 1 {
        assert(reached(n.children, q, n.children[j]));
        n.children[j]
    } else {
        let r = lemma_reached_ordered(n.children[j], q.skip(1), m);
        assert(reached(n.children, q, r));
        r
    }
}

/// Below a node, the children of each node come in descending order of their scores.
pub open spec fn best_first(n: NodeView) -> bool
    decreases n,
{
    &&& forall|i: int, j: int|
        0 <= i < j < n.children.len() ==> (#[trigger] n.children[i]).score >= (
        #[trigger] n.children[j]).score
    &&& forall|i: int| 0 <= i < n.children.len() ==> best_first(#[trigger] n.children[i])
}

/// Ordering a tree puts the best first everywhere in it.
pub proof fn law_the_best_come_first(n: NodeView)
    ensures
        best_first(ordered(n)),
        ordered(n).name == n.name,
        ordered(n).path == n.path,
        ordered(n).is_dir == n.is_dir,
        ordered(n).score == n.score,
    decreases n,
{
    lemma_ordered_children(n);
    let o = ordered(n);
    assert forall|i: int| 0 <= i < o.children.len() implies best_first(#[trigger] o.children[i]) by {
        let j = lemma_ordered_child(n, i);
        law_the_best_come_first(n.children[j]);
    }
}

/// The tree of what was found below a root.
pub open spec fn tree_of(
    root: Seq<char>,
    name: Seq<char>,
    hits: Seq<ScoredView>,
    separator: char,
) -> NodeView {
    ordered(built(root, name, best_scores(hits), separator))
}

/// The path of each node below the root is the path of its parent, the separator and its own
/// name.
pub proof fn law_a_path_goes_on_from_its_parent(
    root: Seq<char>,
    name: Seq<char>,
    hits: Seq<ScoredView>,
    separator: char,
)
    ensures
        tree_of(root, name, hits, separator).path == root,
        tree_of(root, name, hits, separator).name == name,
        paths_hold(tree_of(root, name, hits, separator), separator),
{
    let t = built(root, name, best_scores(hits), separator);
    lemma_built(root, name, best_scores(hits), separator);
    assert(paths_hold(t, separator));
    lemma_ordered_paths(t, separator);
}

proof fn lemma_path_of_reached(
    n: NodeView,
    q: Seq<Seq<char>>,
    m: NodeView,
    separator: char,
)
    requires
        paths_hold(n, separator),
        reached(n.children, q, m),
    ensures
        m.path == n.path + path_below(q, separator),
        m.name == q.last(),
    decreases q.len(),
{
    let i = choose|i: int|
        0 <= i < n.children.len() && (#[trigger] n.children[i]).name == q[0] && if q.len() == 1 {
            m == n.children[i]
        } else {
            reached(n.children[i].children, q.skip(1), m)
        };
    let c = n.children[i];
    assert(path_below(q, separator) == seq![separator] + q[0] + path_below(q.skip(1), separator));
    if q.len() == 1 {
        assert(path_below(q.skip(1), separator) =~= Seq::<char>::empty());
        assert(m.path =~= n.path + path_below(q, separator));
    } else {
        lemma_path_of_reached(c, q.skip(1), m, separator);
        assert(q.skip(1).last() == q.last());
        assert(m.path =~= n.path + path_below(q, separator));
    }
}

proof fn lemma_components_of_name(name: Seq<char>, run: Seq<char>, rest: Seq<char>)
    requires
        forall|k: int| 0 <= k < name.len() ==> !is_separator(#[trigger] name[k]),
    ensures
        components_from(name + rest, run) == components_from(rest, run + name),
    decreases name.len(),
{
    if name.len() == 0 {
        assert(name + rest =~= rest);
        assert(run + name =~= run);
    } else {
        let less = name.skip(1);
        assert forall|k: int| 0 <= k < less.len() implies !is_separator(#[trigger] less[k]) by {
            assert(less[k] == name[k + 1]);
        }
        lemma_components_of_name(less, run.push(name[0]), rest);
        assert((name + rest).skip(1) =~= less + rest);
        assert(run.push(name[0]) + less =~= run + name);
    }
}

proof fn lemma_components_of_way(comps: Seq<Seq<char>>, separator: char, run: Seq<char>)
    requires
        proper(comps),
        is_separator(separator),
    ensures
        components_from(path_below(comps, separator), run) == (if run.len() == 0 {
            comps
        } else {
            seq![run] + comps
        }),
    decreases comps.len(),
{
    let p = path_below(comps, separator);
    if comps.len() == 0 {
        assert(components_from(p, run) =~= if run.len() == 0 {
            comps
        } else {
            seq![run] + comps
        });
    } else {
        let first = comps[0];
        let rest = comps.skip(1);
        assert(first.len() > 0);
        assert forall|k: int| 0 <= k < first.len() implies !is_separator(#[trigger] first[k]) by {
            assert(!is_separator(comps[0][k]));
        }
        assert(proper(rest)) by {
            assert forall|i: int| 0 <= i < rest.len() implies (#[trigger] rest[i]).len() > 0 by {
                assert(rest[i] == comps[i + 1]);
            }
            assert forall|i: int, k: int| 0 <= i < rest.len() && 0 <= k < rest[i].len() implies !is_separator(
                #[trigger] rest[i][k],
            ) by {
                assert(rest[i] == comps[i + 1]);
                assert(!is_separator(comps[i + 1][k]));
            }
        }
        lemma_components_of_way(rest, separator, first);
        let behind = path_below(rest, separator);
        assert(p.skip(1) =~= first + behind);
        lemma_components_of_name(first, Seq::empty(), behind);
        assert(Seq::<char>::empty() + first =~= first);
        assert(seq![first] + rest =~= comps);
        assert(components_from(p, run) =~= if run.len() == 0 {
            comps
        } else {
            seq![run] + comps
        });
    }
}

/// The names of a path below a root are those that it is made of.
pub proof fn law_a_path_is_read_by_its_names(root: Seq<char>, comps: Seq<Seq<char>>, separator: char)
    requires
        proper(comps),
        is_separator(separator),
    ensures
        components_below(root + path_below(comps, separator), root) == comps,
{
    let p = root + path_below(comps, separator);
    assert(p.subrange(0, root.len() as int) =~= root);
    assert(p.skip(root.len() as int) =~= path_below(comps, separator));
    lemma_components_of_way(comps, separator, Seq::empty());
}

/// Every file that was hit is counted, with a score that is no less than that of the hit.
pub proof fn law_a_hit_is_counted(hits: Seq<ScoredView>, i: int) -> (k: int)
    requires
        0 <= i < hits.len(),
    ensures
        0 <= k < best_scores(hits).len(),
        best_scores(hits)[k].path == hits[i].path,
        best_scores(hits)[k].score >= hits[i].score,
    decreases hits.len(),
{
    let less = hits.drop_last();
    let before = best_scores(less);
    let h = hits.last();
    lemma_path_place(before, h.path);
    if i < hits.len() - 1 {
        assert(less[i] == hits[i]);
        law_a_hit_is_counted(less, i)
    } else {
        match path_place(before, h.path) {
            Some(k) => k,
            None => before.len() as int,
        }
    }
}

/// A file scores as one of its hits did, and is a folder where one of its hits was.
pub proof fn law_a_file_scores_as_a_hit(hits: Seq<ScoredView>, k: int) -> (r: (int, int))
    requires
        0 <= k < best_scores(hits).len(),
    ensures
        0 <= r.0 < hits.len(),
        0 <= r.1 < hits.len(),
        hits[r.0].path == best_scores(hits)[k].path,
        hits[r.0].score == best_scores(hits)[k].score,
        hits[r.1].path == best_scores(hits)[k].path,
        hits[r.1].is_dir == best_scores(hits)[k].is_dir,
    decreases hits.len(),
{
    let less = hits.drop_last();
    let before = best_scores(less);
    let after = best_scores(hits);
    let h = hits.last();
    let n = hits.len() - 1;
    assert(hits[n] == h);
    lemma_path_place(before, h.path);
    if k < before.len() {
        let (a, b) = law_a_file_scores_as_a_hit(less, k);
        assert(hits[a] == less[a] && hits[b] == less[b]);
        if after[k].score == before[k].score {
            (a, b)
        } else {
            (n, b)
        }
    } else {
        (n, n)
    }
}

/// Each file that was hit is counted once.
pub proof fn law_a_file_is_counted_once(hits: Seq<ScoredView>)
    ensures
        forall|k: int, l: int|
            0 <= k < l < best_scores(hits).len() ==> (#[trigger] best_scores(hits)[k]).path != (
            #[trigger] best_scores(hits)[l]).path,
    decreases hits.len(),
{
    if hits.len() > 0 {
        let less = hits.drop_last();
        law_a_file_is_counted_once(less);
        let before = best_scores(less);
        let after = best_scores(hits);
        lemma_path_place(before, hits.last().path);
        assert forall|k: int, l: int| 0 <= k < l < after.len() implies (#[trigger] after[k]).path != (
        #[trigger] after[l]).path by {
            assert(after[k].path == before[k].path);
            if l < before.len() {
                assert(after[l].path == before[l].path);
            }
        }
    }
}

proof fn lemma_path_place(v: Seq<ScoredView>, path: Seq<char>)
    ensures
        path_place(v, path) matches Some(k) ==> 0 <= k < v.len() && v[k].path == path,
        path_place(v, path) is None ==> forall|k: int|
            0 <= k < v.len() ==> (#[trigger] v[k]).path != path,
    decreases v.len(),
{
    if v.len() > 0 {
        lemma_path_place(v.drop_last(), path);
        if path_place(v, path) is None {
            assert forall|k: int| 0 <= k < v.len() implies (#[trigger] v[k]).path != path by {
                if k < v.len() - 1 {
                    assert(v.drop_last()[k] == v[k]);
                }
            }
        }
    }
}

/// Each file that was found stands in the tree, at its own path and under its own name, and
/// scores at least as each of its hits did.
pub proof fn law_every_file_stands_at_its_path(
    root: Seq<char>,
    name: Seq<char>,
    hits: Seq<ScoredView>,
    separator: char,
    i: int,
    comps: Seq<Seq<char>>,
) -> (m: NodeView)
    requires
        0 <= i < hits.len(),
        comps.len() > 0,
        proper(comps),
        is_separator(separator),
        hits[i].path == root + path_below(comps, separator),
    ensures
        reached(tree_of(root, name, hits, separator).children, comps, m),
        m.path == hits[i].path,
        m.name == comps.last(),
        m.score >= hits[i].score,
{
    let files = best_scores(hits);
    let t = built(root, name, files, separator);
    let k = law_a_hit_is_counted(hits, i);
    law_a_path_is_read_by_its_names(root, comps, separator);
    assert(comps.take(comps.len() as int) =~= comps);
    let m = lemma_built_holds_files(root, name, files, separator, k, comps);
    lemma_ordered_reached(t, comps, m);
    law_a_path_goes_on_from_its_parent(root, name, hits, separator);
    lemma_path_of_reached(ordered(t), comps, ordered(m), separator);
    ordered(m)
}

/// Nothing stands in the tree but the files that were found and the folders on their way. The
/// score of a node is that of the best file at it or below it, and a node at which no file
/// stands is a folder.
pub proof fn law_a_node_tells_the_files_below_it(
    root: Seq<char>,
    name: Seq<char>,
    hits: Seq<ScoredView>,
    separator: char,
    q: Seq<Seq<char>>,
    m: NodeView,
)
    requires
        reached(tree_of(root, name, hits, separator).children, q, m),
    ensures
        exists|i: int|
            0 <= i < hits.len() && starts_way(q, components_below((#[trigger] hits[i]).path, root))
                && m.score == hits[i].score,
        forall|i: int|
            0 <= i < hits.len() && starts_way(q, components_below((#[trigger] hits[i]).path, root))
                ==> m.score >= hits[i].score,
        exists|i: int|
            0 <= i < hits.len() && starts_way(q, components_below((#[trigger] hits[i]).path, root))
                && m.is_dir == (q.len() < components_below(hits[i].path, root).len()
                || hits[i].is_dir),
{
    let files = best_scores(hits);
    let t = built(root, name, files, separator);
    let r = lemma_reached_ordered(t, q, m);
    lemma_built_tells_files(root, name, files, separator, q, r);
    let a = choose|i: int|
        0 <= i < files.len() && starts_way(q, components_below((#[trigger] files[i]).path, root))
            && r.score == files[i].score;
    let (ha, _) = law_a_file_scores_as_a_hit(hits, a);
    assert(m.score == hits[ha].score);
    let b = choose|i: int|
        0 <= i < files.len() && starts_way(q, components_below((#[trigger] files[i]).path, root))
            && r.is_dir == (q.len() < components_below(files[i].path, root).len()
            || files[i].is_dir);
    let (_, hb) = law_a_file_scores_as_a_hit(hits, b);
    assert(hits[hb].path == files[b].path);
    assert forall|i: int|
        0 <= i < hits.len() && starts_way(q, components_below((#[trigger] hits[i]).path, root)) implies m.score
        >= hits[i].score by {
        let k = law_a_hit_is_counted(hits, i);
    }
}

/// One way leads to one node.
pub proof fn law_a_way_leads_to_one_node(
    root: Seq<char>,
    name: Seq<char>,
    hits: Seq<ScoredView>,
    separator: char,
    q: Seq<Seq<char>>,
    a: NodeView,
    b: NodeView,
)
    requires
        reached(tree_of(root, name, hits, separator).children, q, a),
        reached(tree_of(root, name, hits, separator).children, q, b),
    ensures
        a == b,
{
    let files = best_scores(hits);
    let t = built(root, name, files, separator);
    lemma_built(root, name, files, separator);
    let x = lemma_reached_ordered(t, q, a);
    let y = lemma_reached_ordered(t, q, b);
    lemma_reached_once(t.children, q, x, y);
}

/// The root scores as the best of the files below it.
pub proof fn law_the_root_scores_as_the_best_file(
    root: Seq<char>,
    name: Seq<char>,
    hits: Seq<ScoredView>,
    separator: char,
)
    ensures
        tree_of(root, name, hits, separator).is_dir,
        forall|i: int|
            0 <= i < hits.len() && components_below((#[trigger] hits[i]).path, root).len() > 0
                ==> tree_of(root, name, hits, separator).score >= hits[i].score,
        tree_of(root, name, hits, separator).score == 0 || exists|i: int|
            0 <= i < hits.len() && components_below((#[trigger] hits[i]).path, root).len() > 0
                && tree_of(root, name, hits, separator).score == hits[i].score,
{
    let files = best_scores(hits);
    let t = built(root, name, files, separator);
    lemma_built(root, name, files, separator);
    assert forall|i: int|
        0 <= i < hits.len() && components_below((#[trigger] hits[i]).path, root).len() > 0 implies t.score
        >= hits[i].score by {
        let k = law_a_hit_is_counted(hits, i);
    }
    if t.score != 0 {
        let k = choose|i: int|
            0 <= i < files.len() && components_below((#[trigger] files[i]).path, root).len() > 0
                && t.score == files[i].score;
        let (i, _) = law_a_file_scores_as_a_hit(hits, k);
        assert(hits[i].path == files[k].path);
    }
}

/// The tree grows from the folder that was asked for, or from the first that is indexed.
pub proof fn law_the_tree_grows_from_what_was_asked(scope: Seq<char>, roots: Seq<Seq<char>>)
    requires
        scope.len() > 0,
        scope.last() != '/',
        scope.last() != '\\',
    ensures
        !is_blank(scope) ==> root_spec(Some(scope), roots) == Some(scope),
        !is_blank(scope) ==> root_spec(Some(scope.push('/')), roots) == root_spec(
            Some(scope),
            roots,
        ) || is_blank(scope.push('/')),
        root_spec(None, seq![scope] + roots) == Some(scope),
        root_spec(None, Seq::empty()) is None,
{
    assert(scope.push('/').drop_last() =~= scope);
    assert((seq![scope] + roots)[0] == scope);
}

} // verus!
