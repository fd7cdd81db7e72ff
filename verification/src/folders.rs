//! How a directory is treated: explored file by file, or indexed as one block.
//!
//! A directory becomes a block only where that is certain: by a known pattern, or by an
//! explicit answer of the model. In every other case it is explored.

use vstd::prelude::*;

use crate::json::{field_text, parsed, Json};
use crate::text::{
    cat2, cat5, contains, decimal, decimal_text, ends_with, join, joined, lower_case, opt,
    starts_with, str_contains, str_ends_with, str_eq, str_starts_with, str_trim, str_trim_end_of,
    lowered, trim, trim_end_of, views,
};

verus! {

/// With fewer entries a directory is explored without asking a model.
pub const MIN_ENTRIES_FOR_LLM: usize = 6;

/// How many entries the model is shown.
pub const LISTED_FOR_LLM: usize = 60;

#[derive(Debug, Clone, Copy, PartialEq, Eq, Structural)]
pub enum FolderMode {
    Recursive,
    Block,
}

impl FolderMode {
    pub open spec fn name(self) -> Seq<char> {
        match self {
            FolderMode::Recursive => "recursive"@,
            FolderMode::Block => "block"@,
        }
    }

    pub fn as_str(self) -> (r: &'static str)
        ensures
            r@ == self.name(),
    {
        match self {
            FolderMode::Recursive => "recursive",
            FolderMode::Block => "block",
        }
    }

    pub open spec fn of_name(s: Seq<char>) -> FolderMode {
        if s == "block"@ {
            FolderMode::Block
        } else {
            FolderMode::Recursive
        }
    }

    /// Everything but `block` stands for the safe choice.
    pub fn from_str(s: &str) -> (r: FolderMode)
        ensures
            r == FolderMode::of_name(s@),
    {
        if str_eq(s, "block") {
            FolderMode::Block
        } else {
            FolderMode::Recursive
        }
    }
}

/// What is to be done with a directory.
#[derive(Debug, Clone, Copy, PartialEq, Eq, Structural)]
pub enum Decision {
    Recursive,
    Block,
    /// A model has to decide and none could be asked yet.
    Defer,
}

pub open spec fn decision_of(mode: FolderMode) -> Decision {
    match mode {
        FolderMode::Recursive => Decision::Recursive,
        FolderMode::Block => Decision::Block,
    }
}

#[derive(Debug)]
pub struct EntryInfo {
    pub name: String,
    pub is_dir: bool,
    pub ext: Option<String>,
}

/// The directories of the system and of tools, which are never indexed.
pub open spec fn ignored_dir(name: Seq<char>) -> bool {
    starts_with(name, "."@) || name == "node_modules"@ || name == "target"@ || name == "AppData"@
        || name == "Windows"@ || name == "$RECYCLE.BIN"@ || name == "__pycache__"@
}

pub fn hard_ignore(name: &str) -> (r: bool)
    ensures
        r == ignored_dir(name@),
{
    str_starts_with(name, ".") || str_eq(name, "node_modules") || str_eq(name, "target") || str_eq(
        name,
        "AppData",
    ) || str_eq(name, "Windows") || str_eq(name, "$RECYCLE.BIN") || str_eq(name, "__pycache__")
}

/// The names of directories that are blocks.
pub open spec fn block_name(s: Seq<char>) -> bool {
    s == "venv"@ || s == "env"@ || s == "virtualenv"@ || s == "site-packages"@ || s == "vendor"@
        || s == "pods"@ || s == "deriveddata"@ || s == "packages"@
}

/// The endings of bundles and libraries, which are blocks.
pub open spec fn block_suffix(s: Seq<char>) -> bool {
    ends_with(s, ".app"@) || ends_with(s, ".bundle"@) || ends_with(s, ".framework"@) || ends_with(
        s,
        ".plugin"@,
    ) || ends_with(s, ".vst"@) || ends_with(s, ".vst3"@) || ends_with(s, ".component"@)
        || ends_with(s, ".lrcat"@) || ends_with(s, ".photoslibrary"@) || ends_with(s, ".aplibrary"@)
        || ends_with(s, ".fcpbundle"@) || ends_with(s, ".imovielibrary"@)
}

/// The extensions of instrument packs and presets.
pub open spec fn pack_ext(s: Seq<char>) -> bool {
    s == "adg"@ || s == "adv"@ || s == "ams"@ || s == "asd"@ || s == "alp"@ || s == "agr"@ || s
        == "ask"@ || s == "abl"@ || s == "alc"@ || s == "adm"@ || s == "nki"@ || s == "nkm"@ || s
        == "fxp"@ || s == "fxb"@
}

pub open spec fn is_pack_entry(e: EntryInfo) -> bool {
    opt(e.ext) matches Some(x) && pack_ext(x)
}

/// A directory that is certainly a block.
pub open spec fn surely_block(name: Seq<char>, entries: Seq<EntryInfo>) -> bool {
    block_name(lower_case(name)) || block_suffix(lower_case(name)) || exists|i: int|
        0 <= i < entries.len() && is_pack_entry(#[trigger] entries[i])
}

fn has_block_name(s: &str) -> (r: bool)
    ensures
        r == block_name(s@),
{
    str_eq(s, "venv") || str_eq(s, "env") || str_eq(s, "virtualenv") || str_eq(s, "site-packages")
        || str_eq(s, "vendor") || str_eq(s, "pods") || str_eq(s, "deriveddata") || str_eq(
        s,
        "packages",
    )
}

fn has_block_suffix(s: &str) -> (r: bool)
    ensures
        r == block_suffix(s@),
{
    str_ends_with(s, ".app") || str_ends_with(s, ".bundle") || str_ends_with(s, ".framework")
        || str_ends_with(s, ".plugin") || str_ends_with(s, ".vst") || str_ends_with(s, ".vst3")
        || str_ends_with(s, ".component") || str_ends_with(s, ".lrcat") || str_ends_with(
        s,
        ".photoslibrary",
    ) || str_ends_with(s, ".aplibrary") || str_ends_with(s, ".fcpbundle") || str_ends_with(
        s,
        ".imovielibrary",
    )
}

fn has_pack_ext(s: &str) -> (r: bool)
    ensures
        r == pack_ext(s@),
{
    str_eq(s, "adg") || str_eq(s, "adv") || str_eq(s, "ams") || str_eq(s, "asd") || str_eq(s, "alp")
        || str_eq(s, "agr") || str_eq(s, "ask") || str_eq(s, "abl") || str_eq(s, "alc") || str_eq(
        s,
        "adm",
    ) || str_eq(s, "nki") || str_eq(s, "nkm") || str_eq(s, "fxp") || str_eq(s, "fxb")
}

pub fn heuristic_block(name: &str, entries: &Vec<EntryInfo>) -> (r: bool)
    ensures
        r == surely_block(name@, entries@),
{
    let lower = lowered(name);
    if has_block_name(lower.as_str()) || has_block_suffix(lower.as_str()) {
        return true;
    }
    let mut i: usize = 0;
    while i < entries.len()
        invariant
            i <= entries.len(),
            forall|k: int| 0 <= k < i ==> !is_pack_entry(#[trigger] entries@[k]),
        decreases entries.len() - i,
    {
        if let Some(x) = &entries[i].ext {
            if has_pack_ext(x.as_str()) {
                assert(is_pack_entry(entries@[i as int]));
                return true;
            }
        }
        i = i + 1;
    }
    false
}

// ---------------------------------------------------------------------------
// Deciding
// ---------------------------------------------------------------------------

/// What is known of a directory without a model.
#[derive(Debug, Clone, Copy, PartialEq, Eq, Structural)]
pub enum Resolution {
    /// A root, or a decision that was recorded before.
    Known(FolderMode),
    /// A block by its pattern; the decision is to be recorded as heuristic.
    HeuristicBlock,
    /// Only a model can tell.
    AskModel,
    /// Explored for want of anything that speaks against it; not recorded.
    Explore,
}

pub open spec fn names_root(roots: Seq<Seq<char>>, dir: Seq<char>) -> bool {
    exists|i: int|
        0 <= i < roots.len() && trim_end_of(#[trigger] roots[i], '/', '\\') == trim_end_of(
            dir,
            '/',
            '\\',
        )
}

/// What the parts of a directory say of it: a root is always explored, a recorded decision
/// stands (one that is still pending is none), then come the patterns, and a model is asked
/// only where there is one and the directory is not trivial.
pub open spec fn resolution(
    is_root: bool,
    cached: Option<Seq<char>>,
    sure_block: bool,
    entries: nat,
    reasoning_enabled: bool,
) -> Resolution {
    if is_root {
        Resolution::Known(FolderMode::Recursive)
    } else if cached is Some && cached != Some("pending"@) {
        Resolution::Known(FolderMode::of_name(cached->0))
    } else if sure_block {
        Resolution::HeuristicBlock
    } else if reasoning_enabled && entries >= MIN_ENTRIES_FOR_LLM {
        Resolution::AskModel
    } else {
        Resolution::Explore
    }
}

pub fn resolve_mode(
    roots: &Vec<String>,
    dir: &str,
    cached: &Option<String>,
    name: &str,
    entries: &Vec<EntryInfo>,
    reasoning_enabled: bool,
) -> (r: Resolution)
    ensures
        r == resolution(
            names_root(views(roots@), dir@),
            opt(*cached),
            surely_block(name@, entries@),
            entries@.len(),
            reasoning_enabled,
        ),
{
    let bare = str_trim_end_of(dir, '/', '\\');
    let mut i: usize = 0;
    while i < roots.len()
        invariant
            i <= roots.len(),
            bare@ == trim_end_of(dir@, '/', '\\'),
            forall|k: int|
                0 <= k < i ==> trim_end_of(#[trigger] views(roots@)[k], '/', '\\') != trim_end_of(
                    dir@,
                    '/',
                    '\\',
                ),
        decreases roots.len() - i,
    {
        if str_eq(str_trim_end_of(roots[i].as_str(), '/', '\\').as_str(), bare.as_str()) {
            assert(views(roots@)[i as int] == roots@[i as int]@);
            return Resolution::Known(FolderMode::Recursive);
        }
        i = i + 1;
    }
    if let Some(mode) = cached {
        if !str_eq(mode.as_str(), "pending") {
            return Resolution::Known(FolderMode::from_str(mode.as_str()));
        }
    }
    if heuristic_block(name, entries) {
        Resolution::HeuristicBlock
    } else if reasoning_enabled && entries.len() >= MIN_ENTRIES_FOR_LLM {
        Resolution::AskModel
    } else {
        Resolution::Explore
    }
}

/// The decision while a directory is walked: what only a model can tell is put off.
pub open spec fn fast_decision(r: Resolution) -> Decision {
    match r {
        Resolution::Known(m) => decision_of(m),
        Resolution::HeuristicBlock => Decision::Block,
        Resolution::AskModel => Decision::Defer,
        Resolution::Explore => Decision::Recursive,
    }
}

pub fn resolve_mode_fast(r: Resolution) -> (d: Decision)
    ensures
        d == fast_decision(r),
{
    match r {
        Resolution::Known(FolderMode::Recursive) => Decision::Recursive,
        Resolution::Known(FolderMode::Block) => Decision::Block,
        Resolution::HeuristicBlock => Decision::Block,
        Resolution::AskModel => Decision::Defer,
        Resolution::Explore => Decision::Recursive,
    }
}

/// The decision once the model was asked: without an answer it stays put off.
pub fn decide_with_answer(r: Resolution, answer: Option<FolderMode>) -> (d: Decision)
    ensures
        d == (match (r, answer) {
            (Resolution::AskModel, Some(m)) => decision_of(m),
            _ => fast_decision(r),
        }),
{
    match (r, answer) {
        (Resolution::AskModel, Some(FolderMode::Recursive)) => Decision::Recursive,
        (Resolution::AskModel, Some(FolderMode::Block)) => Decision::Block,
        _ => resolve_mode_fast(r),
    }
}

/// An entry as the model sees it: a directory ends with `/`.
pub open spec fn listed_entry(e: EntryInfo) -> Seq<char> {
    if e.is_dir {
        e.name@ + "/"@
    } else {
        e.name@ + ""@
    }
}

pub open spec fn listed_entries(entries: Seq<EntryInfo>, n: nat) -> Seq<Seq<char>> {
    Seq::new(
        if entries.len() < n {
            entries.len()
        } else {
            n
        },
        |i: int| listed_entry(entries[i]),
    )
}

/// What the model is asked about a folder.
pub open spec fn classify_text(name: Seq<char>, entries: Seq<EntryInfo>) -> Seq<char> {
    "Dossier: "@ + name + "\nContenu (~"@ + decimal(entries.len()) + " éléments): "@ + join(
        listed_entries(entries, LISTED_FOR_LLM as nat),
        ", "@,
    )
}

/// What the model is told of a directory.
pub fn classify_request(name: &str, entries: &Vec<EntryInfo>) -> (r: String)
    ensures
        r@ == classify_text(name@, entries@),
{
    let mut items: Vec<String> = Vec::new();
    let ghost want = listed_entries(entries@, LISTED_FOR_LLM as nat);
    let mut i: usize = 0;
    while i < entries.len() && i < LISTED_FOR_LLM
        invariant
            i <= entries.len(),
            i <= LISTED_FOR_LLM,
            want == listed_entries(entries@, LISTED_FOR_LLM as nat),
            views(items@) == want.take(i as int),
        decreases entries.len() - i,
    {
        let ghost before = views(items@);
        let item = cat2(
            entries[i].name.as_str(),
            if entries[i].is_dir {
                "/"
            } else {
                ""
            },
        );
        items.push(item);
        assert(views(items@) =~= before.push(listed_entry(entries@[i as int])));
        i = i + 1;
        assert(views(items@) =~= want.take(i as int));
    }
    assert(want.take(i as int) =~= want);
    let listing = joined(&items, ", ");
    let count = decimal_text(entries.len() as u64);
    let mut r = cat5("Dossier: ", name, "\nContenu (~", count.as_str(), " éléments): ");
    r.append(listing.as_str());
    r
}

/// The mode that an answer of the model names: the field `mode` of a JSON answer, else the
/// one word of the two that it holds; in doubt the safe choice.
pub open spec fn answered_mode(raw: Seq<char>) -> FolderMode {
    match parsed(trim(raw)) {
        Some(v) if field_text(v, "mode"@) is Some => FolderMode::of_name(field_text(v, "mode"@)->0),
        _ => if contains(lower_case(raw), "block"@) && !contains(lower_case(raw), "recursive"@) {
            FolderMode::Block
        } else {
            FolderMode::Recursive
        },
    }
}

/// What an answer says where its JSON is known.
pub fn mode_of_answer(value: &Option<Json>, raw: &str) -> (r: FolderMode)
    ensures
        r == (match value {
            Some(v) if field_text(v.view(), "mode"@) is Some => FolderMode::of_name(
                field_text(v.view(), "mode"@)->0,
            ),
            _ => if contains(lower_case(raw@), "block"@) && !contains(
                lower_case(raw@),
                "recursive"@,
            ) {
                FolderMode::Block
            } else {
                FolderMode::Recursive
            },
        }),
{
    if let Some(v) = value {
        if let Some(m) = v.get_text("mode") {
            return FolderMode::from_str(m);
        }
    }
    let low = lowered(raw);
    if str_contains(low.as_str(), "block") && !str_contains(low.as_str(), "recursive") {
        FolderMode::Block
    } else {
        FolderMode::Recursive
    }
}

pub fn read_answer(raw: &str) -> (r: FolderMode)
    ensures
        r == answered_mode(raw@),
{
    let value = Json::parse(str_trim(raw).as_str());
    mode_of_answer(&value, raw)
}

// ---------------------------------------------------------------------------
// Laws
// ---------------------------------------------------------------------------

/// The name of a mode names that mode.
pub proof fn law_mode_names_round_trip(m: FolderMode)
    ensures
        FolderMode::of_name(m.name()) == m,
{
    reveal_strlit("recursive");
    reveal_strlit("block");
    assert("recursive"@.len() != "block"@.len());
}

/// A root is explored, whatever else is known of it.
pub proof fn law_roots_are_always_explored(
    cached: Option<Seq<char>>,
    sure_block: bool,
    entries: nat,
    reasoning_enabled: bool,
)
    ensures
        fast_decision(resolution(true, cached, sure_block, entries, reasoning_enabled))
            == Decision::Recursive,
{
}

/// A directory becomes a block only by a recorded decision or a known pattern; without a
/// model nothing is put off.
pub proof fn law_blocks_only_when_sure(
    is_root: bool,
    cached: Option<Seq<char>>,
    sure_block: bool,
    entries: nat,
    reasoning_enabled: bool,
)
    ensures
        fast_decision(resolution(is_root, cached, sure_block, entries, reasoning_enabled))
            == Decision::Block ==> !is_root && (cached == Some("block"@) || sure_block),
        !reasoning_enabled ==> fast_decision(
            resolution(is_root, cached, sure_block, entries, reasoning_enabled),
        ) != Decision::Defer,
{
}

/// The model is told what it decides on: the name of the folder, and each of the first entries.
pub proof fn law_the_request_tells_the_folder(name: Seq<char>, entries: Seq<EntryInfo>, i: int)
    requires
        0 <= i < entries.len(),
        i < LISTED_FOR_LLM,
    ensures
        ({
            let r = classify_text(name, entries);
            crate::reading::holds(r, name) && crate::reading::holds(r, entries[i].name@)
        }),
{
    let none = Seq::<char>::empty();
    let list = listed_entries(entries, LISTED_FOR_LLM as nat);
    let all = join(list, ", "@);
    let mid = "\nContenu (~"@ + decimal(entries.len()) + " éléments): "@;
    let r = classify_text(name, entries);
    assert(r =~= "Dossier: "@ + name + (mid + all));
    crate::reading::lemma_holds("Dossier: "@, name, mid + all);
    assert(r =~= ("Dossier: "@ + name + mid) + all + none);
    crate::reading::lemma_holds("Dossier: "@ + name + mid, all, none);
    crate::reading::lemma_join_holds(list, ", "@, i);
    crate::reading::lemma_holds_through(r, all, list[i]);
    let end = if entries[i].is_dir {
        "/"@
    } else {
        ""@
    };
    assert(list[i] =~= none + entries[i].name@ + end);
    crate::reading::lemma_holds(none, entries[i].name@, end);
    crate::reading::lemma_holds_through(r, list[i], entries[i].name@);
}

/// What the model says counts: the mode that its answer names is taken.
pub proof fn law_the_answer_is_taken(raw: Seq<char>, v: crate::json::JsonView, mode: Seq<char>)
    requires
        parsed(trim(raw)) == Some(v),
        field_text(v, "mode"@) == Some(mode),
    ensures
        answered_mode(raw) == FolderMode::Block <==> mode == "block"@,
{
}

} // verus!
