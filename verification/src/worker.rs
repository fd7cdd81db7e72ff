//! The indexing worker: which way a file takes, when it is tried again, and what the loop does
//! between two files.

use vstd::prelude::*;

use crate::bytes::{
    b64, b64_len, base64_text, fingerprint, head_of, hex, mime_of_bytes, sha256, sniff_head,
};
use crate::chat::{AiCallError, AiCallErrorView};
use crate::config::{AppConfig, PipelineMode};
use crate::extract::{has_text_share, text_share};
use crate::parser::FileType;
use crate::pending::Pending;
use crate::text::{
    cat2, cat5, is_blank, join, joined, opt, signed_decimal, signed_text, starts_with, str_eq,
    str_is_blank, str_is_empty, str_starts_with, str_trim, trim, views,
};

verus! {

/// How often a file is tried.
pub const MAX_RETRIES: i64 = 3;

/// How many files are taken at a time, one after the other.
pub const BATCH: i64 = 8;

/// How many rounds without work pass before the embedding model is let go.
pub const IDLE_UNLOAD_CYCLES: u32 = 5;

// ---------------------------------------------------------------------------
// The loop
// ---------------------------------------------------------------------------

/// What the loop does before its next round.
#[derive(Debug, PartialEq, Eq, Structural)]
pub struct Rest {
    /// Let the embedding model go.
    pub unload: bool,
    pub sleep_ms: u64,
}

/// The loop of the worker: how many rounds in a row found no work.
#[derive(Debug)]
pub struct WorkerLoop {
    pub idle_cycles: u32,
}

/// One round more, as far as the counter goes.
pub open spec fn one_more(n: u32) -> u32 {
    if n == u32::MAX {
        n
    } else {
        (n + 1) as u32
    }
}

impl WorkerLoop {
    pub fn start() -> (r: WorkerLoop)
        ensures
            r.idle_cycles == 0,
    {
        WorkerLoop { idle_cycles: 0 }
    }

    /// How many tasks are taken: a larger slice where the models are asked first and the
    /// vectors computed afterwards.
    pub fn slice(cfg: &AppConfig) -> (r: i64)
        ensures
            r == (if cfg.indexing.pipeline_mode == PipelineMode::Batch {
                if cfg.indexing.batch_files < 1 {
                    1
                } else if cfg.indexing.batch_files > 1000 {
                    1000
                } else {
                    cfg.indexing.batch_files as int
                }
            } else {
                BATCH as int
            }),
    {
        match cfg.indexing.pipeline_mode {
            PipelineMode::Batch => {
                if cfg.indexing.batch_files < 1 {
                    1
                } else if cfg.indexing.batch_files > 1000 {
                    1000
                } else {
                    cfg.indexing.batch_files as i64
                }
            },
            PipelineMode::Sequential => BATCH,
        }
    }

    /// The user paused the indexing: the model is let go at once.
    pub fn on_paused(&self, embedder_loaded: bool) -> (r: Rest)
        ensures
            r == (Rest { unload: embedder_loaded, sleep_ms: 700 }),
    {
        Rest { unload: embedder_loaded, sleep_ms: 700 }
    }

    /// The queue could not be read.
    pub fn on_queue_error(&self) -> (r: Rest)
        ensures
            r == (Rest { unload: false, sleep_ms: 5000 }),
    {
        Rest { unload: false, sleep_ms: 5000 }
    }

    /// There is no work. After some rounds of that, the model is let go.
    pub fn on_no_task(&mut self, embedder_loaded: bool) -> (r: Rest)
        ensures
            final(self).idle_cycles == one_more(old(self).idle_cycles),
            r == (Rest {
                unload: one_more(old(self).idle_cycles) >= IDLE_UNLOAD_CYCLES && embedder_loaded,
                sleep_ms: 3000,
            }),
    {
        self.idle_cycles = self.idle_cycles.saturating_add(1);
        Rest { unload: self.idle_cycles >= IDLE_UNLOAD_CYCLES && embedder_loaded, sleep_ms: 3000 }
    }

    /// There is work.
    pub fn on_tasks(&mut self)
        ensures
            final(self).idle_cycles == 0,
    {
        self.idle_cycles = 0;
    }

    /// The embedding model is not there: the tasks wait.
    pub fn on_no_embedder(&self) -> (r: Rest)
        ensures
            r == (Rest { unload: false, sleep_ms: 15000 }),
    {
        Rest { unload: false, sleep_ms: 15000 }
    }
}

/// What became of a task once the models were asked.
#[derive(Debug)]
pub enum Prepared {
    /// There is nothing to store: the file is gone, unchanged or ignored.
    Nothing,
    Ready(Pending),
    Failed(String),
}

/// What is done with a task.
#[derive(Debug)]
pub enum TaskStep {
    /// It is done.
    Complete,
    /// It failed.
    Fail(String),
    /// Its vectors are computed now.
    Finalize(Pending),
    /// Its vectors are computed once the whole slice was prepared.
    Held,
}

/// A slice of tasks. One after the other, or all of them through the models first.
#[derive(Debug)]
pub struct SliceRun {
    pub batch: bool,
    /// What waits for its vectors, with the id of its task.
    pub ready: Vec<(i64, Pending)>,
}

impl SliceRun {
    pub fn start(batch: bool) -> (r: SliceRun)
        ensures
            r.batch == batch,
            r.ready@ == Seq::<(i64, Pending)>::empty(),
    {
        SliceRun { batch, ready: Vec::new() }
    }

    /// Takes in a task that was prepared. In a batch it waits; otherwise its vectors are
    /// computed at once. A failure is told at once in both cases.
    pub fn on_prepared(&mut self, id: i64, prepared: Prepared) -> (r: TaskStep)
        ensures
            final(self).batch == old(self).batch,
            match prepared {
                Prepared::Nothing => r == TaskStep::Complete && final(self).ready@ == old(
                    self,
                ).ready@,
                Prepared::Failed(e) => r == TaskStep::Fail(e) && final(self).ready@ == old(
                    self,
                ).ready@,
                Prepared::Ready(p) => if old(self).batch {
                    r == TaskStep::Held && final(self).ready@ == old(self).ready@.push((id, p))
                } else {
                    r == TaskStep::Finalize(p) && final(self).ready@ == old(self).ready@
                },
            },
    {
        match prepared {
            Prepared::Nothing => TaskStep::Complete,
            Prepared::Failed(e) => TaskStep::Fail(e),
            Prepared::Ready(p) => {
                if self.batch {
                    self.ready.push((id, p));
                    TaskStep::Held
                } else {
                    TaskStep::Finalize(p)
                }
            },
        }
    }

    /// What waits for its vectors at the end of the slice, or when it was interrupted: what
    /// the models were asked for is not lost.
    pub fn finish(self) -> (r: Vec<(i64, Pending)>)
        ensures
            r@ == self.ready@,
    {
        self.ready
    }
}

/// A model at a server.
#[derive(Debug)]
pub struct ModelAt {
    pub base_url: String,
    pub model: String,
}

pub struct ModelAtView {
    pub base_url: Seq<char>,
    pub model: Seq<char>,
}

pub open spec fn model_views(v: Seq<ModelAt>) -> Seq<ModelAtView> {
    Seq::new(v.len(), |i: int| ModelAtView { base_url: v[i].base_url@, model: v[i].model@ })
}

pub open spec fn model_if(used: bool, base_url: Seq<char>, model: Seq<char>) -> Seq<ModelAtView> {
    if used && model.len() > 0 {
        seq![ModelAtView { base_url, model }]
    } else {
        Seq::empty()
    }
}

/// The models that are let go before the vectors of a slice are computed.
pub fn liberer_modeles_llm(cfg: &AppConfig) -> (r: Vec<ModelAt>)
    ensures
        model_views(r@) == model_if(
            cfg.reasoning.enabled,
            cfg.reasoning.base_url@,
            cfg.reasoning.model@,
        ) + model_if(cfg.vision.enabled, cfg.vision.base_url@, cfg.vision.model@),
{
    let mut out: Vec<ModelAt> = Vec::new();
    if cfg.reasoning.enabled && !str_is_empty(cfg.reasoning.model.as_str()) {
        out.push(
            ModelAt {
                base_url: cfg.reasoning.base_url.clone(),
                model: cfg.reasoning.model.clone(),
            },
        );
    }
    assert(model_views(out@) =~= model_if(
        cfg.reasoning.enabled,
        cfg.reasoning.base_url@,
        cfg.reasoning.model@,
    ));
    if cfg.vision.enabled && !str_is_empty(cfg.vision.model.as_str()) {
        out.push(
            ModelAt { base_url: cfg.vision.base_url.clone(), model: cfg.vision.model.clone() },
        );
    }
    assert(model_views(out@) =~= model_if(
        cfg.reasoning.enabled,
        cfg.reasoning.base_url@,
        cfg.reasoning.model@,
    ) + model_if(cfg.vision.enabled, cfg.vision.base_url@, cfg.vision.model@));
    out
}

// ---------------------------------------------------------------------------
// Routes
// ---------------------------------------------------------------------------

/// What stands in the queue: a folder that is one block, or a file of some type.
#[derive(Debug, PartialEq, Eq, Structural)]
pub enum Queued {
    Folder,
    File(FileType),
}

/// The stage of its own that a type goes through first.
pub open spec fn first_stage(cfg: AppConfig, q: Queued) -> Seq<Seq<char>> {
    match q {
        Queued::File(FileType::Image) => if cfg.vision.enabled {
            seq!["vision"@]
        } else {
            Seq::empty()
        },
        Queued::File(FileType::Media) => if cfg.transcription.enabled || cfg.video.enabled {
            seq!["media"@]
        } else {
            Seq::empty()
        },
        _ => Seq::empty(),
    }
}

pub open spec fn reasoning_stage(cfg: AppConfig, q: Queued) -> Seq<Seq<char>> {
    if cfg.reasoning.enabled && q != Queued::File(FileType::Ignored) {
        seq!["reasoning"@]
    } else {
        Seq::empty()
    }
}

/// The stages that something in the queue goes through. All end with a vector.
pub open spec fn stages(cfg: AppConfig, q: Queued) -> Seq<Seq<char>> {
    first_stage(cfg, q) + reasoning_stage(cfg, q) + seq!["embedding"@]
}

/// What it is called.
pub open spec fn kind_name(q: Queued) -> Seq<char> {
    match q {
        Queued::Folder => "dossier"@,
        Queued::File(FileType::Image) => "image"@,
        Queued::File(FileType::Media) => "média"@,
        Queued::File(FileType::Text) => "texte"@,
        Queued::File(FileType::Document) => "document"@,
        Queued::File(FileType::RequiresAIRouting) => "inconnu"@,
        Queued::File(FileType::Ignored) => "fichier"@,
    }
}

pub fn route_for(cfg: &AppConfig, queued: &Queued) -> (r: (Vec<&'static str>, &'static str))
    ensures
        Seq::new(r.0@.len(), |i: int| r.0@[i]@) == stages(*cfg, *queued),
        r.1@ == kind_name(*queued),
{
    let mut out: Vec<&'static str> = Vec::new();
    let kind = match queued {
        Queued::Folder => "dossier",
        Queued::File(FileType::Image) => {
            if cfg.vision.enabled {
                out.push("vision");
            }
            "image"
        },
        Queued::File(FileType::Media) => {
            if cfg.transcription.enabled || cfg.video.enabled {
                out.push("media");
            }
            "média"
        },
        Queued::File(FileType::Text) => "texte",
        Queued::File(FileType::Document) => "document",
        Queued::File(FileType::RequiresAIRouting) => "inconnu",
        Queued::File(FileType::Ignored) => "fichier",
    };
    assert(Seq::new(out@.len(), |i: int| out@[i]@) =~= first_stage(*cfg, *queued));
    let ignored = match queued {
        Queued::File(FileType::Ignored) => true,
        _ => false,
    };
    if cfg.reasoning.enabled && !ignored {
        out.push("reasoning");
    }
    assert(Seq::new(out@.len(), |i: int| out@[i]@) =~= first_stage(*cfg, *queued)
        + reasoning_stage(*cfg, *queued));
    out.push("embedding");
    assert(Seq::new(out@.len(), |i: int| out@[i]@) =~= stages(*cfg, *queued));
    (out, kind)
}

/// The stages that there are, in their order.
pub open spec fn all_stages() -> Seq<Seq<char>> {
    seq!["vision"@, "media"@, "reasoning"@, "embedding"@]
}

/// `places` are rising places in a list of `n`.
pub open spec fn rising(places: Seq<int>, n: nat) -> bool {
    &&& forall|i: int| 0 <= i < places.len() ==> 0 <= #[trigger] places[i] < n
    &&& forall|i: int, j: int|
        0 <= i < j < places.len() ==> (#[trigger] places[i]) < (#[trigger] places[j])
}

/// A route takes some of the stages that there are, in their order, each at most once.
pub proof fn law_a_route_takes_stages_in_order(cfg: AppConfig, q: Queued)
    ensures
        exists|places: Seq<int>| #[trigger]
            rising(places, all_stages().len()) && stages(cfg, q) == places.map_values(
                |k: int| all_stages()[k],
            ),
{
    let first: Seq<int> = match q {
        Queued::File(FileType::Image) => if cfg.vision.enabled {
            seq![0int]
        } else {
            Seq::empty()
        },
        Queued::File(FileType::Media) => if cfg.transcription.enabled || cfg.video.enabled {
            seq![1int]
        } else {
            Seq::empty()
        },
        _ => Seq::empty(),
    };
    let second: Seq<int> = if reasoning_stage(cfg, q).len() > 0 {
        seq![2int]
    } else {
        Seq::empty()
    };
    let places = first + second + seq![3int];
    assert(rising(places, all_stages().len()));
    assert(stages(cfg, q) =~= places.map_values(|k: int| all_stages()[k]));
}

/// Whatever is in the queue ends as a vector.
pub proof fn law_every_route_ends_with_a_vector(cfg: AppConfig, q: Queued)
    ensures
        stages(cfg, q).len() > 0,
        stages(cfg, q).last() == "embedding"@,
{
}

/// What is known of a path when its turn comes.
#[derive(Debug)]
pub struct PathState {
    pub exists: bool,
    pub is_dir: bool,
    /// How the folder above it is treated, where that is known.
    pub parent_mode: Option<String>,
    pub file_type: FileType,
}

/// What is done with a path when its turn comes.
#[derive(Debug, PartialEq, Eq, Structural)]
pub enum PrepareStep {
    /// It is gone: everything that is known of it is dropped.
    Purge,
    FolderBlock,
    /// It lies in a folder that is one block: it only leaves the queue.
    DropFromQueue,
    Ignore,
    Image,
    Media,
    Unknown,
    Textual,
}

pub open spec fn prepare_spec(s: PathState) -> PrepareStep {
    if !s.exists {
        PrepareStep::Purge
    } else if s.is_dir {
        PrepareStep::FolderBlock
    } else if opt(s.parent_mode) == Some("block"@) {
        PrepareStep::DropFromQueue
    } else {
        match s.file_type {
            FileType::Ignored => PrepareStep::Ignore,
            FileType::Image => PrepareStep::Image,
            FileType::Media => PrepareStep::Media,
            FileType::RequiresAIRouting => PrepareStep::Unknown,
            FileType::Text => PrepareStep::Textual,
            FileType::Document => PrepareStep::Textual,
        }
    }
}

pub fn prepare_task(s: &PathState) -> (r: PrepareStep)
    ensures
        r == prepare_spec(*s),
{
    if !s.exists {
        return PrepareStep::Purge;
    }
    if s.is_dir {
        return PrepareStep::FolderBlock;
    }
    if let Some(m) = &s.parent_mode {
        if str_eq(m.as_str(), "block") {
            return PrepareStep::DropFromQueue;
        }
    }
    match s.file_type {
        FileType::Ignored => PrepareStep::Ignore,
        FileType::Image => PrepareStep::Image,
        FileType::Media => PrepareStep::Media,
        FileType::RequiresAIRouting => PrepareStep::Unknown,
        FileType::Text => PrepareStep::Textual,
        FileType::Document => PrepareStep::Textual,
    }
}

/// A file in a folder that is one block is never indexed on its own.
pub proof fn law_files_of_a_block_are_not_indexed(s: PathState)
    requires
        opt(s.parent_mode) == Some("block"@),
        !s.is_dir,
    ensures
        prepare_spec(s) == PrepareStep::Purge || prepare_spec(s) == PrepareStep::DropFromQueue,
{
}

/// What is indexed already is not turned into vectors again.
pub fn is_unchanged(stored_hash: &Option<String>, hash: &str) -> (r: bool)
    ensures
        r == (opt(*stored_hash) == Some(hash@)),
{
    match stored_hash {
        Some(h) => str_eq(h.as_str(), hash),
        None => false,
    }
}

// ---------------------------------------------------------------------------
// Texts and documents
// ---------------------------------------------------------------------------

/// A size that is over a limit in MB.
pub fn is_too_big(size: Option<u64>, max_mb: u64) -> (r: bool)
    ensures
        r == (size matches Some(n) && n > max_mb * 1048576),
{
    match size {
        Some(n) => n as u128 > max_mb as u128 * 1048576,
        None => false,
    }
}

/// What came out of a document.
#[derive(Debug)]
pub enum Extraction {
    /// The library that reads it gave up.
    Panicked,
    Failed(String),
    Done { content: String, hash: String },
}

/// What is done with a document.
#[derive(Debug)]
pub enum TextualStep {
    /// It is known by its context alone, as that kind of file.
    Context(&'static str),
    Fail(String),
    /// It is the same as before.
    Unchanged,
    /// It holds no text: its pages are shown to the vision model.
    Ocr { hash: String },
    Store { text: String, hash: String, doc_type: String },
}

pub enum TextualView {
    Context(Seq<char>),
    Fail(Seq<char>),
    Unchanged,
    Ocr { hash: Seq<char> },
    Store { text: Seq<char>, hash: Seq<char>, doc_type: Seq<char> },
}

impl TextualStep {
    pub open spec fn view(self) -> TextualView {
        match self {
            TextualStep::Context(k) => TextualView::Context(k@),
            TextualStep::Fail(e) => TextualView::Fail(e@),
            TextualStep::Unchanged => TextualView::Unchanged,
            TextualStep::Ocr { hash } => TextualView::Ocr { hash: hash@ },
            TextualStep::Store { text, hash, doc_type } => TextualView::Store {
                text: text@,
                hash: hash@,
                doc_type: doc_type@,
            },
        }
    }
}

/// What follows from what came out of a document. One that could not be read is known by its
/// context, since reading it again would fail in the same way.
pub open spec fn textual_spec(
    extraction: Extraction,
    stored_hash: Option<Seq<char>>,
    doc_type: Seq<char>,
    vision: bool,
) -> TextualView {
    match extraction {
        Extraction::Panicked => TextualView::Context("illisible"@),
        Extraction::Failed(e) => TextualView::Fail(e@),
        Extraction::Done { content, hash } => if stored_hash == Some(hash@) {
            TextualView::Unchanged
        } else if !is_blank(content@) {
            TextualView::Store { text: trim(content@), hash: hash@, doc_type }
        } else if doc_type == "pdf"@ && vision {
            TextualView::Ocr { hash: hash@ }
        } else {
            TextualView::Context("vide"@)
        },
    }
}

/// What follows from what came out of a document. (One that is too big is not read at all:
/// it is known by its context, as `volumineux`.)
pub fn index_textual(
    extraction: Extraction,
    stored_hash: &Option<String>,
    doc_type: &str,
    vision: bool,
) -> (r: TextualStep)
    ensures
        r.view() == textual_spec(extraction, opt(*stored_hash), doc_type@, vision),
{
    match extraction {
        Extraction::Panicked => TextualStep::Context("illisible"),
        Extraction::Failed(e) => TextualStep::Fail(e),
        Extraction::Done { content, hash } => {
            if is_unchanged(stored_hash, hash.as_str()) {
                TextualStep::Unchanged
            } else if !str_is_blank(content.as_str()) {
                TextualStep::Store {
                    text: str_trim(content.as_str()),
                    hash,
                    doc_type: doc_type.to_owned(),
                }
            } else if str_eq(doc_type, "pdf") && vision {
                TextualStep::Ocr { hash }
            } else {
                TextualStep::Context("vide")
            }
        },
    }
}

/// What follows from the pages of a scan.
pub fn after_ocr(read: Option<String>, hash: String) -> (r: TextualStep)
    ensures
        r.view() == (match read {
            Some(t) => if is_blank(t@) {
                TextualView::Context("vide"@)
            } else {
                TextualView::Store { text: t@, hash: hash@, doc_type: "pdf-ocr"@ }
            },
            None => TextualView::Context("vide"@),
        }),
{
    match read {
        Some(t) => if str_is_blank(t.as_str()) {
            TextualStep::Context("vide")
        } else {
            TextualStep::Store { text: t, hash, doc_type: "pdf-ocr".to_owned() }
        },
        None => TextualStep::Context("vide"),
    }
}

/// A document whose content is the same as before goes no further, whatever it holds.
pub proof fn law_an_unchanged_document_is_skipped(
    content: String,
    hash: String,
    doc_type: Seq<char>,
    vision: bool,
)
    ensures
        textual_spec(Extraction::Done { content, hash }, Some(hash@), doc_type, vision)
            == TextualView::Unchanged,
{
}

// ---------------------------------------------------------------------------
// Files of unknown type
// ---------------------------------------------------------------------------

/// What is done with a file of unknown type.
#[derive(Debug, PartialEq, Eq, Structural)]
pub enum UnknownStep {
    Unchanged,
    /// It is text: all of it is read.
    ReadAll,
    /// It may hold some text: a model is asked.
    AskModel,
    /// It is known by its context alone.
    Context,
}

/// What is left where the file cannot be read as text.
pub open spec fn unknown_fallback(sample: Seq<u8>, reasoning: bool) -> UnknownStep {
    if text_share(sample, 30) && reasoning {
        UnknownStep::AskModel
    } else {
        UnknownStep::Context
    }
}

pub open spec fn unknown_spec(
    sample: Seq<u8>,
    too_big: bool,
    reasoning: bool,
    unchanged: bool,
) -> UnknownStep {
    if unchanged {
        UnknownStep::Unchanged
    } else if !too_big && text_share(sample, 85) {
        UnknownStep::ReadAll
    } else {
        unknown_fallback(sample, reasoning)
    }
}

/// What is done with a file of unknown type, from its first bytes.
pub fn index_unknown(
    sample: &[u8],
    too_big: bool,
    reasoning: bool,
    stored_hash: &Option<String>,
    hash: &str,
) -> (r: UnknownStep)
    ensures
        r == unknown_spec(sample@, too_big, reasoning, opt(*stored_hash) == Some(hash@)),
{
    if is_unchanged(stored_hash, hash) {
        UnknownStep::Unchanged
    } else if !too_big && has_text_share(sample, 85) {
        UnknownStep::ReadAll
    } else {
        unknown_without_text(sample, reasoning)
    }
}

/// What is done with it where it turned out to hold no text.
pub fn unknown_without_text(sample: &[u8], reasoning: bool) -> (r: UnknownStep)
    ensures
        r == unknown_fallback(sample@, reasoning),
{
    if has_text_share(sample, 30) && reasoning {
        UnknownStep::AskModel
    } else {
        UnknownStep::Context
    }
}

// ---------------------------------------------------------------------------
// Images
// ---------------------------------------------------------------------------

/// The formats that vision models take.
pub open spec fn is_vision_format(ext: Seq<char>) -> bool {
    ext == "jpg"@ || ext == "jpeg"@ || ext == "png"@ || ext == "webp"@ || ext == "gif"@ || ext
        == "bmp"@
}

/// Whether an image with that extension in lower case is shown to the vision model.
pub fn is_shown(vision: bool, ext: &str) -> (r: bool)
    ensures
        r == (vision && is_vision_format(ext@)),
{
    vision && (str_eq(ext, "jpg") || str_eq(ext, "jpeg") || str_eq(ext, "png") || str_eq(
        ext,
        "webp",
    ) || str_eq(ext, "gif") || str_eq(ext, "bmp"))
}

/// What follows from an answer.
#[derive(Debug)]
pub enum Outcome {
    Use(String),
    /// The file is known by its context alone.
    Context,
    /// The task fails for now and is tried again.
    Retry(String),
}

pub enum OutcomeView {
    Use(Seq<char>),
    Context,
    Retry(Seq<char>),
}

impl Outcome {
    pub open spec fn view(self) -> OutcomeView {
        match self {
            Outcome::Use(s) => OutcomeView::Use(s@),
            Outcome::Context => OutcomeView::Context,
            Outcome::Retry(e) => OutcomeView::Retry(e@),
        }
    }
}

/// The note of a try that did not succeed.
pub open spec fn retry_note(what: Seq<char>, retry_count: int, reason: Seq<char>) -> Seq<char> {
    what + " (tentative "@ + signed_decimal(retry_count + 1) + "/"@ + signed_decimal(
        MAX_RETRIES as int,
    ) + ") : "@ + reason
}

fn note_retry(what: &str, retry_count: i64, reason: &str) -> (r: String)
    requires
        retry_count < i64::MAX,
    ensures
        r@ == retry_note(what@, retry_count as int, reason@),
{
    let mut s = cat5(
        what,
        " (tentative ",
        signed_text(retry_count + 1).as_str(),
        "/",
        signed_text(MAX_RETRIES).as_str(),
    );
    s.append(") : ");
    s.append(reason);
    s
}

/// What follows from a failure that may pass: another try, and at the last one what is known
/// from the context.
pub open spec fn transient_outcome(what: Seq<char>, retry_count: int, reason: Seq<char>) -> OutcomeView {
    if retry_count + 1 < MAX_RETRIES {
        OutcomeView::Retry(retry_note(what, retry_count, reason))
    } else {
        OutcomeView::Context
    }
}

fn on_transient(what: &str, retry_count: i64, reason: &str) -> (r: Outcome)
    requires
        retry_count < i64::MAX,
    ensures
        r.view() == transient_outcome(what@, retry_count as int, reason@),
{
    if retry_count + 1 < MAX_RETRIES {
        Outcome::Retry(note_retry(what, retry_count, reason))
    } else {
        Outcome::Context
    }
}

/// What follows from the answer of the vision model.
pub fn index_image(answer: Result<String, AiCallError>, retry_count: i64) -> (r: Outcome)
    requires
        retry_count < i64::MAX,
    ensures
        r.view() == (match answer {
            Ok(c) => OutcomeView::Use(c@),
            Err(e) => match e.view() {
                AiCallErrorView::Permanent(_) => OutcomeView::Context,
                AiCallErrorView::Transient(m) => transient_outcome(
                    "vision indisponible"@,
                    retry_count as int,
                    m,
                ),
            },
        }),
{
    match answer {
        Ok(c) => Outcome::Use(c),
        Err(AiCallError::Permanent(_)) => Outcome::Context,
        Err(AiCallError::Transient(e)) => on_transient(
            "vision indisponible",
            retry_count,
            e.as_str(),
        ),
    }
}

/// The MIME type that is sent with an image: what its bytes tell, else that of PNG.
pub fn image_mime(sniffed: &Option<String>) -> (r: String)
    ensures
        r@ == (match sniffed {
            Some(m) => m@,
            None => "image/png"@,
        }),
{
    match sniffed {
        Some(m) => m.clone(),
        None => "image/png".to_owned(),
    }
}

/// What the first bytes of a file tell of its type; nothing where it cannot be read.
pub open spec fn mime_of_head(head: Option<Vec<u8>>) -> Option<Seq<char>> {
    match head {
        Some(h) => mime_of_bytes(head_of(h@)),
        None => None,
    }
}

/// The MIME type that is sent with an image with these first bytes.
pub fn mime_of_image(head: &Option<Vec<u8>>) -> (r: String)
    ensures
        r@ == (match mime_of_head(*head) {
            Some(m) => m,
            None => "image/png"@,
        }),
{
    match head {
        Some(h) => image_mime(&sniff_head(h.as_slice())),
        None => image_mime(&None),
    }
}

/// An image as it is sent, in base64, and the fingerprint of its bytes.
pub fn encode_image(bytes: &[u8]) -> (r: (String, String))
    requires
        b64_len(bytes@.len()) <= isize::MAX,
    ensures
        r.0@ == b64(bytes@),
        r.1@ == hex(sha256(bytes@)),
{
    (base64_text(bytes), fingerprint(bytes))
}

// ---------------------------------------------------------------------------
// Media
// ---------------------------------------------------------------------------

/// The MIME type of a medium: what its bytes tell, else that of any bytes.
pub fn media_mime(sniffed: &Option<String>) -> (r: String)
    ensures
        r@ == (match sniffed {
            Some(m) => m@,
            None => "application/octet-stream"@,
        }),
{
    match sniffed {
        Some(m) => m.clone(),
        None => "application/octet-stream".to_owned(),
    }
}

/// The MIME type of a medium with these first bytes.
pub fn mime_of_media(head: &Option<Vec<u8>>) -> (r: String)
    ensures
        r@ == (match mime_of_head(*head) {
            Some(m) => m,
            None => "application/octet-stream"@,
        }),
{
    match head {
        Some(h) => media_mime(&sniff_head(h.as_slice())),
        None => media_mime(&None),
    }
}

/// Extensions of videos, for files whose bytes tell nothing.
pub open spec fn is_video_ext(e: Seq<char>) -> bool {
    e == "mp4"@ || e == "m4v"@ || e == "mkv"@ || e == "avi"@ || e == "mov"@ || e == "webm"@ || e
        == "wmv"@ || e == "mpeg"@ || e == "mpg"@ || e == "3gp"@ || e == "flv"@ || e == "ogv"@ || e
        == "mts"@ || e == "m2ts"@ || e == "ts"@ || e == "vob"@ || e == "asf"@ || e == "rm"@ || e
        == "rmvb"@ || e == "divx"@ || e == "f4v"@
}

fn video_ext(e: &str) -> (r: bool)
    ensures
        r == is_video_ext(e@),
{
    str_eq(e, "mp4") || str_eq(e, "m4v") || str_eq(e, "mkv") || str_eq(e, "avi") || str_eq(
        e,
        "mov",
    ) || str_eq(e, "webm") || str_eq(e, "wmv") || str_eq(e, "mpeg") || str_eq(e, "mpg") || str_eq(
        e,
        "3gp",
    ) || str_eq(e, "flv") || str_eq(e, "ogv") || str_eq(e, "mts") || str_eq(e, "m2ts") || str_eq(
        e,
        "ts",
    ) || str_eq(e, "vob") || str_eq(e, "asf") || str_eq(e, "rm") || str_eq(e, "rmvb") || str_eq(
        e,
        "divx",
    ) || str_eq(e, "f4v")
}

/// A video, by its MIME type or else by its extension.
pub open spec fn is_video(mime: Seq<char>, ext: Seq<char>) -> bool {
    starts_with(mime, "video/"@) || is_video_ext(ext)
}

pub fn est_video(mime: &str, ext: &str) -> (r: bool)
    ensures
        r == is_video(mime@, ext@),
{
    str_starts_with(mime, "video/") || video_ext(ext)
}

/// A size over a limit in MB; there is no limit where that is 0.
pub open spec fn over_limit(size: int, limit_mb: int) -> bool {
    limit_mb > 0 && size > limit_mb * 1048576
}

pub fn au_dessus_du_plafond(taille: u64, plafond_mo: u64) -> (r: bool)
    ensures
        r == over_limit(taille as int, plafond_mo as int),
{
    plafond_mo > 0 && taille as u128 > plafond_mo as u128 * 1048576
}

/// What is asked about a medium.
#[derive(Debug, PartialEq, Eq, Structural)]
pub struct MediaPlan {
    pub describe: bool,
    pub transcribe: bool,
}

/// What is asked about a medium: what is to be seen in a video, and what is said.
pub fn media_plan(cfg: &AppConfig, video: bool, size: u64) -> (r: MediaPlan)
    ensures
        r.describe == (cfg.video.enabled && video && !over_limit(
            size as int,
            cfg.video.max_file_mb as int,
        )),
        r.transcribe == (cfg.transcription.enabled && !over_limit(
            size as int,
            cfg.transcription.max_file_mb as int,
        )),
{
    MediaPlan {
        describe: cfg.video.enabled && video && !au_dessus_du_plafond(
            size,
            cfg.video.max_file_mb,
        ),
        transcribe: cfg.transcription.enabled && !au_dessus_du_plafond(
            size,
            cfg.transcription.max_file_mb,
        ),
    }
}

pub open spec fn answer_view(a: Option<Result<String, AiCallError>>) -> Option<
    Result<Seq<char>, AiCallErrorView>,
> {
    match a {
        Some(r) => Some(crate::chat::seen_view(r)),
        None => None,
    }
}

/// What an answer contributes to the text.
pub open spec fn piece(label: Seq<char>, a: Option<Result<Seq<char>, AiCallErrorView>>) -> Seq<
    Seq<char>,
> {
    match a {
        Some(Ok(t)) => if is_blank(t) {
            Seq::empty()
        } else {
            seq![label + trim(t)]
        },
        _ => Seq::empty(),
    }
}

/// The failure of an answer that may pass.
pub open spec fn passing(label: Seq<char>, a: Option<Result<Seq<char>, AiCallErrorView>>) -> Option<
    Seq<char>,
> {
    match a {
        Some(Err(AiCallErrorView::Transient(e))) => Some(label + e),
        _ => None,
    }
}

/// What follows from the answers about a medium. What was learned is used, though the other
/// question failed; where nothing was learned, a failure that may pass is a reason to try
/// again.
pub open spec fn media_spec(
    description: Option<Result<Seq<char>, AiCallErrorView>>,
    speech: Option<Result<Seq<char>, AiCallErrorView>>,
    retry_count: int,
) -> OutcomeView {
    let pieces = piece("Description visuelle : "@, description) + piece("Transcription : "@, speech);
    if pieces.len() > 0 {
        OutcomeView::Use(join(pieces, "\n\n"@))
    } else {
        match passing("transcription : "@, speech) {
            Some(e) => transient_outcome("serveur média indisponible"@, retry_count, e),
            None => match passing("description vidéo : "@, description) {
                Some(e) => transient_outcome("serveur média indisponible"@, retry_count, e),
                None => OutcomeView::Context,
            },
        }
    }
}

fn add_piece(
    pieces: &mut Vec<String>,
    reason: &mut Option<String>,
    label: &str,
    label_error: &str,
    answer: Option<Result<String, AiCallError>>,
)
    ensures
        views(final(pieces)@) == views(old(pieces)@) + piece(label@, answer_view(answer)),
        opt(*final(reason)) == (match passing(label_error@, answer_view(answer)) {
            Some(e) => Some(e),
            None => opt(*old(reason)),
        }),
{
    let ghost before = views(pieces@);
    match answer {
        Some(Ok(t)) => {
            if !str_is_blank(t.as_str()) {
                pieces.push(cat2(label, str_trim(t.as_str()).as_str()));
                assert(views(pieces@) =~= before + seq![label@ + trim(t@)]);
            } else {
                assert(before + Seq::<Seq<char>>::empty() =~= before);
            }
        },
        Some(Err(AiCallError::Transient(e))) => {
            *reason = Some(cat2(label_error, e.as_str()));
            assert(before + Seq::<Seq<char>>::empty() =~= before);
        },
        _ => {
            assert(before + Seq::<Seq<char>>::empty() =~= before);
        },
    }
}

/// A model is there that can tell what a medium holds.
pub open spec fn media_wanted(cfg: AppConfig) -> bool {
    cfg.transcription.enabled || cfg.video.enabled
}

pub fn wants_media(cfg: &AppConfig) -> (r: bool)
    ensures
        r == media_wanted(*cfg),
{
    cfg.transcription.enabled || cfg.video.enabled
}

/// What is done with a medium before a model is asked.
#[derive(Debug, PartialEq, Eq, Structural)]
pub enum MediaStep {
    /// It is known by its context alone.
    Context,
    Unchanged,
    Ask,
}

/// What is done with a medium of that fingerprint, `None` where it cannot be read: it is known
/// by its context where no model is there for it, and left as it is where it did not change.
pub fn media_step(cfg: &AppConfig, hash: &Option<String>, stored_hash: &Option<String>) -> (r:
    MediaStep)
    ensures
        r == (if !media_wanted(*cfg) || hash is None {
            MediaStep::Context
        } else if opt(*stored_hash) == opt(*hash) {
            MediaStep::Unchanged
        } else {
            MediaStep::Ask
        }),
{
    if !wants_media(cfg) {
        return MediaStep::Context;
    }
    match hash {
        None => MediaStep::Context,
        Some(h) => if is_unchanged(stored_hash, h.as_str()) {
            MediaStep::Unchanged
        } else {
            MediaStep::Ask
        },
    }
}

/// What follows from the answers about a medium; `None` for what was not asked.
pub fn index_media(
    description: Option<Result<String, AiCallError>>,
    speech: Option<Result<String, AiCallError>>,
    retry_count: i64,
) -> (r: Outcome)
    requires
        retry_count < i64::MAX,
    ensures
        r.view() == media_spec(answer_view(description), answer_view(speech), retry_count as int),
{
    let ghost d = answer_view(description);
    let ghost s = answer_view(speech);
    let mut pieces: Vec<String> = Vec::new();
    let mut reason: Option<String> = None;
    assert(views(pieces@) + piece("Description visuelle : "@, d) =~= piece(
        "Description visuelle : "@,
        d,
    ));
    add_piece(
        &mut pieces,
        &mut reason,
        "Description visuelle : ",
        "description vidéo : ",
        description,
    );
    add_piece(&mut pieces, &mut reason, "Transcription : ", "transcription : ", speech);
    assert(views(pieces@).len() == pieces@.len());
    if pieces.len() > 0 {
        return Outcome::Use(joined(&pieces, "\n\n"));
    }
    match reason {
        Some(e) => on_transient("serveur média indisponible", retry_count, e.as_str()),
        None => Outcome::Context,
    }
}

/// The type under which a medium is stored.
pub fn media_type(video: bool) -> (r: &'static str)
    ensures
        r@ == (if video {
            "video"@
        } else {
            "audio"@
        }),
{
    if video {
        "video"
    } else {
        "audio"
    }
}

/// A failure that may pass never makes a file fail for good: at the last try what is known
/// from its context is stored, and a refusal is not tried again at all.
pub proof fn law_the_last_try_falls_back_to_the_context(
    description: Option<Result<Seq<char>, AiCallErrorView>>,
    speech: Option<Result<Seq<char>, AiCallErrorView>>,
    retry_count: int,
)
    requires
        retry_count + 1 >= MAX_RETRIES,
    ensures
        !(media_spec(description, speech, retry_count) is Retry),
        forall|what: Seq<char>, e: Seq<char>|
            #[trigger] transient_outcome(what, retry_count, e) == OutcomeView::Context,
{
}

/// What one of two questions about a medium taught is kept, whatever became of the other.
pub proof fn law_what_was_learned_is_kept(
    description: Option<Result<Seq<char>, AiCallErrorView>>,
    speech: Option<Result<Seq<char>, AiCallErrorView>>,
    retry_count: int,
)
    requires
        (description matches Some(Ok(t)) && !is_blank(t)) || (speech matches Some(Ok(t))
            && !is_blank(t)),
    ensures
        media_spec(description, speech, retry_count) is Use,
{
}

/// Nothing that was learned of a video is lost: what it shows and what is said in it both stand
/// in the text that is indexed.
pub proof fn law_both_answers_are_kept(
    shown: Seq<char>,
    said: Seq<char>,
    retry_count: int,
)
    requires
        !is_blank(shown),
        !is_blank(said),
    ensures
        media_spec(Some(Ok(shown)), Some(Ok(said)), retry_count) matches OutcomeView::Use(t)
            && crate::reading::holds(t, trim(shown)) && crate::reading::holds(t, trim(said)),
        media_spec(Some(Ok(shown)), None, retry_count) matches OutcomeView::Use(t)
            && crate::reading::holds(t, trim(shown)),
        media_spec(None, Some(Ok(said)), retry_count) matches OutcomeView::Use(t)
            && crate::reading::holds(t, trim(said)),
{
    let none = Seq::<char>::empty();
    let a = "Description visuelle : "@ + trim(shown);
    let b = "Transcription : "@ + trim(said);
    crate::reading::lemma_holds("Description visuelle : "@, trim(shown), none);
    crate::reading::lemma_holds("Transcription : "@, trim(said), none);
    assert("Description visuelle : "@ + trim(shown) + none =~= a);
    assert("Transcription : "@ + trim(said) + none =~= b);
    let both = seq![a] + seq![b];
    crate::reading::lemma_join_holds(both, "\n\n"@, 0);
    crate::reading::lemma_join_holds(both, "\n\n"@, 1);
    crate::reading::lemma_holds_through(join(both, "\n\n"@), a, trim(shown));
    crate::reading::lemma_holds_through(join(both, "\n\n"@), b, trim(said));
    let no_part = Seq::<Seq<char>>::empty();
    assert(seq![a] + no_part =~= seq![a]);
    assert(no_part + seq![b] =~= seq![b]);
}

/// A text that is new is stored: all of it but the white space around it, with its hash.
pub proof fn law_a_new_text_is_stored(
    content: String,
    hash: String,
    stored_hash: Option<Seq<char>>,
    doc_type: Seq<char>,
    vision: bool,
)
    requires
        !is_blank(content@),
        stored_hash != Some(hash@),
    ensures
        textual_spec(Extraction::Done { content, hash }, stored_hash, doc_type, vision)
            matches TextualView::Store { text, hash: h, doc_type: d } && crate::reading::reading(
            text,
        ) == crate::reading::reading(content@) && h == hash@ && d == doc_type,
{
    crate::reading::lemma_reading_trim(content@);
}

/// A server that is busy is asked again as long as tries are left, and never after.
pub proof fn law_a_busy_server_is_asked_again(what: Seq<char>, retry_count: int, reason: Seq<char>)
    ensures
        transient_outcome(what, retry_count, reason) is Retry <==> retry_count + 1 < MAX_RETRIES,
        transient_outcome(what, retry_count, reason) matches OutcomeView::Retry(e)
            ==> crate::reading::holds(e, reason) && crate::reading::holds(e, what),
{
    let note = retry_note(what, retry_count, reason);
    let none = Seq::<char>::empty();
    let mid = " (tentative "@ + signed_decimal(retry_count + 1) + "/"@ + signed_decimal(
        MAX_RETRIES as int,
    ) + ") : "@;
    assert(note =~= (what + mid) + reason + none);
    crate::reading::lemma_holds(what + mid, reason, none);
    assert(note =~= none + what + (mid + reason));
    crate::reading::lemma_holds(none, what, mid + reason);
}

/// Where no limit is set nothing is too big, and a limit is one of whole megabytes.
pub proof fn law_a_limit_is_in_megabytes(size: int, limit_mb: int)
    ensures
        !over_limit(size, 0),
        limit_mb > 0 ==> !over_limit(limit_mb * 1024 * 1024, limit_mb) && over_limit(
            limit_mb * 1024 * 1024 + 1,
            limit_mb,
        ),
{
}

/// A file that nobody knows is read whole where it is text, shown to the model where some of it
/// is and a model is there, and else known by its context; one that has not changed is left alone.
pub proof fn law_an_unknown_file_is_read_as_far_as_it_can_be(sample: Seq<u8>, reasoning: bool)
    requires
        sample.len() > 0,
    ensures
        (forall|i: int| 0 <= i < sample.len() ==> 0x20 <= #[trigger] sample[i] <= 0x7E)
            ==> unknown_spec(sample, false, reasoning, false) == UnknownStep::ReadAll,
        (forall|i: int| 0 <= i < sample.len() ==> #[trigger] sample[i] < 9) ==> unknown_spec(
            sample,
            false,
            reasoning,
            false,
        ) == UnknownStep::Context,
        unknown_spec(sample, false, reasoning, true) == UnknownStep::Unchanged,
        !reasoning ==> unknown_spec(sample, true, reasoning, false) == UnknownStep::Context,
{
    crate::extract::law_text_is_counted_everywhere(Seq::empty(), sample);
}

} // verus!
