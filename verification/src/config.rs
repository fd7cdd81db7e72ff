//! The settings of the application and what follows from changing them.

use vstd::prelude::*;

use vstd::utf8::is_ascii_chars;

use crate::actions::{is_sep, within};
use crate::default_prompts::{
    CHAT_SYSTEM, CONTEXT_GUESS, DOC_QUALIFY, FILE_EXTRACT, FOLDER_CLASSIFY, FOLDER_DESCRIBE,
    REORGANIZE, VIDEO_DESCRIBE, VISION_CAPTION, VISION_OCR,
};
use crate::text::{
    ascii_lower, ascii_lower_all, ascii_upper_all, at, chars_eq, copy_texts,
    eq_ignore_ascii_case, is_blank, lower_case, lowered, same_ignoring_ascii_case, starts_with,
    str_eq, str_is_blank, str_trim_end_of, swap_char, swapped_char, to_chars, to_text,
    trim_end_of, trimmed_end_of, views,
};

verus! {

/// Where embeddings are computed.
#[derive(Debug, Clone, Copy, PartialEq, Eq, Structural)]
pub enum EmbeddingMode {
    /// By the built-in engine.
    Local,
    /// By a server that speaks the OpenAI protocol.
    Openai,
}

impl Default for EmbeddingMode {
    fn default() -> (r: EmbeddingMode)
        ensures
            r == EmbeddingMode::Local,
    {
        EmbeddingMode::Local
    }
}

#[derive(Debug, Clone)]
pub struct EmbeddingConfig {
    pub mode: EmbeddingMode,
    pub model: String,
    pub base_url: String,
    pub api_key: String,
    /// The dimension of the vectors; it belongs to the model.
    pub dimensions: usize,
    pub use_gpu: bool,
}

impl Default for EmbeddingConfig {
    fn default() -> (r: EmbeddingConfig)
        ensures
            r.mode == EmbeddingMode::Local,
            r.model@ == "multilingual-e5-small"@,
            r.base_url@ == "http://localhost:11434/v1"@,
            r.api_key@.len() == 0,
            r.dimensions == 384,
            !r.use_gpu,
    {
        EmbeddingConfig {
            mode: EmbeddingMode::Local,
            model: "multilingual-e5-small".to_owned(),
            base_url: "http://localhost:11434/v1".to_owned(),
            api_key: String::new(),
            dimensions: 384,
            use_gpu: false,
        }
    }
}

/// How much a model may reason before it answers.
#[derive(Debug, Clone, Copy, PartialEq, Eq, Structural)]
pub enum ReasoningEffort {
    /// Nothing is asked for: the server decides.
    Auto,
    Off,
    Low,
    Medium,
    High,
}

impl ReasoningEffort {
    pub open spec fn param(self) -> Option<Seq<char>> {
        match self {
            ReasoningEffort::Auto => None,
            ReasoningEffort::Off => Some("none"@),
            ReasoningEffort::Low => Some("low"@),
            ReasoningEffort::Medium => Some("medium"@),
            ReasoningEffort::High => Some("high"@),
        }
    }

    /// The value of the `reasoning_effort` field of a request, where one is sent.
    pub fn as_param(self) -> (r: Option<&'static str>)
        ensures
            match r {
                Some(s) => self.param() == Some(s@),
                None => self.param() is None,
            },
    {
        match self {
            ReasoningEffort::Auto => None,
            ReasoningEffort::Off => Some("none"),
            ReasoningEffort::Low => Some("low"),
            ReasoningEffort::Medium => Some("medium"),
            ReasoningEffort::High => Some("high"),
        }
    }
}

/// A server for chat, whether for reasoning or for vision.
#[derive(Debug, Clone)]
pub struct ChatConfig {
    pub base_url: String,
    pub model: String,
    pub api_key: String,
    pub enabled: bool,
    pub reasoning_effort: ReasoningEffort,
}

impl ChatConfig {
    pub fn default_reasoning() -> (r: ChatConfig)
        ensures
            r.base_url@ == "http://localhost:11434/v1"@,
            r.model@ == "llama3.1:8b"@,
            r.api_key@.len() == 0,
            r.enabled,
            r.reasoning_effort == ReasoningEffort::Auto,
    {
        ChatConfig {
            base_url: "http://localhost:11434/v1".to_owned(),
            model: "llama3.1:8b".to_owned(),
            api_key: String::new(),
            enabled: true,
            reasoning_effort: ReasoningEffort::Auto,
        }
    }

    /// Vision asks for a multimodal model, which is often absent: it is off by default.
    pub fn default_vision() -> (r: ChatConfig)
        ensures
            r.base_url@ == "http://localhost:11434/v1"@,
            r.model@ == "moondream"@,
            r.api_key@.len() == 0,
            !r.enabled,
            r.reasoning_effort == ReasoningEffort::Auto,
    {
        ChatConfig {
            base_url: "http://localhost:11434/v1".to_owned(),
            model: "moondream".to_owned(),
            api_key: String::new(),
            enabled: false,
            reasoning_effort: ReasoningEffort::Auto,
        }
    }
}

/// A server that transcribes speech.
#[derive(Debug, Clone)]
pub struct TranscriptionConfig {
    pub enabled: bool,
    pub base_url: String,
    pub endpoint_path: String,
    pub model: String,
    pub api_key: String,
    pub language: String,
    pub response_format: String,
    pub extra_fields: String,
    pub timeout_secs: u64,
    /// In megabytes; 0 for no limit.
    pub max_file_mb: u64,
}

impl Default for TranscriptionConfig {
    /// Off, and pointed at the port of the usual speech servers.
    fn default() -> (r: TranscriptionConfig)
        ensures
            !r.enabled,
            r.base_url@ == "http://localhost:8000/v1"@,
            r.endpoint_path@.len() == 0,
            r.model@.len() == 0,
            r.api_key@.len() == 0,
            r.language@.len() == 0,
            r.response_format@.len() == 0,
            r.extra_fields@.len() == 0,
            r.timeout_secs == 600,
            r.max_file_mb == 0,
    {
        TranscriptionConfig {
            enabled: false,
            base_url: "http://localhost:8000/v1".to_owned(),
            endpoint_path: String::new(),
            model: String::new(),
            api_key: String::new(),
            language: String::new(),
            response_format: String::new(),
            extra_fields: String::new(),
            timeout_secs: 600,
            max_file_mb: 0,
        }
    }
}

#[derive(Debug, Clone, Copy, PartialEq, Eq, Structural)]
pub enum VideoDelivery {
    /// The video travels inside the request.
    Base64,
    /// The server reads the file itself.
    FileUri,
}

/// A server that describes videos.
#[derive(Debug, Clone)]
pub struct VideoConfig {
    pub enabled: bool,
    pub base_url: String,
    pub endpoint_path: String,
    pub model: String,
    pub api_key: String,
    pub delivery: VideoDelivery,
    pub timeout_secs: u64,
    /// In megabytes; 0 for no limit.
    pub max_file_mb: u64,
}

impl Default for VideoConfig {
    /// Off, and pointed at the port of the usual video servers.
    fn default() -> (r: VideoConfig)
        ensures
            !r.enabled,
            r.base_url@ == "http://localhost:8000/v1"@,
            r.endpoint_path@.len() == 0,
            r.model@.len() == 0,
            r.api_key@.len() == 0,
            r.delivery == VideoDelivery::Base64,
            r.timeout_secs == 600,
            r.max_file_mb == 0,
    {
        VideoConfig {
            enabled: false,
            base_url: "http://localhost:8000/v1".to_owned(),
            endpoint_path: String::new(),
            model: String::new(),
            api_key: String::new(),
            delivery: VideoDelivery::Base64,
            timeout_secs: 600,
            max_file_mb: 0,
        }
    }
}

#[derive(Debug, Clone, Copy, PartialEq, Eq, Structural)]
pub enum PipelineMode {
    /// One file from end to end, then the next.
    Sequential,
    /// A slice of files through the language models, then through the embedding.
    Batch,
}

#[derive(Debug, Clone)]
pub struct IndexingConfig {
    pub roots: Vec<String>,
    pub chunk_size: usize,
    pub overlap: usize,
    pub batch_size: usize,
    /// A larger file is indexed by its context alone.
    pub max_file_mb: u64,
    pub pipeline_mode: PipelineMode,
    pub batch_files: usize,
    /// The most chunks of one file; 0 for no limit.
    pub max_chunks_per_file: usize,
    pub qualify_documents: bool,
    pub qualify_images: bool,
    pub qualify_media: bool,
    pub qualify_context: bool,
    pub qualify_effort: ReasoningEffort,
}

impl Default for IndexingConfig {
    fn default() -> (r: IndexingConfig)
        ensures
            r.roots@.len() == 0,
            r.chunk_size == 1000,
            r.overlap == 200,
            r.batch_size == 32,
            r.max_file_mb == 50,
            r.pipeline_mode == PipelineMode::Sequential,
            r.batch_files == 50,
            r.max_chunks_per_file == 0,
            r.qualify_documents && r.qualify_images && r.qualify_media && r.qualify_context,
            r.qualify_effort == ReasoningEffort::Off,
    {
        IndexingConfig {
            roots: Vec::new(),
            chunk_size: 1000,
            overlap: 200,
            batch_size: 32,
            max_file_mb: 50,
            pipeline_mode: PipelineMode::Sequential,
            batch_files: 50,
            max_chunks_per_file: 0,
            qualify_documents: true,
            qualify_images: true,
            qualify_media: true,
            qualify_context: true,
            qualify_effort: ReasoningEffort::Off,
        }
    }
}

#[derive(Debug, Clone)]
pub struct RetrievalConfig {
    pub hybrid: bool,
    pub rerank: bool,
    pub reranker_model: String,
}

impl Default for RetrievalConfig {
    fn default() -> (r: RetrievalConfig)
        ensures
            r.hybrid && r.rerank,
            r.reranker_model@ == "bge-reranker-v2-m3"@,
    {
        RetrievalConfig {
            hybrid: true,
            rerank: true,
            reranker_model: "bge-reranker-v2-m3".to_owned(),
        }
    }
}

/// A server of external tools: over HTTP by its URL, or a local command.
#[derive(Debug, Clone)]
pub struct McpServerConfig {
    pub name: String,
    pub url: String,
    pub auth: String,
    pub command: String,
    pub args: Vec<String>,
    pub enabled: bool,
}

/// The prompts that the user wrote. A blank one stands for the built-in prompt.
#[derive(Debug, Clone)]
pub struct PromptsConfig {
    pub folder_classify: String,
    pub folder_describe: String,
    pub file_extract: String,
    pub vision_caption: String,
    pub vision_ocr: String,
    pub chat_system: String,
    pub reorganize: String,
    pub doc_qualify: String,
    pub context_guess: String,
    pub video_describe: String,
}

impl Default for PromptsConfig {
    fn default() -> (r: PromptsConfig)
        ensures
            r.folder_classify@.len() == 0,
            r.folder_describe@.len() == 0,
            r.file_extract@.len() == 0,
            r.vision_caption@.len() == 0,
            r.vision_ocr@.len() == 0,
            r.chat_system@.len() == 0,
            r.reorganize@.len() == 0,
            r.doc_qualify@.len() == 0,
            r.context_guess@.len() == 0,
            r.video_describe@.len() == 0,
    {
        PromptsConfig {
            folder_classify: String::new(),
            folder_describe: String::new(),
            file_extract: String::new(),
            vision_caption: String::new(),
            vision_ocr: String::new(),
            chat_system: String::new(),
            reorganize: String::new(),
            doc_qualify: String::new(),
            context_guess: String::new(),
            video_describe: String::new(),
        }
    }
}

impl PromptsConfig {
    /// The built-in prompts.
    pub fn defaults() -> (r: PromptsConfig)
        ensures
            r.folder_classify@ == FOLDER_CLASSIFY@,
            r.folder_describe@ == FOLDER_DESCRIBE@,
            r.file_extract@ == FILE_EXTRACT@,
            r.vision_caption@ == VISION_CAPTION@,
            r.vision_ocr@ == VISION_OCR@,
            r.chat_system@ == CHAT_SYSTEM@,
            r.reorganize@ == REORGANIZE@,
            r.doc_qualify@ == DOC_QUALIFY@,
            r.context_guess@ == CONTEXT_GUESS@,
            r.video_describe@ == VIDEO_DESCRIBE@,
    {
        PromptsConfig {
            folder_classify: FOLDER_CLASSIFY.to_owned(),
            folder_describe: FOLDER_DESCRIBE.to_owned(),
            file_extract: FILE_EXTRACT.to_owned(),
            vision_caption: VISION_CAPTION.to_owned(),
            vision_ocr: VISION_OCR.to_owned(),
            chat_system: CHAT_SYSTEM.to_owned(),
            reorganize: REORGANIZE.to_owned(),
            doc_qualify: DOC_QUALIFY.to_owned(),
            context_guess: CONTEXT_GUESS.to_owned(),
            video_describe: VIDEO_DESCRIBE.to_owned(),
        }
    }
}

/// The override unless it is blank.
pub fn prompt_or<'a>(override_: &'a str, fallback: &'a str) -> (r: &'a str)
    ensures
        r@ == (if is_blank(override_@) {
            fallback@
        } else {
            override_@
        }),
{
    if str_is_blank(override_) {
        fallback
    } else {
        override_
    }
}

#[derive(Debug, Clone)]
pub struct AppConfig {
    pub embedding: EmbeddingConfig,
    pub reasoning: ChatConfig,
    pub vision: ChatConfig,
    pub transcription: TranscriptionConfig,
    pub video: VideoConfig,
    pub indexing: IndexingConfig,
    pub retrieval: RetrievalConfig,
    pub prompts: PromptsConfig,
    pub mcp_servers: Vec<McpServerConfig>,
}

impl Default for AppConfig {
    /// Each part by its own default.
    fn default() -> (r: AppConfig)
        ensures
            call_ensures(EmbeddingConfig::default, (), r.embedding),
            call_ensures(ChatConfig::default_reasoning, (), r.reasoning),
            call_ensures(ChatConfig::default_vision, (), r.vision),
            call_ensures(TranscriptionConfig::default, (), r.transcription),
            call_ensures(VideoConfig::default, (), r.video),
            call_ensures(IndexingConfig::default, (), r.indexing),
            call_ensures(RetrievalConfig::default, (), r.retrieval),
            call_ensures(PromptsConfig::default, (), r.prompts),
            r.mcp_servers@.len() == 0,
    {
        AppConfig {
            embedding: EmbeddingConfig::default(),
            reasoning: ChatConfig::default_reasoning(),
            vision: ChatConfig::default_vision(),
            transcription: TranscriptionConfig::default(),
            video: VideoConfig::default(),
            indexing: IndexingConfig::default(),
            retrieval: RetrievalConfig::default(),
            prompts: PromptsConfig::default(),
            mcp_servers: Vec::new(),
        }
    }
}

// ---------------------------------------------------------------------------
// Roots
// ---------------------------------------------------------------------------

/// A path for comparison with the roots: backslashes, none at the end, letter case dropped.
pub open spec fn root_form(p: Seq<char>) -> Seq<char> {
    lower_case(trim_end_of(swap_char(p, '/', '\\'), '\\', '\\'))
}

/// A path is a root or lies under one.
pub open spec fn under_root(roots: Seq<Seq<char>>, path: Seq<char>) -> bool {
    exists|i: int|
        0 <= i < roots.len() && within(root_form(path), root_form(#[trigger] roots[i]))
}

fn to_root_form(p: &str) -> (r: Vec<char>)
    ensures
        r@ == root_form(p@),
{
    let c = to_chars(p);
    let back = swapped_char(c.as_slice(), '/', '\\');
    to_chars(lowered(to_text(trimmed_end_of(back.as_slice(), '\\', '\\')).as_str()).as_str())
}

pub fn path_under_root(roots: &Vec<String>, path: &str) -> (r: bool)
    ensures
        r == under_root(views(roots@), path@),
{
    let np = to_root_form(path);
    let mut i: usize = 0;
    while i < roots.len()
        invariant
            i <= roots.len(),
            np@ == root_form(path@),
            forall|k: int|
                0 <= k < i ==> !within(root_form(path@), root_form(#[trigger] views(roots@)[k])),
        decreases roots.len() - i,
    {
        let mut nr = to_root_form(roots[i].as_str());
        assert(nr@ == root_form(views(roots@)[i as int]));
        if nr.len() > 0 {
            let same = chars_eq(np.as_slice(), nr.as_slice());
            nr.push('\\');
            if same || at(np.as_slice(), nr.as_slice(), 0) {
                return true;
            }
        }
        i = i + 1;
    }
    false
}

/// A path without the separators at its end.
pub open spec fn bare(p: Seq<char>) -> Seq<char> {
    trim_end_of(p, '/', '\\')
}

/// The two paths name the same root.
pub open spec fn same_root(a: Seq<char>, b: Seq<char>) -> bool {
    same_ignoring_ascii_case(bare(a), bare(b))
}

pub open spec fn is_root(roots: Seq<Seq<char>>, path: Seq<char>) -> bool {
    exists|i: int| 0 <= i < roots.len() && same_root(#[trigger] roots[i], path)
}

fn roots_match(a: &str, b: &str) -> (r: bool)
    ensures
        r == same_root(a@, b@),
{
    eq_ignore_ascii_case(
        str_trim_end_of(a, '/', '\\').as_str(),
        str_trim_end_of(b, '/', '\\').as_str(),
    )
}

fn has_root(roots: &Vec<String>, path: &str) -> (r: bool)
    ensures
        r == is_root(views(roots@), path@),
{
    let mut i: usize = 0;
    while i < roots.len()
        invariant
            i <= roots.len(),
            forall|k: int| 0 <= k < i ==> !same_root(#[trigger] views(roots@)[k], path@),
        decreases roots.len() - i,
    {
        if roots_match(roots[i].as_str(), path) {
            assert(same_root(views(roots@)[i as int], path@));
            return true;
        }
        i = i + 1;
    }
    false
}

/// The roots among `roots` that are not among `known`.
pub open spec fn roots_not_in(roots: Seq<Seq<char>>, known: Seq<Seq<char>>) -> Seq<Seq<char>>
    decreases roots.len(),
{
    if roots.len() == 0 {
        Seq::empty()
    } else if is_root(known, roots.last()) {
        roots_not_in(roots.drop_last(), known)
    } else {
        roots_not_in(roots.drop_last(), known).push(roots.last())
    }
}

fn new_roots(roots: &Vec<String>, known: &Vec<String>) -> (r: Vec<String>)
    ensures
        views(r@) == roots_not_in(views(roots@), views(known@)),
{
    let ghost all = views(roots@);
    let mut out: Vec<String> = Vec::new();
    let mut i: usize = 0;
    assert(views(out@) =~= roots_not_in(all.take(0), views(known@)));
    while i < roots.len()
        invariant
            i <= roots.len(),
            all == views(roots@),
            views(out@) == roots_not_in(all.take(i as int), views(known@)),
        decreases roots.len() - i,
    {
        assert(all.take(i + 1).drop_last() =~= all.take(i as int));
        assert(all.take(i + 1).last() == roots@[i as int]@);
        if !has_root(known, roots[i].as_str()) {
            let ghost before = views(out@);
            out.push(roots[i].clone());
            assert(views(out@) =~= before.push(roots@[i as int]@));
        }
        i = i + 1;
    }
    assert(all.take(i as int) =~= all);
    out
}

/// What is to be done after the settings were changed.
#[derive(Debug)]
pub struct SettingsChange {
    /// The vectors are no longer comparable: the whole index is built anew.
    pub reindex: bool,
    pub dims_changed: bool,
    /// The directories are classified anew.
    pub reclassify: bool,
    /// The scans that are going on work on what is gone: they stop.
    pub stop_scans: bool,
    /// The roots to scan.
    pub to_scan: Vec<String>,
}

/// The embedding model or its dimension is another one.
pub open spec fn embedding_changed(old: EmbeddingConfig, new: EmbeddingConfig) -> bool {
    old.model@ != new.model@ || old.dimensions != new.dimensions
}

/// Compares two settings. `bias_changed` says whether the leaning of the classification
/// towards blocks was changed.
pub fn settings_change(old: &AppConfig, new: &AppConfig, bias_changed: bool) -> (r: SettingsChange)
    ensures
        r.reindex == embedding_changed(old.embedding, new.embedding),
        r.dims_changed == (old.embedding.dimensions != new.embedding.dimensions),
        r.reclassify == (bias_changed || old.prompts.folder_classify@
            != new.prompts.folder_classify@),
        r.stop_scans == (r.reindex || r.reclassify),
        views(r.to_scan@) == (if r.reindex || r.reclassify {
            views(new.indexing.roots@)
        } else {
            roots_not_in(views(new.indexing.roots@), views(old.indexing.roots@))
        }),
{
    let dims_changed = old.embedding.dimensions != new.embedding.dimensions;
    let reindex = !str_eq(old.embedding.model.as_str(), new.embedding.model.as_str())
        || dims_changed;
    let reclassify = bias_changed || !str_eq(
        old.prompts.folder_classify.as_str(),
        new.prompts.folder_classify.as_str(),
    );
    let to_scan = if reindex || reclassify {
        copy_texts(&new.indexing.roots)
    } else {
        new_roots(&new.indexing.roots, &old.indexing.roots)
    };
    SettingsChange {
        reindex,
        dims_changed,
        reclassify,
        stop_scans: reindex || reclassify,
        to_scan,
    }
}

/// How the list of roots changes when a directory is added to it.
#[derive(Debug)]
pub struct RootAdded {
    pub roots: Vec<String>,
    /// The root to scan and watch, unless it was a root already.
    pub added: Option<String>,
}

/// Adds a directory to the roots. `is_dir` says whether the path, without the separators at
/// its end, is a directory.
pub fn add_indexed_folder(roots: Vec<String>, path: &str, is_dir: bool) -> (r: Result<
    RootAdded,
    String,
>)
    ensures
        ({
            let norm = bare(path@);
            if norm.len() == 0 {
                r matches Err(e) && e@ == "chemin vide"@
            } else if !is_dir {
                r matches Err(e) && e@ == "le dossier est introuvable"@
            } else if is_root(views(roots@), norm) {
                r matches Ok(a) && views(a.roots@) == views(roots@) && a.added is None
            } else {
                r matches Ok(a) && views(a.roots@) == views(roots@).push(norm)
                    && crate::text::opt(a.added) == Some(norm)
            }
        }),
{
    let norm = str_trim_end_of(path, '/', '\\');
    if norm.as_str().is_empty() {
        return Err("chemin vide".to_owned());
    }
    if !is_dir {
        return Err("le dossier est introuvable".to_owned());
    }
    if has_root(&roots, norm.as_str()) {
        return Ok(RootAdded { roots, added: None });
    }
    let mut all = roots;
    let ghost before = views(all@);
    all.push(norm.clone());
    assert(views(all@) =~= before.push(norm@));
    Ok(RootAdded { roots: all, added: Some(norm) })
}

/// The roots that do not name `path`.
pub open spec fn without_root(roots: Seq<Seq<char>>, path: Seq<char>) -> Seq<Seq<char>>
    decreases roots.len(),
{
    if roots.len() == 0 {
        Seq::empty()
    } else if same_root(roots.last(), path) {
        without_root(roots.drop_last(), path)
    } else {
        without_root(roots.drop_last(), path).push(roots.last())
    }
}

/// The roots that lie under `path`.
pub open spec fn roots_under(roots: Seq<Seq<char>>, path: Seq<char>) -> Seq<Seq<char>>
    decreases roots.len(),
{
    if roots.len() == 0 {
        Seq::empty()
    } else if within(root_form(bare(roots.last())), root_form(path)) {
        roots_under(roots.drop_last(), path).push(roots.last())
    } else {
        roots_under(roots.drop_last(), path)
    }
}

/// How the list of roots changes when one is taken out.
#[derive(Debug)]
pub struct RootRemoved {
    pub remaining: Vec<String>,
    /// The directory whose data is to be purged: the one taken out, unless another root
    /// still covers it.
    pub purge: Option<String>,
    /// The roots below it, which are scanned again.
    pub rescan: Vec<String>,
}

fn keep_others(roots: &Vec<String>, path: &str) -> (r: Vec<String>)
    ensures
        views(r@) == without_root(views(roots@), path@),
        r@.len() <= roots@.len(),
{
    let ghost all = views(roots@);
    let mut out: Vec<String> = Vec::new();
    let mut i: usize = 0;
    assert(views(out@) =~= without_root(all.take(0), path@));
    while i < roots.len()
        invariant
            i <= roots.len(),
            out@.len() <= i,
            all == views(roots@),
            views(out@) == without_root(all.take(i as int), path@),
        decreases roots.len() - i,
    {
        assert(all.take(i + 1).drop_last() =~= all.take(i as int));
        assert(all.take(i + 1).last() == roots@[i as int]@);
        if !roots_match(roots[i].as_str(), path) {
            let ghost before = views(out@);
            out.push(roots[i].clone());
            assert(views(out@) =~= before.push(roots@[i as int]@));
        }
        i = i + 1;
    }
    assert(all.take(i as int) =~= all);
    out
}

fn keep_below(roots: &Vec<String>, path: &str) -> (r: Vec<String>)
    ensures
        views(r@) == roots_under(views(roots@), path@),
{
    let ghost all = views(roots@);
    let mut one: Vec<String> = Vec::new();
    one.push(path.to_owned());
    let ghost only = views(one@);
    assert(only =~= seq![path@]);
    let mut out: Vec<String> = Vec::new();
    let mut i: usize = 0;
    assert(views(out@) =~= roots_under(all.take(0), path@));
    while i < roots.len()
        invariant
            i <= roots.len(),
            all == views(roots@),
            only == views(one@),
            only == seq![path@],
            views(out@) == roots_under(all.take(i as int), path@),
        decreases roots.len() - i,
    {
        assert(all.take(i + 1).drop_last() =~= all.take(i as int));
        assert(all.take(i + 1).last() == roots@[i as int]@);
        let inside = path_under_root(&one, str_trim_end_of(roots[i].as_str(), '/', '\\').as_str());
        assert(inside == within(root_form(bare(roots@[i as int]@)), root_form(path@))) by {
            if within(root_form(bare(roots@[i as int]@)), root_form(path@)) {
                assert(within(root_form(bare(roots@[i as int]@)), root_form(only[0])));
            }
        }
        if inside {
            let ghost before = views(out@);
            out.push(roots[i].clone());
            assert(views(out@) =~= before.push(roots@[i as int]@));
        }
        i = i + 1;
    }
    assert(all.take(i as int) =~= all);
    out
}

/// Takes a directory out of the roots. What lies under it is purged unless another root
/// covers it; roots of its own below it stay and are scanned again.
pub fn remove_indexed_folder(roots: &Vec<String>, path: &str) -> (r: RootRemoved)
    ensures
        ({
            let norm = bare(path@);
            let remaining = without_root(views(roots@), norm);
            &&& views(r.remaining@) == remaining
            &&& if remaining.len() == roots@.len() || under_root(remaining, norm) {
                r.purge is None && r.rescan@.len() == 0
            } else {
                crate::text::opt(r.purge) == Some(norm) && views(r.rescan@) == roots_under(
                    remaining,
                    norm,
                )
            }
        }),
{
    let norm = str_trim_end_of(path, '/', '\\');
    let remaining = keep_others(roots, norm.as_str());
    let ghost rem = views(remaining@);
    assert(rem.len() == remaining@.len());
    if remaining.len() == roots.len() || path_under_root(&remaining, norm.as_str()) {
        return RootRemoved { remaining, purge: None, rescan: Vec::new() };
    }
    let rescan = keep_below(&remaining, norm.as_str());
    RootRemoved { remaining, purge: Some(norm), rescan }
}

// ---------------------------------------------------------------------------
// Laws
// ---------------------------------------------------------------------------

proof fn lemma_trimmed_end(s: Seq<char>)
    ensures
        trim_end_of(s, '\\', '\\').len() <= s.len(),
        s.take(trim_end_of(s, '\\', '\\').len() as int) == trim_end_of(s, '\\', '\\'),
        forall|k: int|
            trim_end_of(s, '\\', '\\').len() <= k < s.len() ==> #[trigger] s[k] == '\\',
        trim_end_of(s, '\\', '\\').len() > 0 ==> trim_end_of(s, '\\', '\\').last() != '\\',
    decreases s.len(),
{
    let t = trim_end_of(s, '\\', '\\');
    if s.len() > 0 && s.last() == '\\' {
        let rest = s.drop_last();
        lemma_trimmed_end(rest);
        assert(s.take(t.len() as int) =~= rest.take(t.len() as int));
        assert forall|k: int| t.len() <= k < s.len() implies #[trigger] s[k] == '\\' by {
            if k < s.len() - 1 {
                assert(rest[k] == s[k]);
            }
        }
    } else {
        assert(s.take(s.len() as int) =~= s);
    }
}

/// What is left of two texts of which one has the separators of the other behind it.
proof fn lemma_trimmed_same(a: Seq<char>, b: Seq<char>)
    requires
        a.len() <= b.len(),
        b.take(a.len() as int) == a,
        forall|k: int| a.len() <= k < b.len() ==> #[trigger] b[k] == '\\',
    ensures
        trim_end_of(a, '\\', '\\') == trim_end_of(b, '\\', '\\'),
    decreases b.len() - a.len(),
{
    if a.len() < b.len() {
        assert(b.last() == b[b.len() - 1]);
        assert(b.drop_last().take(a.len() as int) =~= a);
        lemma_trimmed_same(a, b.drop_last());
    } else {
        assert(b.take(a.len() as int) =~= b);
    }
}

/// The letter case of a path of ASCII characters, the kind of its separators and a separator
/// at its end make no difference to whether it lies under a root. Without roots none does.
pub proof fn law_spelling_makes_no_difference(roots: Seq<Seq<char>>, p: Seq<char>)
    ensures
        is_ascii_chars(p) ==> under_root(roots, ascii_upper_all(p)) == under_root(roots, p),
        under_root(roots, swap_char(p, '\\', '/')) == under_root(roots, p),
        under_root(roots, p.push('/')) == under_root(roots, p),
        under_root(roots, p.push('\\')) == under_root(roots, p),
        !under_root(Seq::empty(), p),
{
    let back = swap_char(p, '/', '\\');
    let t = trim_end_of(back, '\\', '\\');
    assert(swap_char(swap_char(p, '\\', '/'), '/', '\\') =~= back);
    let slashed = swap_char(p.push('/'), '/', '\\');
    assert(slashed.take(back.len() as int) =~= back);
    lemma_trimmed_same(back, slashed);
    let backed = swap_char(p.push('\\'), '/', '\\');
    assert(backed.take(back.len() as int) =~= back);
    lemma_trimmed_same(back, backed);
    if is_ascii_chars(p) {
        let up = swap_char(ascii_upper_all(p), '/', '\\');
        let u = trim_end_of(up, '\\', '\\');
        lemma_trimmed_end(back);
        lemma_trimmed_end(up);
        assert(up.len() == back.len());
        assert forall|k: int| 0 <= k < p.len() implies (#[trigger] up[k] == '\\') == (back[k]
            == '\\') && ascii_lower(up[k]) == ascii_lower(back[k]) && '\0' <= back[k] <= '\u{7f}'
            && '\0' <= up[k] <= '\u{7f}' by {
            assert('\0' <= p[k] <= '\u{7f}');
        }
        if u.len() < t.len() {
            assert(up[t.len() - 1] == '\\');
            assert(t.last() == back[t.len() - 1]);
        }
        if t.len() < u.len() {
            assert(back[u.len() - 1] == '\\');
            assert(u.last() == up[u.len() - 1]);
        }
        assert forall|k: int| 0 <= k < t.len() implies t[k] == back[k] && #[trigger] u[k] == up[k] by {
            assert(back.take(t.len() as int)[k] == back[k]);
            assert(up.take(u.len() as int)[k] == up[k]);
        }
        assert(is_ascii_chars(t)) by {
            assert forall|k: int| 0 <= k < t.len() implies '\0' <= #[trigger] t[k] <= '\u{7f}' by {
                assert(u[k] == up[k]);
                assert(t[k] == back[k]);
            }
        }
        assert(is_ascii_chars(u)) by {
            assert forall|k: int| 0 <= k < u.len() implies '\0' <= #[trigger] u[k] <= '\u{7f}' by {
                assert(u[k] == up[k]);
            }
        }
        assert(ascii_lower_all(t) =~= ascii_lower_all(u)) by {
            assert forall|k: int| 0 <= k < t.len() implies ascii_lower(t[k]) == ascii_lower(
                #[trigger] u[k],
            ) by {
                assert(ascii_lower(up[k]) == ascii_lower(back[k]));
            }
        }
    }
}

/// A root holds itself and what stands behind it and a separator; what goes on with any other
/// character only starts like it. `root` is of ASCII characters and ends in no separator.
pub proof fn law_a_root_holds_what_lies_below(
    roots: Seq<Seq<char>>,
    i: int,
    c: char,
    rest: Seq<char>,
)
    requires
        0 <= i < roots.len(),
        roots[i].len() > 0,
        !is_sep(roots[i].last()),
        is_ascii_chars(roots[i].push(c) + rest),
    ensures
        under_root(roots, roots[i]),
        is_sep(c) ==> under_root(roots, roots[i].push(c) + rest),
        !is_sep(c) ==> !under_root(seq![roots[i]], roots[i].push(c) + rest),
{
    let root = roots[i];
    let p = root.push(c) + rest;
    let rb = swap_char(root, '/', '\\');
    let pb = swap_char(p, '/', '\\');
    let t = trim_end_of(pb, '\\', '\\');
    let n = root.len() as int;
    assert(trim_end_of(rb, '\\', '\\') == rb);
    lemma_trimmed_end(pb);
    assert forall|k: int| 0 <= k < n implies #[trigger] rb[k] == pb[k] && '\0' <= rb[k]
        <= '\u{7f}' by {
        assert('\0' <= p[k] <= '\u{7f}');
        assert(p[k] == root[k]);
    }
    assert(is_ascii_chars(rb));
    assert forall|k: int| 0 <= k < t.len() implies #[trigger] t[k] == pb[k] && '\0' <= t[k]
        <= '\u{7f}' by {
        assert(pb.take(t.len() as int)[k] == pb[k]);
        assert('\0' <= p[k] <= '\u{7f}');
    }
    assert(is_ascii_chars(t));
    assert(p[n] == c);
    if t.len() < n {
        assert(pb[n - 1] == '\\');
        assert(rb[n - 1] == pb[n - 1]);
    }
    let rf = root_form(root);
    let pf = root_form(p);
    assert(rf == ascii_lower_all(rb) && pf == ascii_lower_all(t));
    assert forall|k: int| 0 <= k < n implies #[trigger] pf[k] == rf[k] by {
        assert(t[k] == pb[k]);
        assert(rb[k] == pb[k]);
    }
    assert(within(rf, rf));
    if is_sep(c) {
        if t.len() == n {
            assert(pf =~= rf);
        } else {
            assert(t[n] == pb[n]);
            assert(pf[n] == '\\');
            assert(pf.subrange(0, n + 1) =~= rf.push('\\'));
            assert(starts_with(pf, rf.push('\\')));
        }
        assert(within(pf, rf));
    } else {
        if t.len() <= n {
            assert(pb[n] == '\\');
        }
        assert(t[n] == pb[n]);
        assert(pf[n] != '\\');
        if starts_with(pf, rf.push('\\')) {
            assert(pf.subrange(0, n + 1)[n] == rf.push('\\')[n]);
        }
        assert(!within(pf, rf));
        assert(seq![root][0] == root);
    }
}

/// A change of anything but the embedding model and its dimension builds no index anew.
pub proof fn law_only_the_embedding_asks_for_a_new_index(old: EmbeddingConfig, new: EmbeddingConfig)
    ensures
        !embedding_changed(old, new) <==> old.model@ == new.model@ && old.dimensions
            == new.dimensions,
{
}

proof fn lemma_roots_not_in(roots: Seq<Seq<char>>, known: Seq<Seq<char>>, i: int)
    requires
        0 <= i < roots_not_in(roots, known).len(),
    ensures
        !is_root(known, roots_not_in(roots, known)[i]),
    decreases roots.len(),
{
    if roots.len() > 0 {
        if i < roots_not_in(roots.drop_last(), known).len() {
            lemma_roots_not_in(roots.drop_last(), known, i);
        }
    }
}

/// Saving the settings scans no root that was one before, unless the index or the
/// classification is built anew.
pub proof fn law_known_roots_are_not_scanned_again(roots: Seq<Seq<char>>, known: Seq<Seq<char>>, i: int)
    requires
        0 <= i < roots_not_in(roots, known).len(),
    ensures
        !is_root(known, roots_not_in(roots, known)[i]),
{
    lemma_roots_not_in(roots, known, i);
}

/// A root that was taken out is a root no more.
pub proof fn law_a_removed_root_is_gone(roots: Seq<Seq<char>>, path: Seq<char>)
    ensures
        !is_root(without_root(roots, path), path),
    decreases roots.len(),
{
    if roots.len() > 0 {
        let rest = without_root(roots.drop_last(), path);
        law_a_removed_root_is_gone(roots.drop_last(), path);
        let all = without_root(roots, path);
        assert forall|i: int| 0 <= i < all.len() implies !same_root(#[trigger] all[i], path) by {
            if i < rest.len() {
                assert(all[i] == rest[i]);
            }
        }
    }
}

/// Taking out the root that was just added gives the other roots back.
pub proof fn law_removing_undoes_adding(roots: Seq<Seq<char>>, path: Seq<char>)
    requires
        !is_root(roots, path),
    ensures
        without_root(roots.push(path), path) == roots,
    decreases roots.len(),
{
    assert(roots.push(path).drop_last() =~= roots);
    lemma_without_absent(roots, path);
}

proof fn lemma_without_absent(roots: Seq<Seq<char>>, path: Seq<char>)
    requires
        !is_root(roots, path),
    ensures
        without_root(roots, path) == roots,
    decreases roots.len(),
{
    if roots.len() > 0 {
        let rest = roots.drop_last();
        assert forall|i: int| 0 <= i < rest.len() implies !same_root(#[trigger] rest[i], path) by {
            assert(rest[i] == roots[i]);
        }
        lemma_without_absent(rest, path);
        assert(!same_root(roots[roots.len() - 1], path));
        assert(rest.push(roots.last()) =~= roots);
    } else {
        assert(roots =~= Seq::<Seq<char>>::empty());
    }
}

/// The folders that are scanned again are all those that lie below the one that is gone, and no
/// other.
pub proof fn law_what_lies_below_is_scanned_again(roots: Seq<Seq<char>>, path: Seq<char>)
    ensures
        roots_under(roots, path) == roots.filter(
            |r: Seq<char>| within(root_form(bare(r)), root_form(path)),
        ),
    decreases roots.len(),
{
    reveal(Seq::filter);
    let f = |r: Seq<char>| within(root_form(bare(r)), root_form(path));
    if roots.len() > 0 {
        law_what_lies_below_is_scanned_again(roots.drop_last(), path);
    } else {
        assert(roots_under(roots, path) =~= roots.filter(f));
    }
}

} // verus!
