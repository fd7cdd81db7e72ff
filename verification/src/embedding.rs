//! Models that turn a text into a vector, and models that rank passages: which there are, and
//! what they are sent.

use vstd::prelude::*;

use crate::config::{EmbeddingConfig, EmbeddingMode};
use crate::json::{
    list_view, rec1, rec2, rec3, record1, record2, record3, text_json, txt, Json, JsonView,
};
use crate::text::{
    to_chars,
    byte_len, cat2, decimal, decimal_text, ends_with, lower_case, opt, replace_all, str_ends_with,
    str_eq, str_is_empty, str_replaced, str_trim_end_of, str_trim_end_pat, lowered, trim_end_of,
    trim_end_pat, views,
};

verus! {

// ---------------------------------------------------------------------------
// Local models
// ---------------------------------------------------------------------------

/// The models that run in the process.
#[derive(Debug, Clone, Copy, PartialEq, Eq, Structural)]
pub enum LocalModel {
    MultilingualE5Small,
    MultilingualE5Base,
    MultilingualE5Large,
    BGESmallENV15,
    BGEBaseENV15,
    BGELargeENV15,
    AllMiniLML6V2,
    NomicEmbedTextV15,
    MxbaiEmbedLargeV1,
    GTEBaseENV15,
    GTELargeENV15,
    ModernBertEmbedLarge,
}

/// A local model, the length of its vectors, and whether it wants the prefixes of E5.
#[derive(Debug, Clone, Copy, PartialEq, Eq, Structural)]
pub struct LocalChoice {
    pub model: LocalModel,
    pub dimensions: usize,
    pub needs_e5_prefix: bool,
}

pub open spec fn choice(model: LocalModel, dimensions: usize, needs_e5_prefix: bool) -> LocalChoice {
    LocalChoice { model, dimensions, needs_e5_prefix }
}

/// The model of a name in lower case. A name that is not known stands for the smallest
/// multilingual model.
pub open spec fn local_choice(name: Seq<char>) -> LocalChoice {
    if name == "multilingual-e5-small"@ {
        choice(LocalModel::MultilingualE5Small, 384, true)
    } else if name == "multilingual-e5-base"@ {
        choice(LocalModel::MultilingualE5Base, 768, true)
    } else if name == "multilingual-e5-large"@ {
        choice(LocalModel::MultilingualE5Large, 1024, true)
    } else if name == "bge-small-en-v1.5"@ || name == "bge-small"@ {
        choice(LocalModel::BGESmallENV15, 384, false)
    } else if name == "bge-base-en-v1.5"@ || name == "bge-base"@ {
        choice(LocalModel::BGEBaseENV15, 768, false)
    } else if name == "bge-large-en-v1.5"@ || name == "bge-large"@ {
        choice(LocalModel::BGELargeENV15, 1024, false)
    } else if name == "all-minilm-l6-v2"@ || name == "all-minilm"@ {
        choice(LocalModel::AllMiniLML6V2, 384, false)
    } else if name == "nomic-embed-text"@ || name == "nomic-embed-text-v1.5"@ {
        choice(LocalModel::NomicEmbedTextV15, 768, false)
    } else if name == "mxbai-embed-large"@ || name == "mxbai-embed-large-v1"@ {
        choice(LocalModel::MxbaiEmbedLargeV1, 1024, false)
    } else if name == "gte-base-en-v1.5"@ || name == "gte-base"@ {
        choice(LocalModel::GTEBaseENV15, 768, false)
    } else if name == "gte-large-en-v1.5"@ || name == "gte-large"@ {
        choice(LocalModel::GTELargeENV15, 1024, false)
    } else if name == "modernbert-embed-large"@ || name == "modernbert-large"@ {
        choice(LocalModel::ModernBertEmbedLarge, 1024, false)
    } else {
        choice(LocalModel::MultilingualE5Small, 384, true)
    }
}

/// The model of a name in lower case.
pub fn local_model_of(name: &str) -> (r: LocalChoice)
    ensures
        r == local_choice(name@),
{
    let (model, dimensions, needs_e5_prefix) = if str_eq(name, "multilingual-e5-small") {
        (LocalModel::MultilingualE5Small, 384usize, true)
    } else if str_eq(name, "multilingual-e5-base") {
        (LocalModel::MultilingualE5Base, 768usize, true)
    } else if str_eq(name, "multilingual-e5-large") {
        (LocalModel::MultilingualE5Large, 1024usize, true)
    } else if str_eq(name, "bge-small-en-v1.5") || str_eq(name, "bge-small") {
        (LocalModel::BGESmallENV15, 384usize, false)
    } else if str_eq(name, "bge-base-en-v1.5") || str_eq(name, "bge-base") {
        (LocalModel::BGEBaseENV15, 768usize, false)
    } else if str_eq(name, "bge-large-en-v1.5") || str_eq(name, "bge-large") {
        (LocalModel::BGELargeENV15, 1024usize, false)
    } else if str_eq(name, "all-minilm-l6-v2") || str_eq(name, "all-minilm") {
        (LocalModel::AllMiniLML6V2, 384usize, false)
    } else if str_eq(name, "nomic-embed-text") || str_eq(name, "nomic-embed-text-v1.5") {
        (LocalModel::NomicEmbedTextV15, 768usize, false)
    } else if str_eq(name, "mxbai-embed-large") || str_eq(name, "mxbai-embed-large-v1") {
        (LocalModel::MxbaiEmbedLargeV1, 1024usize, false)
    } else if str_eq(name, "gte-base-en-v1.5") || str_eq(name, "gte-base") {
        (LocalModel::GTEBaseENV15, 768usize, false)
    } else if str_eq(name, "gte-large-en-v1.5") || str_eq(name, "gte-large") {
        (LocalModel::GTELargeENV15, 1024usize, false)
    } else if str_eq(name, "modernbert-embed-large") || str_eq(name, "modernbert-large") {
        (LocalModel::ModernBertEmbedLarge, 1024usize, false)
    } else {
        (LocalModel::MultilingualE5Small, 384usize, true)
    };
    LocalChoice { model, dimensions, needs_e5_prefix }
}

/// The model of a name, whatever its letter case.
pub fn resolve_local_model(name: &str) -> (r: LocalChoice)
    ensures
        r == local_choice(lower_case(name@)),
{
    local_model_of(lowered(name).as_str())
}

/// A model of the catalogue: its name, the length of its vectors, and whether it was trained
/// on more languages than English.
pub struct CatalogueEntry {
    pub name: Seq<char>,
    pub dimensions: int,
    pub multilingual: bool,
}

pub open spec fn entry(name: Seq<char>, dimensions: int, multilingual: bool) -> CatalogueEntry {
    CatalogueEntry { name, dimensions, multilingual }
}

/// The models that are offered.
pub open spec fn local_catalogue() -> Seq<CatalogueEntry> {
    seq![
        entry("multilingual-e5-small"@, 384, true),
        entry("multilingual-e5-base"@, 768, true),
        entry("multilingual-e5-large"@, 1024, true),
        entry("bge-small-en-v1.5"@, 384, false),
        entry("bge-base-en-v1.5"@, 768, false),
        entry("bge-large-en-v1.5"@, 1024, false),
        entry("gte-base-en-v1.5"@, 768, false),
        entry("gte-large-en-v1.5"@, 1024, false),
        entry("modernbert-embed-large"@, 1024, false),
        entry("all-minilm"@, 384, false),
        entry("nomic-embed-text"@, 768, false),
        entry("mxbai-embed-large"@, 1024, false),
    ]
}

pub open spec fn entries(v: Seq<(&'static str, usize, bool)>) -> Seq<CatalogueEntry> {
    Seq::new(v.len(), |i: int| entry(v[i].0@, v[i].1 as int, v[i].2))
}

pub fn supported_local_models() -> (r: Vec<(&'static str, usize, bool)>)
    ensures
        entries(r@) == local_catalogue(),
{
    let mut v: Vec<(&'static str, usize, bool)> = Vec::new();
    v.push(("multilingual-e5-small", 384, true));
    v.push(("multilingual-e5-base", 768, true));
    v.push(("multilingual-e5-large", 1024, true));
    v.push(("bge-small-en-v1.5", 384, false));
    v.push(("bge-base-en-v1.5", 768, false));
    v.push(("bge-large-en-v1.5", 1024, false));
    v.push(("gte-base-en-v1.5", 768, false));
    v.push(("gte-large-en-v1.5", 1024, false));
    v.push(("modernbert-embed-large", 1024, false));
    v.push(("all-minilm", 384, false));
    v.push(("nomic-embed-text", 768, false));
    v.push(("mxbai-embed-large", 1024, false));
    assert(entries(v@) =~= local_catalogue());
    v
}

/// The catalogue and the choice of a model agree: a model that is offered is found under its
/// name, with the dimensions that are shown, and the multilingual ones are those of E5.
pub proof fn law_the_catalogue_is_resolved(i: int)
    requires
        0 <= i < local_catalogue().len(),
    ensures
        local_choice(local_catalogue()[i].name).dimensions == local_catalogue()[i].dimensions,
        local_choice(local_catalogue()[i].name).needs_e5_prefix
            == local_catalogue()[i].multilingual,
{
    reveal_strlit("multilingual-e5-small");
    reveal_strlit("multilingual-e5-base");
    reveal_strlit("multilingual-e5-large");
    reveal_strlit("bge-small-en-v1.5");
    reveal_strlit("bge-small");
    reveal_strlit("bge-base-en-v1.5");
    reveal_strlit("bge-base");
    reveal_strlit("bge-large-en-v1.5");
    reveal_strlit("bge-large");
    reveal_strlit("all-minilm-l6-v2");
    reveal_strlit("all-minilm");
    reveal_strlit("nomic-embed-text");
    reveal_strlit("nomic-embed-text-v1.5");
    reveal_strlit("mxbai-embed-large");
    reveal_strlit("mxbai-embed-large-v1");
    reveal_strlit("gte-base-en-v1.5");
    reveal_strlit("gte-base");
    reveal_strlit("gte-large-en-v1.5");
    reveal_strlit("gte-large");
    reveal_strlit("modernbert-embed-large");
    reveal_strlit("modernbert-large");
    assert("multilingual-e5-small"@.len() == 21);
    assert("multilingual-e5-base"@.len() == 20);
    assert("multilingual-e5-large"@.len() == 21);
    assert("bge-small-en-v1.5"@.len() == 17);
    assert("bge-small"@.len() == 9);
    assert("bge-base-en-v1.5"@.len() == 16);
    assert("bge-base"@.len() == 8);
    assert("bge-large-en-v1.5"@.len() == 17);
    assert("bge-large"@.len() == 9);
    assert("all-minilm-l6-v2"@.len() == 16);
    assert("all-minilm"@.len() == 10);
    assert("nomic-embed-text"@.len() == 16);
    assert("nomic-embed-text-v1.5"@.len() == 21);
    assert("mxbai-embed-large"@.len() == 17);
    assert("mxbai-embed-large-v1"@.len() == 20);
    assert("gte-base-en-v1.5"@.len() == 16);
    assert("gte-base"@.len() == 8);
    assert("gte-large-en-v1.5"@.len() == 17);
    assert("gte-large"@.len() == 9);
    assert("modernbert-embed-large"@.len() == 22);
    assert("modernbert-large"@.len() == 16);
    assert("multilingual-e5-large"@[16] == 'l' && "multilingual-e5-small"@[16] == 's');
    assert("bge-large-en-v1.5"@[4] == 'l' && "bge-small-en-v1.5"@[4] == 's');
    assert("bge-large"@[4] == 'l' && "bge-small"@[4] == 's');
    assert("all-minilm-l6-v2"@[0] == 'a' && "bge-base-en-v1.5"@[0] == 'b');
    assert("nomic-embed-text"@[0] == 'n' && "bge-base-en-v1.5"@[0] == 'b');
    assert("nomic-embed-text"@[0] == 'n' && "all-minilm-l6-v2"@[0] == 'a');
    assert("nomic-embed-text-v1.5"@[0] == 'n' && "multilingual-e5-small"@[0] == 'm');
    assert("nomic-embed-text-v1.5"@[0] == 'n' && "multilingual-e5-large"@[0] == 'm');
    assert("mxbai-embed-large"@[0] == 'm' && "bge-small-en-v1.5"@[0] == 'b');
    assert("mxbai-embed-large"@[0] == 'm' && "bge-large-en-v1.5"@[0] == 'b');
    assert("mxbai-embed-large-v1"@[1] == 'x' && "multilingual-e5-base"@[1] == 'u');
    assert("gte-base-en-v1.5"@[0] == 'g' && "bge-base-en-v1.5"@[0] == 'b');
    assert("gte-base-en-v1.5"@[0] == 'g' && "all-minilm-l6-v2"@[0] == 'a');
    assert("gte-base-en-v1.5"@[0] == 'g' && "nomic-embed-text"@[0] == 'n');
    assert("gte-base"@[0] == 'g' && "bge-base"@[0] == 'b');
    assert("gte-large-en-v1.5"@[0] == 'g' && "bge-small-en-v1.5"@[0] == 'b');
    assert("gte-large-en-v1.5"@[0] == 'g' && "bge-large-en-v1.5"@[0] == 'b');
    assert("gte-large-en-v1.5"@[0] == 'g' && "mxbai-embed-large"@[0] == 'm');
    assert("gte-large"@[0] == 'g' && "bge-small"@[0] == 'b');
    assert("gte-large"@[0] == 'g' && "bge-large"@[0] == 'b');
    assert("modernbert-large"@[0] == 'm' && "bge-base-en-v1.5"@[0] == 'b');
    assert("modernbert-large"@[0] == 'm' && "all-minilm-l6-v2"@[0] == 'a');
    assert("modernbert-large"@[0] == 'm' && "nomic-embed-text"@[0] == 'n');
    assert("modernbert-large"@[0] == 'm' && "gte-base-en-v1.5"@[0] == 'g');
    assert(local_choice("multilingual-e5-small"@).dimensions == 384 && local_choice("multilingual-e5-small"@).needs_e5_prefix == true);
    assert(local_choice("multilingual-e5-base"@).dimensions == 768 && local_choice("multilingual-e5-base"@).needs_e5_prefix == true);
    assert(local_choice("multilingual-e5-large"@).dimensions == 1024 && local_choice("multilingual-e5-large"@).needs_e5_prefix == true);
    assert(local_choice("bge-small-en-v1.5"@).dimensions == 384 && local_choice("bge-small-en-v1.5"@).needs_e5_prefix == false);
    assert(local_choice("bge-base-en-v1.5"@).dimensions == 768 && local_choice("bge-base-en-v1.5"@).needs_e5_prefix == false);
    assert(local_choice("bge-large-en-v1.5"@).dimensions == 1024 && local_choice("bge-large-en-v1.5"@).needs_e5_prefix == false);
    assert(local_choice("gte-base-en-v1.5"@).dimensions == 768 && local_choice("gte-base-en-v1.5"@).needs_e5_prefix == false);
    assert(local_choice("gte-large-en-v1.5"@).dimensions == 1024 && local_choice("gte-large-en-v1.5"@).needs_e5_prefix == false);
    assert(local_choice("modernbert-embed-large"@).dimensions == 1024 && local_choice("modernbert-embed-large"@).needs_e5_prefix == false);
    assert(local_choice("all-minilm"@).dimensions == 384 && local_choice("all-minilm"@).needs_e5_prefix == false);
    assert(local_choice("nomic-embed-text"@).dimensions == 768 && local_choice("nomic-embed-text"@).needs_e5_prefix == false);
    assert(local_choice("mxbai-embed-large"@).dimensions == 1024 && local_choice("mxbai-embed-large"@).needs_e5_prefix == false);
}

impl LocalModel {
    /// The name that the model has among those of `fastembed`.
    pub open spec fn name(self) -> Seq<char> {
        match self {
            LocalModel::MultilingualE5Small => "MultilingualE5Small"@,
            LocalModel::MultilingualE5Base => "MultilingualE5Base"@,
            LocalModel::MultilingualE5Large => "MultilingualE5Large"@,
            LocalModel::BGESmallENV15 => "BGESmallENV15"@,
            LocalModel::BGEBaseENV15 => "BGEBaseENV15"@,
            LocalModel::BGELargeENV15 => "BGELargeENV15"@,
            LocalModel::AllMiniLML6V2 => "AllMiniLML6V2"@,
            LocalModel::NomicEmbedTextV15 => "NomicEmbedTextV15"@,
            LocalModel::MxbaiEmbedLargeV1 => "MxbaiEmbedLargeV1"@,
            LocalModel::GTEBaseENV15 => "GTEBaseENV15"@,
            LocalModel::GTELargeENV15 => "GTELargeENV15"@,
            LocalModel::ModernBertEmbedLarge => "ModernBertEmbedLarge"@,
        }
    }

    pub fn variant_name(self) -> (r: &'static str)
        ensures
            r@ == self.name(),
    {
        match self {
            LocalModel::MultilingualE5Small => "MultilingualE5Small",
            LocalModel::MultilingualE5Base => "MultilingualE5Base",
            LocalModel::MultilingualE5Large => "MultilingualE5Large",
            LocalModel::BGESmallENV15 => "BGESmallENV15",
            LocalModel::BGEBaseENV15 => "BGEBaseENV15",
            LocalModel::BGELargeENV15 => "BGELargeENV15",
            LocalModel::AllMiniLML6V2 => "AllMiniLML6V2",
            LocalModel::NomicEmbedTextV15 => "NomicEmbedTextV15",
            LocalModel::MxbaiEmbedLargeV1 => "MxbaiEmbedLargeV1",
            LocalModel::GTEBaseENV15 => "GTEBaseENV15",
            LocalModel::GTELargeENV15 => "GTELargeENV15",
            LocalModel::ModernBertEmbedLarge => "ModernBertEmbedLarge",
        }
    }
}

/// The repository from which `fastembed` loads the model of a name; `None` for a name that
/// it does not list.
pub uninterp spec fn model_code(name: Seq<char>) -> Option<Seq<char>>;

/// Calls `fastembed::TextEmbedding::list_supported_models` and takes the name and the
/// repository of each model. The list holds every model once, in an order that is left open:
/// it says which repository each name has, which is named by `model_code`.
#[verifier::external_body]
fn listed_models() -> (r: Vec<(String, String)>)
    ensures
        forall|i: int| 0 <= i < r@.len() ==> model_code((#[trigger] r@[i]).0@) == Some(r@[i].1@),
        forall|name: Seq<char>| (#[trigger] model_code(name)) is Some ==> exists|i: int|
            0 <= i < r@.len() && (#[trigger] r@[i]).0@ == name,
{
    fastembed::TextEmbedding::list_supported_models()
        .into_iter().map(|m| (format!("{:?}", m.model), m.model_code)).collect()
}

/// The folder of a repository in the cache.
pub open spec fn repository_folder(code: Seq<char>) -> Seq<char> {
    "models--"@ + replace_all(code, "/"@, "--"@)
}

pub fn folder_of(code: &str) -> (r: String)
    ensures
        r@ == repository_folder(code@),
{
    proof {
        reveal_strlit("/");
    }
    cat2("models--", str_replaced(code, "/", "--").as_str())
}

/// The folder of the local models below the folder of the application's data.
pub fn local_cache_dir(data_dir: &str, separator: char) -> (r: String)
    ensures
        r@ == (if data_dir@.len() == 0 || data_dir@.last() == separator {
            data_dir@ + "models"@
        } else {
            data_dir@.push(separator) + "models"@
        }),
{
    let c = to_chars(data_dir);
    let n: usize = c.len();
    let mut base = data_dir.to_owned();
    if n > 0 && c[n - 1] != separator {
        base.push(separator);
    }
    cat2(base.as_str(), "models")
}

/// The folder in which a local model is kept once it was loaded; `None` where `fastembed`
/// does not list the model.
pub fn local_model_folder(name: &str) -> (r: Option<String>)
    ensures
        opt(r) == (match model_code(local_choice(lower_case(name@)).model.name()) {
            Some(code) => Some(repository_folder(code)),
            None => None,
        }),
{
    let wanted = resolve_local_model(name).model.variant_name();
    let list = listed_models();
    let mut i: usize = 0;
    while i < list.len()
        invariant
            i <= list.len(),
            wanted@ == local_choice(lower_case(name@)).model.name(),
            forall|k: int|
                0 <= k < list@.len() ==> model_code((#[trigger] list@[k]).0@) == Some(list@[k].1@),
            forall|n: Seq<char>| (#[trigger] model_code(n)) is Some ==> exists|k: int|
                0 <= k < list@.len() && (#[trigger] list@[k]).0@ == n,
            forall|k: int| 0 <= k < i ==> (#[trigger] list@[k]).0@ != wanted@,
        decreases list.len() - i,
    {
        if str_eq(list[i].0.as_str(), wanted) {
            return Some(folder_of(list[i].1.as_str()));
        }
        i = i + 1;
    }
    None
}

// ---------------------------------------------------------------------------
// Rerankers
// ---------------------------------------------------------------------------

/// The models that rank passages.
#[derive(Debug, Clone, Copy, PartialEq, Eq, Structural)]
pub enum RerankModel {
    BGERerankerBase,
    BGERerankerV2M3,
    JINARerankerV2BaseMultiligual,
}

/// The reranker of a name in lower case.
pub open spec fn reranker_choice(name: Seq<char>) -> RerankModel {
    if name == "bge-reranker-base"@ {
        RerankModel::BGERerankerBase
    } else if name == "jina-reranker-v2"@ || name == "jina-reranker-v2-base-multilingual"@ {
        RerankModel::JINARerankerV2BaseMultiligual
    } else {
        RerankModel::BGERerankerV2M3
    }
}

pub fn reranker_of(name: &str) -> (r: RerankModel)
    ensures
        r == reranker_choice(name@),
{
    if str_eq(name, "bge-reranker-base") {
        RerankModel::BGERerankerBase
    } else if str_eq(name, "jina-reranker-v2") || str_eq(
        name,
        "jina-reranker-v2-base-multilingual",
    ) {
        RerankModel::JINARerankerV2BaseMultiligual
    } else {
        RerankModel::BGERerankerV2M3
    }
}

pub fn resolve_reranker_model(name: &str) -> (r: RerankModel)
    ensures
        r == reranker_choice(lower_case(name@)),
{
    reranker_of(lowered(name).as_str())
}

pub open spec fn reranker_names() -> Seq<Seq<char>> {
    seq![
        "bge-reranker-v2-m3"@,
        "bge-reranker-base"@,
        "jina-reranker-v2-base-multilingual"@,
    ]
}

pub fn supported_reranker_models() -> (r: Vec<&'static str>)
    ensures
        Seq::new(r@.len(), |i: int| r@[i]@) == reranker_names(),
{
    let mut v: Vec<&'static str> = Vec::new();
    v.push("bge-reranker-v2-m3");
    v.push("bge-reranker-base");
    v.push("jina-reranker-v2-base-multilingual");
    assert(Seq::new(v@.len(), |i: int| v@[i]@) =~= reranker_names());
    v
}

/// Each reranker that is offered is another model.
pub proof fn law_rerankers_are_told_apart(i: int, j: int)
    requires
        0 <= i < j < reranker_names().len(),
    ensures
        reranker_choice(reranker_names()[i]) != reranker_choice(reranker_names()[j]),
{
    reveal_strlit("bge-reranker-v2-m3");
    reveal_strlit("bge-reranker-base");
    reveal_strlit("jina-reranker-v2");
    reveal_strlit("jina-reranker-v2-base-multilingual");
    assert("bge-reranker-v2-m3"@.len() == 18);
    assert("bge-reranker-base"@.len() == 17);
    assert("jina-reranker-v2"@.len() == 16);
    assert("jina-reranker-v2-base-multilingual"@.len() == 34);
}

// ---------------------------------------------------------------------------
// What is sent
// ---------------------------------------------------------------------------

/// A passage as the model gets it.
pub open spec fn passage_input(text: Seq<char>, e5: bool) -> Seq<char> {
    if e5 {
        "passage: "@ + text
    } else {
        text
    }
}

pub fn passage_inputs(texts: Vec<String>, e5: bool) -> (r: Vec<String>)
    ensures
        views(r@) == Seq::new(texts@.len(), |i: int| passage_input(texts@[i]@, e5)),
{
    let ghost want = Seq::new(texts@.len(), |i: int| passage_input(texts@[i]@, e5));
    if !e5 {
        assert(views(texts@) =~= want);
        return texts;
    }
    let mut out: Vec<String> = Vec::new();
    let mut i: usize = 0;
    while i < texts.len()
        invariant
            i <= texts.len(),
            e5,
            want == Seq::new(texts@.len(), |i: int| passage_input(texts@[i]@, e5)),
            views(out@) == want.take(i as int),
        decreases texts.len() - i,
    {
        let ghost before = views(out@);
        out.push(cat2("passage: ", texts[i].as_str()));
        assert(views(out@) =~= before.push(want[i as int]));
        i = i + 1;
        assert(views(out@) =~= want.take(i as int));
    }
    assert(want.take(i as int) =~= want);
    out
}

/// A question as the model gets it.
pub fn query_input(text: &str, e5: bool) -> (r: String)
    ensures
        r@ == (if e5 {
            "query: "@ + text@
        } else {
            text@
        }),
{
    if e5 {
        cat2("query: ", text)
    } else {
        text.to_owned()
    }
}

/// How many bytes some texts have.
pub open spec fn total_bytes(texts: Seq<Seq<char>>) -> nat
    decreases texts.len(),
{
    if texts.len() == 0 {
        0
    } else {
        total_bytes(texts.drop_last()) + byte_len(texts.last())
    }
}

pub(crate) fn bytes_of(text: &str) -> (r: u64)
    ensures
        r == (if byte_len(text@) <= u64::MAX {
            byte_len(text@)
        } else {
            u64::MAX as nat
        }),
{
    let c = crate::text::to_chars(text);
    let mut n: u64 = 0;
    let mut i: usize = 0;
    assert(text@.take(0) =~= Seq::<char>::empty());
    while i < c.len()
        invariant
            i <= c.len(),
            c@ == text@,
            n == (if byte_len(text@.take(i as int)) <= u64::MAX {
                byte_len(text@.take(i as int))
            } else {
                u64::MAX as nat
            }),
        decreases c.len() - i,
    {
        assert(text@.take(i + 1).drop_last() =~= text@.take(i as int));
        assert(text@.take(i + 1).last() == c@[i as int]);
        n = n.saturating_add(crate::text::char_byte_count(c[i]) as u64);
        i = i + 1;
    }
    assert(text@.take(i as int) =~= text@);
    n
}

/// How many bytes are sent, as far as a counter goes.
pub fn payload_bytes(texts: &Vec<String>) -> (r: u64)
    ensures
        r == (if total_bytes(views(texts@)) <= u64::MAX {
            total_bytes(views(texts@))
        } else {
            u64::MAX as nat
        }),
{
    let ghost all = views(texts@);
    let mut n: u64 = 0;
    let mut i: usize = 0;
    assert(all.take(0) =~= Seq::<Seq<char>>::empty());
    while i < texts.len()
        invariant
            i <= texts.len(),
            all == views(texts@),
            n == (if total_bytes(all.take(i as int)) <= u64::MAX {
                total_bytes(all.take(i as int))
            } else {
                u64::MAX as nat
            }),
        decreases texts.len() - i,
    {
        assert(all.take(i + 1).drop_last() =~= all.take(i as int));
        assert(all.take(i + 1).last() == texts@[i as int]@);
        n = n.saturating_add(bytes_of(texts[i].as_str()));
        i = i + 1;
    }
    assert(all.take(i as int) =~= all);
    n
}

/// The context that a chunk needs, in tokens: two characters a token, with room for what
/// is put before a chunk; a multiple of 1024, at least 2048.
pub open spec fn num_ctx(chunk_size: nat) -> nat {
    let need = (chunk_size + 250) / 2;
    let least = if need < 2048 {
        2048
    } else {
        need
    };
    (least + 1023) / 1024 * 1024
}

/// The largest context that can be announced.
pub const MAX_CTX: u32 = 4294966272;

/// The context that is announced for a chunk: what it needs, as far as that can be written.
pub fn embedding_num_ctx(chunk_size: usize) -> (r: u32)
    ensures
        r == (if num_ctx(chunk_size as nat) <= MAX_CTX {
            num_ctx(chunk_size as nat)
        } else {
            MAX_CTX as nat
        }),
{
    let need: u128 = (chunk_size as u128 + 250) / 2;
    let least: u128 = if need < 2048 {
        2048
    } else {
        need
    };
    let ctx: u128 = (least + 1023) / 1024 * 1024;
    if ctx <= MAX_CTX as u128 {
        ctx as u32
    } else {
        MAX_CTX
    }
}

/// The context suffices for a chunk and what is put before it, is a multiple of 1024 and
/// never under 2048.
pub proof fn law_the_context_suffices(chunk_size: nat)
    ensures
        2 * num_ctx(chunk_size) + 1 >= chunk_size + 250,
        num_ctx(chunk_size) % 1024 == 0,
        num_ctx(chunk_size) >= 2048,
        MAX_CTX % 1024 == 0,
{
}

// ---------------------------------------------------------------------------
// Batches
// ---------------------------------------------------------------------------

/// The size of a batch, at least one.
pub open spec fn batch_len(size: nat) -> nat {
    if size == 0 {
        1
    } else {
        size
    }
}

pub open spec fn batches_from(texts: Seq<Seq<char>>, size: nat) -> Seq<Seq<Seq<char>>>
    decreases texts.len(),
{
    if size == 0 || texts.len() <= size {
        seq![texts]
    } else {
        seq![texts.take(size as int)] + batches_from(texts.skip(size as int), size)
    }
}

pub open spec fn batch_views(v: Seq<Vec<String>>) -> Seq<Seq<Seq<char>>> {
    Seq::new(v.len(), |i: int| views(v[i]@))
}

/// Splits texts into the requests in which they are sent.
pub fn split_batches(texts: &Vec<String>, size: usize) -> (r: Vec<Vec<String>>)
    ensures
        batch_views(r@) == batches_from(views(texts@), batch_len(size as nat)),
{
    let step: usize = if size == 0 {
        1
    } else {
        size
    };
    let ghost all = views(texts@);
    let mut out: Vec<Vec<String>> = Vec::new();
    let mut from: usize = 0;
    assert(all.skip(0) =~= all);
    assert(batch_views(out@) + batches_from(all, step as nat) =~= batches_from(all, step as nat));
    while texts.len() - from > step
        invariant
            from <= texts.len(),
            step > 0,
            all == views(texts@),
            batches_from(all, step as nat) == batch_views(out@) + batches_from(
                all.skip(from as int),
                step as nat,
            ),
        decreases texts.len() - from,
    {
        let ghost before = batch_views(out@);
        let b = copy_range(texts, from, from + step);
        assert(views(b@) =~= all.skip(from as int).take(step as int));
        out.push(b);
        assert(batch_views(out@) =~= before.push(all.skip(from as int).take(step as int)));
        assert(all.skip(from as int).skip(step as int) =~= all.skip(from + step));
        let ghost rest = batches_from(all.skip(from + step), step as nat);
        assert(before + (seq![all.skip(from as int).take(step as int)] + rest) =~= batch_views(out@)
            + rest);
        from = from + step;
    }
    let ghost before = batch_views(out@);
    let b = copy_range(texts, from, texts.len());
    assert(views(b@) =~= all.skip(from as int));
    out.push(b);
    assert(batch_views(out@) =~= before + seq![all.skip(from as int)]);
    out
}

fn copy_range(texts: &Vec<String>, from: usize, to: usize) -> (r: Vec<String>)
    requires
        from <= to <= texts.len(),
    ensures
        views(r@) == views(texts@).subrange(from as int, to as int),
{
    let mut out: Vec<String> = Vec::new();
    let mut i: usize = from;
    assert(views(out@) =~= views(texts@).subrange(from as int, from as int));
    while i < to
        invariant
            from <= i <= to <= texts.len(),
            views(out@) == views(texts@).subrange(from as int, i as int),
        decreases to - i,
    {
        let ghost before = views(out@);
        out.push(texts[i].clone());
        assert(views(out@) =~= before.push(texts@[i as int]@));
        i = i + 1;
        assert(views(out@) =~= views(texts@).subrange(from as int, i as int));
    }
    out
}

/// The batches hold the texts in their order and nothing else, and none is over the size.
pub proof fn law_batches_hold_every_text(texts: Seq<Seq<char>>, size: nat)
    requires
        size > 0,
    ensures
        batches_from(texts, size).flatten() == texts,
        forall|i: int|
            0 <= i < batches_from(texts, size).len() ==> (#[trigger] batches_from(
                texts,
                size,
            )[i]).len() <= size,
    decreases texts.len(),
{
    let b = batches_from(texts, size);
    if texts.len() <= size {
        assert(b.drop_first() =~= Seq::<Seq<Seq<char>>>::empty());
        assert(b.first() + b.drop_first().flatten() =~= texts);
    } else {
        law_batches_hold_every_text(texts.skip(size as int), size);
        let rest = batches_from(texts.skip(size as int), size);
        assert(b.drop_first() =~= rest);
        assert(b.first() == texts.take(size as int));
        assert(texts.take(size as int) + texts.skip(size as int) =~= texts);
        assert forall|i: int| 0 <= i < b.len() implies (#[trigger] b[i]).len() <= size by {
            if i > 0 {
                assert(b[i] == rest[i - 1]);
            }
        }
    }
}

// ---------------------------------------------------------------------------
// Requests
// ---------------------------------------------------------------------------

pub open spec fn texts_view(texts: Seq<Seq<char>>) -> JsonView {
    JsonView::List(Seq::new(texts.len(), |i: int| txt(texts[i])))
}

fn texts_json(texts: &Vec<String>) -> (r: Json)
    ensures
        r.view() == texts_view(views(texts@)),
{
    let ghost want = Seq::new(texts@.len(), |i: int| txt(texts@[i]@));
    let mut items: Vec<Json> = Vec::new();
    let mut i: usize = 0;
    while i < texts.len()
        invariant
            i <= texts.len(),
            want == Seq::new(texts@.len(), |i: int| txt(texts@[i]@)),
            list_view(items@) == want.take(i as int),
        decreases texts.len() - i,
    {
        let ghost before = items@;
        items.push(text_json(texts[i].as_str()));
        assert(items@.drop_last() =~= before);
        i = i + 1;
        assert(list_view(items@) =~= want.take(i as int));
    }
    assert(want.take(i as int) =~= want);
    assert(Seq::new(views(texts@).len(), |i: int| txt(views(texts@)[i])) =~= want);
    Json::List(items)
}

/// The body of a request for vectors.
pub fn embeddings_body(model: &str, texts: &Vec<String>) -> (r: Json)
    ensures
        r.view() == rec2("input"@, texts_view(views(texts@)), "model"@, txt(model@)),
{
    record2("input", texts_json(texts), "model", text_json(model))
}

/// The same request in the native form, which also takes the context.
pub fn native_embeddings_body(model: &str, texts: &Vec<String>, ctx: u32) -> (r: Json)
    ensures
        r.view() == rec3(
            "input"@,
            texts_view(views(texts@)),
            "model"@,
            txt(model@),
            "options"@,
            rec1("num_ctx"@, JsonView::Number(decimal(ctx as nat))),
        ),
{
    record3(
        "input",
        texts_json(texts),
        "model",
        text_json(model),
        "options",
        record1("num_ctx", Json::Number(decimal_text(ctx as u64))),
    )
}

/// Where a server takes requests for vectors.
pub fn embeddings_url(base_url: &str) -> (r: String)
    ensures
        r@ == trim_end_of(base_url@, '/', '/') + "/embeddings"@,
{
    cat2(str_trim_end_of(base_url, '/', '/').as_str(), "/embeddings")
}

/// Where a server may take them in the native form: one that ends in `/v1` and wants no key.
pub open spec fn native_url(base_url: Seq<char>, api_key: Seq<char>) -> Option<Seq<char>> {
    let base = trim_end_of(base_url, '/', '/');
    if ends_with(base, "/v1"@) && api_key.len() == 0 {
        Some(trim_end_pat(base, "/v1"@) + "/api/embed"@)
    } else {
        None
    }
}

pub fn native_embeddings_url(base_url: &str, api_key: &str) -> (r: Option<String>)
    ensures
        opt(r) == native_url(base_url@, api_key@),
{
    let base = str_trim_end_of(base_url, '/', '/');
    if str_ends_with(base.as_str(), "/v1") && str_is_empty(api_key) {
        Some(cat2(str_trim_end_pat(base.as_str(), "/v1").as_str(), "/api/embed"))
    } else {
        None
    }
}

/// A reply in the native form counts where it was a success and holds a vector for each
/// text; `vectors` is `None` where it could not be read.
pub fn native_reply_counts(ok: bool, vectors: Option<usize>, texts: usize) -> (r: bool)
    ensures
        r == (ok && vectors == Some(texts)),
{
    match vectors {
        Some(n) => ok && n == texts,
        None => false,
    }
}

/// What tells one embedding model from another.
pub open spec fn embedding_key(cfg: EmbeddingConfig) -> Seq<char> {
    (match cfg.mode {
        EmbeddingMode::Local => "Local"@,
        EmbeddingMode::Openai => "Openai"@,
    }) + "|"@ + cfg.model@ + "|"@ + cfg.base_url@ + "|"@ + (if cfg.use_gpu {
        "true"@
    } else {
        "false"@
    })
}

pub fn embedding_cache_key(cfg: &EmbeddingConfig) -> (r: String)
    ensures
        r@ == embedding_key(*cfg),
{
    let mut k = match cfg.mode {
        EmbeddingMode::Local => "Local".to_owned(),
        EmbeddingMode::Openai => "Openai".to_owned(),
    };
    k.append("|");
    k.append(cfg.model.as_str());
    k.append("|");
    k.append(cfg.base_url.as_str());
    k.append("|");
    k.append(if cfg.use_gpu {
        "true"
    } else {
        "false"
    });
    k
}

/// The server's own address is used where it has one and no key is asked for.
pub proof fn law_the_native_address_is_that_of_the_server(base: Seq<char>, key: Seq<char>)
    requires
        base.len() > 0,
        base.last() != '/',
        !ends_with(base, "/v1"@),
    ensures
        native_url(base + "/v1"@, Seq::empty()) == Some(base + "/api/embed"@),
        native_url(base + "/v1/"@, Seq::empty()) == Some(base + "/api/embed"@),
        key.len() > 0 ==> native_url(base + "/v1"@, key) is None,
        native_url(base, Seq::empty()) is None,
{
    reveal_strlit("/v1");
    reveal_strlit("/v1/");
    let s = base + "/v1"@;
    let n = base.len() as int;
    assert(s.last() == '1');
    assert(trim_end_of(s, '/', '/') == s);
    assert(s.subrange(n, n + 3) =~= "/v1"@);
    assert(ends_with(s, "/v1"@));
    assert(s.take(n) =~= base);
    let t = base + "/v1/"@;
    assert(t.drop_last() =~= s);
    assert(t.last() == '/');
    assert(trim_end_pat(s, "/v1"@) == trim_end_pat(base, "/v1"@));
    assert(trim_end_of(base, '/', '/') == base);
}

/// What the batches weigh is what all the texts weigh.
pub proof fn law_weights_add_up(a: Seq<Seq<char>>, b: Seq<Seq<char>>)
    ensures
        total_bytes(a + b) == total_bytes(a) + total_bytes(b),
    decreases b.len(),
{
    if b.len() == 0 {
        assert(a + b =~= a);
    } else {
        assert((a + b).drop_last() =~= a + b.drop_last());
        law_weights_add_up(a, b.drop_last());
    }
}

/// A model's folder is named by its owner and its name.
pub proof fn law_a_folder_is_named_by_owner_and_model(owner: Seq<char>, name: Seq<char>)
    requires
        forall|i: int| 0 <= i < owner.len() ==> #[trigger] owner[i] != '/',
        forall|i: int| 0 <= i < name.len() ==> #[trigger] name[i] != '/',
    ensures
        repository_folder(owner + "/"@ + name) == "models--"@ + owner + "--"@ + name,
{
    reveal_strlit("/");
    assert("/"@ =~= seq!['/']);
    crate::text::law_one_character_is_replaced(owner, '/', name, "--"@);
    assert("models--"@ + (owner + "--"@ + name) =~= "models--"@ + owner + "--"@ + name);
}

} // verus!
