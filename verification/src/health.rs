//! Whether the models can be reached, and which of them are let go when the program ends.

use vstd::prelude::*;

use crate::config::{AppConfig, EmbeddingMode};
use crate::embedding::{local_choice, resolve_local_model};
use crate::json::{int_json, int_view, rec2, record2, text_json, txt, Json, JsonView};
use crate::text::{
    cat2, cat3, cat5, decimal, decimal_text, is_blank, lower_case, str_is_blank, str_trim_end_of,
    str_trim_end_pat, trim_end_of, trim_end_pat,
};

verus! {

#[derive(Debug)]
pub struct HealthReport {
    pub embedding_ok: bool,
    pub embedding_detail: String,
    pub reasoning_ok: bool,
    pub reasoning_detail: String,
    pub vision_ok: bool,
    pub vision_detail: String,
    pub transcription_ok: bool,
    pub transcription_detail: String,
    pub video_ok: bool,
    pub video_detail: String,
}

/// What came back when a server was asked for its models.
#[derive(Debug)]
pub enum Ping {
    /// It could not be reached.
    Unreachable(String),
    Status { code: u16, text: String },
}

pub enum PingView {
    Unreachable(Seq<char>),
    Status { code: int, text: Seq<char> },
}

impl Ping {
    pub open spec fn view(self) -> PingView {
        match self {
            Ping::Unreachable(e) => PingView::Unreachable(e@),
            Ping::Status { code, text } => PingView::Status { code: code as int, text: text@ },
        }
    }
}

/// A light and what is written beside it.
pub struct LightView {
    pub ok: bool,
    pub detail: Seq<char>,
}

pub open spec fn light(ok: bool, detail: Seq<char>) -> LightView {
    LightView { ok, detail }
}

/// The light of a chat.
pub open spec fn chat_light(p: PingView) -> LightView {
    match p {
        PingView::Unreachable(e) => light(false, e),
        PingView::Status { code, text } => if 200 <= code <= 299 {
            light(true, "connecté"@)
        } else {
            light(false, "le serveur a répondu "@ + text)
        },
    }
}

/// The light of a server for sound or video. Many of these do not list their models, so
/// "not found" tells that the server answers.
pub open spec fn media_light(p: PingView) -> LightView {
    match p {
        PingView::Status { code, text } => if code == 404 {
            light(true, "connecté (pas d'inventaire /models)"@)
        } else {
            chat_light(p)
        },
        _ => chat_light(p),
    }
}

pub open spec fn slot_light(enabled: bool, l: LightView) -> LightView {
    if enabled {
        l
    } else {
        light(false, "désactivé"@)
    }
}

/// The light of the embedding: a local model is loaded when it is needed.
pub open spec fn embedding_light(cfg: AppConfig, loaded: bool) -> LightView {
    match cfg.embedding.mode {
        EmbeddingMode::Local => {
            let dims = decimal(
                local_choice(lower_case(cfg.embedding.model@)).dimensions as nat,
            );
            light(
                true,
                (if loaded {
                    "chargé ("@
                } else {
                    "prêt, chargé à la demande ("@
                }) + dims + " dims)"@,
            )
        },
        EmbeddingMode::Openai => light(
            true,
            "serveur "@ + cfg.embedding.base_url@ + " ("@ + decimal(
                cfg.embedding.dimensions as nat,
            ) + " dims)"@,
        ),
    }
}

fn read_ping(enabled: bool, ping: &Ping, media: bool) -> (r: (bool, String))
    ensures
        light(r.0, r.1@) == slot_light(
            enabled,
            if media {
                media_light(ping.view())
            } else {
                chat_light(ping.view())
            },
        ),
{
    if !enabled {
        return (false, "désactivé".to_owned());
    }
    match ping {
        Ping::Unreachable(e) => (false, e.clone()),
        Ping::Status { code, text } => {
            if media && *code == 404 {
                (true, "connecté (pas d'inventaire /models)".to_owned())
            } else if 200 <= *code && *code <= 299 {
                (true, "connecté".to_owned())
            } else {
                (false, cat2("le serveur a répondu ", text.as_str()))
            }
        },
    }
}

/// The report. A server is only asked where its slot is enabled; the ping of a slot that is
/// not is left aside.
pub fn health(
    cfg: &AppConfig,
    embedder_loaded: bool,
    reasoning: &Ping,
    vision: &Ping,
    transcription: &Ping,
    video: &Ping,
) -> (r: HealthReport)
    ensures
        light(r.embedding_ok, r.embedding_detail@) == embedding_light(*cfg, embedder_loaded),
        light(r.reasoning_ok, r.reasoning_detail@) == slot_light(
            cfg.reasoning.enabled,
            chat_light(reasoning.view()),
        ),
        light(r.vision_ok, r.vision_detail@) == slot_light(
            cfg.vision.enabled,
            chat_light(vision.view()),
        ),
        light(r.transcription_ok, r.transcription_detail@) == slot_light(
            cfg.transcription.enabled,
            media_light(transcription.view()),
        ),
        light(r.video_ok, r.video_detail@) == slot_light(
            cfg.video.enabled,
            media_light(video.view()),
        ),
{
    let embedding_detail = match cfg.embedding.mode {
        EmbeddingMode::Local => {
            let dims = resolve_local_model(cfg.embedding.model.as_str()).dimensions;
            let head = if embedder_loaded {
                "chargé ("
            } else {
                "prêt, chargé à la demande ("
            };
            cat3(head, decimal_text(dims as u64).as_str(), " dims)")
        },
        EmbeddingMode::Openai => cat5(
            "serveur ",
            cfg.embedding.base_url.as_str(),
            " (",
            decimal_text(cfg.embedding.dimensions as u64).as_str(),
            " dims)",
        ),
    };
    let (reasoning_ok, reasoning_detail) = read_ping(cfg.reasoning.enabled, reasoning, false);
    let (vision_ok, vision_detail) = read_ping(cfg.vision.enabled, vision, false);
    let (transcription_ok, transcription_detail) = read_ping(
        cfg.transcription.enabled,
        transcription,
        true,
    );
    let (video_ok, video_detail) = read_ping(cfg.video.enabled, video, true);
    HealthReport {
        embedding_ok: true,
        embedding_detail,
        reasoning_ok,
        reasoning_detail,
        vision_ok,
        vision_detail,
        transcription_ok,
        transcription_detail,
        video_ok,
        video_detail,
    }
}

/// A server for sound or video that answers "not found" is not shown as broken, and neither
/// is one that is fine for a chat.
pub proof fn law_media_lights_forgive_a_missing_list(p: PingView)
    ensures
        chat_light(p).ok ==> media_light(p).ok,
        (p matches PingView::Status { code, text } && code == 404) ==> media_light(p).ok
            && !chat_light(p).ok,
{
}

/// Where a server lists its models.
pub fn models_url(base_url: &str) -> (r: String)
    ensures
        r@ == trim_end_of(base_url@, '/', '/') + "/models"@,
{
    cat2(str_trim_end_of(base_url, '/', '/').as_str(), "/models")
}

// ---------------------------------------------------------------------------
// Letting models go
// ---------------------------------------------------------------------------

/// A request that asks a server to let a model go.
#[derive(Debug)]
pub struct Unload {
    pub url: String,
    pub body: Json,
}

pub struct UnloadView {
    pub url: Seq<char>,
    pub body: JsonView,
}

impl Unload {
    pub open spec fn view(self) -> UnloadView {
        UnloadView { url: self.url@, body: self.body.view() }
    }
}

pub open spec fn unload_views(v: Seq<Unload>) -> Seq<UnloadView> {
    Seq::new(v.len(), |i: int| v[i].view())
}

/// The root of the native API behind an address that ends in `/v1`.
pub open spec fn native_root(base: Seq<char>) -> Seq<char> {
    trim_end_of(trim_end_pat(trim_end_of(base, '/', '/'), "/v1"@), '/', '/')
}

pub fn native_root_of(base: &str) -> (r: String)
    ensures
        r@ == native_root(base@),
{
    let a = str_trim_end_of(base, '/', '/');
    let b = str_trim_end_pat(a.as_str(), "/v1");
    str_trim_end_of(b.as_str(), '/', '/')
}

/// The request for one model; none where the model or the server is not set.
pub open spec fn unload_of(used: bool, base: Seq<char>, model: Seq<char>) -> Seq<UnloadView> {
    if used && !is_blank(model) && !is_blank(base) {
        seq![
            UnloadView {
                url: native_root(base) + "/api/generate"@,
                body: rec2("keep_alive"@, int_view(0), "model"@, txt(model)),
            },
        ]
    } else {
        Seq::empty()
    }
}

fn add_unload(out: &mut Vec<Unload>, used: bool, base: &str, model: &str)
    ensures
        unload_views(final(out)@) == unload_views(old(out)@) + unload_of(used, base@, model@),
{
    let ghost before = unload_views(out@);
    if used && !str_is_blank(model) && !str_is_blank(base) {
        let u = Unload {
            url: cat2(native_root_of(base).as_str(), "/api/generate"),
            body: record2("keep_alive", int_json(0), "model", text_json(model)),
        };
        let ghost uv = u.view();
        out.push(u);
        assert(unload_views(out@) =~= before + seq![uv]);
    } else {
        assert(before + Seq::<UnloadView>::empty() =~= before);
    }
}

/// The requests that free the models in use, so that a server does not keep them in memory
/// after the program has ended.
pub fn unload_remote_models(cfg: &AppConfig) -> (r: Vec<Unload>)
    ensures
        unload_views(r@) == unload_of(
            cfg.embedding.mode == EmbeddingMode::Openai,
            cfg.embedding.base_url@,
            cfg.embedding.model@,
        ) + unload_of(cfg.reasoning.enabled, cfg.reasoning.base_url@, cfg.reasoning.model@)
            + unload_of(cfg.vision.enabled, cfg.vision.base_url@, cfg.vision.model@),
{
    let remote = match cfg.embedding.mode {
        EmbeddingMode::Openai => true,
        EmbeddingMode::Local => false,
    };
    let mut out: Vec<Unload> = Vec::new();
    let ghost none = unload_views(out@);
    add_unload(&mut out, remote, cfg.embedding.base_url.as_str(), cfg.embedding.model.as_str());
    assert(none + unload_of(remote, cfg.embedding.base_url@, cfg.embedding.model@) =~= unload_of(
        remote,
        cfg.embedding.base_url@,
        cfg.embedding.model@,
    ));
    add_unload(
        &mut out,
        cfg.reasoning.enabled,
        cfg.reasoning.base_url.as_str(),
        cfg.reasoning.model.as_str(),
    );
    add_unload(
        &mut out,
        cfg.vision.enabled,
        cfg.vision.base_url.as_str(),
        cfg.vision.model.as_str(),
    );
    out
}

/// A slot that is switched off is never lit, and no model of it is unloaded.
pub proof fn law_what_is_off_stays_off(l: LightView, base: Seq<char>, model: Seq<char>)
    ensures
        !slot_light(false, l).ok,
        slot_light(true, l) == l,
        unload_of(false, base, model).len() == 0,
{
}

/// A server that answers is lit, and one that refuses or cannot be reached is not; what is told
/// of it is what it said.
pub proof fn law_a_light_tells_of_the_server(code: int, text: Seq<char>, error: Seq<char>)
    ensures
        chat_light(PingView::Status { code, text }).ok <==> 200 <= code < 300,
        !(200 <= code < 300) ==> crate::reading::holds(
            chat_light(PingView::Status { code, text }).detail,
            text,
        ),
        chat_light(PingView::Unreachable(error)) == light(false, error),
{
    let none = Seq::<char>::empty();
    let d = "le serveur a répondu "@ + text;
    assert(d =~= "le serveur a répondu "@ + text + none);
    crate::reading::lemma_holds("le serveur a répondu "@, text, none);
}

} // verus!
