//! Sound and moving pictures: the form that a transcription is asked with, and the body that
//! carries a video without ever holding it as a whole.

use vstd::prelude::*;

use crate::bytes::{b64, b64_char, b64_len, base64_text, law_base64_is_written_in_parts, lemma_b64_len};
use crate::chat::{
    as_plain, look_at, look_at_view, make_chat_body, plain_text, read_seen, seen_result, seen_view,
    status_error, AiCallError, AiCallErrorView, HttpReply,
};
use crate::config::{ReasoningEffort, TranscriptionConfig, VideoConfig, VideoDelivery};
use crate::embedding::bytes_of;
use crate::json::{
    escaped, escaped_char, field_text, parsed, quote, quoted, rec1, record_view, rendered,
    rendered_fields, rendered_items, text_or, txt, Json, JsonView,
};
use crate::text::{
    byte_len, cat2, cat3, cat4, char_bytes, is_blank, part, starts_with, str_is_blank,
    str_starts_with, str_trim, str_trim_end_of, swap_char, swapped_char, to_chars, to_text, trim,
    trim_end_of,
};

verus! {

// ---------------------------------------------------------------------------
// Addresses
// ---------------------------------------------------------------------------

/// The path of an endpoint as the user wrote it, with a slash before it; the default where
/// nothing was written.
pub open spec fn endpoint(written: Seq<char>, default: Seq<char>) -> Seq<char> {
    if is_blank(written) {
        default
    } else if starts_with(trim(written), "/"@) {
        trim(written)
    } else {
        "/"@ + trim(written)
    }
}

pub fn normalise_chemin(saisi: &str, defaut: &str) -> (r: String)
    ensures
        r@ == endpoint(saisi@, defaut@),
{
    if str_is_blank(saisi) {
        return defaut.to_owned();
    }
    let t = str_trim(saisi);
    if str_starts_with(t.as_str(), "/") {
        t
    } else {
        cat2("/", t.as_str())
    }
}

/// The address of a local file.
pub open spec fn file_uri(path: Seq<char>) -> Seq<char> {
    let p = swap_char(path, '\\', '/');
    if starts_with(p, "/"@) {
        "file://"@ + p
    } else {
        "file:///"@ + p
    }
}

pub fn uri_fichier(path: &str) -> (r: String)
    ensures
        r@ == file_uri(path@),
{
    let p = to_text(swapped_char(to_chars(path).as_slice(), '\\', '/').as_slice());
    if str_starts_with(p.as_str(), "/") {
        cat2("file://", p.as_str())
    } else {
        cat2("file:///", p.as_str())
    }
}

/// The file could not be opened.
pub fn open_failure(path: &str, error: &str) -> (r: AiCallError)
    ensures
        r.view() == AiCallErrorView::Permanent("ouverture de "@ + path@ + " : "@ + error@),
{
    AiCallError::Permanent(cat4("ouverture de ", path, " : ", error))
}

/// The size of the file could not be told.
pub fn size_failure(path: &str, error: &str) -> (r: AiCallError)
    ensures
        r.view() == AiCallErrorView::Permanent("taille de "@ + path@ + " : "@ + error@),
{
    AiCallError::Permanent(cat4("taille de ", path, " : ", error))
}

pub open spec fn at_least_one(secs: u64) -> u64 {
    if secs == 0 {
        1
    } else {
        secs
    }
}

fn timeout_of(secs: u64) -> (r: u64)
    ensures
        r == at_least_one(secs),
{
    if secs == 0 {
        1
    } else {
        secs
    }
}

// ---------------------------------------------------------------------------
// Transcription
// ---------------------------------------------------------------------------

pub open spec fn pair_views(v: Seq<(String, String)>) -> Seq<(Seq<char>, Seq<char>)> {
    Seq::new(v.len(), |i: int| (v[i].0@, v[i].1@))
}

/// The fields that a record writes, each with its value as a text.
pub open spec fn plain_fields(v: Option<JsonView>) -> Seq<(Seq<char>, Seq<char>)> {
    match v {
        Some(JsonView::Record(f)) => Seq::new(f.len(), |i: int| (f[i].0, as_plain(f[i].1))),
        _ => Seq::empty(),
    }
}

/// More fields of a form, from a JSON record. What is no record is ignored.
pub open spec fn extra_fields_of(raw: Seq<char>) -> Seq<(Seq<char>, Seq<char>)> {
    if is_blank(raw) {
        Seq::empty()
    } else {
        plain_fields(parsed(trim(raw)))
    }
}

pub open spec fn opt_json(v: Option<Json>) -> Option<JsonView> {
    match v {
        Some(j) => Some(j.view()),
        None => None,
    }
}

/// The fields of a value that was read.
pub fn fields_of(value: &Option<Json>) -> (r: Vec<(String, String)>)
    ensures
        pair_views(r@) == plain_fields(opt_json(*value)),
{
    let mut out: Vec<(String, String)> = Vec::new();
    assert(pair_views(out@) =~= Seq::<(Seq<char>, Seq<char>)>::empty());
    if let Some(Json::Record(f)) = value {
        let ghost all = record_view(f@);
        let ghost want = Seq::new(all.len(), |i: int| (all[i].0, as_plain(all[i].1)));
        proof {
            crate::json::lemma_record_view(f@);
        }
        let mut i: usize = 0;
        while i < f.len()
            invariant
                i <= f.len(),
                all.len() == f@.len(),
                forall|k: int|
                    0 <= k < f@.len() ==> #[trigger] all[k] == (f@[k].0@, f@[k].1.view()),
                want == Seq::new(all.len(), |i: int| (all[i].0, as_plain(all[i].1))),
                pair_views(out@) == want.take(i as int),
            decreases f.len() - i,
        {
            let ghost before = pair_views(out@);
            assert(all[i as int] == (f@[i as int].0@, f@[i as int].1.view()));
            out.push((f[i].0.clone(), plain_text(&f[i].1)));
            assert(pair_views(out@) =~= before.push(want[i as int]));
            i = i + 1;
            assert(pair_views(out@) =~= want.take(i as int));
        }
        assert(want.take(i as int) =~= want);
    }
    out
}

pub fn champs_supplementaires(brut: &str) -> (r: Vec<(String, String)>)
    ensures
        pair_views(r@) == extra_fields_of(brut@),
{
    if str_is_blank(brut) {
        let out: Vec<(String, String)> = Vec::new();
        assert(pair_views(out@) =~= Seq::<(Seq<char>, Seq<char>)>::empty());
        return out;
    }
    fields_of(&Json::parse(str_trim(brut).as_str()))
}

/// The text of a transcription: servers answer with a JSON record or with the text itself.
pub open spec fn transcript(value: Option<JsonView>, body: Seq<char>) -> Seq<char> {
    trim(
        match value {
            Some(v) => text_or(field_text(v, "text"@), body),
            None => body,
        },
    )
}

/// The text of a transcription whose body was read as `value`.
pub fn transcript_of(value: &Option<Json>, body: &str) -> (r: String)
    ensures
        r@ == transcript(opt_json(*value), body@),
{
    if let Some(v) = value {
        if let Some(t) = v.get_text("text") {
            return str_trim(t);
        }
    }
    str_trim(body)
}

pub fn parse_transcription(corps: &str) -> (r: String)
    ensures
        r@ == transcript(parsed(corps@), corps@),
{
    transcript_of(&Json::parse(corps), corps)
}

/// What came back from a server that answers with a text.
#[derive(Debug)]
pub enum TextReply {
    NotSent(String),
    Refused { status: u16, status_text: String, body: String },
    Unreadable(String),
    Body(String),
}

/// What a transcription at `url` gives back.
pub fn read_transcription_reply(url: &str, reply: TextReply) -> (r: Result<String, AiCallError>)
    ensures
        seen_view(r) == (match reply {
            TextReply::NotSent(e) => Err(
                AiCallErrorView::Transient("appel "@ + url@ + " : "@ + e@),
            ),
            TextReply::Refused { status, status_text, body } => Err(
                status_error(
                    status as int,
                    "la transcription a renvoyé "@ + status_text@ + " : "@ + body@,
                ),
            ),
            TextReply::Unreadable(e) => Err(
                AiCallErrorView::Transient("lecture de la réponse de transcription : "@ + e@),
            ),
            TextReply::Body(b) => Ok(transcript(parsed(b@), b@)),
        }),
{
    match reply {
        TextReply::NotSent(e) => Err(AiCallError::Transient(cat4("appel ", url, " : ", e.as_str()))),
        TextReply::Refused { status, status_text, body } => Err(
            AiCallError::from_status(
                status,
                cat4("la transcription a renvoyé ", status_text.as_str(), " : ", body.as_str()),
            ),
        ),
        TextReply::Unreadable(e) => Err(
            AiCallError::Transient(cat2("lecture de la réponse de transcription : ", e.as_str())),
        ),
        TextReply::Body(b) => Ok(parse_transcription(b.as_str())),
    }
}

/// A server that writes down what is said.
#[derive(Debug)]
pub struct TranscriptionClient {
    pub base_url: String,
    pub endpoint_path: String,
    pub model: String,
    pub api_key: String,
    pub language: String,
    pub response_format: String,
    pub extra_fields: String,
    pub timeout_secs: u64,
}

/// A field that is there where it was written.
pub open spec fn optional_field(name: Seq<char>, value: Seq<char>) -> Seq<(Seq<char>, Seq<char>)> {
    if is_blank(value) {
        Seq::empty()
    } else {
        seq![(name, trim(value))]
    }
}

impl TranscriptionClient {
    pub fn new(cfg: &TranscriptionConfig) -> (r: TranscriptionClient)
        ensures
            r.base_url@ == trim_end_of(cfg.base_url@, '/', '/'),
            r.endpoint_path@ == endpoint(cfg.endpoint_path@, "/audio/transcriptions"@),
            r.model@ == cfg.model@,
            r.api_key@ == cfg.api_key@,
            r.language@ == cfg.language@,
            r.response_format@ == cfg.response_format@,
            r.extra_fields@ == cfg.extra_fields@,
            r.timeout_secs == at_least_one(cfg.timeout_secs),
    {
        TranscriptionClient {
            base_url: str_trim_end_of(cfg.base_url.as_str(), '/', '/'),
            endpoint_path: normalise_chemin(cfg.endpoint_path.as_str(), "/audio/transcriptions"),
            model: cfg.model.clone(),
            api_key: cfg.api_key.clone(),
            language: cfg.language.clone(),
            response_format: cfg.response_format.clone(),
            extra_fields: cfg.extra_fields.clone(),
            timeout_secs: timeout_of(cfg.timeout_secs),
        }
    }

    pub fn url(&self) -> (r: String)
        ensures
            r@ == self.base_url@ + self.endpoint_path@,
    {
        cat2(self.base_url.as_str(), self.endpoint_path.as_str())
    }

    /// The fields of the form beside the file. What was not set is not sent.
    pub fn form_fields(&self) -> (r: Vec<(String, String)>)
        ensures
            pair_views(r@) == seq![("model"@, self.model@)] + optional_field(
                "language"@,
                self.language@,
            ) + optional_field("response_format"@, self.response_format@) + extra_fields_of(
                self.extra_fields@,
            ),
    {
        let mut out: Vec<(String, String)> = Vec::new();
        out.push(("model".to_owned(), self.model.clone()));
        let ghost g0 = seq![("model"@, self.model@)];
        assert(pair_views(out@) =~= g0);
        if !str_is_blank(self.language.as_str()) {
            out.push(("language".to_owned(), str_trim(self.language.as_str())));
        }
        let ghost g1 = g0 + optional_field("language"@, self.language@);
        assert(pair_views(out@) =~= g1);
        if !str_is_blank(self.response_format.as_str()) {
            out.push(("response_format".to_owned(), str_trim(self.response_format.as_str())));
        }
        let ghost g2 = g1 + optional_field("response_format"@, self.response_format@);
        assert(pair_views(out@) =~= g2);
        let extra = champs_supplementaires(self.extra_fields.as_str());
        let ghost more = pair_views(extra@);
        let mut i: usize = 0;
        assert(g2 + more.take(0) =~= g2);
        while i < extra.len()
            invariant
                i <= extra.len(),
                more == pair_views(extra@),
                pair_views(out@) == g2 + more.take(i as int),
            decreases extra.len() - i,
        {
            let ghost before = pair_views(out@);
            out.push((extra[i].0.clone(), extra[i].1.clone()));
            assert(pair_views(out@) =~= before.push(more[i as int]));
            assert(g2 + more.take(i + 1) =~= (g2 + more.take(i as int)).push(more[i as int]));
            i = i + 1;
        }
        assert(more.take(i as int) =~= more);
        out
    }
}

// ---------------------------------------------------------------------------
// Video
// ---------------------------------------------------------------------------

/// How many bytes of a video are read at a time.
pub const BLOC_LECTURE: usize = 98304;

/// The length of the base64 of `n` bytes.
pub fn longueur_base64(n: u64) -> (r: u64)
    requires
        b64_len(n as nat) <= u64::MAX,
    ensures
        r == b64_len(n as nat),
{
    let groups: u64 = if n % 3 == 0 {
        n / 3
    } else {
        n / 3 + 1
    };
    4 * groups
}

/// What stands before the video in the body.
pub open spec fn body_head(model: Seq<char>, prompt: Seq<char>, mime: Seq<char>) -> Seq<char> {
    "{\"model\":"@ + quoted(model)
        + ",\"messages\":[{\"role\":\"user\",\"content\":[{\"type\":\"text\",\"text\":"@ + quoted(
        prompt,
    ) + "},{\"type\":\"video_url\",\"video_url\":{\"url\":"@ + quoted(
        "data:"@ + mime + ";base64,"@,
    ).drop_last()
}

/// What stands behind it.
pub open spec fn body_tail() -> Seq<char> {
    "\"}}]}],\"temperature\":0.1,\"stream\":false}"@
}

/// A server that says what is to be seen in a video.
#[derive(Debug)]
pub struct VideoClient {
    pub base_url: String,
    pub endpoint_path: String,
    pub model: String,
    pub api_key: String,
    pub delivery: VideoDelivery,
    pub timeout_secs: u64,
}

impl VideoClient {
    pub fn new(cfg: &VideoConfig) -> (r: VideoClient)
        ensures
            r.base_url@ == trim_end_of(cfg.base_url@, '/', '/'),
            r.endpoint_path@ == endpoint(cfg.endpoint_path@, "/chat/completions"@),
            r.model@ == cfg.model@,
            r.api_key@ == cfg.api_key@,
            r.delivery == cfg.delivery,
            r.timeout_secs == at_least_one(cfg.timeout_secs),
    {
        VideoClient {
            base_url: str_trim_end_of(cfg.base_url.as_str(), '/', '/'),
            endpoint_path: normalise_chemin(cfg.endpoint_path.as_str(), "/chat/completions"),
            model: cfg.model.clone(),
            api_key: cfg.api_key.clone(),
            delivery: cfg.delivery,
            timeout_secs: timeout_of(cfg.timeout_secs),
        }
    }

    pub fn url(&self) -> (r: String)
        ensures
            r@ == self.base_url@ + self.endpoint_path@,
    {
        cat2(self.base_url.as_str(), self.endpoint_path.as_str())
    }

    /// The body that names the video by its address.
    pub fn corps_json(&self, prompt: &str, url_media: &str) -> (r: Json)
        ensures
            r.view() == crate::chat::chat_body_view(
                self.model@,
                look_at_view(prompt@, "video_url"@, url_media@),
                ReasoningEffort::Auto,
                false,
                "0.1"@,
            ),
    {
        make_chat_body(
            self.model.as_str(),
            look_at(prompt, true, url_media),
            ReasoningEffort::Auto,
            false,
            "0.1",
        )
    }

    /// The two halves of the body between which the video stands in base64.
    pub fn enveloppe_json(&self, prompt: &str, mime: &str) -> (r: (String, String))
        ensures
            r.0@ == body_head(self.model@, prompt@, mime@),
            r.1@ == body_tail(),
    {
        let opened = quote(cat3("data:", mime, ";base64,").as_str());
        let c = to_chars(opened.as_str());
        let n: usize = c.len();
        assert(n > 0);
        let url = part(c.as_slice(), 0, n - 1);
        assert(url@ =~= opened@.drop_last());
        let mut head = cat2("{\"model\":", quote(self.model.as_str()).as_str());
        head.append(",\"messages\":[{\"role\":\"user\",\"content\":[{\"type\":\"text\",\"text\":");
        head.append(quote(prompt).as_str());
        head.append("},{\"type\":\"video_url\",\"video_url\":{\"url\":");
        head.append(to_text(url).as_str());
        (head, "\"}}]}],\"temperature\":0.1,\"stream\":false}".to_owned())
    }

    /// What the description of a video gives back.
    pub fn read_reply(&self, reply: HttpReply) -> (r: Result<String, AiCallError>)
        ensures
            seen_view(r) == seen_result(
                reply.view(),
                "appel "@ + (self.base_url@ + self.endpoint_path@) + " : "@,
                "la description vidéo a renvoyé "@,
                " : "@,
                "parsing de la réponse de description vidéo : "@,
            ),
    {
        read_seen(
            reply,
            cat3("appel ", self.url().as_str(), " : ").as_str(),
            "la description vidéo a renvoyé ",
            " : ",
            "parsing de la réponse de description vidéo : ",
        )
    }
}

/// The length of the whole body in bytes, for a video of `size` bytes.
pub fn content_length(head: &str, size: u64, tail: &str) -> (r: u64)
    requires
        byte_len(head@) + b64_len(size as nat) + byte_len(tail@) <= u64::MAX,
    ensures
        r == byte_len(head@) + b64_len(size as nat) + byte_len(tail@),
{
    bytes_of(head) + longueur_base64(size) + bytes_of(tail)
}

/// What the stream of a body does next.
#[derive(Debug)]
pub enum BodyStep {
    Emit(String),
    /// Read the next block of the video.
    Read,
    Finished,
}

/// The body as it is sent piece by piece: the head, the video in base64, the tail. Base64
/// takes groups of three bytes, so what is left of a block waits for the next one.
#[derive(Debug)]
pub struct BodyStream {
    pub head: Option<String>,
    pub rest: Vec<u8>,
    pub tail: Option<String>,
    pub done: bool,
}

/// How many of `n` bytes make up whole groups.
pub open spec fn whole_groups(n: nat) -> nat {
    n / 3 * 3
}

/// What a block adds to the body after `rest` was left over.
pub open spec fn block_text(rest: Seq<u8>, block: Seq<u8>) -> Seq<char> {
    b64((rest + block).take(whole_groups((rest + block).len()) as int))
}

/// What a block leaves over.
pub open spec fn block_rest(rest: Seq<u8>, block: Seq<u8>) -> Seq<u8> {
    (rest + block).skip(whole_groups((rest + block).len()) as int)
}

impl BodyStream {
    pub open spec fn wf(self) -> bool {
        self.rest@.len() < 3
    }

    pub fn start(head: String, tail: String) -> (r: BodyStream)
        ensures
            r.wf(),
            r.head == Some(head),
            r.rest@.len() == 0,
            r.tail == Some(tail),
            !r.done,
    {
        BodyStream { head: Some(head), rest: Vec::new(), tail: Some(tail), done: false }
    }

    /// The next step: the head first, then the video, then what is left of the tail.
    pub fn next(&mut self) -> (r: BodyStep)
        requires
            old(self).wf(),
        ensures
            final(self).wf(),
            final(self).rest == old(self).rest,
            final(self).done == old(self).done,
            match old(self).head {
                Some(h) => r == BodyStep::Emit(h) && final(self).head is None && final(self).tail
                    == old(self).tail,
                None => final(self).head is None && if !old(self).done {
                    r == BodyStep::Read && final(self).tail == old(self).tail
                } else {
                    final(self).tail is None && match old(self).tail {
                        Some(t) => r == BodyStep::Emit(t),
                        None => r == BodyStep::Finished,
                    }
                },
            },
    {
        if let Some(h) = self.head.take() {
            return BodyStep::Emit(h);
        }
        if !self.done {
            return BodyStep::Read;
        }
        match self.tail.take() {
            Some(t) => BodyStep::Emit(t),
            None => BodyStep::Finished,
        }
    }

    /// Takes in a block and gives what can be sent of it.
    pub fn on_block(&mut self, block: &[u8]) -> (r: String)
        requires
            old(self).wf(),
            block@.len() <= BLOC_LECTURE,
        ensures
            final(self).wf(),
            r@ == block_text(old(self).rest@, block@),
            final(self).rest@ == block_rest(old(self).rest@, block@),
            final(self).head == old(self).head,
            final(self).tail == old(self).tail,
            final(self).done == old(self).done,
    {
        let ghost was = self.rest@;
        let mut all: Vec<u8> = Vec::new();
        let mut i: usize = 0;
        while i < self.rest.len()
            invariant
                i <= self.rest.len(),
                self.rest@ == was,
                was.len() < 3,
                all@ == was.take(i as int),
            decreases self.rest.len() - i,
        {
            all.push(self.rest[i]);
            i = i + 1;
            assert(all@ =~= was.take(i as int));
        }
        assert(was.take(i as int) =~= was);
        let mut j: usize = 0;
        assert(was + block@.take(0) =~= was);
        while j < block.len()
            invariant
                j <= block.len(),
                all@ == was + block@.take(j as int),
            decreases block.len() - j,
        {
            all.push(block[j]);
            j = j + 1;
            assert(all@ =~= was + block@.take(j as int));
        }
        assert(block@.take(j as int) =~= block@);
        let n: usize = all.len();
        let cut: usize = n / 3 * 3;
        let out = base64_text(vstd::slice::slice_subrange(all.as_slice(), 0, cut));
        assert(all@.subrange(0, cut as int) =~= all@.take(cut as int));
        let mut left: Vec<u8> = Vec::new();
        let mut k: usize = cut;
        while k < n
            invariant
                cut <= k <= n,
                n == all@.len(),
                left@ == all@.subrange(cut as int, k as int),
            decreases n - k,
        {
            left.push(all[k]);
            k = k + 1;
            assert(left@ =~= all@.subrange(cut as int, k as int));
        }
        assert(left@ =~= all@.skip(cut as int));
        self.rest = left;
        out
    }

    /// The video is at its end: what was left over, padded, and the tail.
    pub fn on_end(&mut self) -> (r: String)
        requires
            old(self).wf(),
        ensures
            final(self).wf(),
            final(self).done,
            final(self).rest@.len() == 0,
            final(self).tail is None,
            final(self).head == old(self).head,
            r@ == b64(old(self).rest@) + (match old(self).tail {
                Some(t) => t@,
                None => Seq::empty(),
            }),
    {
        let ghost was = self.rest@;
        let mut out = base64_text(self.rest.as_slice());
        self.done = true;
        self.rest = Vec::new();
        if let Some(t) = self.tail.take() {
            out.append(t.as_str());
        } else {
            assert(b64(was) + Seq::<char>::empty() =~= b64(was));
        }
        out
    }

    /// The video could not be read on.
    pub fn on_error(&mut self)
        requires
            old(self).wf(),
        ensures
            final(self).wf(),
            final(self).done,
            final(self).rest == old(self).rest,
            final(self).head == old(self).head,
            final(self).tail == old(self).tail,
    {
        self.done = true;
    }
}

/// What is sent of a video that is read in `blocks`, after `rest` was left over.
pub open spec fn sent_text(rest: Seq<u8>, blocks: Seq<Seq<u8>>) -> Seq<char>
    decreases blocks.len(),
{
    if blocks.len() == 0 {
        b64(rest)
    } else {
        block_text(rest, blocks.first()) + sent_text(
            block_rest(rest, blocks.first()),
            blocks.drop_first(),
        )
    }
}

proof fn lemma_sent_text(rest: Seq<u8>, blocks: Seq<Seq<u8>>)
    ensures
        sent_text(rest, blocks) == b64(rest + blocks.flatten()),
    decreases blocks.len(),
{
    if blocks.len() == 0 {
        assert(rest + blocks.flatten() =~= rest);
    } else {
        let all = rest + blocks.first();
        let cut = whole_groups(all.len()) as int;
        let later = blocks.drop_first().flatten();
        lemma_sent_text(block_rest(rest, blocks.first()), blocks.drop_first());
        law_base64_is_written_in_parts(all.take(cut), all.skip(cut) + later);
        assert(all.take(cut) + (all.skip(cut) + later) =~= rest + blocks.flatten());
    }
}

/// However the video is cut into blocks, what is sent of it is its base64.
pub proof fn law_the_video_is_sent_whole(blocks: Seq<Seq<u8>>)
    ensures
        sent_text(Seq::empty(), blocks) == b64(blocks.flatten()),
{
    lemma_sent_text(Seq::empty(), blocks);
    assert(Seq::<u8>::empty() + blocks.flatten() =~= blocks.flatten());
}

pub proof fn lemma_byte_len_adds(a: Seq<char>, b: Seq<char>)
    ensures
        byte_len(a + b) == byte_len(a) + byte_len(b),
    decreases b.len(),
{
    if b.len() == 0 {
        assert(a + b =~= a);
    } else {
        lemma_byte_len_adds(a, b.drop_last());
        assert((a + b).drop_last() =~= a + b.drop_last());
    }
}

proof fn lemma_b64_is_ascii(bytes: Seq<u8>)
    ensures
        forall|i: int| 0 <= i < b64(bytes).len() ==> char_bytes(#[trigger] b64(bytes)[i]) == 1,
    decreases bytes.len(),
{
    assert forall|n: int| 0 <= n < 64 implies char_bytes(#[trigger] b64_char(n)) == 1 by {}
    if bytes.len() >= 3 {
        let (a, b, c) = (bytes[0] as int, bytes[1] as int, bytes[2] as int);
        lemma_b64_is_ascii(bytes.skip(3));
        let head = seq![
            b64_char(a / 4),
            b64_char(a % 4 * 16 + b / 16),
            b64_char(b % 16 * 4 + c / 64),
            b64_char(c % 64),
        ];
        assert(b64(bytes) == head + b64(bytes.skip(3)));
        assert forall|i: int| 0 <= i < b64(bytes).len() implies char_bytes(
            #[trigger] b64(bytes)[i],
        ) == 1 by {
            if i >= 4 {
                assert(b64(bytes)[i] == b64(bytes.skip(3))[i - 4]);
            }
        }
    }
}

proof fn lemma_ascii_byte_len(s: Seq<char>)
    requires
        forall|i: int| 0 <= i < s.len() ==> char_bytes(#[trigger] s[i]) == 1,
    ensures
        byte_len(s) == s.len(),
    decreases s.len(),
{
    if s.len() > 0 {
        assert(char_bytes(s[s.len() - 1]) == 1);
        assert forall|i: int| 0 <= i < s.drop_last().len() implies char_bytes(
            #[trigger] s.drop_last()[i],
        ) == 1 by {
            assert(s.drop_last()[i] == s[i]);
        }
        lemma_ascii_byte_len(s.drop_last());
    }
}

/// The length that is announced is that of the body.
pub proof fn law_the_announced_length_is_exact(head: Seq<char>, video: Seq<u8>, tail: Seq<char>)
    ensures
        byte_len(head + b64(video) + tail) == byte_len(head) + b64_len(video.len()) + byte_len(
            tail,
        ),
{
    lemma_byte_len_adds(head + b64(video), tail);
    lemma_byte_len_adds(head, b64(video));
    lemma_b64_is_ascii(video);
    lemma_ascii_byte_len(b64(video));
    lemma_b64_len(video);
}

/// A text that needs no escape in JSON.
spec fn is_plain(s: Seq<char>) -> bool {
    forall|i: int|
        0 <= i < s.len() ==> #[trigger] s[i] != '"' && s[i] != '\\' && s[i] as u32 >= 0x20
}

proof fn lemma_plain_is_kept(s: Seq<char>)
    requires
        is_plain(s),
    ensures
        escaped(s) == s,
    decreases s.len(),
{
    if s.len() > 0 {
        assert(s[s.len() - 1] == s.last());
        assert forall|i: int| 0 <= i < s.drop_last().len() implies #[trigger] s.drop_last()[i] != '"'
            && s.drop_last()[i] != '\\' && s.drop_last()[i] as u32 >= 0x20 by {
            assert(s.drop_last()[i] == s[i]);
        }
        lemma_plain_is_kept(s.drop_last());
        assert(s.drop_last() + seq![s.last()] =~= s);
    }
}

proof fn lemma_escaped_adds(a: Seq<char>, b: Seq<char>)
    ensures
        escaped(a + b) == escaped(a) + escaped(b),
    decreases b.len(),
{
    if b.len() == 0 {
        assert(a + b =~= a);
        assert(escaped(a) + escaped(b) =~= escaped(a));
    } else {
        lemma_escaped_adds(a, b.drop_last());
        assert((a + b).drop_last() =~= a + b.drop_last());
        assert((escaped(a) + escaped(b.drop_last())) + escaped_char(b.last()) =~= escaped(a) + (
        escaped(b.drop_last()) + escaped_char(b.last())));
    }
}

proof fn lemma_b64_is_plain(bytes: Seq<u8>)
    ensures
        is_plain(b64(bytes)),
    decreases bytes.len(),
{
    if bytes.len() >= 3 {
        lemma_b64_is_plain(bytes.skip(3));
    }
}

/// The body that holds a video, as a value: what the model is asked beside the video.
pub open spec fn video_body(model: Seq<char>, prompt: Seq<char>, url: Seq<char>) -> JsonView {
    JsonView::Record(
        seq![
            ("model"@, txt(model)),
            ("messages"@, JsonView::List(seq![video_message(prompt, url)])),
            ("temperature"@, JsonView::Number("0.1"@)),
            ("stream"@, JsonView::Bool(false)),
        ],
    )
}

pub open spec fn video_message(prompt: Seq<char>, url: Seq<char>) -> JsonView {
    JsonView::Record(
        seq![
            ("role"@, txt("user"@)),
            (
                "content"@,
                JsonView::List(
                    seq![
                        JsonView::Record(seq![("type"@, txt("text"@)), ("text"@, txt(prompt))]),
                        JsonView::Record(
                            seq![
                                ("type"@, txt("video_url"@)),
                                ("video_url"@, rec1("url"@, txt(url))),
                            ],
                        ),
                    ],
                ),
            ),
        ],
    )
}

/// Texts, joined.
spec fn glued(parts: Seq<Seq<char>>) -> Seq<char>
    decreases parts.len(),
{
    if parts.len() == 0 {
        Seq::empty()
    } else {
        glued(parts.drop_last()) + parts.last()
    }
}

spec fn sign(c: char) -> Seq<char> {
    seq![c]
}

broadcast proof fn lemma_glued_push(parts: Seq<Seq<char>>, last: Seq<char>)
    ensures
        #[trigger] glued(parts.push(last)) == glued(parts) + last,
{
    assert(parts.push(last).drop_last() =~= parts);
}

broadcast proof fn lemma_glued_one(part: Seq<char>)
    ensures
        #[trigger] glued(Seq::empty().push(part)) == part,
{
    lemma_glued_push(Seq::empty(), part);
    assert(glued(Seq::empty()) + part =~= part);
}

proof fn lemma_glued_adds(a: Seq<Seq<char>>, b: Seq<Seq<char>>)
    ensures
        glued(a + b) == glued(a) + glued(b),
    decreases b.len(),
{
    if b.len() == 0 {
        assert(a + b =~= a);
        assert(glued(a) + glued(b) =~= glued(a));
    } else {
        lemma_glued_adds(a, b.drop_last());
        assert((a + b).drop_last() =~= a + b.drop_last());
        assert((glued(a) + glued(b.drop_last())) + b.last() =~= glued(a) + (glued(b.drop_last())
            + b.last()));
    }
}

/// The parts of a field, where those of its value are known.
spec fn field_parts(name: Seq<char>, value: Seq<Seq<char>>) -> Seq<Seq<char>> {
    seq![quoted(name)].push(sign(':')) + value
}

proof fn lemma_field_parts(name: Seq<char>, value: Seq<Seq<char>>)
    ensures
        glued(field_parts(name, value)) == quoted(name) + seq![':'] + glued(value),
{
    lemma_glued_one(quoted(name));
    lemma_glued_push(seq![quoted(name)], sign(':'));
    lemma_glued_adds(seq![quoted(name)].push(sign(':')), value);
}

proof fn lemma_first_field(k: Seq<char>, v: JsonView, parts: Seq<Seq<char>>)
    requires
        rendered(v) == glued(parts),
    ensures
        rendered_fields(seq![(k, v)]) == glued(field_parts(k, parts)),
{
    lemma_field_parts(k, parts);
    assert(seq![(k, v)].last() == (k, v));
}

proof fn lemma_next_field(
    f: Seq<(Seq<char>, JsonView)>,
    before: Seq<Seq<char>>,
    k: Seq<char>,
    v: JsonView,
    parts: Seq<Seq<char>>,
)
    requires
        f.len() > 0,
        rendered_fields(f) == glued(before),
        rendered(v) == glued(parts),
    ensures
        rendered_fields(f.push((k, v))) == glued(before + seq![sign(',')] + field_parts(k, parts)),
{
    assert(f.push((k, v)).drop_last() =~= f);
    lemma_field_parts(k, parts);
    lemma_glued_one(sign(','));
    lemma_glued_adds(before, seq![sign(',')]);
    lemma_glued_adds(before + seq![sign(',')], field_parts(k, parts));
}

proof fn lemma_record_parts(f: Seq<(Seq<char>, JsonView)>, parts: Seq<Seq<char>>)
    requires
        rendered_fields(f) == glued(parts),
    ensures
        rendered(JsonView::Record(f)) == glued(seq![sign('{')] + parts + seq![sign('}')]),
{
    lemma_glued_one(sign('{'));
    lemma_glued_one(sign('}'));
    lemma_glued_adds(seq![sign('{')], parts);
    lemma_glued_adds(seq![sign('{')] + parts, seq![sign('}')]);
}

proof fn lemma_list_parts(items: Seq<JsonView>, parts: Seq<Seq<char>>)
    requires
        rendered_items(items) == glued(parts),
    ensures
        rendered(JsonView::List(items)) == glued(seq![sign('[')] + parts + seq![sign(']')]),
{
    lemma_glued_one(sign('['));
    lemma_glued_one(sign(']'));
    lemma_glued_adds(seq![sign('[')], parts);
    lemma_glued_adds(seq![sign('[')] + parts, seq![sign(']')]);
}

proof fn lemma_two_items(a: JsonView, pa: Seq<Seq<char>>, b: JsonView, pb: Seq<Seq<char>>)
    requires
        rendered(a) == glued(pa),
        rendered(b) == glued(pb),
    ensures
        rendered_items(seq![a, b]) == glued(pa + seq![sign(',')] + pb),
{
    assert(seq![a, b].drop_last() =~= seq![a]);
    assert(seq![a].last() == a);
    assert(rendered_items(seq![a]) == rendered(a));
    lemma_glued_one(sign(','));
    lemma_glued_adds(pa, seq![sign(',')]);
    lemma_glued_adds(pa + seq![sign(',')], pb);
}

proof fn lemma_quoted_plain(s: Seq<char>)
    requires
        is_plain(s),
    ensures
        quoted(s) == seq!['"'] + s + seq!['"'],
{
    lemma_plain_is_kept(s);
}

/// The names and words of the body, in their quotes.
proof fn lemma_quoted_names()
    ensures
        quoted("model"@) == "\"model\""@,
        quoted("messages"@) == "\"messages\""@,
        quoted("role"@) == "\"role\""@,
        quoted("user"@) == "\"user\""@,
        quoted("content"@) == "\"content\""@,
        quoted("type"@) == "\"type\""@,
        quoted("text"@) == "\"text\""@,
        quoted("video_url"@) == "\"video_url\""@,
        quoted("url"@) == "\"url\""@,
        quoted("temperature"@) == "\"temperature\""@,
        quoted("stream"@) == "\"stream\""@,
{
    reveal_strlit("model");
    reveal_strlit("\"model\"");
    lemma_quoted_plain("model"@);
    assert(quoted("model"@) =~= "\"model\""@);
    reveal_strlit("messages");
    reveal_strlit("\"messages\"");
    lemma_quoted_plain("messages"@);
    assert(quoted("messages"@) =~= "\"messages\""@);
    reveal_strlit("role");
    reveal_strlit("\"role\"");
    lemma_quoted_plain("role"@);
    assert(quoted("role"@) =~= "\"role\""@);
    reveal_strlit("user");
    reveal_strlit("\"user\"");
    lemma_quoted_plain("user"@);
    assert(quoted("user"@) =~= "\"user\""@);
    reveal_strlit("content");
    reveal_strlit("\"content\"");
    lemma_quoted_plain("content"@);
    assert(quoted("content"@) =~= "\"content\""@);
    reveal_strlit("type");
    reveal_strlit("\"type\"");
    lemma_quoted_plain("type"@);
    assert(quoted("type"@) =~= "\"type\""@);
    reveal_strlit("text");
    reveal_strlit("\"text\"");
    lemma_quoted_plain("text"@);
    assert(quoted("text"@) =~= "\"text\""@);
    reveal_strlit("video_url");
    reveal_strlit("\"video_url\"");
    lemma_quoted_plain("video_url"@);
    assert(quoted("video_url"@) =~= "\"video_url\""@);
    reveal_strlit("url");
    reveal_strlit("\"url\"");
    lemma_quoted_plain("url"@);
    assert(quoted("url"@) =~= "\"url\""@);
    reveal_strlit("temperature");
    reveal_strlit("\"temperature\"");
    lemma_quoted_plain("temperature"@);
    assert(quoted("temperature"@) =~= "\"temperature\""@);
    reveal_strlit("stream");
    reveal_strlit("\"stream\"");
    lemma_quoted_plain("stream"@);
    assert(quoted("stream"@) =~= "\"stream\""@);
}

/// The fixed parts of the body, cut into names, words and signs.
spec fn opening_parts() -> Seq<Seq<char>> {
    seq![sign('{')].push(quoted("model"@)).push(sign(':'))
}

spec fn asking_parts() -> Seq<Seq<char>> {
    seq![sign(',')].push(quoted("messages"@)).push(sign(':')).push(sign('[')).push(sign('{'))
        .push(quoted("role"@)).push(sign(':')).push(quoted("user"@)).push(sign(','))
        .push(quoted("content"@)).push(sign(':')).push(sign('[')).push(sign('{'))
        .push(quoted("type"@)).push(sign(':')).push(quoted("text"@)).push(sign(','))
        .push(quoted("text"@)).push(sign(':'))
}

spec fn showing_parts() -> Seq<Seq<char>> {
    seq![sign('}')].push(sign(',')).push(sign('{')).push(quoted("type"@)).push(sign(':'))
        .push(quoted("video_url"@)).push(sign(',')).push(quoted("video_url"@)).push(sign(':'))
        .push(sign('{')).push(quoted("url"@)).push(sign(':'))
}

spec fn closing_parts() -> Seq<Seq<char>> {
    seq![sign('}')].push(sign('}')).push(sign(']')).push(sign('}'))
        .push(sign(']')).push(sign(',')).push(quoted("temperature"@)).push(sign(':'))
        .push("0.1"@).push(sign(',')).push(quoted("stream"@)).push(sign(':'))
        .push(seq!['f', 'a', 'l', 's', 'e']).push(sign('}'))
}

proof fn lemma_fixed_parts()
    ensures
        glued(opening_parts()) == "{\"model\":"@,
        glued(asking_parts())
            == ",\"messages\":[{\"role\":\"user\",\"content\":[{\"type\":\"text\",\"text\":"@,
        glued(showing_parts()) == "},{\"type\":\"video_url\",\"video_url\":{\"url\":"@,
        sign('"') + glued(closing_parts()) == body_tail(),
{
    broadcast use {lemma_glued_push, lemma_glued_one};

    lemma_quoted_names();
    reveal_strlit("\"model\"");
    reveal_strlit("\"messages\"");
    reveal_strlit("\"role\"");
    reveal_strlit("\"user\"");
    reveal_strlit("\"content\"");
    reveal_strlit("\"type\"");
    reveal_strlit("\"text\"");
    reveal_strlit("\"video_url\"");
    reveal_strlit("\"url\"");
    reveal_strlit("\"temperature\"");
    reveal_strlit("\"stream\"");
    reveal_strlit("0.1");
    reveal_strlit("{\"model\":");
    reveal_strlit(",\"messages\":[{\"role\":\"user\",\"content\":[{\"type\":\"text\",\"text\":");
    reveal_strlit("},{\"type\":\"video_url\",\"video_url\":{\"url\":");
    reveal_strlit("\"}}]}],\"temperature\":0.1,\"stream\":false}");
    assert(glued(opening_parts()) =~= "{\"model\":"@);
    assert(glued(asking_parts())
        =~= ",\"messages\":[{\"role\":\"user\",\"content\":[{\"type\":\"text\",\"text\":"@);
    assert(glued(showing_parts()) =~= "},{\"type\":\"video_url\",\"video_url\":{\"url\":"@);
    assert(sign('"') + glued(closing_parts()) =~= body_tail());
}

/// The parts of a record with two fields.
spec fn pair_parts(
    k1: Seq<char>,
    p1: Seq<Seq<char>>,
    k2: Seq<char>,
    p2: Seq<Seq<char>>,
) -> Seq<Seq<char>> {
    seq![sign('{')] + (field_parts(k1, p1) + seq![sign(',')] + field_parts(k2, p2)) + seq![sign('}')]
}

proof fn lemma_pair_parts(
    k1: Seq<char>,
    v1: JsonView,
    p1: Seq<Seq<char>>,
    k2: Seq<char>,
    v2: JsonView,
    p2: Seq<Seq<char>>,
)
    requires
        rendered(v1) == glued(p1),
        rendered(v2) == glued(p2),
    ensures
        rendered(JsonView::Record(seq![(k1, v1), (k2, v2)])) == glued(pair_parts(k1, p1, k2, p2)),
{
    lemma_first_field(k1, v1, p1);
    lemma_next_field(seq![(k1, v1)], field_parts(k1, p1), k2, v2, p2);
    assert(seq![(k1, v1)].push((k2, v2)) =~= seq![(k1, v1), (k2, v2)]);
    lemma_record_parts(
        seq![(k1, v1), (k2, v2)],
        field_parts(k1, p1) + seq![sign(',')] + field_parts(k2, p2),
    );
}

/// The parts of the message that shows the video.
spec fn message_parts(prompt: Seq<char>, url: Seq<char>) -> Seq<Seq<char>> {
    pair_parts(
        "role"@,
        seq![quoted("user"@)],
        "content"@,
        seq![sign('[')] + (pair_parts("type"@, seq![quoted("text"@)], "text"@, seq![quoted(prompt)])
            + seq![sign(',')] + pair_parts(
            "type"@,
            seq![quoted("video_url"@)],
            "video_url"@,
            seq![sign('{')] + field_parts("url"@, seq![quoted(url)]) + seq![sign('}')],
        )) + seq![sign(']')],
    )
}

proof fn lemma_message_parts(prompt: Seq<char>, url: Seq<char>)
    ensures
        rendered(video_message(prompt, url)) == glued(message_parts(prompt, url)),
{
    lemma_glued_one(quoted("user"@));
    lemma_glued_one(quoted("text"@));
    lemma_glued_one(quoted("video_url"@));
    lemma_glued_one(quoted(prompt));
    lemma_glued_one(quoted(url));
    let text = JsonView::Record(seq![("type"@, txt("text"@)), ("text"@, txt(prompt))]);
    let text_parts = pair_parts("type"@, seq![quoted("text"@)], "text"@, seq![quoted(prompt)]);
    lemma_pair_parts(
        "type"@,
        txt("text"@),
        seq![quoted("text"@)],
        "text"@,
        txt(prompt),
        seq![quoted(prompt)],
    );
    let address = rec1("url"@, txt(url));
    let address_parts = seq![sign('{')] + field_parts("url"@, seq![quoted(url)]) + seq![sign('}')];
    lemma_first_field("url"@, txt(url), seq![quoted(url)]);
    lemma_record_parts(seq![("url"@, txt(url))], field_parts("url"@, seq![quoted(url)]));
    let video = JsonView::Record(seq![("type"@, txt("video_url"@)), ("video_url"@, address)]);
    let video_parts = pair_parts("type"@, seq![quoted("video_url"@)], "video_url"@, address_parts);
    lemma_pair_parts(
        "type"@,
        txt("video_url"@),
        seq![quoted("video_url"@)],
        "video_url"@,
        address,
        address_parts,
    );
    lemma_two_items(text, text_parts, video, video_parts);
    let content_parts = text_parts + seq![sign(',')] + video_parts;
    lemma_list_parts(seq![text, video], content_parts);
    lemma_pair_parts(
        "role"@,
        txt("user"@),
        seq![quoted("user"@)],
        "content"@,
        JsonView::List(seq![text, video]),
        seq![sign('[')] + content_parts + seq![sign(']')],
    );
}

/// The parts of the body.
spec fn body_parts(model: Seq<char>, prompt: Seq<char>, url: Seq<char>) -> Seq<Seq<char>> {
    seq![sign('{')] + (field_parts("model"@, seq![quoted(model)]) + seq![sign(',')] + field_parts(
        "messages"@,
        seq![sign('[')] + message_parts(prompt, url) + seq![sign(']')],
    ) + seq![sign(',')] + field_parts("temperature"@, seq!["0.1"@]) + seq![sign(',')] + field_parts(
        "stream"@,
        seq![seq!['f', 'a', 'l', 's', 'e']],
    )) + seq![sign('}')]
}

proof fn lemma_body_parts(model: Seq<char>, prompt: Seq<char>, url: Seq<char>)
    ensures
        rendered(video_body(model, prompt, url)) == glued(body_parts(model, prompt, url)),
{
    let message = video_message(prompt, url);
    lemma_message_parts(prompt, url);
    assert(seq![message].last() == message);
    assert(rendered_items(seq![message]) == rendered(message));
    lemma_list_parts(seq![message], message_parts(prompt, url));
    let messages = JsonView::List(seq![message]);
    let messages_parts = seq![sign('[')] + message_parts(prompt, url) + seq![sign(']')];
    let number = JsonView::Number("0.1"@);
    let no = JsonView::Bool(false);
    let word = seq!['f', 'a', 'l', 's', 'e'];
    lemma_glued_one(quoted(model));
    lemma_glued_one("0.1"@);
    lemma_glued_one(word);
    let one = seq![("model"@, txt(model))];
    let p1 = field_parts("model"@, seq![quoted(model)]);
    lemma_first_field("model"@, txt(model), seq![quoted(model)]);
    let two = one.push(("messages"@, messages));
    let p2 = p1 + seq![sign(',')] + field_parts("messages"@, messages_parts);
    lemma_next_field(one, p1, "messages"@, messages, messages_parts);
    let three = two.push(("temperature"@, number));
    let p3 = p2 + seq![sign(',')] + field_parts("temperature"@, seq!["0.1"@]);
    lemma_next_field(two, p2, "temperature"@, number, seq!["0.1"@]);
    let four = three.push(("stream"@, no));
    let p4 = p3 + seq![sign(',')] + field_parts("stream"@, seq![word]);
    lemma_next_field(three, p3, "stream"@, no, seq![word]);
    lemma_record_parts(four, p4);
    assert(four =~= seq![
        ("model"@, txt(model)),
        ("messages"@, messages),
        ("temperature"@, number),
        ("stream"@, no),
    ]);
}

/// The parts before the address of the video.
spec fn asked_parts(model: Seq<char>, prompt: Seq<char>) -> Seq<Seq<char>> {
    opening_parts() + seq![quoted(model)] + asking_parts() + seq![quoted(prompt)] + showing_parts()
}

proof fn lemma_asked_parts(model: Seq<char>, prompt: Seq<char>)
    ensures
        glued(asked_parts(model, prompt)) == "{\"model\":"@ + quoted(model)
            + ",\"messages\":[{\"role\":\"user\",\"content\":[{\"type\":\"text\",\"text\":"@ + quoted(
            prompt,
        ) + "},{\"type\":\"video_url\",\"video_url\":{\"url\":"@,
{
    lemma_fixed_parts();
    lemma_glued_one(quoted(model));
    lemma_glued_one(quoted(prompt));
    let p1 = opening_parts() + seq![quoted(model)];
    let p2 = p1 + asking_parts();
    let p3 = p2 + seq![quoted(prompt)];
    lemma_glued_adds(opening_parts(), seq![quoted(model)]);
    lemma_glued_adds(p1, asking_parts());
    lemma_glued_adds(p2, seq![quoted(prompt)]);
    lemma_glued_adds(p3, showing_parts());
}

proof fn lemma_parts_agree(model: Seq<char>, prompt: Seq<char>, url: Seq<char>)
    ensures
        body_parts(model, prompt, url) == asked_parts(model, prompt) + seq![quoted(url)]
            + closing_parts(),
{
    let video_parts = pair_parts(
        "type"@,
        seq![quoted("video_url"@)],
        "video_url"@,
        seq![sign('{')] + field_parts("url"@, seq![quoted(url)]) + seq![sign('}')],
    );
    let text_parts = pair_parts("type"@, seq![quoted("text"@)], "text"@, seq![quoted(prompt)]);
    assert(text_parts.len() == 9);
    assert(video_parts.len() == 13);
    assert(message_parts(prompt, url).len() == 33);
    assert(body_parts(model, prompt, url).len() == 51);
    assert(body_parts(model, prompt, url) =~= asked_parts(model, prompt) + seq![quoted(url)]
        + closing_parts());
}

/// A text in three parts, the middle one of which is cut, is the same text.
proof fn lemma_regrouped(a: Seq<char>, b: Seq<char>, c: Seq<char>, d: Seq<char>, e: Seq<char>)
    ensures
        a + b + c + (d + e) == a + (b + c + d) + e,
{
    assert(a + b + c + (d + e) =~= a + (b + c + d) + e);
}

/// What is sent of a video is JSON: a value in which the address of the video is a data URL
/// that holds it whole, and each other text is escaped.
pub proof fn law_the_streamed_body_is_json(
    model: Seq<char>,
    prompt: Seq<char>,
    mime: Seq<char>,
    video: Seq<u8>,
)
    ensures
        body_head(model, prompt, mime) + b64(video) + body_tail() == rendered(
            video_body(model, prompt, "data:"@ + mime + ";base64,"@ + b64(video)),
        ),
{
    let data = "data:"@ + mime + ";base64,"@;
    let url = data + b64(video);
    let asked = asked_parts(model, prompt);
    let rest = glued(closing_parts());
    let opened = quoted(data).drop_last();
    assert(quoted(url) == opened + b64(video) + sign('"')) by {
        lemma_b64_is_plain(video);
        lemma_plain_is_kept(b64(video));
        lemma_escaped_adds(data, b64(video));
        assert(opened =~= seq!['"'] + escaped(data));
        assert(quoted(url) =~= opened + b64(video) + sign('"'));
    }
    assert(body_tail() == sign('"') + rest) by {
        lemma_fixed_parts();
    }
    assert(body_head(model, prompt, mime) == glued(asked) + opened) by {
        lemma_asked_parts(model, prompt);
    }
    assert(rendered(video_body(model, prompt, url)) == glued(asked) + quoted(url) + rest) by {
        lemma_body_parts(model, prompt, url);
        lemma_parts_agree(model, prompt, url);
        lemma_glued_one(quoted(url));
        lemma_glued_adds(asked, seq![quoted(url)]);
        lemma_glued_adds(asked + seq![quoted(url)], closing_parts());
    }
    lemma_regrouped(glued(asked), opened, b64(video), sign('"'), rest);
}

/// An address goes on from the server with a slash, and with what was written.
pub proof fn law_an_endpoint_starts_with_a_slash(written: Seq<char>, default: Seq<char>)
    ensures
        is_blank(written) ==> endpoint(written, default) == default,
        !is_blank(written) ==> starts_with(endpoint(written, default), "/"@)
            && crate::text::ends_with(endpoint(written, default), trim(written)),
        !is_blank(written) ==> endpoint(written, default).len() <= trim(written).len() + 1,
{
    reveal_strlit("/");
    let t = trim(written);
    let e = endpoint(written, default);
    if !is_blank(written) {
        let k = e.len() - t.len();
        assert(e.subrange(k, k + t.len()) =~= t);
        if !starts_with(t, "/"@) {
            assert(e.subrange(0, 1) =~= "/"@);
        }
    }
}

/// A transcription is the text that the server gives, or its whole answer where it gives none.
pub proof fn law_a_transcription_is_the_text(v: JsonView, text: Seq<char>, body: Seq<char>)
    requires
        field_text(v, "text"@) == Some(text),
    ensures
        crate::reading::reading(transcript(Some(v), body)) == crate::reading::reading(text),
        crate::reading::reading(transcript(None, body)) == crate::reading::reading(body),
{
    crate::reading::lemma_reading_trim(text);
    crate::reading::lemma_reading_trim(body);
}

/// A file's address holds its path with slashes alone, behind three of them.
pub proof fn law_a_file_address_holds_the_path(path: Seq<char>)
    ensures
        starts_with(file_uri(path), "file:///"@),
        crate::text::ends_with(file_uri(path), swap_char(path, '\\', '/')),
        forall|i: int| 0 <= i < file_uri(path).len() ==> #[trigger] file_uri(path)[i] != '\\',
{
    reveal_strlit("/");
    reveal_strlit("file://");
    reveal_strlit("file:///");
    let p = swap_char(path, '\\', '/');
    let u = file_uri(path);
    let k = u.len() - p.len();
    assert(u.subrange(k, k + p.len()) =~= p);
    if starts_with(p, "/"@) {
        assert(p.subrange(0, 1)[0] == p[0]);
        assert("/"@[0] == '/');
        assert(u.subrange(0, 8) =~= "file:///"@);
    } else {
        assert(u.subrange(0, 8) =~= "file:///"@);
    }
}

} // verus!
