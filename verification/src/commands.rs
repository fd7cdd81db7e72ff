//! What the commands of the application decide between what they read and what they do.

use vstd::prelude::*;

use crate::bytes::{b64, b64_len, base64_text, lossy_text, utf8_lossy};
use crate::chat::HttpReply;
use crate::config::{path_under_root, under_root, AppConfig};
use crate::json::{
    field, field_text, lemma_list_view, list_view, parsed, rec1, rec2, record1, record2, text_json,
    txt, Json, JsonView,
};
use crate::ollama_server::{native_base, native_base_spec};
use crate::pending::{summary_of, summary_spec};
use crate::text::{
    cat2, cat3, cat4, cat5, contains, decimal, decimal_text, first_chars, is_blank, joined, join,
    lower_case, opt, part, push_all, str_contains, str_eq, str_first_chars, str_is_blank,
    str_is_empty, str_trim, str_trim_end_of, str_trim_end_pat, to_chars, lowered, to_text, trim,
    trim_end_of, trim_end_pat, views,
};
use crate::worker::{kind_name, route_for, stages, Queued};

verus! {

// ---------------------------------------------------------------------------
// Models of a server
// ---------------------------------------------------------------------------

/// The identifiers of the models of a list.
pub open spec fn ids_of(v: Seq<JsonView>) -> Seq<Seq<char>>
    decreases v.len(),
{
    if v.len() == 0 {
        Seq::empty()
    } else {
        match field_text(v.last(), "id"@) {
            Some(id) => ids_of(v.drop_last()).push(id),
            None => ids_of(v.drop_last()),
        }
    }
}

pub open spec fn listed_ids(reply: JsonView) -> Seq<Seq<char>> {
    match field(reply, "data"@) {
        Some(JsonView::List(v)) => ids_of(v),
        _ => Seq::empty(),
    }
}

/// The models that a server lists.
pub fn model_ids(reply: &Json) -> (r: Vec<String>)
    ensures
        views(r@) == listed_ids(reply.view()),
{
    let mut out: Vec<String> = Vec::new();
    assert(views(out@) =~= Seq::<Seq<char>>::empty());
    match reply.get("data") {
        Some(Json::List(v)) => {
            let ghost all = list_view(v@);
            proof {
                lemma_list_view(v@);
            }
            let mut i: usize = 0;
            assert(all.take(0) =~= Seq::<JsonView>::empty());
            while i < v.len()
                invariant
                    i <= v.len(),
                    all == list_view(v@),
                    all.len() == v@.len(),
                    forall|k: int| 0 <= k < v@.len() ==> (#[trigger] all[k]) == v@[k].view(),
                    views(out@) == ids_of(all.take(i as int)),
                decreases v.len() - i,
            {
                assert(all.take(i + 1).drop_last() =~= all.take(i as int));
                assert(all.take(i + 1).last() == all[i as int]);
                let ghost before = views(out@);
                if let Some(id) = v[i].get_text("id") {
                    out.push(id.to_owned());
                    assert(views(out@) =~= before.push(id@));
                }
                i = i + 1;
            }
            assert(all.take(i as int) =~= all);
        },
        _ => {},
    }
    out
}

/// Why a server that was asked gave no answer.
pub open spec fn no_answer(reply: HttpReply) -> Option<Seq<char>> {
    match reply {
        HttpReply::NotSent(e) => Some("serveur injoignable: "@ + e@),
        HttpReply::Refused { status, status_text, body } => Some(
            "le serveur a répondu "@ + status_text@,
        ),
        HttpReply::Unreadable(e) => Some(e@),
        HttpReply::Answer(_) => None,
    }
}

/// The models of a server, by what it answered to `models_url`.
pub fn fetch_models(reply: &HttpReply) -> (r: Result<Vec<String>, String>)
    ensures
        match r {
            Ok(v) => (*reply matches HttpReply::Answer(j) && views(v@) == listed_ids(j.view())),
            Err(e) => no_answer(*reply) == Some(e@),
        },
{
    match reply {
        HttpReply::NotSent(e) => Err(cat2("serveur injoignable: ", e.as_str())),
        HttpReply::Refused { status: _, status_text, body: _ } => Err(
            cat2("le serveur a répondu ", status_text.as_str()),
        ),
        HttpReply::Unreadable(e) => Err(e.clone()),
        HttpReply::Answer(j) => Ok(model_ids(j)),
    }
}

/// The name of a model without its tag.
pub open spec fn untagged(s: Seq<char>) -> Seq<char>
    decreases s.len(),
{
    if s.len() == 0 || s[0] == ':' {
        Seq::empty()
    } else {
        seq![s[0]] + untagged(s.skip(1))
    }
}

fn without_tag(s: &str) -> (r: String)
    ensures
        r@ == untagged(s@),
{
    let c = to_chars(s);
    let n: usize = c.len();
    let mut i: usize = 0;
    assert(s@.skip(0) =~= s@);
    assert(s@.take(0) + untagged(s@) =~= untagged(s@));
    while i < n && c[i] != ':'
        invariant
            i <= n,
            n == s@.len(),
            c@ == s@,
            untagged(s@) == s@.take(i as int) + untagged(s@.skip(i as int)),
        decreases n - i,
    {
        assert(s@.skip(i as int).skip(1) =~= s@.skip(i + 1));
        assert(s@.take(i as int) + (seq![s@[i as int]] + untagged(s@.skip(i + 1))) =~= s@.take(
            i + 1,
        ) + untagged(s@.skip(i + 1)));
        i = i + 1;
    }
    let p = part(c.as_slice(), 0, i);
    assert(p@ =~= s@.take(i as int));
    assert(s@.take(i as int) + Seq::<char>::empty() =~= s@.take(i as int));
    to_text(p)
}

/// A server has a model if it lists it, whatever the tag.
pub open spec fn is_installed(models: Seq<Seq<char>>, model: Seq<char>) -> bool {
    exists|i: int|
        0 <= i < models.len() && untagged(#[trigger] models[i]) == untagged(model)
}

fn installed(models: &Vec<String>, model: &str) -> (r: bool)
    ensures
        r == is_installed(views(models@), model@),
{
    let bare = without_tag(model);
    let mut i: usize = 0;
    while i < models.len()
        invariant
            i <= models.len(),
            bare@ == untagged(model@),
            forall|k: int|
                0 <= k < i ==> untagged(#[trigger] views(models@)[k]) != untagged(model@),
        decreases models.len() - i,
    {
        if str_eq(without_tag(models[i].as_str()).as_str(), bare.as_str()) {
            assert(untagged(views(models@)[i as int]) == untagged(model@));
            return true;
        }
        i = i + 1;
    }
    false
}

/// Whether a server has the model that is set. `models` is what the server lists.
pub fn test_chat_endpoint(models: &Vec<String>, model: &str) -> (r: Result<String, String>)
    ensures
        match r {
            Ok(m) => if model@.len() == 0 {
                m@ == "Serveur joignable ("@ + decimal(models@.len())
                    + " modèle(s) disponible(s))"@
            } else {
                is_installed(views(models@), model@) && m@ == "Connecté — modèle « "@ + model@
                    + " » disponible"@
            },
            Err(e) => model@.len() > 0 && !is_installed(views(models@), model@) && e@
                == "Serveur joignable mais modèle « "@ + model@
                + " » introuvable. Modèles installés : "@ + (if models@.len() == 0 {
                "aucun"@
            } else {
                join(views(models@), ", "@)
            }),
        },
{
    if str_is_empty(model) {
        return Ok(
            cat3(
                "Serveur joignable (",
                decimal_text(models.len() as u64).as_str(),
                " modèle(s) disponible(s))",
            ),
        );
    }
    if installed(models, model) {
        Ok(cat3("Connecté — modèle « ", model, " » disponible"))
    } else {
        let list = if models.len() == 0 {
            "aucun".to_owned()
        } else {
            joined(models, ", ")
        };
        Err(
            cat4(
                "Serveur joignable mais modèle « ",
                model,
                " » introuvable. Modèles installés : ",
                list.as_str(),
            ),
        )
    }
}

/// The request that tries an embedding model.
pub fn embedding_test_body(model: &str) -> (r: Json)
    ensures
        r.view() == rec2("input"@, JsonView::List(seq![txt("test"@)]), "model"@, txt(model@)),
{
    record2("input", crate::json::list1(text_json("test")), "model", text_json(model))
}

/// How many numbers the first vector of an answer has.
pub open spec fn vector_length(reply: JsonView) -> Option<nat> {
    match field(reply, "data"@) {
        Some(JsonView::List(v)) => if v.len() > 0 {
            match field(v[0], "embedding"@) {
                Some(JsonView::List(e)) => Some(e.len()),
                _ => None,
            }
        } else {
            None
        },
        _ => None,
    }
}

fn length_of_vector(reply: &Json) -> (r: Option<usize>)
    ensures
        match r {
            Some(n) => vector_length(reply.view()) == Some(n as nat),
            None => vector_length(reply.view()) is None,
        },
{
    match reply.get("data") {
        Some(Json::List(v)) => if v.len() > 0 {
            proof {
                lemma_list_view(v@);
            }
            match v[0].get("embedding") {
                Some(Json::List(e)) => {
                    proof {
                        lemma_list_view(e@);
                    }
                    Some(e.len())
                },
                _ => None,
            }
        } else {
            None
        },
        _ => None,
    }
}

/// What is told of an embedding model that was tried.
pub open spec fn embedding_verdict(reply: HttpReply) -> Result<Seq<char>, Seq<char>> {
    match reply {
        HttpReply::NotSent(e) => Err("serveur injoignable: "@ + e@),
        HttpReply::Refused { status, status_text, body } => Err(
            "le serveur a répondu "@ + status_text@ + ": "@ + first_chars(body@, 200),
        ),
        HttpReply::Unreadable(e) => Err(e@),
        HttpReply::Answer(j) => match vector_length(j.view()) {
            Some(n) => Ok(
                "Modèle OK — "@ + decimal(n) + " dimensions (règle « Dimensions » sur "@
                    + decimal(n) + ")"@,
            ),
            None => Err("réponse sans vecteur d'embedding"@),
        },
    }
}

pub open spec fn result_view(r: Result<String, String>) -> Result<Seq<char>, Seq<char>> {
    match r {
        Ok(s) => Ok(s@),
        Err(e) => Err(e@),
    }
}

pub fn test_embedding_endpoint(reply: &HttpReply) -> (r: Result<String, String>)
    ensures
        result_view(r) == embedding_verdict(*reply),
{
    match reply {
        HttpReply::NotSent(e) => Err(cat2("serveur injoignable: ", e.as_str())),
        HttpReply::Refused { status: _, status_text, body } => Err(
            cat4(
                "le serveur a répondu ",
                status_text.as_str(),
                ": ",
                str_first_chars(body.as_str(), 200).as_str(),
            ),
        ),
        HttpReply::Unreadable(e) => Err(e.clone()),
        HttpReply::Answer(j) => match length_of_vector(j) {
            Some(n) => {
                let d = decimal_text(n as u64);
                Ok(
                    cat5(
                        "Modèle OK — ",
                        d.as_str(),
                        " dimensions (règle « Dimensions » sur ",
                        d.as_str(),
                        ")",
                    ),
                )
            },
            None => Err("réponse sans vecteur d'embedding".to_owned()),
        },
    }
}

// ---------------------------------------------------------------------------
// Installing and removing models
// ---------------------------------------------------------------------------

/// An address in lower case that is that of LM Studio.
pub open spec fn is_lmstudio_address(u: Seq<char>) -> bool {
    contains(u, ":1234"@) || contains(u, "lmstudio"@) || contains(u, "lm-studio"@) || contains(
        u,
        "lm_studio"@,
    )
}

pub fn is_lmstudio_lower(u: &str) -> (r: bool)
    ensures
        r == is_lmstudio_address(u@),
{
    str_contains(u, ":1234") || str_contains(u, "lmstudio") || str_contains(u, "lm-studio")
        || str_contains(u, "lm_studio")
}

pub fn is_lmstudio(base_url: &str) -> (r: bool)
    ensures
        r == is_lmstudio_address(lower_case(base_url@)),
{
    is_lmstudio_lower(lowered(base_url).as_str())
}

/// How the program that loads models for LM Studio ended.
#[derive(Debug)]
pub enum LmsEnd {
    Done,
    Failed { stderr: String, stdout: String },
    /// There is no such program.
    Missing,
    NotStarted(String),
    Interrupted(String),
}

/// What is told of it.
pub open spec fn lms_verdict(model: Seq<char>, end: LmsEnd) -> Result<Seq<char>, Seq<char>> {
    match end {
        LmsEnd::Done => Ok("Modèle « "@ + model + " » téléchargé (LM Studio)"@),
        LmsEnd::Failed { stderr, stdout } => Err(
            "échec de `lms get` : "@ + (if is_blank(stderr@) {
                trim(stdout@)
            } else {
                trim(stderr@)
            }),
        ),
        LmsEnd::Missing => Err(
            "CLI « lms » introuvable. Installez le CLI LM Studio (commande `lms`) ou téléchargez le modèle depuis l'application LM Studio."@,
        ),
        LmsEnd::NotStarted(e) => Err("lancement de `lms` impossible : "@ + e@),
        LmsEnd::Interrupted(e) => Err("tâche lms interrompue : "@ + e@),
    }
}

pub fn pull_lmstudio(model: &str, end: &LmsEnd) -> (r: Result<String, String>)
    ensures
        result_view(r) == lms_verdict(model@, *end),
{
    match end {
        LmsEnd::Done => Ok(cat3("Modèle « ", model, " » téléchargé (LM Studio)")),
        LmsEnd::Failed { stderr, stdout } => {
            let said = if str_is_blank(stderr.as_str()) {
                str_trim(stdout.as_str())
            } else {
                str_trim(stderr.as_str())
            };
            Err(cat2("échec de `lms get` : ", said.as_str()))
        },
        LmsEnd::Missing => Err(
            "CLI « lms » introuvable. Installez le CLI LM Studio (commande `lms`) ou téléchargez le modèle depuis l'application LM Studio.".to_owned(),
        ),
        LmsEnd::NotStarted(e) => Err(cat2("lancement de `lms` impossible : ", e.as_str())),
        LmsEnd::Interrupted(e) => Err(cat2("tâche lms interrompue : ", e.as_str())),
    }
}

/// A request to a server.
#[derive(Debug)]
pub struct ModelRequest {
    pub url: String,
    pub body: Json,
}

/// The request that removes a model; none for LM Studio and none without a model.
pub fn delete_request(base_url: &str, model: &str) -> (r: Result<ModelRequest, String>)
    ensures
        match r {
            Ok(q) => !is_lmstudio_address(lower_case(base_url@)) && !is_blank(model@) && q.url@
                == native_base_spec(base_url@) + "/api/delete"@ && q.body.view() == rec1(
                "model"@,
                txt(model@),
            ),
            Err(e) => if is_lmstudio_address(lower_case(base_url@)) {
                e@
                    == "LM Studio n'expose pas de suppression : retire le modèle depuis son interface."@
            } else {
                is_blank(model@) && e@ == "aucun modèle indiqué"@
            },
        },
{
    if is_lmstudio(base_url) {
        return Err(
            "LM Studio n'expose pas de suppression : retire le modèle depuis son interface.".to_owned(),
        );
    }
    if str_is_blank(model) {
        return Err("aucun modèle indiqué".to_owned());
    }
    Ok(
        ModelRequest {
            url: cat2(native_base(base_url).as_str(), "/api/delete"),
            body: record1("model", text_json(model)),
        },
    )
}

/// What came back from a server that was asked to remove a model.
#[derive(Debug)]
pub enum DeleteReply {
    NotSent(String),
    Status { code: u16, text: String, detail: String },
}

pub open spec fn is_success(code: u16) -> bool {
    200 <= code < 300
}

pub open spec fn delete_failure(model: Seq<char>, reply: DeleteReply) -> Option<Seq<char>> {
    match reply {
        DeleteReply::NotSent(e) => Some("suppression impossible (serveur Ollama ?) : "@ + e@),
        DeleteReply::Status { code, text, detail } => if code == 404 {
            Some("« "@ + model + " » n'est pas installé sur ce serveur"@)
        } else if !is_success(code) {
            Some("échec de la suppression ("@ + text@ + ") : "@ + detail@)
        } else {
            None
        },
    }
}

pub fn delete_model(model: &str, reply: &DeleteReply) -> (r: Result<(), String>)
    ensures
        match r {
            Ok(_) => delete_failure(model@, *reply) is None,
            Err(e) => delete_failure(model@, *reply) == Some(e@),
        },
{
    match reply {
        DeleteReply::NotSent(e) => Err(
            cat2("suppression impossible (serveur Ollama ?) : ", e.as_str()),
        ),
        DeleteReply::Status { code, text, detail } => if *code == 404 {
            Err(cat3("« ", model, " » n'est pas installé sur ce serveur"))
        } else if !(200 <= *code && *code < 300) {
            Err(cat4("échec de la suppression (", text.as_str(), ") : ", detail.as_str()))
        } else {
            Ok(())
        },
    }
}

/// The request that loads a model onto a server.
pub fn pull_request(base_url: &str, model: &str) -> (r: ModelRequest)
    ensures
        r.url@ == trim_end_pat(trim_end_of(base_url@, '/', '/'), "/v1"@) + "/api/pull"@,
        r.body.view() == rec2("name"@, txt(model@), "stream"@, JsonView::Bool(true)),
{
    let root = str_trim_end_pat(str_trim_end_of(base_url, '/', '/').as_str(), "/v1");
    ModelRequest {
        url: cat2(root.as_str(), "/api/pull"),
        body: record2("name", text_json(model), "stream", Json::Bool(true)),
    }
}

/// How far a model was loaded.
#[derive(Debug)]
pub struct PullProgress {
    pub status: String,
    pub completed: u64,
    pub total: u64,
}

pub struct ProgressView {
    pub status: Seq<char>,
    pub completed: int,
    pub total: int,
}

impl PullProgress {
    pub open spec fn view(self) -> ProgressView {
        ProgressView {
            status: self.status@,
            completed: self.completed as int,
            total: self.total as int,
        }
    }
}

pub open spec fn progress_views(v: Seq<PullProgress>) -> Seq<ProgressView> {
    Seq::new(v.len(), |i: int| v[i].view())
}

pub open spec fn count_at(v: JsonView, key: Seq<char>) -> int {
    match crate::json::in_u64(crate::json::field_int(v, key)) {
        Some(n) => n,
        None => 0,
    }
}

pub open spec fn progress_of(v: JsonView) -> ProgressView {
    ProgressView {
        status: match field_text(v, "status"@) {
            Some(s) => s,
            None => Seq::empty(),
        },
        completed: count_at(v, "completed"@),
        total: count_at(v, "total"@),
    }
}

/// What a line of the answer tells: nothing, how far the server is, or that it failed.
pub enum LineView {
    Nothing,
    Progress(ProgressView),
    Failed(Seq<char>),
}

pub open spec fn line_told(line: Seq<char>) -> LineView {
    if is_blank(line) {
        LineView::Nothing
    } else {
        match parsed(trim(line)) {
            Some(v) => match field_text(v, "error"@) {
                Some(e) => LineView::Failed(e),
                None => LineView::Progress(progress_of(v)),
            },
            None => LineView::Nothing,
        }
    }
}

/// Where the line that starts at `i` ends; the length of the text where it does not end.
pub open spec fn line_end(s: Seq<char>, i: int) -> int
    decreases s.len() - i,
{
    if i < 0 || i >= s.len() {
        s.len() as int
    } else if s[i] == '\n' {
        i
    } else {
        line_end(s, i + 1)
    }
}

/// What the whole lines of a text tell, up to the first failure, and what is left after them.
#[verifier::ext_equal]
pub struct PulledView {
    pub events: Seq<ProgressView>,
    pub rest: Seq<char>,
    pub error: Option<Seq<char>>,
}

pub open spec fn after_event(e: Seq<ProgressView>, p: PulledView) -> PulledView {
    PulledView { events: e + p.events, ..p }
}

pub open spec fn pulled(s: Seq<char>) -> PulledView
    decreases s.len(),
    via pulled_ends
{
    let end = line_end(s, 0);
    if end >= s.len() {
        PulledView { events: Seq::empty(), rest: s, error: None }
    } else {
        let rest = s.skip(end + 1);
        match line_told(s.take(end)) {
            LineView::Nothing => pulled(rest),
            LineView::Progress(p) => after_event(seq![p], pulled(rest)),
            LineView::Failed(e) => PulledView { events: Seq::empty(), rest, error: Some(e) },
        }
    }
}

proof fn lemma_line_end(s: Seq<char>, i: int)
    requires
        0 <= i,
    ensures
        i <= s.len() ==> i <= line_end(s, i),
        line_end(s, i) <= s.len(),
        line_end(s, i) < s.len() ==> s[line_end(s, i)] == '\n',
        forall|k: int| i <= k < line_end(s, i) ==> #[trigger] s[k] != '\n',
    decreases s.len() - i,
{
    if i < s.len() && s[i] != '\n' {
        lemma_line_end(s, i + 1);
        assert forall|k: int| i <= k < line_end(s, i) implies #[trigger] s[k] != '\n' by {
            if k > i {
                assert(s[k] != '\n');
            }
        }
    }
}

#[via_fn]
proof fn pulled_ends(s: Seq<char>) {
    lemma_line_end(s, 0);
}

proof fn lemma_line_end_grows(a: Seq<char>, b: Seq<char>, i: int)
    requires
        0 <= i,
        line_end(a, i) < a.len(),
    ensures
        line_end(a + b, i) == line_end(a, i),
    decreases a.len() - i,
{
    if i < a.len() && a[i] != '\n' {
        lemma_line_end_grows(a, b, i + 1);
    }
}

/// It makes no difference in what pieces an answer arrives: what was left of the first piece
/// is read with the second.
pub proof fn law_pieces_make_no_difference(a: Seq<char>, b: Seq<char>)
    requires
        pulled(a).error is None,
    ensures
        pulled(a + b) == after_event(pulled(a).events, pulled(pulled(a).rest + b)),
    decreases a.len(),
{
    let end = line_end(a, 0);
    lemma_line_end(a, 0);
    if end >= a.len() {
        assert(pulled(a + b) =~= after_event(pulled(a).events, pulled(a + b)));
    } else {
        lemma_line_end_grows(a, b, 0);
        let rest = a.skip(end + 1);
        assert((a + b).skip(end + 1) =~= rest + b);
        assert((a + b).take(end) =~= a.take(end));
        law_pieces_make_no_difference(rest, b);
        let tail = pulled(pulled(rest).rest + b);
        match line_told(a.take(end)) {
            LineView::Progress(p) => {
                assert(after_event(seq![p], after_event(pulled(rest).events, tail)) =~= after_event(
                    seq![p] + pulled(rest).events,
                    tail,
                ));
            },
            _ => {},
        }
    }
}

/// An answer that is read while it arrives.
#[derive(Debug)]
pub struct PullRun {
    pub buf: Vec<char>,
}

/// What a piece of the answer tells.
#[derive(Debug)]
pub struct PullStep {
    pub events: Vec<PullProgress>,
    pub error: Option<String>,
}

enum LineTold {
    Nothing,
    Progress(PullProgress),
    Failed(String),
}

impl LineTold {
    spec fn view(self) -> LineView {
        match self {
            LineTold::Nothing => LineView::Nothing,
            LineTold::Progress(p) => LineView::Progress(p.view()),
            LineTold::Failed(e) => LineView::Failed(e@),
        }
    }
}

fn read_line(line: &[char]) -> (r: LineTold)
    ensures
        r.view() == line_told(line@),
{
    let text = to_text(line);
    if str_is_blank(text.as_str()) {
        return LineTold::Nothing;
    }
    match Json::parse(str_trim(text.as_str()).as_str()) {
        Some(v) => {
            if let Some(e) = v.get_text("error") {
                return LineTold::Failed(e.to_owned());
            }
            let status = v.get_text_or_empty("status");
            let total = match v.get_u64("total") {
                Some(n) => n,
                None => 0,
            };
            let completed = match v.get_u64("completed") {
                Some(n) => n,
                None => 0,
            };
            let p = PullProgress { status, completed, total };
            assert(p.view().status =~= progress_of(v.view()).status);
            LineTold::Progress(p)
        },
        None => LineTold::Nothing,
    }
}

fn end_of_line(s: &[char], from: usize) -> (r: usize)
    requires
        from <= s@.len(),
    ensures
        r == line_end(s@, from as int),
        from <= r <= s@.len(),
{
    let n: usize = s.len();
    let mut i: usize = from;
    while i < n && s[i] != '\n'
        invariant
            from <= i <= n,
            n == s@.len(),
            line_end(s@, from as int) == line_end(s@, i as int),
        decreases n - i,
    {
        i = i + 1;
    }
    i
}

proof fn lemma_line_end_skip(s: Seq<char>, from: int, i: int)
    requires
        0 <= from <= i <= s.len(),
    ensures
        line_end(s.skip(from), i - from) == line_end(s, i) - from,
    decreases s.len() - i,
{
    if i < s.len() && s[i] != '\n' {
        lemma_line_end_skip(s, from, i + 1);
    }
}

impl PullRun {
    pub fn new() -> (r: PullRun)
        ensures
            r.buf@ == Seq::<char>::empty(),
    {
        PullRun { buf: Vec::new() }
    }

    /// Reads a piece of the answer. After an error nothing more is read.
    pub fn on_text(&mut self, text: &str) -> (r: PullStep)
        ensures
            progress_views(r.events@) == pulled(old(self).buf@ + text@).events,
            opt(r.error) == pulled(old(self).buf@ + text@).error,
            final(self).buf@ == pulled(old(self).buf@ + text@).rest,
    {
        let ghost all = self.buf@ + text@;
        push_all(&mut self.buf, to_chars(text).as_slice());
        assert(self.buf@ =~= all);
        let n: usize = self.buf.len();
        let mut events: Vec<PullProgress> = Vec::new();
        let mut from: usize = 0;
        assert(all.skip(0) =~= all);
        assert(progress_views(events@) =~= Seq::<ProgressView>::empty());
        assert(pulled(all) =~= after_event(progress_views(events@), pulled(all.skip(0))));
        loop
            invariant
                from <= n,
                n == all.len(),
                all == old(self).buf@ + text@,
                self.buf@ == all,
                pulled(all) == after_event(
                    progress_views(events@),
                    pulled(all.skip(from as int)),
                ),
            decreases n - from,
        {
            let s = self.buf.as_slice();
            let end = end_of_line(s, from);
            let ghost here = all.skip(from as int);
            proof {
                lemma_line_end_skip(all, from as int, from as int);
                lemma_line_end(here, 0);
            }
            if end >= n {
                let left = part(s, from, n);
                assert(left@ =~= here);
                let mut buf: Vec<char> = Vec::new();
                push_all(&mut buf, left);
                assert(buf@ =~= here);
                self.buf = buf;
                assert(pulled(all).events =~= progress_views(events@));
                return PullStep { events, error: None };
            }
            let line = part(s, from, end);
            assert(line@ =~= here.take(end - from));
            assert(here.skip(end - from + 1) =~= all.skip(end + 1));
            let ghost before = progress_views(events@);
            match read_line(line) {
                LineTold::Nothing => {},
                LineTold::Progress(p) => {
                    let ghost pv = p.view();
                    events.push(p);
                    assert(progress_views(events@) =~= before.push(pv));
                    assert(after_event(before, after_event(seq![pv], pulled(all.skip(end + 1))))
                        =~= after_event(before.push(pv), pulled(all.skip(end + 1))));
                },
                LineTold::Failed(e) => {
                    let left = part(s, end + 1, n);
                    assert(left@ =~= all.skip(end + 1));
                    let mut buf: Vec<char> = Vec::new();
                    push_all(&mut buf, left);
                    assert(buf@ =~= all.skip(end + 1));
                    self.buf = buf;
                    assert(pulled(all).events =~= progress_views(events@));
                    return PullStep { events, error: Some(e) };
                },
            }
            from = end + 1;
        }
    }

    /// Reads a piece of the answer as it arrives.
    pub fn on_bytes(&mut self, bytes: &[u8]) -> (r: PullStep)
        ensures
            progress_views(r.events@) == pulled(old(self).buf@ + utf8_lossy(bytes@)).events,
            opt(r.error) == pulled(old(self).buf@ + utf8_lossy(bytes@)).error,
            final(self).buf@ == pulled(old(self).buf@ + utf8_lossy(bytes@)).rest,
    {
        let text = lossy_text(bytes);
        self.on_text(text.as_str())
    }
}

/// What is told once the whole answer has arrived.
pub fn pulled_message(model: &str) -> (r: String)
    ensures
        r@ == "Modèle « "@ + model@ + " » téléchargé"@,
{
    cat3("Modèle « ", model, " » téléchargé")
}

// ---------------------------------------------------------------------------
// The queue
// ---------------------------------------------------------------------------

/// How many failures are shown.
pub const FAILED_SHOWN: i64 = 100;

/// How many entries of the queue are shown.
pub fn queue_limit(limit: Option<i64>) -> (r: i64)
    ensures
        r == (match limit {
            Some(n) => if n < 1 {
                1i64
            } else if n > 300 {
                300i64
            } else {
                n
            },
            None => 60i64,
        }),
{
    match limit {
        Some(n) => if n < 1 {
            1
        } else if n > 300 {
            300
        } else {
            n
        },
        None => 60,
    }
}

/// An entry of the queue, and what lies at its path.
#[derive(Debug)]
pub struct QueueEntry {
    pub path: String,
    pub queued: Queued,
    pub status: String,
    pub retry_count: i64,
    pub last_error: Option<String>,
}

/// An entry of the queue with the stages that it goes through.
#[derive(Debug)]
pub struct QueueItemView {
    pub path: String,
    pub routes: Vec<String>,
    pub kind: String,
    pub status: String,
    pub retry_count: i64,
    pub last_error: Option<String>,
}

pub fn queue_item(cfg: &AppConfig, q: QueueEntry) -> (r: QueueItemView)
    ensures
        r.path@ == q.path@,
        views(r.routes@) == stages(*cfg, q.queued),
        r.kind@ == kind_name(q.queued),
        r.status@ == q.status@,
        r.retry_count == q.retry_count,
        r.last_error == q.last_error,
{
    let (stages_of, kind) = route_for(cfg, &q.queued);
    let ghost want = stages(*cfg, q.queued);
    let mut routes: Vec<String> = Vec::new();
    let mut i: usize = 0;
    assert(views(routes@) =~= want.take(0));
    while i < stages_of.len()
        invariant
            i <= stages_of.len(),
            Seq::new(stages_of@.len(), |k: int| stages_of@[k]@) == want,
            views(routes@) == want.take(i as int),
        decreases stages_of.len() - i,
    {
        let ghost before = views(routes@);
        assert(Seq::new(stages_of@.len(), |k: int| stages_of@[k]@)[i as int] == want[i as int]);
        routes.push(stages_of[i].to_owned());
        assert(views(routes@) =~= before.push(want[i as int]));
        i = i + 1;
        assert(views(routes@) =~= want.take(i as int));
    }
    assert(Seq::new(stages_of@.len(), |k: int| stages_of@[k]@).len() == want.len());
    assert(want.take(i as int) =~= want);
    QueueItemView {
        path: q.path,
        routes,
        kind: kind.to_owned(),
        status: q.status,
        retry_count: q.retry_count,
        last_error: q.last_error,
    }
}

// ---------------------------------------------------------------------------
// Folders
// ---------------------------------------------------------------------------

/// What follows a choice of how a folder is indexed.
#[derive(Debug, PartialEq, Eq, Structural)]
pub enum ModeStep {
    /// What is indexed below the folder goes, and the folder is queued as a block.
    AsBlock,
    /// The block goes, and the folder is scanned.
    Rescan,
}

/// The priority with which a folder that was chosen as a block is queued.
pub const PRIORITY_CHOSEN_BLOCK: i64 = 9;

pub fn set_folder_mode(roots: &Vec<String>, path: &str, mode: &str) -> (r: Result<
    ModeStep,
    String,
>)
    ensures
        match r {
            Ok(s) => under_root(views(roots@), path@) && s == (if mode@ == "block"@ {
                ModeStep::AsBlock
            } else {
                ModeStep::Rescan
            }),
            Err(e) => !under_root(views(roots@), path@) && e@
                == "Ce dossier ne fait pas partie de l'indexation : ajoutez-le d'abord aux dossiers indexés."@,
        },
{
    if !path_under_root(roots, path) {
        return Err(
            "Ce dossier ne fait pas partie de l'indexation : ajoutez-le d'abord aux dossiers indexés.".to_owned(),
        );
    }
    if str_eq(mode, "block") {
        Ok(ModeStep::AsBlock)
    } else {
        Ok(ModeStep::Rescan)
    }
}

// ---------------------------------------------------------------------------
// Qualifying on demand
// ---------------------------------------------------------------------------

pub const REASONING_OFF: &'static str = "Le modèle de reasoning est désactivé.";

/// What is known of a file that was indexed.
#[derive(Debug)]
pub struct KnownFile {
    pub doc_type: String,
    pub extract: Option<String>,
}

/// What is qualified of a file.
#[derive(Debug)]
pub struct ToQualify {
    pub doc_type: String,
    pub extract: String,
}

pub open spec fn type_or_document(t: Seq<char>) -> Seq<char> {
    if is_blank(t) {
        "document"@
    } else {
        t
    }
}

fn document_type(t: &str) -> (r: String)
    ensures
        r@ == type_or_document(t@),
{
    if str_is_blank(t) {
        "document".to_owned()
    } else {
        t.to_owned()
    }
}

/// What is qualified of a file, or why nothing is.
pub fn qualify_file(reasoning: bool, known: &Option<KnownFile>) -> (r: Result<ToQualify, String>)
    ensures
        match r {
            Ok(q) => reasoning && (known matches Some(k) && q.doc_type@ == type_or_document(
                k.doc_type@,
            ) && (k.extract matches Some(e) && !is_blank(e@) && q.extract@ == e@)),
            Err(m) => if !reasoning {
                m@ == REASONING_OFF@
            } else {
                match known {
                    None => m@ == "Ce fichier n'a pas encore été indexé."@,
                    Some(k) => (k.extract is None || is_blank(k.extract->Some_0@)) && m@
                        == "Aucun contenu extrait à qualifier pour ce fichier."@,
                }
            },
        },
{
    if !reasoning {
        return Err(REASONING_OFF.to_owned());
    }
    match known {
        None => Err("Ce fichier n'a pas encore été indexé.".to_owned()),
        Some(k) => match &k.extract {
            Some(e) => if str_is_blank(e.as_str()) {
                Err("Aucun contenu extrait à qualifier pour ce fichier.".to_owned())
            } else {
                Ok(
                    ToQualify {
                        doc_type: document_type(k.doc_type.as_str()),
                        extract: e.clone(),
                    },
                )
            },
            None => Err("Aucun contenu extrait à qualifier pour ce fichier.".to_owned()),
        },
    }
}

/// A file that has an extract.
#[derive(Debug)]
pub struct ExtractedFile {
    pub path: String,
    pub doc_type: String,
    pub summary: String,
    pub extract: String,
}

/// A file whose meaning is still the start of its content.
pub open spec fn is_unqualified(f: ExtractedFile) -> bool {
    trim(f.summary@) == trim(summary_spec(f.extract@))
}

/// A file that a model is asked about.
#[derive(Debug)]
pub struct FileToQualify {
    pub path: String,
    pub doc_type: String,
    pub extract: String,
}

pub struct QualifyView {
    pub path: Seq<char>,
    pub doc_type: Seq<char>,
    pub extract: Seq<char>,
}

impl FileToQualify {
    pub open spec fn view(self) -> QualifyView {
        QualifyView { path: self.path@, doc_type: self.doc_type@, extract: self.extract@ }
    }
}

pub open spec fn qualify_views(v: Seq<FileToQualify>) -> Seq<QualifyView> {
    Seq::new(v.len(), |i: int| v[i].view())
}

/// The files that are not qualified yet, in their order.
pub open spec fn unqualified(files: Seq<ExtractedFile>) -> Seq<QualifyView>
    decreases files.len(),
{
    if files.len() == 0 {
        Seq::empty()
    } else {
        let f = files.last();
        let before = unqualified(files.drop_last());
        if is_unqualified(f) {
            before.push(
                QualifyView {
                    path: f.path@,
                    doc_type: type_or_document(f.doc_type@),
                    extract: f.extract@,
                },
            )
        } else {
            before
        }
    }
}

/// The files of a folder that are qualified.
pub fn qualify_folder(reasoning: bool, files: &Vec<ExtractedFile>) -> (r: Result<
    Vec<FileToQualify>,
    String,
>)
    ensures
        match r {
            Ok(v) => reasoning && qualify_views(v@) == unqualified(files@),
            Err(e) => !reasoning && e@ == REASONING_OFF@,
        },
{
    if !reasoning {
        return Err(REASONING_OFF.to_owned());
    }
    let mut out: Vec<FileToQualify> = Vec::new();
    let mut i: usize = 0;
    assert(qualify_views(out@) =~= unqualified(files@.take(0)));
    while i < files.len()
        invariant
            i <= files.len(),
            qualify_views(out@) == unqualified(files@.take(i as int)),
        decreases files.len() - i,
    {
        let f = &files[i];
        let ghost before = qualify_views(out@);
        assert(files@.take(i + 1).drop_last() =~= files@.take(i as int));
        assert(files@.take(i + 1).last() == files@[i as int]);
        if str_eq(
            str_trim(f.summary.as_str()).as_str(),
            str_trim(summary_of(f.extract.as_str()).as_str()).as_str(),
        ) {
            let todo = FileToQualify {
                path: f.path.clone(),
                doc_type: document_type(f.doc_type.as_str()),
                extract: f.extract.clone(),
            };
            let ghost v = todo.view();
            out.push(todo);
            assert(qualify_views(out@) =~= before.push(v));
        }
        i = i + 1;
    }
    assert(files@.take(i as int) =~= files@);
    Ok(out)
}

// ---------------------------------------------------------------------------
// Images
// ---------------------------------------------------------------------------

/// The largest image that is shown.
pub const PREVIEW_MAX: u64 = 8388608;

/// No more images are looked at than this.
pub const IMAGES_MAX: usize = 5000;

/// So many images are looked at together.
pub const IMAGES_BATCH: usize = 16;

pub open spec fn preview_mime(ext: Seq<char>) -> Seq<char> {
    if ext == "png"@ {
        "image/png"@
    } else if ext == "gif"@ {
        "image/gif"@
    } else if ext == "bmp"@ {
        "image/bmp"@
    } else if ext == "webp"@ {
        "image/webp"@
    } else {
        "image/jpeg"@
    }
}

fn mime_of_preview(ext: &str) -> (r: &'static str)
    ensures
        r@ == preview_mime(ext@),
{
    if str_eq(ext, "png") {
        "image/png"
    } else if str_eq(ext, "gif") {
        "image/gif"
    } else if str_eq(ext, "bmp") {
        "image/bmp"
    } else if str_eq(ext, "webp") {
        "image/webp"
    } else {
        "image/jpeg"
    }
}

/// Whether an image of this size is shown.
pub fn check_preview(len: u64) -> (r: Result<(), String>)
    ensures
        match r {
            Ok(_) => len <= PREVIEW_MAX,
            Err(e) => len > PREVIEW_MAX && e@ == "image trop volumineuse pour l'aperçu"@,
        },
{
    if len > PREVIEW_MAX {
        Err("image trop volumineuse pour l'aperçu".to_owned())
    } else {
        Ok(())
    }
}

/// An image as an address that holds it. `ext` is its extension in lower case.
pub fn data_url(ext: &str, bytes: &[u8]) -> (r: String)
    requires
        b64_len(bytes@.len()) <= isize::MAX,
    ensures
        r@ == "data:"@ + preview_mime(ext@) + ";base64,"@ + b64(bytes@),
{
    cat4("data:", mime_of_preview(ext), ";base64,", base64_text(bytes).as_str())
}

pub fn image_data_url(ext: &str, bytes: &[u8]) -> (r: String)
    requires
        b64_len(bytes@.len()) <= isize::MAX,
    ensures
        r@ == "data:"@ + preview_mime(lower_case(ext@)) + ";base64,"@ + b64(bytes@),
{
    data_url(lowered(ext).as_str(), bytes)
}

/// An extension in lower case of an image that is looked at.
pub open spec fn is_image_ext(e: Seq<char>) -> bool {
    e == "png"@ || e == "jpg"@ || e == "jpeg"@ || e == "gif"@ || e == "bmp"@ || e == "webp"@
}

pub fn image_ext(e: &str) -> (r: bool)
    ensures
        r == is_image_ext(e@),
{
    str_eq(e, "png") || str_eq(e, "jpg") || str_eq(e, "jpeg") || str_eq(e, "gif") || str_eq(e, "bmp")
        || str_eq(e, "webp")
}

/// The images that are met on a walk.
#[derive(Debug)]
pub struct ImageWalk {
    pub images: Vec<String>,
}

impl ImageWalk {
    pub open spec fn wf(self) -> bool {
        self.images@.len() < IMAGES_MAX
    }

    pub fn new() -> (r: ImageWalk)
        ensures
            r.images@.len() == 0,
            r.wf(),
    {
        ImageWalk { images: Vec::new() }
    }

    /// Takes a file with this extension if it is an image; says whether the walk ends.
    pub fn on_file(&mut self, path: &str, ext: &str) -> (r: bool)
        requires
            old(self).wf(),
        ensures
            views(final(self).images@) == (if is_image_ext(lower_case(ext@)) {
                views(old(self).images@).push(path@)
            } else {
                views(old(self).images@)
            }),
            r == (final(self).images@.len() == IMAGES_MAX),
            !r ==> final(self).wf(),
    {
        let ghost before = views(self.images@);
        if image_ext(lowered(ext).as_str()) {
            self.images.push(path.to_owned());
            assert(views(self.images@) =~= before.push(path@));
        }
        assert(views(self.images@).len() == self.images@.len());
        self.images.len() == IMAGES_MAX
    }
}

/// The folders whose images are looked at.
pub fn image_roots(scope: Option<String>, roots: Vec<String>) -> (r: Vec<String>)
    ensures
        match scope {
            Some(s) => if is_blank(s@) {
                r@ == roots@
            } else {
                views(r@) == seq![s@]
            },
            None => r@ == roots@,
        },
{
    match scope {
        Some(s) => if str_is_blank(s.as_str()) {
            roots
        } else {
            let ghost sv = s@;
            let mut v: Vec<String> = Vec::new();
            v.push(s);
            assert(views(v@) =~= seq![sv]);
            v
        },
        None => roots,
    }
}

/// What images are searched for; nothing where nothing is asked.
pub fn image_query(query: &str) -> (r: Option<String>)
    ensures
        opt(r) == (if is_blank(query@) {
            None
        } else {
            Some(trim(query@))
        }),
{
    if str_is_blank(query) {
        None
    } else {
        Some(str_trim(query))
    }
}

/// How many images are searched for.
pub fn image_limit(limit: Option<usize>) -> (r: usize)
    ensures
        r == (match limit {
            Some(n) => if n < 1 {
                1usize
            } else if n > 100 {
                100usize
            } else {
                n
            },
            None => 24usize,
        }),
{
    match limit {
        Some(n) => if n < 1 {
            1
        } else if n > 100 {
            100
        } else {
            n
        },
        None => 24,
    }
}

/// Every model that names itself is listed, in the order of the answer.
pub proof fn law_every_identifier_is_listed(v: Seq<JsonView>)
    ensures
        ids_of(v) == v.filter(|m: JsonView| field_text(m, "id"@) is Some).map_values(
            |m: JsonView| field_text(m, "id"@)->Some_0,
        ),
    decreases v.len(),
{
    reveal(Seq::filter);
    let f = |m: JsonView| field_text(m, "id"@) is Some;
    let g = |m: JsonView| field_text(m, "id"@)->Some_0;
    if v.len() > 0 {
        let less = v.drop_last();
        law_every_identifier_is_listed(less);
        if f(v.last()) {
            assert(v.filter(f).map_values(g) =~= less.filter(f).map_values(g).push(
                field_text(v.last(), "id"@)->Some_0,
            ));
        }
    } else {
        assert(ids_of(v) =~= v.filter(f).map_values(g));
    }
}

/// A model is the same under each of its tags, and without one.
pub proof fn law_a_tag_makes_no_difference(name: Seq<char>, tag: Seq<char>)
    requires
        forall|i: int| 0 <= i < name.len() ==> #[trigger] name[i] != ':',
    ensures
        untagged(name + seq![':'] + tag) == name,
        untagged(name) == name,
    decreases name.len(),
{
    let s = name + seq![':'] + tag;
    if name.len() == 0 {
        assert(s[0] == ':');
        assert(untagged(s) =~= name);
        assert(untagged(name) =~= name);
    } else {
        let less = name.skip(1);
        assert forall|i: int| 0 <= i < less.len() implies #[trigger] less[i] != ':' by {
            assert(less[i] == name[i + 1]);
        }
        law_a_tag_makes_no_difference(less, tag);
        assert(s.skip(1) =~= less + seq![':'] + tag);
        assert(s[0] == name[0] && name[0] != ':');
        assert(seq![name[0]] + less =~= name);
    }
}

/// Every line is told when it is complete: one that says how far the server is gives an event,
/// one that says nothing gives none, and one that tells of a failure ends the download.
pub proof fn law_every_line_is_told(line: Seq<char>, rest: Seq<char>)
    requires
        forall|i: int| 0 <= i < line.len() ==> #[trigger] line[i] != '\n',
    ensures
        pulled(line).events.len() == 0,
        pulled(line).error is None,
        pulled(line).rest == line,
        match line_told(line) {
            LineView::Nothing => pulled(line + seq!['\n'] + rest) == pulled(rest),
            LineView::Progress(p) => {
                &&& pulled(line + seq!['\n'] + rest).events == seq![p] + pulled(rest).events
                &&& pulled(line + seq!['\n'] + rest).error == pulled(rest).error
                &&& pulled(line + seq!['\n'] + rest).rest == pulled(rest).rest
            },
            LineView::Failed(e) => pulled(line + seq!['\n'] + rest).error == Some(e),
        },
{
    let s = line + seq!['\n'] + rest;
    lemma_line_stops(line, 0, line.len() as int);
    assert forall|i: int| 0 <= i < line.len() implies #[trigger] s[i] != '\n' by {
        assert(s[i] == line[i]);
    }
    lemma_line_stops(s, 0, line.len() as int);
    assert(s.take(line.len() as int) =~= line);
    assert(s.skip(line.len() as int + 1) =~= rest);
}

proof fn lemma_line_stops(s: Seq<char>, i: int, e: int)
    requires
        0 <= i <= e <= s.len(),
        forall|k: int| i <= k < e ==> #[trigger] s[k] != '\n',
        e < s.len() ==> s[e] == '\n',
    ensures
        line_end(s, i) == e,
    decreases e - i,
{
    if i < e {
        assert(s[i] != '\n');
        lemma_line_stops(s, i + 1, e);
    }
}

/// Every file whose meaning is still the start of its content is qualified, with its path and
/// the text that was taken from it, and no other.
pub proof fn law_every_unqualified_file_is_taken(files: Seq<ExtractedFile>)
    ensures
        unqualified(files) == files.filter(|f: ExtractedFile| is_unqualified(f)).map_values(
            |f: ExtractedFile|
                QualifyView {
                    path: f.path@,
                    doc_type: if is_blank(f.doc_type@) {
                        "document"@
                    } else {
                        f.doc_type@
                    },
                    extract: f.extract@,
                },
        ),
    decreases files.len(),
{
    reveal(Seq::filter);
    let f = |f: ExtractedFile| is_unqualified(f);
    let g = |f: ExtractedFile|
        QualifyView {
            path: f.path@,
            doc_type: if is_blank(f.doc_type@) {
                "document"@
            } else {
                f.doc_type@
            },
            extract: f.extract@,
        };
    if files.len() > 0 {
        let less = files.drop_last();
        law_every_unqualified_file_is_taken(less);
        if f(files.last()) {
            assert(files.filter(f).map_values(g) =~= less.filter(f).map_values(g).push(
                g(files.last()),
            ));
        }
    } else {
        assert(unqualified(files) =~= files.filter(f).map_values(g));
    }
}

/// What a line says of the download is what is told: the status, and how much of how much.
pub proof fn law_progress_is_told_as_sent(v: JsonView, status: Seq<char>, done: int, total: int)
    requires
        field_text(v, "status"@) == Some(status),
        crate::json::in_u64(crate::json::field_int(v, "completed"@)) == Some(done),
        crate::json::in_u64(crate::json::field_int(v, "total"@)) == Some(total),
    ensures
        progress_of(v) == (ProgressView { status, completed: done, total }),
{
}

/// A model is found on a server that lists it under any of its tags.
pub proof fn law_a_listed_model_is_found(models: Seq<Seq<char>>, name: Seq<char>, tag: Seq<char>, i: int)
    requires
        0 <= i < models.len(),
        models[i] == name + seq![':'] + tag || models[i] == name,
        forall|k: int| 0 <= k < name.len() ==> #[trigger] name[k] != ':',
    ensures
        is_installed(models, name),
{
    law_a_tag_makes_no_difference(name, tag);
    assert(untagged(models[i]) == untagged(name));
}

/// A deletion has failed unless the server says that it was done.
pub proof fn law_a_deletion_is_done_or_told(model: Seq<char>, code: u16, text: String, detail: String)
    ensures
        delete_failure(model, DeleteReply::Status { code, text, detail }) is None <==> 200 <= code
            < 300,
{
}

/// The dimensions that are told of a model are those of the vector that it gave.
pub proof fn law_the_dimensions_are_those_of_the_vector(
    reply: Json,
    data: Seq<JsonView>,
    vector: Seq<JsonView>,
)
    requires
        field(reply.view(), "data"@) == Some(JsonView::List(data)),
        data.len() > 0,
        field(data[0], "embedding"@) == Some(JsonView::List(vector)),
    ensures
        embedding_verdict(HttpReply::Answer(reply)) matches Ok(m) && crate::reading::holds(
            m,
            decimal(vector.len()),
        ),
{
    let n = decimal(vector.len());
    let tail = " dimensions (règle « Dimensions » sur "@ + n + ")"@;
    let m = "Modèle OK — "@ + n + " dimensions (règle « Dimensions » sur "@ + n + ")"@;
    assert(m =~= "Modèle OK — "@ + n + tail);
    crate::reading::lemma_holds("Modèle OK — "@, n, tail);
}

} // verus!
