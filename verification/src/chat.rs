//! Models that are asked over HTTP: what they are sent, what is read from their answers, and
//! which failures are worth another try.

use vstd::prelude::*;

use crate::agent::ToolCallOut;
use crate::config::{ChatConfig, ReasoningEffort};
use crate::embedding::{payload_bytes, total_bytes};
use crate::json::{
    empty_record, empty_record_view, field, field_list, field_text, law_the_last_field_counts,
    list_view, rec1, rec2, record1, record2, record_view, rendered, text_json, text_or, txt, Json,
    JsonView,
};
use crate::text::{cat2, cat4, opt, str_is_empty, str_trim_end_of, trim_end_of, views};

verus! {

// ---------------------------------------------------------------------------
// Failures
// ---------------------------------------------------------------------------

/// Why a model could not be asked.
#[derive(Debug)]
pub enum AiCallError {
    /// The server is busy, still loading or cannot be reached: worth another try.
    Transient(String),
    /// The request itself is refused: trying again changes nothing.
    Permanent(String),
}

pub enum AiCallErrorView {
    Transient(Seq<char>),
    Permanent(Seq<char>),
}

/// A status that tells of a server that is busy or broken for now.
pub open spec fn is_transient_status(status: int) -> bool {
    500 <= status <= 599 || status == 408 || status == 429
}

pub open spec fn status_error(status: int, err: Seq<char>) -> AiCallErrorView {
    if is_transient_status(status) {
        AiCallErrorView::Transient(err)
    } else {
        AiCallErrorView::Permanent(err)
    }
}

impl AiCallError {
    pub open spec fn view(self) -> AiCallErrorView {
        match self {
            AiCallError::Transient(e) => AiCallErrorView::Transient(e@),
            AiCallError::Permanent(e) => AiCallErrorView::Permanent(e@),
        }
    }

    /// Classes a status that is no success.
    pub fn from_status(status: u16, err: String) -> (r: AiCallError)
        ensures
            r.view() == status_error(status as int, err@),
    {
        if (500 <= status && status <= 599) || status == 408 || status == 429 {
            AiCallError::Transient(err)
        } else {
            AiCallError::Permanent(err)
        }
    }

    /// The failure as the user reads it.
    pub fn message(&self) -> (r: String)
        ensures
            r@ == (match self.view() {
                AiCallErrorView::Transient(e) => e + " [passager]"@,
                AiCallErrorView::Permanent(e) => e + " [définitif]"@,
            }),
    {
        match self {
            AiCallError::Transient(e) => cat2(e.as_str(), " [passager]"),
            AiCallError::Permanent(e) => cat2(e.as_str(), " [définitif]"),
        }
    }
}

/// A request that the client got wrong is never tried again, save for a timeout and for one
/// that came too early.
pub proof fn law_client_errors_are_permanent(status: int, err: Seq<char>)
    requires
        400 <= status <= 499,
    ensures
        status_error(status, err) == AiCallErrorView::Permanent(err) <==> status != 408 && status
            != 429,
{
}

/// What came back from a server.
#[derive(Debug)]
pub enum HttpReply {
    /// The request did not get through.
    NotSent(String),
    /// The status was no success.
    Refused { status: u16, status_text: String, body: String },
    /// The answer could not be read.
    Unreadable(String),
    Answer(Json),
}

pub enum HttpReplyView {
    NotSent(Seq<char>),
    Refused { status: int, status_text: Seq<char>, body: Seq<char> },
    Unreadable(Seq<char>),
    Answer(JsonView),
}

impl HttpReply {
    pub open spec fn view(self) -> HttpReplyView {
        match self {
            HttpReply::NotSent(e) => HttpReplyView::NotSent(e@),
            HttpReply::Refused { status, status_text, body } => HttpReplyView::Refused {
                status: status as int,
                status_text: status_text@,
                body: body@,
            },
            HttpReply::Unreadable(e) => HttpReplyView::Unreadable(e@),
            HttpReply::Answer(v) => HttpReplyView::Answer(v.view()),
        }
    }
}

// ---------------------------------------------------------------------------
// Answers
// ---------------------------------------------------------------------------

/// The message of the first choice.
pub open spec fn first_message(v: JsonView) -> Option<JsonView> {
    match field_list(v, "choices"@) {
        Some(items) => if items.len() > 0 {
            field(items[0], "message"@)
        } else {
            None
        },
        None => None,
    }
}

pub open spec fn chat_content(v: JsonView) -> Option<Seq<char>> {
    match first_message(v) {
        Some(m) => field_text(m, "content"@),
        None => None,
    }
}

fn message_of(v: &Json) -> (r: Option<&Json>)
    ensures
        match r {
            Some(m) => first_message(v.view()) == Some(m.view()),
            None => first_message(v.view()) is None,
        },
{
    match v.get_list("choices") {
        Some(items) => {
            proof {
                crate::json::lemma_list_view(items@);
            }
            if items.len() > 0 {
                items[0].get("message")
            } else {
                None
            }
        },
        None => None,
    }
}

pub open spec fn text_result(r: Result<String, String>) -> Result<Seq<char>, Seq<char>> {
    match r {
        Ok(s) => Ok(s@),
        Err(e) => Err(e@),
    }
}

/// The text of an answer, or why there is none.
pub open spec fn content_result(v: JsonView) -> Result<Seq<char>, Seq<char>> {
    match chat_content(v) {
        Some(s) => Ok(s),
        None => Err("réponse de chat sans contenu exploitable"@),
    }
}

pub fn parse_chat_content(value: &Json) -> (r: Result<String, String>)
    ensures
        text_result(r) == content_result(value.view()),
{
    if let Some(m) = message_of(value) {
        if let Some(s) = m.get_text("content") {
            return Ok(s.to_owned());
        }
    }
    Err("réponse de chat sans contenu exploitable".to_owned())
}

/// The answer of a server, or why there is none. `sent` and `read` say what failed.
pub open spec fn answer_of(reply: HttpReplyView, sent: Seq<char>, read: Seq<char>) -> Result<
    JsonView,
    Seq<char>,
> {
    match reply {
        HttpReplyView::NotSent(_) => Err(sent),
        HttpReplyView::Refused { status, status_text, body } => Err(
            "/chat/completions a renvoyé "@ + status_text + ": "@ + body,
        ),
        HttpReplyView::Unreadable(_) => Err(read),
        HttpReplyView::Answer(v) => Ok(v),
    }
}

fn take_answer(reply: HttpReply, sent: &str, read: &str) -> (r: Result<Json, String>)
    ensures
        crate::mcp::json_result(r) == answer_of(reply.view(), sent@, read@),
{
    match reply {
        HttpReply::NotSent(_) => Err(sent.to_owned()),
        HttpReply::Refused { status: _, status_text, body } => Err(
            cat4("/chat/completions a renvoyé ", status_text.as_str(), ": ", body.as_str()),
        ),
        HttpReply::Unreadable(_) => Err(read.to_owned()),
        HttpReply::Answer(v) => Ok(v),
    }
}

/// What a chat gives back.
pub fn read_chat_reply(reply: HttpReply) -> (r: Result<String, String>)
    ensures
        text_result(r) == (match answer_of(
            reply.view(),
            "appel /chat/completions"@,
            "parsing de la réponse de chat"@,
        ) {
            Ok(v) => content_result(v),
            Err(e) => Err(e),
        }),
{
    match take_answer(reply, "appel /chat/completions", "parsing de la réponse de chat") {
        Ok(v) => parse_chat_content(&v),
        Err(e) => Err(e),
    }
}

/// What a turn of the assistant gives back: a text, or tools to call.
#[derive(Debug)]
pub struct AgentTurn {
    pub content: Option<String>,
    pub tool_calls: Vec<ToolCallOut>,
    /// The message as it came, which goes back into the conversation.
    pub raw_message: Json,
}

pub struct CallView {
    pub id: Seq<char>,
    pub name: Seq<char>,
    pub arguments: Seq<char>,
}

pub struct TurnView {
    pub content: Option<Seq<char>>,
    pub tool_calls: Seq<CallView>,
    pub raw_message: JsonView,
}

pub open spec fn call_view(c: ToolCallOut) -> CallView {
    CallView { id: c.id@, name: c.name@, arguments: c.arguments@ }
}

pub open spec fn call_views(v: Seq<ToolCallOut>) -> Seq<CallView> {
    Seq::new(v.len(), |i: int| call_view(v[i]))
}

impl AgentTurn {
    pub open spec fn view(self) -> TurnView {
        TurnView {
            content: opt(self.content),
            tool_calls: call_views(self.tool_calls@),
            raw_message: self.raw_message.view(),
        }
    }
}

/// A text as it is, any other value as JSON.
pub open spec fn as_plain(v: JsonView) -> Seq<char> {
    match v {
        JsonView::Text(s) => s,
        _ => rendered(v),
    }
}

pub fn plain_text(v: &Json) -> (r: String)
    ensures
        r@ == as_plain(v.view()),
{
    match v.as_text() {
        Some(s) => s.to_owned(),
        None => v.render(),
    }
}

/// A call that the model asks for. Its arguments are a JSON text, which some servers send
/// as a value.
pub open spec fn call_of(tc: JsonView) -> CallView {
    let func = field(tc, "function"@);
    CallView {
        id: text_or(field_text(tc, "id"@), Seq::empty()),
        name: match func {
            Some(f) => text_or(field_text(f, "name"@), Seq::empty()),
            None => Seq::empty(),
        },
        arguments: match func {
            Some(f) => match field(f, "arguments"@) {
                Some(a) => as_plain(a),
                None => "{}"@,
            },
            None => "{}"@,
        },
    }
}

/// The calls in a list, without those that name no tool.
pub open spec fn named_calls(items: Seq<JsonView>) -> Seq<CallView>
    decreases items.len(),
{
    if items.len() == 0 {
        Seq::empty()
    } else {
        let so_far = named_calls(items.drop_last());
        if call_of(items.last()).name.len() == 0 {
            so_far
        } else {
            so_far.push(call_of(items.last()))
        }
    }
}

/// A turn of the assistant in an answer.
pub open spec fn turn_of(v: JsonView) -> TurnView {
    let m = match first_message(v) {
        Some(m) => m,
        None => empty_record_view(),
    };
    TurnView {
        content: match field_text(m, "content"@) {
            Some(s) => if s.len() == 0 {
                None
            } else {
                Some(s)
            },
            None => None,
        },
        tool_calls: match field_list(m, "tool_calls"@) {
            Some(items) => named_calls(items),
            None => Seq::empty(),
        },
        raw_message: m,
    }
}

fn read_call(tc: &Json) -> (r: ToolCallOut)
    ensures
        call_view(r) == call_of(tc.view()),
{
    let id = tc.get_text_or_empty("id");
    match tc.get("function") {
        Some(f) => ToolCallOut {
            id,
            name: f.get_text_or_empty("name"),
            arguments: match f.get("arguments") {
                Some(a) => plain_text(a),
                None => "{}".to_owned(),
            },
        },
        None => {
            let name = String::new();
            assert(name@ =~= Seq::<char>::empty());
            ToolCallOut { id, name, arguments: "{}".to_owned() }
        },
    }
}

fn read_calls(m: &Json) -> (r: Vec<ToolCallOut>)
    ensures
        call_views(r@) == (match field_list(m.view(), "tool_calls"@) {
            Some(items) => named_calls(items),
            None => Seq::empty(),
        }),
{
    let mut out: Vec<ToolCallOut> = Vec::new();
    assert(call_views(out@) =~= Seq::<CallView>::empty());
    if let Some(items) = m.get_list("tool_calls") {
        let ghost all = list_view(items@);
        let mut i: usize = 0;
        proof {
            crate::json::lemma_list_view(items@);
            assert(all.take(0) =~= Seq::<JsonView>::empty());
        }
        while i < items.len()
            invariant
                i <= items.len(),
                all.len() == items@.len(),
                forall|k: int| 0 <= k < items@.len() ==> #[trigger] all[k] == items@[k].view(),
                call_views(out@) == named_calls(all.take(i as int)),
            decreases items.len() - i,
        {
            assert(all.take(i + 1).drop_last() =~= all.take(i as int));
            assert(all.take(i + 1).last() == all[i as int]);
            let c = read_call(&items[i]);
            if !str_is_empty(c.name.as_str()) {
                let ghost before = call_views(out@);
                let ghost cv = call_view(c);
                out.push(c);
                assert(call_views(out@) =~= before.push(cv));
            }
            i = i + 1;
        }
        assert(all.take(i as int) =~= all);
    }
    out
}

/// Reads a turn of the assistant from an answer.
pub fn parse_agent_turn(value: &Json) -> (r: AgentTurn)
    ensures
        r.view() == turn_of(value.view()),
{
    let m = match message_of(value) {
        Some(m) => m.copy(),
        None => empty_record(),
    };
    let content = match m.get_text("content") {
        Some(s) => if str_is_empty(s) {
            None
        } else {
            Some(s.to_owned())
        },
        None => None,
    };
    let tool_calls = read_calls(&m);
    AgentTurn { content, tool_calls, raw_message: m }
}

/// What a turn of the assistant gives back.
pub fn read_agent_reply(reply: HttpReply) -> (r: Result<AgentTurn, String>)
    ensures
        match answer_of(
            reply.view(),
            "appel /chat/completions (agent)"@,
            "parsing de la réponse agent"@,
        ) {
            Ok(v) => r matches Ok(t) && t.view() == turn_of(v),
            Err(e) => r matches Err(m) && m@ == e,
        },
{
    match take_answer(reply, "appel /chat/completions (agent)", "parsing de la réponse agent") {
        Ok(v) => Ok(parse_agent_turn(&v)),
        Err(e) => Err(e),
    }
}

/// What a model that looks at something gives back. What did not get through, or could not
/// be read, is worth another try; an answer without a text is not.
pub open spec fn seen_result(
    reply: HttpReplyView,
    sent: Seq<char>,
    refused: Seq<char>,
    colon: Seq<char>,
    read: Seq<char>,
) -> Result<Seq<char>, AiCallErrorView> {
    match reply {
        HttpReplyView::NotSent(e) => Err(AiCallErrorView::Transient(sent + e)),
        HttpReplyView::Refused { status, status_text, body } => Err(
            status_error(status, refused + status_text + colon + body),
        ),
        HttpReplyView::Unreadable(e) => Err(AiCallErrorView::Transient(read + e)),
        HttpReplyView::Answer(v) => match content_result(v) {
            Ok(s) => Ok(s),
            Err(e) => Err(AiCallErrorView::Permanent(e)),
        },
    }
}

pub open spec fn seen_view(r: Result<String, AiCallError>) -> Result<Seq<char>, AiCallErrorView> {
    match r {
        Ok(s) => Ok(s@),
        Err(e) => Err(e.view()),
    }
}

pub(crate) fn read_seen(
    reply: HttpReply,
    sent: &str,
    refused: &str,
    colon: &str,
    read: &str,
) -> (r: Result<String, AiCallError>)
    ensures
        seen_view(r) == seen_result(reply.view(), sent@, refused@, colon@, read@),
{
    match reply {
        HttpReply::NotSent(e) => Err(AiCallError::Transient(cat2(sent, e.as_str()))),
        HttpReply::Refused { status, status_text, body } => Err(
            AiCallError::from_status(
                status,
                cat4(refused, status_text.as_str(), colon, body.as_str()),
            ),
        ),
        HttpReply::Unreadable(e) => Err(AiCallError::Transient(cat2(read, e.as_str()))),
        HttpReply::Answer(v) => match parse_chat_content(&v) {
            Ok(s) => Ok(s),
            Err(e) => Err(AiCallError::Permanent(e)),
        },
    }
}

/// What the description of an image gives back.
pub fn read_vision_reply(reply: HttpReply) -> (r: Result<String, AiCallError>)
    ensures
        seen_view(r) == seen_result(
            reply.view(),
            "appel vision /chat/completions: "@,
            "vision a renvoyé "@,
            ": "@,
            "parsing de la réponse vision: "@,
        ),
{
    read_seen(
        reply,
        "appel vision /chat/completions: ",
        "vision a renvoyé ",
        ": ",
        "parsing de la réponse vision: ",
    )
}

// ---------------------------------------------------------------------------
// Requests
// ---------------------------------------------------------------------------

#[derive(Debug)]
pub struct ChatMessage {
    pub role: String,
    pub content: String,
}

pub open spec fn message_view(m: ChatMessage) -> JsonView {
    rec2("content"@, txt(m.content@), "role"@, txt(m.role@))
}

pub open spec fn messages_view(v: Seq<ChatMessage>) -> JsonView {
    JsonView::List(Seq::new(v.len(), |i: int| message_view(v[i])))
}

pub(crate) fn push_field(f: &mut Vec<(String, Json)>, key: &str, value: Json)
    ensures
        record_view(final(f)@) == record_view(old(f)@).push((key@, value.view())),
{
    let ghost before = f@;
    f.push((key.to_owned(), value));
    assert(f@.drop_last() =~= before);
}

fn messages_json(messages: &Vec<ChatMessage>) -> (r: Json)
    ensures
        r.view() == messages_view(messages@),
{
    let ghost want = Seq::new(messages@.len(), |i: int| message_view(messages@[i]));
    let mut items: Vec<Json> = Vec::new();
    let mut i: usize = 0;
    while i < messages.len()
        invariant
            i <= messages.len(),
            want == Seq::new(messages@.len(), |i: int| message_view(messages@[i])),
            list_view(items@) == want.take(i as int),
        decreases messages.len() - i,
    {
        let ghost before = items@;
        let m = record2(
            "content",
            text_json(messages[i].content.as_str()),
            "role",
            text_json(messages[i].role.as_str()),
        );
        items.push(m);
        assert(items@.drop_last() =~= before);
        i = i + 1;
        assert(list_view(items@) =~= want.take(i as int));
    }
    assert(want.take(i as int) =~= want);
    Json::List(items)
}

/// How many bytes a conversation has, as far as a counter goes.
pub fn messages_bytes(messages: &Vec<ChatMessage>) -> (r: u64)
    ensures
        ({
            let n = total_bytes(Seq::new(messages@.len(), |i: int| messages@[i].content@));
            r == (if n <= u64::MAX {
                n
            } else {
                u64::MAX as nat
            })
        }),
{
    let ghost want = Seq::new(messages@.len(), |i: int| messages@[i].content@);
    let mut texts: Vec<String> = Vec::new();
    let mut i: usize = 0;
    while i < messages.len()
        invariant
            i <= messages.len(),
            want == Seq::new(messages@.len(), |i: int| messages@[i].content@),
            views(texts@) == want.take(i as int),
        decreases messages.len() - i,
    {
        let ghost before = views(texts@);
        texts.push(messages[i].content.clone());
        assert(views(texts@) =~= before.push(messages@[i as int].content@));
        i = i + 1;
        assert(views(texts@) =~= want.take(i as int));
    }
    assert(want.take(i as int) =~= want);
    payload_bytes(&texts)
}

/// A field that is there where the effort is set.
pub open spec fn effort_field(effort: ReasoningEffort) -> Seq<(Seq<char>, JsonView)> {
    match effort.param() {
        Some(e) => seq![("reasoning_effort"@, txt(e))],
        None => Seq::empty(),
    }
}

pub open spec fn json_mode_field(json_mode: bool) -> Seq<(Seq<char>, JsonView)> {
    if json_mode {
        seq![("response_format"@, rec1("type"@, txt("json_object"@)))]
    } else {
        Seq::empty()
    }
}

/// The body of a request to a chat.
pub open spec fn chat_body_view(
    model: Seq<char>,
    messages: JsonView,
    effort: ReasoningEffort,
    json_mode: bool,
    temperature: Seq<char>,
) -> JsonView {
    JsonView::Record(
        seq![("messages"@, messages), ("model"@, txt(model))] + effort_field(effort)
            + json_mode_field(json_mode) + seq![
            ("stream"@, JsonView::Bool(false)),
            ("temperature"@, JsonView::Number(temperature)),
        ],
    )
}

pub(crate) fn make_chat_body(
    model: &str,
    messages: Json,
    effort: ReasoningEffort,
    json_mode: bool,
    temperature: &str,
) -> (r: Json)
    ensures
        r.view() == chat_body_view(model@, messages.view(), effort, json_mode, temperature@),
{
    let ghost mv = messages.view();
    let mut f: Vec<(String, Json)> = Vec::new();
    push_field(&mut f, "messages", messages);
    push_field(&mut f, "model", text_json(model));
    assert(record_view(f@) =~= seq![("messages"@, mv), ("model"@, txt(model@))]);
    if let Some(e) = effort.as_param() {
        push_field(&mut f, "reasoning_effort", text_json(e));
    }
    assert(record_view(f@) =~= seq![("messages"@, mv), ("model"@, txt(model@))] + effort_field(
        effort,
    ));
    if json_mode {
        push_field(&mut f, "response_format", record1("type", text_json("json_object")));
    }
    assert(record_view(f@) =~= seq![("messages"@, mv), ("model"@, txt(model@))] + effort_field(
        effort,
    ) + json_mode_field(json_mode));
    push_field(&mut f, "stream", Json::Bool(false));
    push_field(&mut f, "temperature", Json::Number(temperature.to_owned()));
    assert(record_view(f@) =~= chat_body_view(
        model@,
        mv,
        effort,
        json_mode,
        temperature@,
    )->Record_0);
    Json::Record(f)
}

/// Two parts of one message: a text, and something to look at.
pub open spec fn look_at_view(prompt: Seq<char>, kind: Seq<char>, url: Seq<char>) -> JsonView {
    JsonView::List(
        seq![
            rec2(
                "content"@,
                JsonView::List(
                    seq![
                        rec2("text"@, txt(prompt), "type"@, txt("text"@)),
                        JsonView::Record(
                            if kind == "video_url"@ {
                                seq![("type"@, txt(kind)), (kind, rec1("url"@, txt(url)))]
                            } else {
                                seq![(kind, rec1("url"@, txt(url))), ("type"@, txt(kind))]
                            },
                        ),
                    ],
                ),
                "role"@,
                txt("user"@),
            ),
        ],
    )
}

fn pair(a: Json, b: Json) -> (r: Json)
    ensures
        r.view() == JsonView::List(seq![a.view(), b.view()]),
{
    let ghost (x, y) = (a.view(), b.view());
    let mut v: Vec<Json> = Vec::new();
    v.push(a);
    v.push(b);
    proof {
        crate::json::lemma_list_view(v@);
    }
    assert(list_view(v@) =~= seq![x, y]);
    Json::List(v)
}

/// A message that shows an image (`image_url`) or a video (`video_url`) beside a prompt.
pub(crate) fn look_at(prompt: &str, video: bool, url: &str) -> (r: Json)
    ensures
        r.view() == look_at_view(
            prompt@,
            if video {
                "video_url"@
            } else {
                "image_url"@
            },
            url@,
        ),
{
    proof {
        reveal_strlit("video_url");
        reveal_strlit("image_url");
        assert("video_url"@[0] == 'v' && "image_url"@[0] == 'i');
    }
    let text = record2("text", text_json(prompt), "type", text_json("text"));
    let target = record1("url", text_json(url));
    let shown = if video {
        record2("type", text_json("video_url"), "video_url", target)
    } else {
        record2("image_url", target, "type", text_json("image_url"))
    };
    crate::json::list1(record2("content", pair(text, shown), "role", text_json("user")))
}

/// A chat at a server.
#[derive(Debug)]
pub struct OpenAiChatClient {
    pub base_url: String,
    pub model: String,
    pub api_key: String,
    pub effort: ReasoningEffort,
}

impl OpenAiChatClient {
    pub fn new(cfg: &ChatConfig) -> (r: OpenAiChatClient)
        ensures
            r.base_url@ == trim_end_of(cfg.base_url@, '/', '/'),
            r.model@ == cfg.model@,
            r.api_key@ == cfg.api_key@,
            r.effort == cfg.reasoning_effort,
    {
        OpenAiChatClient {
            base_url: str_trim_end_of(cfg.base_url.as_str(), '/', '/'),
            model: cfg.model.clone(),
            api_key: cfg.api_key.clone(),
            effort: cfg.reasoning_effort,
        }
    }

    /// Where requests go.
    pub fn url(&self) -> (r: String)
        ensures
            r@ == self.base_url@ + "/chat/completions"@,
    {
        cat2(self.base_url.as_str(), "/chat/completions")
    }

    /// A request with the effort that is set for this chat.
    pub fn chat_body(&self, messages: &Vec<ChatMessage>, json_mode: bool) -> (r: Json)
        ensures
            r.view() == chat_body_view(
                self.model@,
                messages_view(messages@),
                self.effort,
                json_mode,
                "0.2"@,
            ),
    {
        self.quick_body(messages, json_mode, self.effort)
    }

    /// A request with an effort that the caller chooses, for the many short questions of the
    /// indexing.
    pub fn quick_body(
        &self,
        messages: &Vec<ChatMessage>,
        json_mode: bool,
        effort: ReasoningEffort,
    ) -> (r: Json)
        ensures
            r.view() == chat_body_view(
                self.model@,
                messages_view(messages@),
                effort,
                json_mode,
                "0.2"@,
            ),
    {
        make_chat_body(self.model.as_str(), messages_json(messages), effort, json_mode, "0.2")
    }

    /// A request of the assistant. The tools are left out where there are none, since some
    /// servers refuse an empty list.
    pub fn tools_body(&self, messages: &Vec<Json>, tools: &Json) -> (r: Json)
        ensures
            r.view() == JsonView::Record(
                seq![
                    ("messages"@, JsonView::List(list_view(messages@))),
                    ("model"@, txt(self.model@)),
                    ("stream"@, JsonView::Bool(false)),
                    ("temperature"@, JsonView::Number("0.2"@)),
                ] + (match tools.view() {
                    JsonView::List(items) => if items.len() > 0 {
                        seq![("tool_choice"@, txt("auto"@)), ("tools"@, tools.view())]
                    } else {
                        Seq::empty()
                    },
                    _ => Seq::empty(),
                }),
            ),
    {
        let mut f: Vec<(String, Json)> = Vec::new();
        push_field(&mut f, "messages", Json::List(crate::json::copy_list(messages)));
        push_field(&mut f, "model", text_json(self.model.as_str()));
        push_field(&mut f, "stream", Json::Bool(false));
        push_field(&mut f, "temperature", Json::Number("0.2".to_owned()));
        let ghost base = seq![
            ("messages"@, JsonView::List(list_view(messages@))),
            ("model"@, txt(self.model@)),
            ("stream"@, JsonView::Bool(false)),
            ("temperature"@, JsonView::Number("0.2"@)),
        ];
        assert(record_view(f@) =~= base);
        if let Some(items) = tools.as_list() {
            proof {
                crate::json::lemma_list_view(items@);
            }
            if items.len() > 0 {
                push_field(&mut f, "tool_choice", text_json("auto"));
                push_field(&mut f, "tools", tools.copy());
                assert(record_view(f@) =~= base + seq![
                    ("tool_choice"@, txt("auto"@)),
                    ("tools"@, tools.view()),
                ]);
            } else {
                assert(base + Seq::<(Seq<char>, JsonView)>::empty() =~= base);
            }
        } else {
            assert(base + Seq::<(Seq<char>, JsonView)>::empty() =~= base);
        }
        Json::Record(f)
    }

    /// A request that shows an image, which is given in base64.
    pub fn image_body(&self, image_base64: &str, mime: &str, prompt: &str) -> (r: Json)
        ensures
            r.view() == chat_body_view(
                self.model@,
                look_at_view(
                    prompt@,
                    "image_url"@,
                    "data:"@ + mime@ + ";base64,"@ + image_base64@,
                ),
                self.effort,
                false,
                "0.1"@,
            ),
    {
        let url = cat4("data:", mime, ";base64,", image_base64);
        make_chat_body(
            self.model.as_str(),
            look_at(prompt, false, url.as_str()),
            self.effort,
            false,
            "0.1",
        )
    }
}

/// The size of an image whose base64 has that length.
pub fn image_bytes(base64_len: u64) -> (r: u64)
    requires
        base64_len * 3 <= u64::MAX,
    ensures
        r == base64_len * 3 / 4,
{
    base64_len * 3 / 4
}

/// Every call that names a tool is made, in the order of the answer, and no other.
pub proof fn law_every_named_call_is_made(items: Seq<JsonView>)
    ensures
        named_calls(items) == items.filter(
            |t: JsonView| call_of(t).name.len() > 0,
        ).map_values(|t: JsonView| call_of(t)),
    decreases items.len(),
{
    reveal(Seq::filter);
    let f = |t: JsonView| call_of(t).name.len() > 0;
    let g = |t: JsonView| call_of(t);
    if items.len() > 0 {
        let less = items.drop_last();
        law_every_named_call_is_made(less);
        if f(items.last()) {
            assert(items.filter(f).map_values(g) =~= less.filter(f).map_values(g).push(
                call_of(items.last()),
            ));
        }
    } else {
        assert(named_calls(items) =~= items.filter(f).map_values(g));
    }
}

/// A call is made as it was asked for: the tool by its name, with the arguments as they were
/// written, under the identifier that the answer is given to.
pub proof fn law_a_call_is_made_as_asked(
    tc: JsonView,
    f: JsonView,
    id: Seq<char>,
    name: Seq<char>,
    arguments: Seq<char>,
)
    requires
        field_text(tc, "id"@) == Some(id),
        field(tc, "function"@) == Some(f),
        field_text(f, "name"@) == Some(name),
        field_text(f, "arguments"@) == Some(arguments),
    ensures
        call_of(tc) == (CallView { id, name, arguments }),
{
}

/// A request says what it is made for: the messages, the model, the effort where one is set,
/// and that JSON is wanted where it is.
pub proof fn law_a_request_says_what_it_is_for(
    model: Seq<char>,
    messages: JsonView,
    effort: ReasoningEffort,
    json_mode: bool,
    temperature: Seq<char>,
)
    ensures
        ({
            let body = chat_body_view(model, messages, effort, json_mode, temperature);
            &&& field(body, "messages"@) == Some(messages)
            &&& field_text(body, "model"@) == Some(model)
            &&& field_text(body, "reasoning_effort"@) == effort.param()
            &&& field(body, "response_format"@) is Some == json_mode
            &&& field(body, "temperature"@) == Some(JsonView::Number(temperature))
            &&& field(body, "stream"@) == Some(JsonView::Bool(false))
        }),
{
    reveal_strlit("messages");
    reveal_strlit("model");
    reveal_strlit("reasoning_effort");
    reveal_strlit("response_format");
    reveal_strlit("temperature");
    reveal_strlit("stream");
    assert("messages"@.len() == 8 && "model"@.len() == 5 && "reasoning_effort"@.len() == 16
        && "response_format"@.len() == 15 && "temperature"@.len() == 11 && "stream"@.len() == 6);
    let mid = effort_field(effort) + json_mode_field(json_mode);
    let f = seq![("messages"@, messages), ("model"@, txt(model))] + effort_field(effort)
        + json_mode_field(json_mode) + seq![
        ("stream"@, JsonView::Bool(false)),
        ("temperature"@, JsonView::Number(temperature)),
    ];
    let n = f.len();
    let e = effort_field(effort).len();
    let j = json_mode_field(json_mode).len();
    assert(f[0] == ("messages"@, messages));
    assert(f[1] == ("model"@, txt(model)));
    assert(f[n - 1].0 == "temperature"@);
    assert(f[n - 2].0 == "stream"@);
    if e > 0 {
        assert(f[2] == effort_field(effort)[0]);
    }
    if j > 0 {
        assert(f[2 + e as int] == json_mode_field(json_mode)[0]);
    }
    law_the_last_field_counts(f, "messages"@, 1);
    law_the_last_field_counts(f, "model"@, 2);
    law_the_last_field_counts(f, "temperature"@, n as int);
    law_the_last_field_counts(f, "stream"@, n - 1);
    law_the_last_field_counts(
        f,
        "reasoning_effort"@,
        if e > 0 {
            3
        } else {
            0
        },
    );
    law_the_last_field_counts(
        f,
        "response_format"@,
        if j > 0 {
            3 + e as int
        } else {
            0
        },
    );
}

/// Every message is sent, in its order, with its role.
pub proof fn law_every_message_is_sent(messages: Seq<ChatMessage>, i: int)
    requires
        0 <= i < messages.len(),
    ensures
        messages_view(messages) matches JsonView::List(l) && l.len() == messages.len()
            && field_text(l[i], "role"@) == Some(messages[i].role@) && field_text(l[i], "content"@)
            == Some(messages[i].content@),
{
    reveal_strlit("role");
    reveal_strlit("content");
    assert("role"@.len() == 4 && "content"@.len() == 7);
    let m = messages[i];
    let f = seq![("content"@, txt(m.content@)), ("role"@, txt(m.role@))];
    law_the_last_field_counts(f, "role"@, 2);
    law_the_last_field_counts(f, "content"@, 1);
}

/// What the model says is read from the first choice: its text, its calls, and its message as it
/// came.
pub proof fn law_the_first_choice_is_read(
    v: JsonView,
    choices: Seq<JsonView>,
    m: JsonView,
    content: Seq<char>,
)
    requires
        field_list(v, "choices"@) == Some(choices),
        choices.len() > 0,
        field(choices[0], "message"@) == Some(m),
        field_text(m, "content"@) == Some(content),
        content.len() > 0,
    ensures
        content_result(v) == Ok::<Seq<char>, Seq<char>>(content),
        turn_of(v).content == Some(content),
        turn_of(v).raw_message == m,
        field_list(m, "tool_calls"@) matches Some(items) ==> turn_of(v).tool_calls == named_calls(
            items,
        ),
        field_list(m, "tool_calls"@) is None ==> turn_of(v).tool_calls.len() == 0,
{
}

/// An answer is passed on as it came; a request that was refused is told with the status and with
/// what the server said.
pub proof fn law_a_refusal_is_told(
    v: JsonView,
    status: int,
    status_text: Seq<char>,
    body: Seq<char>,
    sent: Seq<char>,
    read: Seq<char>,
)
    ensures
        answer_of(HttpReplyView::Answer(v), sent, read) == Ok::<JsonView, Seq<char>>(v),
        answer_of(HttpReplyView::Refused { status, status_text, body }, sent, read) matches Err(e)
            && crate::reading::holds(e, status_text) && crate::reading::holds(e, body),
{
    let none = Seq::<char>::empty();
    let head = "/chat/completions a renvoyé "@;
    let e = head + status_text + ": "@ + body;
    assert(e =~= head + status_text + (": "@ + body));
    crate::reading::lemma_holds(head, status_text, ": "@ + body);
    assert(e =~= (head + status_text + ": "@) + body + none);
    crate::reading::lemma_holds(head + status_text + ": "@, body, none);
}

/// What did not get through is worth another try, whatever the request was; an answer that holds
/// no text is not.
pub proof fn law_what_is_worth_another_try(
    v: JsonView,
    error: Seq<char>,
    sent: Seq<char>,
    refused: Seq<char>,
    colon: Seq<char>,
    read: Seq<char>,
)
    ensures
        seen_result(HttpReplyView::NotSent(error), sent, refused, colon, read) matches Err(
            AiCallErrorView::Transient(e),
        ) && crate::reading::holds(e, error),
        seen_result(HttpReplyView::Unreadable(error), sent, refused, colon, read) matches Err(
            AiCallErrorView::Transient(e),
        ) && crate::reading::holds(e, error),
        chat_content(v) is None ==> (seen_result(
            HttpReplyView::Answer(v),
            sent,
            refused,
            colon,
            read,
        ) matches Err(AiCallErrorView::Permanent(_))),
        chat_content(v) matches Some(s) ==> seen_result(
            HttpReplyView::Answer(v),
            sent,
            refused,
            colon,
            read,
        ) == Ok::<Seq<char>, AiCallErrorView>(s),
{
    let none = Seq::<char>::empty();
    assert(sent + error =~= sent + error + none);
    crate::reading::lemma_holds(sent, error, none);
    assert(read + error =~= read + error + none);
    crate::reading::lemma_holds(read, error, none);
}

} // verus!
