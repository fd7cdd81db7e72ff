//! Servers of external tools: JSON-RPC messages, and what is read from the replies.

use vstd::prelude::*;

use crate::config::McpServerConfig;
use crate::json::{
    empty_record, empty_record_view, field, field_int, field_list, field_text, in_i64, int_json,
    int_view, list_view, parsed, rec1, rec2, rec3, rec4, record1, record2, record3, record4,
    rendered, text_json, text_or, txt, Json, JsonView,
};
use crate::text::{
    cat2, cat5, first_chars, is_blank, split, splitted, starts_with, str_first_chars, str_is_blank,
    str_starts_with, str_trim, to_chars, to_text, trim,
};

verus! {

/// The version of the protocol that is announced.
pub const PROTOCOL_VERSION: &'static str = "2025-06-18";

/// A tool that a server offers.
#[derive(Debug)]
pub struct McpTool {
    pub server: String,
    pub name: String,
    pub description: String,
    /// The JSON schema of what the tool takes.
    pub input_schema: Json,
}

pub struct McpToolView {
    pub server: Seq<char>,
    pub name: Seq<char>,
    pub description: Seq<char>,
    pub input_schema: JsonView,
}

impl McpTool {
    pub open spec fn view(self) -> McpToolView {
        McpToolView {
            server: self.server@,
            name: self.name@,
            description: self.description@,
            input_schema: self.input_schema.view(),
        }
    }
}

pub open spec fn tool_views(v: Seq<McpTool>) -> Seq<McpToolView> {
    Seq::new(v.len(), |i: int| v[i].view())
}

// ---------------------------------------------------------------------------
// Messages
// ---------------------------------------------------------------------------

/// How a server is reached.
#[derive(Debug, PartialEq, Eq, Structural)]
pub enum Transport {
    /// By a process whose input and output carry one message per line.
    Stdio,
    Http,
    /// It cannot be reached.
    Absent,
}

/// A command comes before a URL.
pub open spec fn transport_spec(s: McpServerConfig) -> Transport {
    if !is_blank(s.command@) {
        Transport::Stdio
    } else if is_blank(s.url@) {
        Transport::Absent
    } else {
        Transport::Http
    }
}

pub fn transport(s: &McpServerConfig) -> (r: Transport)
    ensures
        r == transport_spec(*s),
{
    if !str_is_blank(s.command.as_str()) {
        Transport::Stdio
    } else if str_is_blank(s.url.as_str()) {
        Transport::Absent
    } else {
        Transport::Http
    }
}

pub open spec fn request_view(id: int, method: Seq<char>, params: JsonView) -> JsonView {
    rec4("id"@, int_view(id), "jsonrpc"@, txt("2.0"@), "method"@, txt(method), "params"@, params)
}

/// The requests of one session: each has an id of its own.
#[derive(Debug)]
pub struct Requests {
    pub next_id: i64,
}

impl Requests {
    pub fn new() -> (r: Requests)
        ensures
            r.next_id == 1,
    {
        Requests { next_id: 1 }
    }

    /// The next request, and its id.
    pub fn request(&mut self, method: &str, params: Json) -> (r: (i64, Json))
        requires
            old(self).next_id < i64::MAX,
        ensures
            final(self).next_id == old(self).next_id + 1,
            r.0 == old(self).next_id,
            r.1.view() == request_view(old(self).next_id as int, method@, params.view()),
    {
        let id = self.next_id;
        self.next_id = id + 1;
        (
            id,
            record4(
                "id",
                int_json(id),
                "jsonrpc",
                text_json("2.0"),
                "method",
                text_json(method),
                "params",
                params,
            ),
        )
    }
}

/// A message that expects no reply.
pub fn notification(method: &str) -> (r: Json)
    ensures
        r.view() == rec2("jsonrpc"@, txt("2.0"@), "method"@, txt(method@)),
{
    record2("jsonrpc", text_json("2.0"), "method", text_json(method))
}

/// What the first request of a session carries.
pub fn handshake_params(version: &str) -> (r: Json)
    ensures
        r.view() == rec3(
            "capabilities"@,
            empty_record_view(),
            "clientInfo"@,
            rec2("name"@, txt("SenseTree"@), "version"@, txt(version@)),
            "protocolVersion"@,
            txt(PROTOCOL_VERSION@),
        ),
{
    record3(
        "capabilities",
        empty_record(),
        "clientInfo",
        record2("name", text_json("SenseTree"), "version", text_json(version)),
        "protocolVersion",
        text_json(PROTOCOL_VERSION),
    )
}

/// What the call of a tool carries.
pub fn call_params(tool: &str, arguments: Json) -> (r: Json)
    ensures
        r.view() == rec2("arguments"@, arguments.view(), "name"@, txt(tool@)),
{
    record2("arguments", arguments, "name", text_json(tool))
}

// ---------------------------------------------------------------------------
// Replies
// ---------------------------------------------------------------------------

/// The message that a line of a stream of events carries.
pub open spec fn event_message(line: Seq<char>) -> Option<JsonView> {
    let t = trim(line);
    if starts_with(t, "data:"@) {
        let payload = trim(t.skip("data:"@.len() as int));
        if starts_with(payload, "{"@) {
            match parsed(payload) {
                Some(v) => if field(v, "result"@) is Some || field(v, "error"@) is Some {
                    Some(v)
                } else {
                    None
                },
                None => None,
            }
        } else {
            None
        }
    } else {
        None
    }
}

/// The last message among some lines.
pub open spec fn last_message(lines: Seq<Seq<char>>) -> Option<JsonView>
    decreases lines.len(),
{
    if lines.len() == 0 {
        None
    } else {
        match event_message(lines.last()) {
            Some(v) => Some(v),
            None => last_message(lines.drop_last()),
        }
    }
}

/// The message of a reply, which is either that message or a stream of events.
pub open spec fn reply_message(text: Seq<char>) -> Result<JsonView, Seq<char>> {
    if starts_with(trim(text), "{"@) {
        match parsed(trim(text)) {
            Some(v) => Ok(v),
            None => Err("réponse MCP JSON invalide"@),
        }
    } else {
        match last_message(split(text, "\n"@)) {
            Some(v) => Ok(v),
            None => Err("réponse MCP non exploitable : "@ + first_chars(trim(text), 160)),
        }
    }
}

pub open spec fn json_result(r: Result<Json, String>) -> Result<JsonView, Seq<char>> {
    match r {
        Ok(v) => Ok(v.view()),
        Err(e) => Err(e@),
    }
}

fn read_event(line: &Vec<char>) -> (r: Option<Json>)
    ensures
        match r {
            Some(v) => event_message(line@) == Some(v.view()),
            None => event_message(line@) is None,
        },
{
    let t = crate::text::trimmed(line.as_slice());
    let head = to_chars("data:");
    if !crate::text::at(t, head.as_slice(), 0) {
        return None;
    }
    let rest = crate::text::part(t, head.len(), t.len());
    assert(rest@ =~= t@.skip(head@.len() as int));
    let payload = to_text(crate::text::trimmed(rest));
    if !str_starts_with(payload.as_str(), "{") {
        return None;
    }
    match Json::parse(payload.as_str()) {
        Some(v) => {
            if v.get("result").is_some() || v.get("error").is_some() {
                Some(v)
            } else {
                None
            }
        },
        None => None,
    }
}

pub fn parse_jsonrpc(text: &str) -> (r: Result<Json, String>)
    ensures
        json_result(r) == reply_message(text@),
{
    let whole = str_trim(text);
    if str_starts_with(whole.as_str(), "{") {
        return match Json::parse(whole.as_str()) {
            Some(v) => Ok(v),
            None => Err("réponse MCP JSON invalide".to_owned()),
        };
    }
    proof {
        reveal_strlit("\n");
    }
    let lines = splitted(to_chars(text).as_slice(), to_chars("\n").as_slice());
    let ghost all = crate::text::char_views(lines@);
    let mut i: usize = lines.len();
    assert(all.take(i as int) =~= all);
    while i > 0
        invariant
            i <= lines.len(),
            all == crate::text::char_views(lines@),
            all == split(text@, "\n"@),
            !starts_with(trim(text@), "{"@),
            last_message(all) == last_message(all.take(i as int)),
        decreases i,
    {
        assert(all.take(i as int).drop_last() =~= all.take(i - 1));
        assert(all.take(i as int).last() == lines@[i - 1]@);
        if let Some(v) = read_event(&lines[i - 1]) {
            return Ok(v);
        }
        i = i - 1;
    }
    Err(
        cat2(
            "réponse MCP non exploitable : ",
            str_first_chars(whole.as_str(), 160).as_str(),
        ),
    )
}

pub open spec fn result_or_null(v: JsonView) -> JsonView {
    match field(v, "result"@) {
        Some(r) => r,
        None => JsonView::Null,
    }
}

fn take_result(v: &Json) -> (r: Json)
    ensures
        r.view() == result_or_null(v.view()),
{
    match v.get("result") {
        Some(r) => r.copy(),
        None => Json::Null,
    }
}

/// What a reply over HTTP gives back. `status` is the status as a text.
pub open spec fn http_result(
    name: Seq<char>,
    method: Seq<char>,
    ok: bool,
    status: Seq<char>,
    message: Result<JsonView, Seq<char>>,
) -> Result<JsonView, Seq<char>> {
    let about = "MCP "@ + name + " "@ + method + " : "@;
    if !ok {
        Err(about + ("HTTP "@ + status))
    } else {
        match message {
            Err(e) => Err(e),
            Ok(v) => match field(v, "error"@) {
                Some(e) => Err(about + rendered(e)),
                None => Ok(result_or_null(v)),
            },
        }
    }
}

/// What a message that came over HTTP gives back.
pub fn read_http_message(
    name: &str,
    method: &str,
    ok: bool,
    status: &str,
    message: Result<Json, String>,
) -> (r: Result<Json, String>)
    ensures
        json_result(r) == http_result(name@, method@, ok, status@, json_result(message)),
{
    let about = cat5("MCP ", name, " ", method, " : ");
    if !ok {
        return Err(cat2(about.as_str(), cat2("HTTP ", status).as_str()));
    }
    match message {
        Err(e) => Err(e),
        Ok(v) => match v.get("error") {
            Some(e) => Err(cat2(about.as_str(), e.render().as_str())),
            None => Ok(take_result(&v)),
        },
    }
}

/// What a reply over HTTP gives back.
pub fn read_http_reply(name: &str, method: &str, ok: bool, status: &str, body: &str) -> (r: Result<
    Json,
    String,
>)
    ensures
        json_result(r) == http_result(name@, method@, ok, status@, reply_message(body@)),
{
    read_http_message(name, method, ok, status, parse_jsonrpc(body))
}

/// What a line of a process means while the reply to `id` is awaited.
#[derive(Debug)]
pub enum LineStep {
    /// The line is not the reply: read on.
    Skip,
    Failed(String),
    Done(Json),
}

pub enum LineStepView {
    Skip,
    Failed(Seq<char>),
    Done(JsonView),
}

impl LineStep {
    pub open spec fn view(self) -> LineStepView {
        match self {
            LineStep::Skip => LineStepView::Skip,
            LineStep::Failed(e) => LineStepView::Failed(e@),
            LineStep::Done(v) => LineStepView::Done(v.view()),
        }
    }
}

/// A message that was read counts where it carries the id.
pub open spec fn message_step(message: Option<JsonView>, id: int) -> LineStepView {
    match message {
        Some(v) => if in_i64(field_int(v, "id"@)) == Some(id) {
            match field(v, "error"@) {
                Some(e) => LineStepView::Failed(rendered(e)),
                None => LineStepView::Done(result_or_null(v)),
            }
        } else {
            LineStepView::Skip
        },
        None => LineStepView::Skip,
    }
}

pub open spec fn line_step(line: Seq<char>, id: int) -> LineStepView {
    if is_blank(line) {
        LineStepView::Skip
    } else {
        message_step(parsed(trim(line)), id)
    }
}

pub fn on_message(message: Option<Json>, id: i64) -> (r: LineStep)
    ensures
        r.view() == message_step(
            match message {
                Some(v) => Some(v.view()),
                None => None,
            },
            id as int,
        ),
{
    match message {
        Some(v) => {
            match v.get_i64("id") {
                Some(n) => if n == id {
                    match v.get("error") {
                        Some(e) => LineStep::Failed(e.render()),
                        None => LineStep::Done(take_result(&v)),
                    }
                } else {
                    LineStep::Skip
                },
                None => LineStep::Skip,
            }
        },
        None => LineStep::Skip,
    }
}

/// Reads a line of a process. A blank line and one that is no JSON are skipped, and so is
/// a message with another id.
pub fn on_line(line: &str, id: i64) -> (r: LineStep)
    ensures
        r.view() == line_step(line@, id as int),
{
    if str_is_blank(line) {
        LineStep::Skip
    } else {
        on_message(Json::parse(str_trim(line).as_str()), id)
    }
}

/// A reply to one request is never taken for the reply to another.
pub proof fn law_replies_are_told_apart(message: Option<JsonView>, a: int, b: int)
    requires
        a != b,
        message_step(message, a) != LineStepView::Skip,
    ensures
        message_step(message, b) == LineStepView::Skip,
{
}

// ---------------------------------------------------------------------------
// Tools
// ---------------------------------------------------------------------------

pub open spec fn tool_of(t: JsonView, server: Seq<char>) -> McpToolView {
    McpToolView {
        server,
        name: text_or(field_text(t, "name"@), Seq::empty()),
        description: text_or(field_text(t, "description"@), Seq::empty()),
        input_schema: match field(t, "inputSchema"@) {
            Some(s) => s,
            None => rec1("type"@, txt("object"@)),
        },
    }
}

/// The tools in a list, without those that have no name.
pub open spec fn named_tools(items: Seq<JsonView>, server: Seq<char>) -> Seq<McpToolView>
    decreases items.len(),
{
    if items.len() == 0 {
        Seq::empty()
    } else {
        let so_far = named_tools(items.drop_last(), server);
        if tool_of(items.last(), server).name.len() == 0 {
            so_far
        } else {
            so_far.push(tool_of(items.last(), server))
        }
    }
}

/// The tools that a server lists.
pub open spec fn tools_of(result: JsonView, server: Seq<char>) -> Seq<McpToolView> {
    match field_list(result, "tools"@) {
        Some(items) => named_tools(items, server),
        None => Seq::empty(),
    }
}

fn read_tool(t: &Json, server: &str) -> (r: McpTool)
    ensures
        r.view() == tool_of(t.view(), server@),
{
    McpTool {
        server: server.to_owned(),
        name: t.get_text_or_empty("name"),
        description: t.get_text_or_empty("description"),
        input_schema: match t.get("inputSchema") {
            Some(s) => s.copy(),
            None => record1("type", text_json("object")),
        },
    }
}

pub fn parse_tools(result: &Json, server: &str) -> (r: Vec<McpTool>)
    ensures
        tool_views(r@) == tools_of(result.view(), server@),
{
    let mut out: Vec<McpTool> = Vec::new();
    assert(tool_views(out@) =~= Seq::<McpToolView>::empty());
    if let Some(items) = result.get_list("tools") {
        let ghost all = list_view(items@);
        let mut i: usize = 0;
        proof {
            crate::json::lemma_list_view(items@);
            assert(all.take(0) =~= Seq::<JsonView>::empty());
        }
        while i < items.len()
            invariant
                i <= items.len(),
                all.len() == items@.len(),
                forall|k: int| 0 <= k < items@.len() ==> #[trigger] all[k] == items@[k].view(),
                tool_views(out@) == named_tools(all.take(i as int), server@),
            decreases items.len() - i,
        {
            assert(all.take(i + 1).drop_last() =~= all.take(i as int));
            assert(all.take(i + 1).last() == all[i as int]);
            let t = read_tool(&items[i], server);
            if !crate::text::str_is_empty(t.name.as_str()) {
                let ghost before = tool_views(out@);
                let ghost tv = t.view();
                out.push(t);
                assert(tool_views(out@) =~= before.push(tv));
            }
            i = i + 1;
        }
        assert(all.take(i as int) =~= all);
    }
    out
}

/// The texts of the content, one per line.
pub open spec fn content_texts(items: Seq<JsonView>) -> Seq<char>
    decreases items.len(),
{
    if items.len() == 0 {
        Seq::empty()
    } else {
        let so_far = content_texts(items.drop_last());
        match field_text(items.last(), "text"@) {
            Some(t) => if so_far.len() == 0 {
                t
            } else {
                so_far + "\n"@ + t
            },
            None => so_far,
        }
    }
}

/// What a tool gave back, as a text. Where it holds no text, the result itself is shown.
pub open spec fn content_of(result: JsonView) -> Seq<char> {
    let texts = match field_list(result, "content"@) {
        Some(items) => content_texts(items),
        None => Seq::empty(),
    };
    if is_blank(texts) {
        rendered(result)
    } else {
        texts
    }
}

pub fn extract_content_text(result: &Json) -> (r: String)
    ensures
        r@ == content_of(result.view()),
{
    let mut buf = String::new();
    assert(buf@ =~= Seq::<char>::empty());
    if let Some(items) = result.get_list("content") {
        let ghost all = list_view(items@);
        let mut i: usize = 0;
        proof {
            crate::json::lemma_list_view(items@);
            assert(all.take(0) =~= Seq::<JsonView>::empty());
        }
        while i < items.len()
            invariant
                i <= items.len(),
                all.len() == items@.len(),
                forall|k: int| 0 <= k < items@.len() ==> #[trigger] all[k] == items@[k].view(),
                buf@ == content_texts(all.take(i as int)),
            decreases items.len() - i,
        {
            assert(all.take(i + 1).drop_last() =~= all.take(i as int));
            assert(all.take(i + 1).last() == all[i as int]);
            if let Some(t) = items[i].get_text("text") {
                if crate::text::str_is_empty(buf.as_str()) {
                    buf = t.to_owned();
                } else {
                    buf.append("\n");
                    buf.append(t);
                }
            }
            i = i + 1;
        }
        assert(all.take(i as int) =~= all);
    }
    if str_is_blank(buf.as_str()) {
        result.render()
    } else {
        buf
    }
}

/// Every tool that a server lists under a name is offered, with its description and what it
/// takes, and no other.
pub proof fn law_every_named_tool_is_offered(items: Seq<JsonView>, server: Seq<char>)
    ensures
        named_tools(items, server) == items.filter(
            |t: JsonView| text_or(field_text(t, "name"@), Seq::empty()).len() > 0,
        ).map_values(|t: JsonView| tool_of(t, server)),
    decreases items.len(),
{
    reveal(Seq::filter);
    let f = |t: JsonView| text_or(field_text(t, "name"@), Seq::empty()).len() > 0;
    let g = |t: JsonView| tool_of(t, server);
    if items.len() > 0 {
        let less = items.drop_last();
        law_every_named_tool_is_offered(less, server);
        if f(items.last()) {
            assert(items.filter(f).map_values(g) =~= less.filter(f).map_values(g).push(
                tool_of(items.last(), server),
            ));
        }
    } else {
        assert(named_tools(items, server) =~= items.filter(f).map_values(g));
    }
}

/// No text that a tool gives back is lost: each stands in the content.
pub proof fn law_every_text_stands_in_the_content(items: Seq<JsonView>, i: int, t: Seq<char>)
    requires
        0 <= i < items.len(),
        field_text(items[i], "text"@) == Some(t),
    ensures
        crate::reading::holds(content_texts(items), t),
    decreases items.len(),
{
    let less = items.drop_last();
    let all = content_texts(items);
    let before = content_texts(less);
    let none = Seq::<char>::empty();
    if i == items.len() - 1 {
        if before.len() == 0 {
            assert(all =~= none + t + none);
            crate::reading::lemma_holds(none, t, none);
        } else {
            assert(all =~= before + "\n"@ + t + none);
            crate::reading::lemma_holds(before + "\n"@, t, none);
        }
    } else {
        assert(less[i] == items[i]);
        law_every_text_stands_in_the_content(less, i, t);
        if let Some(last) = field_text(items.last(), "text"@) {
            if before.len() == 0 {
                let k = choose|k: int| #[trigger] crate::text::matches_at(before, t, k);
                assert(t =~= none);
                assert(all =~= none + t + all);
                crate::reading::lemma_holds(none, t, all);
            } else {
                assert(all =~= none + before + ("\n"@ + last));
                crate::reading::lemma_holds(none, before, "\n"@ + last);
                crate::reading::lemma_holds_through(all, before, t);
            }
        }
    }
}

/// The reply to a request gives its result, or its error where it carries one; a line that is
/// blank or carries another id is passed over.
pub proof fn law_a_reply_gives_its_result(v: JsonView, id: int)
    requires
        in_i64(field_int(v, "id"@)) == Some(id),
    ensures
        field(v, "error"@) is None ==> (field(v, "result"@) matches Some(r) ==> message_step(
            Some(v),
            id,
        ) == LineStepView::Done(r)),
        field(v, "error"@) is Some ==> message_step(Some(v), id) is Failed,
        forall|other: int| other != id ==> #[trigger] message_step(Some(v), other) == LineStepView::Skip,
{
}

/// The last message of a stream of events is the reply, whatever lines come behind it.
pub proof fn law_the_last_message_is_the_reply(lines: Seq<Seq<char>>, i: int)
    requires
        0 <= i < lines.len(),
        event_message(lines[i]) is Some,
        forall|j: int| i < j < lines.len() ==> event_message(#[trigger] lines[j]) is None,
    ensures
        last_message(lines) == event_message(lines[i]),
    decreases lines.len(),
{
    if i < lines.len() - 1 {
        let less = lines.drop_last();
        assert(event_message(lines[lines.len() - 1]) is None);
        assert(less[i] == lines[i]);
        assert forall|j: int| i < j < less.len() implies event_message(#[trigger] less[j]) is None by {
            assert(less[j] == lines[j]);
        }
        law_the_last_message_is_the_reply(less, i);
    }
}

/// What a tool gives back is what is told: each of its texts, or the whole result where it has
/// none.
pub proof fn law_what_a_tool_says_is_told(result: JsonView, items: Seq<JsonView>, i: int, t: Seq<char>)
    requires
        field_list(result, "content"@) == Some(items),
        0 <= i < items.len(),
        field_text(items[i], "text"@) == Some(t),
        !is_blank(content_texts(items)),
    ensures
        crate::reading::holds(content_of(result), t),
{
    law_every_text_stands_in_the_content(items, i, t);
}

/// The result of a request is what the server gave; a refusal and an error are told with the name
/// of the server and of the method.
pub proof fn law_a_result_is_what_the_server_gave(
    name: Seq<char>,
    method: Seq<char>,
    status: Seq<char>,
    v: JsonView,
    r: JsonView,
)
    requires
        field(v, "result"@) == Some(r),
    ensures
        field(v, "error"@) is None ==> http_result(name, method, true, status, Ok(v)) == Ok::<
            JsonView,
            Seq<char>,
        >(r),
        field(v, "error"@) matches Some(e) ==> (http_result(name, method, true, status, Ok(v))
            matches Err(m) && crate::reading::holds(m, rendered(e)) && crate::reading::holds(
            m,
            name,
        )),
        http_result(name, method, false, status, Ok(v)) matches Err(m) && crate::reading::holds(
            m,
            status,
        ) && crate::reading::holds(m, method),
{
    let none = Seq::<char>::empty();
    let about = "MCP "@ + name + " "@ + method + " : "@;
    if let Some(e) = field(v, "error"@) {
        let m = about + rendered(e);
        assert(m =~= about + rendered(e) + none);
        crate::reading::lemma_holds(about, rendered(e), none);
        assert(m =~= "MCP "@ + name + (" "@ + method + " : "@ + rendered(e)));
        crate::reading::lemma_holds("MCP "@, name, " "@ + method + " : "@ + rendered(e));
    }
    let m = about + ("HTTP "@ + status);
    assert(m =~= (about + "HTTP "@) + status + none);
    crate::reading::lemma_holds(about + "HTTP "@, status, none);
    assert(m =~= ("MCP "@ + name + " "@) + method + (" : "@ + ("HTTP "@ + status)));
    crate::reading::lemma_holds("MCP "@ + name + " "@, method, " : "@ + ("HTTP "@ + status));
}

/// Every tool that the server lists is read from its list.
pub proof fn law_the_list_of_the_server_is_read(result: JsonView, items: Seq<JsonView>, server: Seq<char>)
    requires
        field_list(result, "tools"@) == Some(items),
    ensures
        tools_of(result, server) == items.filter(
            |t: JsonView| text_or(field_text(t, "name"@), Seq::empty()).len() > 0,
        ).map_values(|t: JsonView| tool_of(t, server)),
{
    law_every_named_tool_is_offered(items, server);
}

} // verus!
