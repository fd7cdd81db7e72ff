//! The assistant: its tools, what it is told, and the loop in which it calls tools and
//! answers.

use vstd::prelude::*;

use crate::actions::{
    first_offending, is_sep, op_views, path_within_roots, validate_operations, within_roots,
    ActionPlan, ListedPath, Operation,
};
use crate::bytes::{lossy_text, utf8_lossy};
use crate::chat::AgentTurn;
use crate::config::McpServerConfig;
use crate::json::{
    empty_record, field_text, list1, list_view, parsed, rec1, rec2, rec3, record1, record2,
    record3, record_view, rendered, text_json, text_or, txt, Json, JsonView,
};
use crate::mcp::{McpTool, McpToolView};
use crate::text::{
    cat2, cat3, cat4, cat5, char_is_ascii_letter, char_is_digit, decimal, decimal_text,
    first_chars, is_ascii_letter, is_blank, is_digit, join, joined, opt, split, starts_with,
    str_eq, str_first_chars, str_is_blank, str_is_empty, str_starts_with, str_trim, swap_char,
    to_chars, to_text, trim, views,
};

verus! {

/// The model is asked at most this often before it has to answer.
pub const MAX_AGENT_ROUNDS: usize = 5;

/// How many characters of a file a tool shows.
pub const FILE_CLIP: usize = 4000;

/// How many entries of a directory a tool shows.
pub const LIST_CLIP: usize = 200;

#[derive(Debug)]
pub struct ChatTurn {
    pub role: String,
    pub content: String,
}

/// A call of a tool that the model asks for.
#[derive(Debug)]
pub struct ToolCallOut {
    pub id: String,
    pub name: String,
    /// A JSON text.
    pub arguments: String,
}

// ---------------------------------------------------------------------------
// Tools
// ---------------------------------------------------------------------------

/// A tool as the model sees it: its name, what it is for, and what it takes.
pub open spec fn function_schema(name: Seq<char>, description: Seq<char>, parameters: JsonView) -> JsonView {
    rec2(
        "function"@,
        rec3("description"@, txt(description), "name"@, txt(name), "parameters"@, parameters),
        "type"@,
        txt("function"@),
    )
}

pub fn function_tool(name: &str, description: &str, parameters: Json) -> (r: Json)
    ensures
        r.view() == function_schema(name@, description@, parameters.view()),
{
    record2(
        "function",
        record3(
            "description",
            text_json(description),
            "name",
            text_json(name),
            "parameters",
            parameters,
        ),
        "type",
        text_json("function"),
    )
}

/// An object of which one property is required.
pub open spec fn object_schema(properties: JsonView, required: Seq<char>) -> JsonView {
    rec3(
        "properties"@,
        properties,
        "required"@,
        JsonView::List(seq![txt(required)]),
        "type"@,
        txt("object"@),
    )
}

fn object_of(properties: Json, required: &str) -> (r: Json)
    ensures
        r.view() == object_schema(properties.view(), required@),
{
    record3(
        "properties",
        properties,
        "required",
        list1(text_json(required)),
        "type",
        text_json("object"),
    )
}

pub open spec fn described_string(description: Seq<char>) -> JsonView {
    rec2("description"@, txt(description), "type"@, txt("string"@))
}

fn string_of(description: &str) -> (r: Json)
    ensures
        r.view() == described_string(description@),
{
    record2("description", text_json(description), "type", text_json("string"))
}

pub open spec fn plain_string() -> JsonView {
    rec1("type"@, txt("string"@))
}

pub open spec fn search_tool() -> JsonView {
    function_schema(
        "search_files"@,
        "Recherche sémantique HYBRIDE (sens + mots-clés) dans les fichiers indexés de l'utilisateur. Renvoie les fichiers les plus pertinents avec un extrait. À utiliser pour retrouver des documents."@,
        object_schema(
            rec2(
                "query"@,
                described_string("La requête (langage naturel ou mots-clés)."@),
                "scope"@,
                described_string(
                    "Chemin d'un dossier pour restreindre la recherche (optionnel)."@,
                ),
            ),
            "query"@,
        ),
    )
}

pub open spec fn read_tool() -> JsonView {
    function_schema(
        "read_file"@,
        "Lit le contenu texte d'un fichier (borné à ~4000 caractères). Utile pour examiner un fichier trouvé avant de répondre ou d'agir."@,
        object_schema(
            rec1("path"@, described_string("Chemin absolu exact du fichier."@)),
            "path"@,
        ),
    )
}

pub open spec fn list_tool() -> JsonView {
    function_schema(
        "list_directory"@,
        "Liste le contenu d'un dossier (fichiers et sous-dossiers, chemins exacts)."@,
        object_schema(rec1("path"@, described_string("Chemin absolu du dossier."@)), "path"@),
    )
}

pub open spec fn operation_kinds() -> JsonView {
    JsonView::List(seq![txt("move"@), txt("rename"@), txt("delete"@), txt("mkdir"@)])
}

pub open spec fn operation_properties() -> JsonView {
    JsonView::Record(
        seq![
            ("kind"@, rec2("enum"@, operation_kinds(), "type"@, txt("string"@))),
            ("new_path"@, plain_string()),
            ("old_path"@, plain_string()),
            ("reason"@, plain_string()),
        ],
    )
}

pub open spec fn propose_tool() -> JsonView {
    function_schema(
        "propose_actions"@,
        "Propose un plan d'actions sur les fichiers (déplacer/renommer/supprimer/créer un dossier). N'EXÉCUTE RIEN : l'utilisateur validera. Utilise UNIQUEMENT des chemins exacts et existants."@,
        object_schema(
            rec2(
                "operations"@,
                rec2("items"@, object_schema(operation_properties(), "kind"@), "type"@, txt("array"@)),
                "summary"@,
                described_string("Résumé en une phrase du plan."@),
            ),
            "operations"@,
        ),
    )
}

/// The tools that are built in.
pub open spec fn built_in_tools() -> Seq<JsonView> {
    seq![search_tool(), read_tool(), list_tool(), propose_tool()]
}

fn operation_object() -> (r: Json)
    ensures
        r.view() == object_schema(operation_properties(), "kind"@),
{
    let mut kinds: Vec<Json> = Vec::new();
    kinds.push(text_json("move"));
    kinds.push(text_json("rename"));
    kinds.push(text_json("delete"));
    kinds.push(text_json("mkdir"));
    proof {
        crate::json::lemma_list_view(kinds@);
    }
    assert(list_view(kinds@) =~= seq![txt("move"@), txt("rename"@), txt("delete"@), txt("mkdir"@)]);
    let mut f: Vec<(String, Json)> = Vec::new();
    f.push(("kind".to_owned(), record2("enum", Json::List(kinds), "type", text_json("string"))));
    f.push(("new_path".to_owned(), record1("type", text_json("string"))));
    f.push(("old_path".to_owned(), record1("type", text_json("string"))));
    f.push(("reason".to_owned(), record1("type", text_json("string"))));
    proof {
        crate::json::lemma_record_view(f@);
    }
    assert(record_view(f@) =~= operation_properties()->Record_0);
    object_of(Json::Record(f), "kind")
}

pub fn tool_schemas() -> (r: Vec<Json>)
    ensures
        list_view(r@) == built_in_tools(),
{
    let mut tools: Vec<Json> = Vec::new();
    tools.push(
        function_tool(
            "search_files",
            "Recherche sémantique HYBRIDE (sens + mots-clés) dans les fichiers indexés de l'utilisateur. Renvoie les fichiers les plus pertinents avec un extrait. À utiliser pour retrouver des documents.",
            object_of(
                record2(
                    "query",
                    string_of("La requête (langage naturel ou mots-clés)."),
                    "scope",
                    string_of("Chemin d'un dossier pour restreindre la recherche (optionnel)."),
                ),
                "query",
            ),
        ),
    );
    tools.push(
        function_tool(
            "read_file",
            "Lit le contenu texte d'un fichier (borné à ~4000 caractères). Utile pour examiner un fichier trouvé avant de répondre ou d'agir.",
            object_of(record1("path", string_of("Chemin absolu exact du fichier.")), "path"),
        ),
    );
    tools.push(
        function_tool(
            "list_directory",
            "Liste le contenu d'un dossier (fichiers et sous-dossiers, chemins exacts).",
            object_of(record1("path", string_of("Chemin absolu du dossier.")), "path"),
        ),
    );
    tools.push(
        function_tool(
            "propose_actions",
            "Propose un plan d'actions sur les fichiers (déplacer/renommer/supprimer/créer un dossier). N'EXÉCUTE RIEN : l'utilisateur validera. Utilise UNIQUEMENT des chemins exacts et existants.",
            object_of(
                record2(
                    "operations",
                    record2("items", operation_object(), "type", text_json("array")),
                    "summary",
                    string_of("Résumé en une phrase du plan."),
                ),
                "operations",
            ),
        ),
    );
    proof {
        crate::json::lemma_list_view(tools@);
    }
    assert(list_view(tools@) =~= built_in_tools());
    tools
}

pub open spec fn is_name_char(c: char) -> bool {
    is_ascii_letter(c) || is_digit(c) || c == '_' || c == '-'
}

/// A name that the protocol of tool calls accepts.
pub open spec fn sanitized(s: Seq<char>) -> Seq<char> {
    first_chars(
        Seq::new(
            s.len(),
            |i: int|
                if is_name_char(s[i]) {
                    s[i]
                } else {
                    '_'
                },
        ),
        64,
    )
}

pub fn sanitize_tool_name(s: &str) -> (r: String)
    ensures
        r@ == sanitized(s@),
{
    let c = to_chars(s);
    let ghost want = Seq::new(
        s@.len(),
        |i: int|
            if is_name_char(s@[i]) {
                s@[i]
            } else {
                '_'
            },
    );
    let mut out: Vec<char> = Vec::new();
    let mut i: usize = 0;
    while i < c.len()
        invariant
            i <= c.len(),
            c@ == s@,
            want == Seq::new(
                s@.len(),
                |i: int|
                    if is_name_char(s@[i]) {
                        s@[i]
                    } else {
                        '_'
                    },
            ),
            out@ == want.take(i as int),
        decreases c.len() - i,
    {
        let ch = c[i];
        if char_is_ascii_letter(ch) || char_is_digit(ch) || ch == '_' || ch == '-' {
            out.push(ch);
        } else {
            out.push('_');
        }
        i = i + 1;
        assert(out@ =~= want.take(i as int));
    }
    assert(want.take(i as int) =~= want);
    str_first_chars(to_text(out.as_slice()).as_str(), 64)
}

/// A sanitized name holds letters, digits, `_` and `-` alone, 64 of them at most.
pub proof fn law_tool_names_are_accepted(s: Seq<char>)
    ensures
        sanitized(s).len() <= 64,
        forall|i: int| 0 <= i < sanitized(s).len() ==> is_name_char(#[trigger] sanitized(s)[i]),
{
}

// ---------------------------------------------------------------------------
// External tools
// ---------------------------------------------------------------------------

/// A server that is enabled and can be reached by its URL or its command.
pub open spec fn is_active(s: McpServerConfig) -> bool {
    s.enabled && (!is_blank(s.url@) || !is_blank(s.command@))
}

pub fn server_is_active(s: &McpServerConfig) -> (r: bool)
    ensures
        r == is_active(*s),
{
    s.enabled && (!str_is_blank(s.url.as_str()) || !str_is_blank(s.command.as_str()))
}

/// What identifies the settings of a server.
pub open spec fn server_key(s: McpServerConfig) -> Seq<char> {
    s.name@ + "|"@ + s.url@ + "|"@ + s.auth@ + "|"@ + s.command@ + "|"@ + join(
        views(s.args@),
        "\u{1f}"@,
    )
}

pub open spec fn active_keys(servers: Seq<McpServerConfig>) -> Seq<Seq<char>>
    decreases servers.len(),
{
    if servers.len() == 0 {
        Seq::empty()
    } else if is_active(servers.last()) {
        active_keys(servers.drop_last()).push(server_key(servers.last()))
    } else {
        active_keys(servers.drop_last())
    }
}

fn key_of_server(s: &McpServerConfig) -> (r: String)
    ensures
        r@ == server_key(*s),
{
    let mut k = cat5(s.name.as_str(), "|", s.url.as_str(), "|", s.auth.as_str());
    k.append("|");
    k.append(s.command.as_str());
    k.append("|");
    k.append(joined(&s.args, "\u{1f}").as_str());
    k
}

/// The key of the discovery cache: any change of an active server gives another one.
/// `None` where no server is active.
pub fn discovery_key(servers: &Vec<McpServerConfig>) -> (r: Option<String>)
    ensures
        opt(r) == (if active_keys(servers@).len() == 0 {
            None
        } else {
            Some(join(active_keys(servers@), ";;"@))
        }),
{
    let mut keys: Vec<String> = Vec::new();
    let mut i: usize = 0;
    assert(servers@.take(0) =~= Seq::<McpServerConfig>::empty());
    assert(views(keys@) =~= Seq::<Seq<char>>::empty());
    while i < servers.len()
        invariant
            i <= servers.len(),
            views(keys@) == active_keys(servers@.take(i as int)),
        decreases servers.len() - i,
    {
        assert(servers@.take(i + 1).drop_last() =~= servers@.take(i as int));
        assert(servers@.take(i + 1).last() == servers@[i as int]);
        if server_is_active(&servers[i]) {
            let ghost before = views(keys@);
            keys.push(key_of_server(&servers[i]));
            assert(views(keys@) =~= before.push(server_key(servers@[i as int])));
        }
        i = i + 1;
    }
    assert(servers@.take(i as int) =~= servers@);
    assert(views(keys@).len() == keys@.len());
    if keys.len() == 0 {
        None
    } else {
        Some(joined(&keys, ";;"))
    }
}

/// The seconds for which discovered tools are kept.
pub const DISCOVERY_TTL_SECS: u64 = 120;

/// Discovered tools are still good: the settings are the same and not much time went by.
pub fn discovery_is_fresh(cached_key: &str, key: &str, age_secs: u64) -> (r: bool)
    ensures
        r == (cached_key@ == key@ && age_secs < DISCOVERY_TTL_SECS),
{
    str_eq(cached_key, key) && age_secs < DISCOVERY_TTL_SECS
}

/// The name under which the model sees an external tool.
pub fn external_name(server: &str, tool: &str) -> (r: String)
    ensures
        r@ == sanitized("mcp__"@ + server@ + "__"@ + tool@),
{
    sanitize_tool_name(cat4("mcp__", server, "__", tool).as_str())
}

/// An external tool as the model sees it.
pub open spec fn external_view(t: McpToolView) -> JsonView {
    function_schema(
        sanitized("mcp__"@ + t.server + "__"@ + t.name),
        "["@ + t.server + "] "@ + t.description,
        t.input_schema,
    )
}

/// Where a call of an external tool goes: the server's place among the servers, its name,
/// and the name that the tool has there.
#[derive(Debug)]
pub struct ToolRoute {
    pub name: String,
    pub server: usize,
    pub server_name: String,
    pub tool: String,
}

pub struct RouteView {
    pub name: Seq<char>,
    pub server: int,
    pub server_name: Seq<char>,
    pub tool: Seq<char>,
}

impl ToolRoute {
    pub open spec fn view(self) -> RouteView {
        RouteView {
            name: self.name@,
            server: self.server as int,
            server_name: self.server_name@,
            tool: self.tool@,
        }
    }
}

pub open spec fn route_views(v: Seq<ToolRoute>) -> Seq<RouteView> {
    Seq::new(v.len(), |i: int| v[i].view())
}

pub open spec fn route_to(t: McpToolView, server: int) -> RouteView {
    RouteView {
        name: sanitized("mcp__"@ + t.server + "__"@ + t.name),
        server,
        server_name: t.server,
        tool: t.name,
    }
}

/// The tools of the servers that answered.
#[derive(Debug)]
pub struct Discovery {
    pub schemas: Vec<Json>,
    pub routes: Vec<ToolRoute>,
}

impl Discovery {
    pub fn new() -> (r: Discovery)
        ensures
            list_view(r.schemas@) == Seq::<JsonView>::empty(),
            route_views(r.routes@) == Seq::<RouteView>::empty(),
    {
        let r = Discovery { schemas: Vec::new(), routes: Vec::new() };
        assert(list_view(r.schemas@) =~= Seq::<JsonView>::empty());
        assert(route_views(r.routes@) =~= Seq::<RouteView>::empty());
        r
    }

    /// Takes in the tools of the server at place `server`.
    pub fn add_server(&mut self, server: usize, tools: Vec<McpTool>)
        ensures
            list_view(final(self).schemas@) == list_view(old(self).schemas@) + Seq::new(
                tools@.len(),
                |i: int| external_view(tools@[i].view()),
            ),
            route_views(final(self).routes@) == route_views(old(self).routes@) + Seq::new(
                tools@.len(),
                |i: int| route_to(tools@[i].view(), server as int),
            ),
    {
        let ghost new_schemas = Seq::new(tools@.len(), |i: int| external_view(tools@[i].view()));
        let ghost new_routes = Seq::new(
            tools@.len(),
            |i: int| route_to(tools@[i].view(), server as int),
        );
        let ghost schemas = list_view(self.schemas@);
        let ghost routes = route_views(self.routes@);
        let mut i: usize = 0;
        assert(schemas + new_schemas.take(0) =~= schemas);
        assert(routes + new_routes.take(0) =~= routes);
        while i < tools.len()
            invariant
                i <= tools.len(),
                new_schemas == Seq::new(tools@.len(), |i: int| external_view(tools@[i].view())),
                new_routes == Seq::new(
                    tools@.len(),
                    |i: int| route_to(tools@[i].view(), server as int),
                ),
                list_view(self.schemas@) == schemas + new_schemas.take(i as int),
                route_views(self.routes@) == routes + new_routes.take(i as int),
            decreases tools.len() - i,
        {
            let t = &tools[i];
            let name = external_name(t.server.as_str(), t.name.as_str());
            let ghost before_schemas = self.schemas@;
            let ghost before_routes = route_views(self.routes@);
            let schema = function_tool(
                name.as_str(),
                cat4("[", t.server.as_str(), "] ", t.description.as_str()).as_str(),
                t.input_schema.copy(),
            );
            self.schemas.push(schema);
            assert(self.schemas@.drop_last() =~= before_schemas);
            self.routes.push(
                ToolRoute {
                    name,
                    server,
                    server_name: t.server.clone(),
                    tool: t.name.clone(),
                },
            );
            assert(route_views(self.routes@) =~= before_routes.push(
                route_to(t.view(), server as int),
            ));
            assert(schemas + new_schemas.take(i + 1) =~= (schemas + new_schemas.take(i as int)).push(
                new_schemas[i as int],
            ));
            assert(routes + new_routes.take(i + 1) =~= (routes + new_routes.take(i as int)).push(
                new_routes[i as int],
            ));
            i = i + 1;
        }
        assert(new_schemas.take(i as int) =~= new_schemas);
        assert(new_routes.take(i as int) =~= new_routes);
    }
}

/// The tools that the model is shown: the built-in ones, then the external ones.
pub fn all_tools(external: &Vec<Json>) -> (r: Json)
    ensures
        r.view() == JsonView::List(built_in_tools() + list_view(external@)),
{
    let mut tools = tool_schemas();
    let ghost all = list_view(external@);
    let mut i: usize = 0;
    proof {
        crate::json::lemma_list_view(external@);
        assert(built_in_tools() + all.take(0) =~= built_in_tools());
    }
    while i < external.len()
        invariant
            i <= external.len(),
            all.len() == external@.len(),
            forall|k: int| 0 <= k < external@.len() ==> #[trigger] all[k] == external@[k].view(),
            list_view(tools@) == built_in_tools() + all.take(i as int),
        decreases external.len() - i,
    {
        let ghost before = tools@;
        tools.push(external[i].copy());
        assert(tools@.drop_last() =~= before);
        assert(built_in_tools() + all.take(i + 1) =~= (built_in_tools() + all.take(i as int)).push(
            all[i as int],
        ));
        i = i + 1;
    }
    assert(all.take(i as int) =~= all);
    Json::List(tools)
}

/// The last route of that name.
pub open spec fn route_of(routes: Seq<RouteView>, name: Seq<char>) -> Option<RouteView>
    decreases routes.len(),
{
    if routes.len() == 0 {
        None
    } else if routes.last().name == name {
        Some(routes.last())
    } else {
        route_of(routes.drop_last(), name)
    }
}

pub fn find_route<'a>(routes: &'a Vec<ToolRoute>, name: &str) -> (r: Option<&'a ToolRoute>)
    ensures
        match r {
            Some(t) => route_of(route_views(routes@), name@) == Some(t.view()),
            None => route_of(route_views(routes@), name@) is None,
        },
{
    let ghost all = route_views(routes@);
    let mut i: usize = routes.len();
    assert(all.take(i as int) =~= all);
    while i > 0
        invariant
            i <= routes.len(),
            all == route_views(routes@),
            route_of(all, name@) == route_of(all.take(i as int), name@),
        decreases i,
    {
        assert(all.take(i as int).drop_last() =~= all.take(i - 1));
        assert(all.take(i as int).last() == routes@[i - 1].view());
        if str_eq(routes[i - 1].name.as_str(), name) {
            return Some(&routes[i - 1]);
        }
        i = i - 1;
    }
    None
}

// ---------------------------------------------------------------------------
// Calling a tool
// ---------------------------------------------------------------------------

/// What a call of a tool comes down to.
#[derive(Debug)]
pub enum ToolAction {
    /// Pass the call on to a server.
    External { server: usize, tool: String, arguments: Json },
    Search { query: String, scope: Option<String> },
    ReadFile { path: String },
    ListDirectory { path: String },
    /// Propose a plan; the operations are a JSON text.
    Propose { operations: String, summary: String },
    /// Nothing is done: this is the observation.
    Reply(String),
}

pub enum ToolActionView {
    External { server: int, tool: Seq<char>, arguments: JsonView },
    Search { query: Seq<char>, scope: Option<Seq<char>> },
    ReadFile { path: Seq<char> },
    ListDirectory { path: Seq<char> },
    Propose { operations: Seq<char>, summary: Seq<char> },
    Reply(Seq<char>),
}

impl ToolAction {
    pub open spec fn view(self) -> ToolActionView {
        match self {
            ToolAction::External { server, tool, arguments } => ToolActionView::External {
                server: server as int,
                tool: tool@,
                arguments: arguments.view(),
            },
            ToolAction::Search { query, scope } => ToolActionView::Search {
                query: query@,
                scope: opt(scope),
            },
            ToolAction::ReadFile { path } => ToolActionView::ReadFile { path: path@ },
            ToolAction::ListDirectory { path } => ToolActionView::ListDirectory { path: path@ },
            ToolAction::Propose { operations, summary } => ToolActionView::Propose {
                operations: operations@,
                summary: summary@,
            },
            ToolAction::Reply(s) => ToolActionView::Reply(s@),
        }
    }
}

/// A text that is there and not blank.
pub open spec fn nonblank(t: Option<Seq<char>>) -> Option<Seq<char>> {
    match t {
        Some(s) if !is_blank(s) => Some(s),
        _ => None,
    }
}

pub open spec fn denied(path: Seq<char>) -> Seq<char> {
    "Accès refusé : « "@ + path + " » est hors des dossiers indexés."@
}

/// What a call comes down to: an external tool is passed on, and a built-in one that
/// touches the disk is refused outside of the roots.
pub open spec fn tool_action(
    name: Seq<char>,
    args: JsonView,
    routes: Seq<RouteView>,
    scope: Option<Seq<char>>,
    roots: Seq<String>,
) -> ToolActionView {
    let path = text_or(field_text(args, "path"@), Seq::empty());
    if route_of(routes, name) is Some {
        ToolActionView::External {
            server: route_of(routes, name)->Some_0.server,
            tool: route_of(routes, name)->Some_0.tool,
            arguments: args,
        }
    } else if name == "search_files"@ {
        ToolActionView::Search {
            query: text_or(field_text(args, "query"@), Seq::empty()),
            scope: match nonblank(field_text(args, "scope"@)) {
                Some(s) => Some(s),
                None => scope,
            },
        }
    } else if name == "read_file"@ {
        if within_roots(path, roots) {
            ToolActionView::ReadFile { path }
        } else {
            ToolActionView::Reply(denied(path))
        }
    } else if name == "list_directory"@ {
        if within_roots(path, roots) {
            ToolActionView::ListDirectory { path }
        } else {
            ToolActionView::Reply(denied(path))
        }
    } else if name == "propose_actions"@ {
        ToolActionView::Propose {
            operations: match crate::json::field(args, "operations"@) {
                Some(v) => rendered(v),
                None => "[]"@,
            },
            summary: text_or(nonblank(field_text(args, "summary"@)), "Plan d'action proposé"@),
        }
    } else {
        ToolActionView::Reply("Outil inconnu : "@ + name)
    }
}

/// The arguments of a call: what cannot be read stands for no arguments.
pub open spec fn arguments_of(text: Seq<char>) -> JsonView {
    match parsed(text) {
        Some(v) => v,
        None => JsonView::Record(Seq::empty()),
    }
}

pub fn read_arguments(text: &str) -> (r: Json)
    ensures
        r.view() == arguments_of(text@),
{
    match Json::parse(text) {
        Some(v) => v,
        None => empty_record(),
    }
}

/// Decides on a call whose arguments were read.
pub fn decide_tool(
    name: &str,
    args: Json,
    routes: &Vec<ToolRoute>,
    scope: &Option<String>,
    roots: &Vec<String>,
) -> (r: ToolAction)
    ensures
        r.view() == tool_action(name@, args.view(), route_views(routes@), opt(*scope), roots@),
{
    if let Some(t) = find_route(routes, name) {
        return ToolAction::External {
            server: t.server,
            tool: t.tool.clone(),
            arguments: args,
        };
    }
    if str_eq(name, "search_files") {
        let query = args.get_text_or_empty("query");
        if let Some(s) = args.get_text("scope") {
            if !str_is_blank(s) {
                return ToolAction::Search { query, scope: Some(s.to_owned()) };
            }
        }
        return ToolAction::Search { query, scope: crate::text::copy_opt(scope) };
    }
    if str_eq(name, "read_file") || str_eq(name, "list_directory") {
        let path = args.get_text_or_empty("path");
        if !path_within_roots(path.as_str(), roots) {
            return ToolAction::Reply(
                cat3("Accès refusé : « ", path.as_str(), " » est hors des dossiers indexés."),
            );
        }
        return if str_eq(name, "read_file") {
            ToolAction::ReadFile { path }
        } else {
            ToolAction::ListDirectory { path }
        };
    }
    if str_eq(name, "propose_actions") {
        let operations = match args.get("operations") {
            Some(v) => v.render(),
            None => "[]".to_owned(),
        };
        if let Some(s) = args.get_text("summary") {
            if !str_is_blank(s) {
                return ToolAction::Propose { operations, summary: s.to_owned() };
            }
        }
        return ToolAction::Propose { operations, summary: "Plan d'action proposé".to_owned() };
    }
    ToolAction::Reply(cat2("Outil inconnu : ", name))
}

/// Decides on a call of the model.
pub fn execute_tool(
    call: &ToolCallOut,
    routes: &Vec<ToolRoute>,
    scope: &Option<String>,
    roots: &Vec<String>,
) -> (r: ToolAction)
    ensures
        r.view() == tool_action(
            call.name@,
            arguments_of(call.arguments@),
            route_views(routes@),
            opt(*scope),
            roots@,
        ),
{
    decide_tool(
        call.name.as_str(),
        read_arguments(call.arguments.as_str()),
        routes,
        scope,
        roots,
    )
}

/// A built-in tool never touches the disk outside of the roots.
pub proof fn law_tools_stay_in_the_roots(
    name: Seq<char>,
    args: JsonView,
    routes: Seq<RouteView>,
    scope: Option<Seq<char>>,
    roots: Seq<String>,
)
    ensures
        tool_action(name, args, routes, scope, roots) matches ToolActionView::ReadFile { path }
            ==> within_roots(path, roots),
        tool_action(name, args, routes, scope, roots) matches ToolActionView::ListDirectory { path }
            ==> within_roots(path, roots),
{
}

// ---------------------------------------------------------------------------
// Observations
// ---------------------------------------------------------------------------

/// What the model gets to see of a file.
pub open spec fn file_observation(path: Seq<char>, content: Result<Seq<u8>, Seq<char>>) -> Seq<char> {
    if is_blank(path) {
        "Chemin manquant."@
    } else {
        match content {
            Ok(bytes) => {
                let clipped = first_chars(utf8_lossy(bytes), FILE_CLIP as nat);
                if is_blank(clipped) {
                    "(fichier binaire ou vide : aucun texte lisible)"@
                } else {
                    clipped
                }
            },
            Err(e) => "Impossible de lire "@ + path + " : "@ + e,
        }
    }
}

/// A text clipped to what a tool shows of a file.
pub fn clip_file_text(text: &str) -> (r: String)
    ensures
        r@ == (if is_blank(first_chars(text@, FILE_CLIP as nat)) {
            "(fichier binaire ou vide : aucun texte lisible)"@
        } else {
            first_chars(text@, FILE_CLIP as nat)
        }),
{
    let clipped = str_first_chars(text, FILE_CLIP);
    if str_is_blank(clipped.as_str()) {
        "(fichier binaire ou vide : aucun texte lisible)".to_owned()
    } else {
        clipped
    }
}

pub fn read_file_bounded(path: &str, content: Result<Vec<u8>, String>) -> (r: String)
    ensures
        r@ == file_observation(
            path@,
            match content {
                Ok(b) => Ok(b@),
                Err(e) => Err(e@),
            },
        ),
{
    if str_is_blank(path) {
        return "Chemin manquant.".to_owned();
    }
    match content {
        Ok(bytes) => clip_file_text(lossy_text(bytes.as_slice()).as_str()),
        Err(e) => cat4("Impossible de lire ", path, " : ", e.as_str()),
    }
}

pub open spec fn dir_line(p: ListedPath) -> Seq<char> {
    (if p.is_dir {
        "[D]"@
    } else {
        "[F]"@
    }) + " "@ + p.path@
}

pub open spec fn dir_lines(paths: Seq<ListedPath>, n: nat) -> Seq<Seq<char>> {
    Seq::new(
        if paths.len() < n {
            paths.len()
        } else {
            n
        },
        |i: int| dir_line(paths[i]),
    )
}

/// What the model gets to see of a directory.
pub open spec fn dir_observation(path: Seq<char>, content: Result<Seq<ListedPath>, Seq<char>>) -> Seq<char> {
    match content {
        Ok(paths) => if paths.len() == 0 {
            "(dossier vide)"@
        } else {
            join(dir_lines(paths, LIST_CLIP as nat), "\n"@)
        },
        Err(e) => "Impossible de lister "@ + path + " : "@ + e,
    }
}

pub fn list_dir_compact(path: &str, content: Result<Vec<ListedPath>, String>) -> (r: String)
    ensures
        r@ == dir_observation(
            path@,
            match content {
                Ok(p) => Ok(p@),
                Err(e) => Err(e@),
            },
        ),
{
    match content {
        Ok(paths) => {
            if paths.len() == 0 {
                return "(dossier vide)".to_owned();
            }
            let ghost want = dir_lines(paths@, LIST_CLIP as nat);
            let mut lines: Vec<String> = Vec::new();
            let mut i: usize = 0;
            while i < paths.len() && i < LIST_CLIP
                invariant
                    i <= paths.len(),
                    i <= LIST_CLIP,
                    want == dir_lines(paths@, LIST_CLIP as nat),
                    views(lines@) == want.take(i as int),
                decreases paths.len() - i,
            {
                let ghost before = views(lines@);
                let tag = if paths[i].is_dir {
                    "[D]"
                } else {
                    "[F]"
                };
                lines.push(cat3(tag, " ", paths[i].path.as_str()));
                assert(views(lines@) =~= before.push(dir_line(paths@[i as int])));
                i = i + 1;
                assert(views(lines@) =~= want.take(i as int));
            }
            assert(want.take(i as int) =~= want);
            joined(&lines, "\n")
        },
        Err(e) => cat4("Impossible de lister ", path, " : ", e.as_str()),
    }
}

/// A plan that the model proposes: refused where it is empty or leaves the roots.
pub fn propose_plan(operations: Vec<Operation>, summary: String, roots: &Vec<String>) -> (r: Result<
    ActionPlan,
    String,
>)
    ensures
        if operations@.len() == 0 {
            r matches Err(e) && e@ == "Aucune opération valide fournie."@
        } else {
            match first_offending(op_views(operations@), roots@, 0) {
                Some(p) => r matches Err(e) && e@ == "Refusé (hors périmètre indexé) : "@ + (
                "chemin hors périmètre autorisé: "@ + p),
                None => r matches Ok(plan) && plan.transaction_id is None && plan.summary == summary
                    && plan.operations == operations,
            }
        },
{
    if operations.len() == 0 {
        return Err("Aucune opération valide fournie.".to_owned());
    }
    match validate_operations(&operations, roots) {
        Err(e) => Err(cat2("Refusé (hors périmètre indexé) : ", e.as_str())),
        Ok(_) => Ok(ActionPlan { transaction_id: None, summary, operations }),
    }
}

/// What the model is told once a plan was recorded.
pub fn proposed_reply(count: usize) -> (r: String)
    ensures
        r@ == "Plan de "@ + decimal(count as nat)
            + " opération(s) proposé à l'utilisateur pour validation. N'ajoute rien d'autre."@,
{
    cat3(
        "Plan de ",
        decimal_text(count as u64).as_str(),
        " opération(s) proposé à l'utilisateur pour validation. N'ajoute rien d'autre.",
    )
}

/// What went wrong outside while a tool ran.
#[derive(Debug)]
pub enum ToolFailure {
    /// An external tool of the server of that name.
    External(String),
    Search,
    /// The plan could not be recorded.
    Record,
}

/// What the model is told of a failure.
pub fn failure_reply(failure: &ToolFailure, error: &str) -> (r: String)
    ensures
        r@ == (match failure {
            ToolFailure::External(server) => "Erreur outil MCP "@ + server@ + " : "@ + error@,
            ToolFailure::Search => "Erreur de recherche : "@ + error@,
            ToolFailure::Record => "Erreur d'enregistrement du plan : "@ + error@,
        }),
{
    match failure {
        ToolFailure::External(server) => cat4("Erreur outil MCP ", server.as_str(), " : ", error),
        ToolFailure::Search => cat2("Erreur de recherche : ", error),
        ToolFailure::Record => cat2("Erreur d'enregistrement du plan : ", error),
    }
}

/// How many files a search of the model shows.
pub const SEARCH_LIMIT: usize = 8;

/// How many files are searched before the model is asked.
pub const PRIMING_LIMIT: usize = 6;

/// A file that a search found. The score is a JSON number.
#[derive(Debug)]
pub struct FoundFile {
    pub path: String,
    pub name: String,
    pub score: String,
    pub snippet: String,
}

pub open spec fn found_json(f: FoundFile) -> JsonView {
    JsonView::Record(
        seq![
            ("name"@, txt(f.name@)),
            ("path"@, txt(f.path@)),
            ("score"@, JsonView::Number(f.score@)),
            ("snippet"@, txt(f.snippet@)),
        ],
    )
}

fn found_record(f: &FoundFile) -> (r: Json)
    ensures
        r.view() == found_json(*f),
{
    let mut v: Vec<(String, Json)> = Vec::new();
    v.push(("name".to_owned(), text_json(f.name.as_str())));
    v.push(("path".to_owned(), text_json(f.path.as_str())));
    v.push(("score".to_owned(), Json::Number(f.score.clone())));
    v.push(("snippet".to_owned(), text_json(f.snippet.as_str())));
    proof {
        crate::json::lemma_record_view(v@);
    }
    assert(record_view(v@) =~= found_json(*f)->Record_0);
    Json::Record(v)
}

/// The observation of a search: its results as a JSON list.
pub fn search_observation(found: &Vec<FoundFile>) -> (r: String)
    ensures
        r@ == rendered(JsonView::List(Seq::new(found@.len(), |i: int| found_json(found@[i])))),
{
    let ghost want = Seq::new(found@.len(), |i: int| found_json(found@[i]));
    let mut items: Vec<Json> = Vec::new();
    let mut i: usize = 0;
    while i < found.len()
        invariant
            i <= found.len(),
            want == Seq::new(found@.len(), |i: int| found_json(found@[i])),
            list_view(items@) == want.take(i as int),
        decreases found.len() - i,
    {
        let ghost before = items@;
        items.push(found_record(&found[i]));
        assert(items@.drop_last() =~= before);
        i = i + 1;
        assert(list_view(items@) =~= want.take(i as int));
    }
    assert(want.take(i as int) =~= want);
    Json::List(items).render()
}

#[verifier::ext_equal]
pub struct FoundView {
    pub path: Seq<char>,
    pub name: Seq<char>,
    pub score: Seq<char>,
    pub snippet: Seq<char>,
}

impl FoundFile {
    pub open spec fn view(self) -> FoundView {
        FoundView {
            path: self.path@,
            name: self.name@,
            score: self.score@,
            snippet: self.snippet@,
        }
    }
}

pub open spec fn found_views(f: Seq<FoundFile>) -> Seq<FoundView> {
    Seq::new(f.len(), |i: int| f[i].view())
}

pub open spec fn names_path(sources: Seq<FoundView>, path: Seq<char>) -> bool {
    exists|i: int| 0 <= i < sources.len() && (#[trigger] sources[i]).path == path
}

/// The sources of an answer name a file once: those that are new come behind the others.
pub open spec fn merged(sources: Seq<FoundView>, found: Seq<FoundView>) -> Seq<FoundView>
    decreases found.len(),
{
    if found.len() == 0 {
        sources
    } else {
        let so_far = merged(sources, found.drop_last());
        if names_path(so_far, found.last().path) {
            so_far
        } else {
            so_far.push(found.last())
        }
    }
}

fn knows_path(sources: &Vec<FoundFile>, path: &str) -> (r: bool)
    ensures
        r == names_path(found_views(sources@), path@),
{
    let mut i: usize = 0;
    while i < sources.len()
        invariant
            i <= sources.len(),
            forall|k: int| 0 <= k < i ==> (#[trigger] found_views(sources@)[k]).path != path@,
        decreases sources.len() - i,
    {
        if str_eq(sources[i].path.as_str(), path) {
            assert(found_views(sources@)[i as int].path == path@);
            return true;
        }
        i = i + 1;
    }
    false
}

pub fn merge_sources(sources: &mut Vec<FoundFile>, found: Vec<FoundFile>)
    ensures
        found_views(final(sources)@) == merged(found_views(old(sources)@), found_views(found@)),
{
    let ghost start = found_views(sources@);
    let ghost all = found_views(found@);
    let mut i: usize = 0;
    assert(all.take(0) =~= Seq::<FoundView>::empty());
    while i < found.len()
        invariant
            i <= found.len(),
            all == found_views(found@),
            found_views(sources@) == merged(start, all.take(i as int)),
        decreases found.len() - i,
    {
        assert(all.take(i + 1).drop_last() =~= all.take(i as int));
        assert(all.take(i + 1).last() == found@[i as int].view());
        let f = &found[i];
        if !knows_path(sources, f.path.as_str()) {
            let ghost before = found_views(sources@);
            sources.push(
                FoundFile {
                    path: f.path.clone(),
                    name: f.name.clone(),
                    score: f.score.clone(),
                    snippet: f.snippet.clone(),
                },
            );
            assert(found_views(sources@) =~= before.push(f.view()));
        }
        i = i + 1;
    }
    assert(all.take(i as int) =~= all);
}

pub open spec fn no_path_twice(sources: Seq<FoundView>) -> bool {
    forall|i: int, j: int|
        0 <= i < j < sources.len() ==> (#[trigger] sources[i]).path != (#[trigger] sources[j]).path
}

/// Whatever a search finds, the sources name each file once if they did so before, and
/// keep what they held.
pub proof fn law_sources_name_a_file_once(sources: Seq<FoundView>, found: Seq<FoundView>)
    requires
        no_path_twice(sources),
    ensures
        no_path_twice(merged(sources, found)),
        sources.is_prefix_of(merged(sources, found)),
    decreases found.len(),
{
    if found.len() > 0 {
        law_sources_name_a_file_once(sources, found.drop_last());
    }
}

// ---------------------------------------------------------------------------
// Labels
// ---------------------------------------------------------------------------

/// The last of the parts of a path that says something: neither nothing nor a dot.
pub open spec fn last_part(parts: Seq<Seq<char>>) -> Option<Seq<char>>
    decreases parts.len(),
{
    if parts.len() == 0 {
        None
    } else if parts.last().len() == 0 || parts.last() == "."@ {
        last_part(parts.drop_last())
    } else {
        Some(parts.last())
    }
}

/// The name that the parts of a path end with; two dots name nothing.
pub open spec fn name_of_parts(parts: Seq<Seq<char>>) -> Option<Seq<char>> {
    match last_part(parts) {
        Some(p) => if p == ".."@ {
            None
        } else {
            Some(p)
        },
        None => None,
    }
}

/// The name of the file at a path whose parts are separated by slashes alone.
pub open spec fn name_in(path: Seq<char>) -> Option<Seq<char>> {
    name_of_parts(split(path, "/"@))
}

/// The name of the file at a path whose parts are separated by backslashes alone.
pub open spec fn name_behind_backslashes(path: Seq<char>) -> Option<Seq<char>> {
    name_of_parts(split(path, "\\"@))
}

/// The name of the file at a path whose parts are separated by slashes and backslashes.
pub open spec fn name_behind_either(path: Seq<char>) -> Option<Seq<char>> {
    name_behind_backslashes(swap_char(path, '/', '\\'))
}

/// The name that Windows finds in a path. Behind two separators stands a share, a device or a
/// path that is taken as it is: it may hold no name, and slashes may belong to one.
pub open spec fn name_on_windows(path: Seq<char>, name: Option<Seq<char>>) -> bool {
    if path.len() >= 2 && is_sep(path[0]) && is_sep(path[1]) {
        name is None || name == name_behind_either(path) || name == name_behind_backslashes(path)
    } else if path.len() >= 2 && is_ascii_letter(path[0]) && path[1] == ':' {
        name == name_behind_either(path.skip(2))
    } else {
        name == name_behind_either(path)
    }
}

/// A path that Unix and Windows take apart alike: its separators are slashes, and its end is
/// no part of a drive or a share.
pub open spec fn plain_path(path: Seq<char>) -> bool {
    &&& !path.contains('\\')
    &&& !starts_with(path, "//"@)
    &&& match last_part(split(path, "/"@)) {
        Some(p) => !p.contains(':'),
        None => true,
    }
}

/// Calls `std::path::Path::file_name`: the last component of a path, where it has one; it
/// has none where the path ends in `..` or names no more than a root. Empty components and
/// dots are passed over. What separates components and what a drive or a share is are up to
/// the system: the name is the one that Unix or that Windows finds.
#[verifier::external_body]
fn file_name(path: &str) -> (r: Option<String>)
    ensures
        opt(r) == name_in(path@) || name_on_windows(path@, opt(r)),
        plain_path(path@) ==> opt(r) == name_in(path@),
{
    std::path::Path::new(path).file_name().map(|n| n.to_string_lossy().to_string())
}

/// `base` shows the file at a path by the name that Unix or Windows finds, or by the whole
/// path where there is none.
pub open spec fn shows(base: Seq<char>, path: Seq<char>) -> bool {
    &&& base == text_or(name_in(path), path) || exists|name: Option<Seq<char>>| #[trigger]
        name_on_windows(path, name) && base == text_or(name, path)
    &&& plain_path(path) ==> base == text_or(name_in(path), path)
}

/// The name of a file, or its whole path where it has no name.
fn base_name(path: &str) -> (r: String)
    ensures
        shows(r@, path@),
{
    let name = file_name(path);
    assert(name_on_windows(path@, opt(name)) || opt(name) == name_in(path@));
    match name {
        Some(n) => n,
        None => path.to_owned(),
    }
}

/// What the user sees of a call. `base` is the name of the file that it is about.
pub open spec fn label_of(
    name: Seq<char>,
    args: JsonView,
    base: Seq<char>,
    routes: Seq<RouteView>,
) -> Seq<char> {
    if route_of(routes, name) is Some {
        "🔌 "@ + route_of(routes, name)->Some_0.server_name + " · "@ + route_of(
            routes,
            name,
        )->Some_0.tool
    } else if name == "search_files"@ {
        "🔍 Recherche : "@ + first_chars(text_or(field_text(args, "query"@), Seq::empty()), 60)
    } else if name == "read_file"@ {
        "📄 Lecture : "@ + base
    } else if name == "list_directory"@ {
        "📂 Exploration : "@ + base
    } else if name == "propose_actions"@ {
        "🛠️ Préparation d'un plan d'action"@
    } else {
        "🔧 "@ + name
    }
}

pub fn tool_label(name: &str, args: &Json, base: &str, routes: &Vec<ToolRoute>) -> (r: String)
    ensures
        r@ == label_of(name@, args.view(), base@, route_views(routes@)),
{
    if let Some(t) = find_route(routes, name) {
        return cat4("🔌 ", t.server_name.as_str(), " · ", t.tool.as_str());
    }
    if str_eq(name, "search_files") {
        let query = args.get_text_or_empty("query");
        cat2("🔍 Recherche : ", str_first_chars(query.as_str(), 60).as_str())
    } else if str_eq(name, "read_file") {
        cat2("📄 Lecture : ", base)
    } else if str_eq(name, "list_directory") {
        cat2("📂 Exploration : ", base)
    } else if str_eq(name, "propose_actions") {
        "🛠️ Préparation d'un plan d'action".to_owned()
    } else {
        cat2("🔧 ", name)
    }
}

/// What the user sees of a call of the model. A file is shown by its name.
pub fn describe_tool_call(call: &ToolCallOut, routes: &Vec<ToolRoute>) -> (r: String)
    ensures
        exists|base: Seq<char>|
            shows(
                base,
                text_or(field_text(arguments_of(call.arguments@), "path"@), Seq::empty()),
            ) && r@ == #[trigger] label_of(
                call.name@,
                arguments_of(call.arguments@),
                base,
                route_views(routes@),
            ),
{
    let args = read_arguments(call.arguments.as_str());
    let base = base_name(args.get_text_or_empty("path").as_str());
    tool_label(call.name.as_str(), &args, base.as_str(), routes)
}

// ---------------------------------------------------------------------------
// What the model is told
// ---------------------------------------------------------------------------

/// The rules of the assistant.
pub const AGENT_RULES: &'static str = "Tu es l'assistant de SenseTree, un explorateur de fichiers sémantique local. Tu disposes d'OUTILS pour explorer les fichiers de l'utilisateur : search_files (recherche par le sens et les mots-clés), read_file (lire un fichier), list_directory (lister un dossier). Utilise-les autant que nécessaire — cherche, lis, recoupe — AVANT de répondre, et cite les fichiers pertinents par leur nom. Pour AGIR sur des fichiers (déplacer, renommer, supprimer, créer un dossier), appelle propose_actions avec des chemins EXACTS et existants : rien n'est exécuté sans validation de l'utilisateur. Réponds en français, de façon concise et factuelle.";

/// The last message of the user.
pub open spec fn last_question(turns: Seq<ChatTurn>) -> Seq<char>
    decreases turns.len(),
{
    if turns.len() == 0 {
        Seq::empty()
    } else if turns.last().role@ == "user"@ {
        turns.last().content@
    } else {
        last_question(turns.drop_last())
    }
}

pub fn question_of(turns: &Vec<ChatTurn>) -> (r: String)
    ensures
        r@ == last_question(turns@),
{
    let mut i: usize = turns.len();
    assert(turns@.take(i as int) =~= turns@);
    while i > 0
        invariant
            i <= turns.len(),
            last_question(turns@) == last_question(turns@.take(i as int)),
        decreases i,
    {
        assert(turns@.take(i as int).drop_last() =~= turns@.take(i - 1));
        assert(turns@.take(i as int).last() == turns@[i - 1]);
        if str_eq(turns[i - 1].role.as_str(), "user") {
            return turns[i - 1].content.clone();
        }
        i = i - 1;
    }
    let s = String::new();
    assert(s@ =~= Seq::<char>::empty());
    s
}

/// What is searched before the model is asked: the last message of the user, unless it is
/// blank.
pub fn priming_query(turns: &Vec<ChatTurn>) -> (r: Option<String>)
    ensures
        opt(r) == nonblank(Some(last_question(turns@))),
{
    let q = question_of(turns);
    if str_is_blank(q.as_str()) {
        None
    } else {
        Some(q)
    }
}

/// An excerpt that was found before the model is asked.
pub open spec fn excerpt(i: int, f: FoundFile) -> Seq<char> {
    "["@ + decimal((i + 1) as nat) + "] "@ + f.name@ + " — "@ + f.path@ + "\n"@ + f.snippet@
}

pub open spec fn excerpts(found: Seq<FoundFile>) -> Seq<Seq<char>> {
    Seq::new(found.len(), |i: int| excerpt(i, found[i]))
}

pub open spec fn agent_prompt(
    override_: Seq<char>,
    found: Seq<FoundFile>,
    scope: Option<(Seq<char>, Seq<char>)>,
) -> Seq<char> {
    AGENT_RULES@ + (if is_blank(override_) {
        Seq::empty()
    } else {
        "\n\nConsignes supplémentaires :\n"@ + trim(override_)
    }) + (if found.len() == 0 {
        Seq::empty()
    } else {
        "\n\nExtraits déjà trouvés (tu peux en chercher d'autres via search_files) :\n"@ + join(
            excerpts(found),
            "\n\n"@,
        )
    }) + (match scope {
        Some((dir, tree)) if tree.len() > 0 => "\n\nStructure du dossier courant ("@ + dir
            + ") — [D]=dossier, [F]=fichier, chemins exacts :\n"@ + tree,
        _ => Seq::empty(),
    })
}

fn excerpts_text(found: &Vec<FoundFile>) -> (r: String)
    ensures
        r@ == join(excerpts(found@), "\n\n"@),
{
    let ghost want = excerpts(found@);
    let mut items: Vec<String> = Vec::new();
    let mut i: usize = 0;
    while i < found.len()
        invariant
            i <= found.len(),
            want == excerpts(found@),
            views(items@) == want.take(i as int),
        decreases found.len() - i,
    {
        let ghost before = views(items@);
        let n: u64 = i as u64 + 1;
        let mut s = cat4("[", decimal_text(n).as_str(), "] ", found[i].name.as_str());
        s.append(" — ");
        s.append(found[i].path.as_str());
        s.append("\n");
        s.append(found[i].snippet.as_str());
        items.push(s);
        assert(views(items@) =~= before.push(excerpt(i as int, found@[i as int])));
        i = i + 1;
        assert(views(items@) =~= want.take(i as int));
    }
    assert(want.take(i as int) =~= want);
    joined(&items, "\n\n")
}

/// The system prompt of the assistant: its rules, what the user adds to them, the excerpts
/// that were found for the question, and the structure of the directory that it is about.
pub fn build_agent_prompt(
    override_: &str,
    found: &Vec<FoundFile>,
    scope: &Option<(String, String)>,
) -> (r: String)
    ensures
        r@ == agent_prompt(
            override_@,
            found@,
            match scope {
                Some(s) => Some((s.0@, s.1@)),
                None => None,
            },
        ),
{
    let mut s = AGENT_RULES.to_owned();
    let ghost rules = s@;
    let extra = str_trim(override_);
    if !str_is_empty(extra.as_str()) {
        s.append("\n\nConsignes supplémentaires :\n");
        s.append(extra.as_str());
    }
    let ghost part1 = if is_blank(override_@) {
        Seq::<char>::empty()
    } else {
        "\n\nConsignes supplémentaires :\n"@ + trim(override_@)
    };
    assert(s@ =~= rules + part1);
    if found.len() > 0 {
        s.append(
            "\n\nExtraits déjà trouvés (tu peux en chercher d'autres via search_files) :\n",
        );
        s.append(excerpts_text(found).as_str());
    }
    let ghost part2 = if found@.len() == 0 {
        Seq::<char>::empty()
    } else {
        "\n\nExtraits déjà trouvés (tu peux en chercher d'autres via search_files) :\n"@ + join(
            excerpts(found@),
            "\n\n"@,
        )
    };
    assert(s@ =~= rules + part1 + part2);
    if let Some((dir, tree)) = scope {
        if !str_is_empty(tree.as_str()) {
            s.append("\n\nStructure du dossier courant (");
            s.append(dir.as_str());
            s.append(") — [D]=dossier, [F]=fichier, chemins exacts :\n");
            s.append(tree.as_str());
        }
    }
    assert(s@ =~= agent_prompt(
        override_@,
        found@,
        match scope {
            Some(s) => Some((s.0@, s.1@)),
            None => None,
        },
    ));
    s
}

/// An entry of the tree that the model is shown.
#[derive(Debug)]
pub struct TreeEntry {
    pub path: String,
    pub name: String,
    pub depth: usize,
    pub is_dir: bool,
}

pub open spec fn indent(depth: nat) -> Seq<char>
    decreases depth,
{
    if depth <= 1 {
        Seq::empty()
    } else {
        indent((depth - 1) as nat) + "  "@
    }
}

pub open spec fn tree_line(e: TreeEntry) -> Seq<char> {
    indent(e.depth as nat) + (if e.is_dir {
        "[D]"@
    } else {
        "[F]"@
    }) + " "@ + e.path@
}

/// The lines of the tree: the directory itself and what is hidden are left out, and at most
/// `budget` lines are shown.
pub open spec fn tree_lines(entries: Seq<TreeEntry>, budget: nat) -> Seq<Seq<char>>
    decreases entries.len(),
{
    if entries.len() == 0 {
        Seq::empty()
    } else {
        let so_far = tree_lines(entries.drop_last(), budget);
        let e = entries.last();
        if so_far.len() >= budget || e.depth == 0 || starts_with(e.name@, "."@) {
            so_far
        } else {
            so_far.push(tree_line(e))
        }
    }
}

fn indent_text(depth: usize) -> (r: String)
    ensures
        r@ == indent(depth as nat),
{
    let mut s = String::new();
    let mut d: usize = 1;
    assert(s@ =~= indent(1));
    if depth <= 1 {
        assert(s@ =~= indent(depth as nat));
        return s;
    }
    while d < depth
        invariant
            1 <= d <= depth,
            s@ == indent(d as nat),
        decreases depth - d,
    {
        s.append("  ");
        d = d + 1;
    }
    s
}

pub fn folder_structure(entries: &Vec<TreeEntry>, budget: usize) -> (r: String)
    ensures
        r@ == join(tree_lines(entries@, budget as nat), "\n"@),
{
    let mut lines: Vec<String> = Vec::new();
    let mut i: usize = 0;
    assert(entries@.take(0) =~= Seq::<TreeEntry>::empty());
    assert(views(lines@) =~= Seq::<Seq<char>>::empty());
    while i < entries.len()
        invariant
            i <= entries.len(),
            views(lines@) == tree_lines(entries@.take(i as int), budget as nat),
        decreases entries.len() - i,
    {
        assert(entries@.take(i + 1).drop_last() =~= entries@.take(i as int));
        assert(entries@.take(i + 1).last() == entries@[i as int]);
        let e = &entries[i];
        assert(views(lines@).len() == lines@.len());
        if lines.len() < budget && e.depth != 0 && !str_starts_with(e.name.as_str(), ".") {
            let ghost before = views(lines@);
            let tag = if e.is_dir {
                "[D]"
            } else {
                "[F]"
            };
            lines.push(cat4(indent_text(e.depth).as_str(), tag, " ", e.path.as_str()));
            assert(views(lines@) =~= before.push(tree_line(*e)));
        }
        i = i + 1;
    }
    assert(entries@.take(i as int) =~= entries@);
    joined(&lines, "\n")
}

/// A message of the conversation.
pub open spec fn message(role: Seq<char>, content: Seq<char>) -> JsonView {
    rec2("content"@, txt(content), "role"@, txt(role))
}

pub open spec fn history(system: Seq<char>, turns: Seq<ChatTurn>) -> Seq<JsonView>
    decreases turns.len(),
{
    if turns.len() == 0 {
        seq![message("system"@, system)]
    } else {
        history(system, turns.drop_last()).push(message(turns.last().role@, turns.last().content@))
    }
}

/// The conversation as the model gets it: the system prompt, then the turns.
pub fn chat_messages(system: &str, turns: &Vec<ChatTurn>) -> (r: Vec<Json>)
    ensures
        list_view(r@) == history(system@, turns@),
{
    let mut out: Vec<Json> = Vec::new();
    out.push(record2("content", text_json(system), "role", text_json("system")));
    let mut i: usize = 0;
    proof {
        crate::json::lemma_list_view(out@);
        assert(turns@.take(0) =~= Seq::<ChatTurn>::empty());
    }
    assert(list_view(out@) =~= seq![message("system"@, system@)]);
    while i < turns.len()
        invariant
            i <= turns.len(),
            list_view(out@) == history(system@, turns@.take(i as int)),
        decreases turns.len() - i,
    {
        assert(turns@.take(i + 1).drop_last() =~= turns@.take(i as int));
        assert(turns@.take(i + 1).last() == turns@[i as int]);
        let ghost before = out@;
        let m = record2(
            "content",
            text_json(turns[i].content.as_str()),
            "role",
            text_json(turns[i].role.as_str()),
        );
        out.push(m);
        assert(out@.drop_last() =~= before);
        i = i + 1;
    }
    assert(turns@.take(i as int) =~= turns@);
    out
}

/// The message that answers a call.
pub open spec fn answer_to(call_id: Seq<char>, observation: Seq<char>) -> JsonView {
    rec3(
        "content"@,
        txt(observation),
        "role"@,
        txt("tool"@),
        "tool_call_id"@,
        txt(call_id),
    )
}

/// What a tool observed, as a message for the model.
pub fn tool_message(call_id: &str, observation: &str) -> (r: Json)
    ensures
        r.view() == answer_to(call_id@, observation@),
{
    record3(
        "content",
        text_json(observation),
        "role",
        text_json("tool"),
        "tool_call_id",
        text_json(call_id),
    )
}

// ---------------------------------------------------------------------------
// The loop
// ---------------------------------------------------------------------------

/// What the loop does next.
#[derive(Debug)]
pub enum AgentStep {
    AskModel,
    /// Run the tools that the model asked for, then go on.
    RunTools,
    Answer(String),
    /// A plan waits for the user.
    ShowPlan,
}

pub enum AgentStepView {
    AskModel,
    RunTools,
    Answer(Seq<char>),
    ShowPlan,
}

impl AgentStep {
    pub open spec fn view(self) -> AgentStepView {
        match self {
            AgentStep::AskModel => AgentStepView::AskModel,
            AgentStep::RunTools => AgentStepView::RunTools,
            AgentStep::Answer(s) => AgentStepView::Answer(s@),
            AgentStep::ShowPlan => AgentStepView::ShowPlan,
        }
    }
}

/// What came back from the outside.
#[derive(Debug)]
pub enum AgentEvent {
    /// The model could not be asked.
    ModelFailed(String),
    /// The model answered without a tool.
    Answered(Option<String>),
    /// The model asks for tools.
    WantsTools,
    /// The tools have run; one of them may have proposed a plan.
    ToolsRan { plan_proposed: bool },
}

pub enum AgentEventView {
    ModelFailed(Seq<char>),
    Answered(Option<Seq<char>>),
    WantsTools,
    ToolsRan { plan_proposed: bool },
}

impl AgentEvent {
    pub open spec fn view(self) -> AgentEventView {
        match self {
            AgentEvent::ModelFailed(e) => AgentEventView::ModelFailed(e@),
            AgentEvent::Answered(a) => AgentEventView::Answered(opt(a)),
            AgentEvent::WantsTools => AgentEventView::WantsTools,
            AgentEvent::ToolsRan { plan_proposed } => AgentEventView::ToolsRan { plan_proposed },
        }
    }
}

pub open spec fn no_answer() -> Seq<char> {
    "Je n'ai pas abouti à une réponse. Reformule ou précise ta demande."@
}

/// What follows from an event after the model was asked `asked` times.
pub open spec fn agent_next(asked: nat, e: AgentEventView) -> AgentStepView {
    match e {
        AgentEventView::ModelFailed(e) => AgentStepView::Answer(
            "Erreur du modèle de reasoning : "@ + e,
        ),
        AgentEventView::Answered(Some(a)) => AgentStepView::Answer(a),
        AgentEventView::Answered(None) => AgentStepView::Answer(no_answer()),
        AgentEventView::WantsTools => AgentStepView::RunTools,
        AgentEventView::ToolsRan { plan_proposed } => if plan_proposed {
            AgentStepView::ShowPlan
        } else if asked < MAX_AGENT_ROUNDS {
            AgentStepView::AskModel
        } else {
            AgentStepView::Answer(no_answer())
        },
    }
}

/// A conversation with the assistant: how often the model was asked.
#[derive(Debug)]
pub struct AgentRun {
    pub asked: usize,
}

impl AgentRun {
    pub open spec fn wf(self) -> bool {
        1 <= self.asked <= MAX_AGENT_ROUNDS
    }

    /// The model is asked for the first time.
    pub fn start() -> (r: AgentRun)
        ensures
            r.wf(),
            r.asked == 1,
    {
        AgentRun { asked: 1 }
    }

    /// Goes on after an event. Where the model is to be asked again, it is counted.
    pub fn on_event(&mut self, e: AgentEvent) -> (r: AgentStep)
        requires
            old(self).wf(),
        ensures
            final(self).wf(),
            r.view() == agent_next(old(self).asked as nat, e.view()),
            final(self).asked == old(self).asked + if r.view() == AgentStepView::AskModel {
                1int
            } else {
                0int
            },
    {
        match e {
            AgentEvent::ModelFailed(e) => AgentStep::Answer(
                cat2("Erreur du modèle de reasoning : ", e.as_str()),
            ),
            AgentEvent::Answered(Some(a)) => AgentStep::Answer(a),
            AgentEvent::Answered(None) => AgentStep::Answer(
                "Je n'ai pas abouti à une réponse. Reformule ou précise ta demande.".to_owned(),
            ),
            AgentEvent::WantsTools => AgentStep::RunTools,
            AgentEvent::ToolsRan { plan_proposed } => {
                if plan_proposed {
                    AgentStep::ShowPlan
                } else if self.asked < MAX_AGENT_ROUNDS {
                    self.asked = self.asked + 1;
                    AgentStep::AskModel
                } else {
                    AgentStep::Answer(
                        "Je n'ai pas abouti à une réponse. Reformule ou précise ta demande.".to_owned(),
                    )
                }
            },
        }
    }
}

/// The conversation with the assistant: what the model is sent, the calls of its last message,
/// how many of them were answered, and how often it was asked.
#[derive(Debug)]
pub struct Conversation {
    pub messages: Vec<Json>,
    pub calls: Vec<ToolCallOut>,
    pub answered: usize,
    pub run: AgentRun,
}

impl Conversation {
    pub open spec fn wf(self) -> bool {
        self.run.wf() && self.answered <= self.calls@.len()
    }

    /// The model is to be asked with the system prompt and the turns of the user.
    pub fn start(system: &str, turns: &Vec<ChatTurn>) -> (r: Conversation)
        ensures
            r.wf(),
            list_view(r.messages@) == history(system@, turns@),
            r.calls@.len() == 0,
            r.answered == 0,
            r.run.asked == 1,
    {
        Conversation {
            messages: chat_messages(system, turns),
            calls: Vec::new(),
            answered: 0,
            run: AgentRun::start(),
        }
    }

    /// Takes in what the model said. Where it asks for tools, its message is kept: the answers
    /// to its calls follow it.
    pub fn on_reply(&mut self, reply: Result<AgentTurn, String>) -> (r: AgentStep)
        requires
            old(self).wf(),
        ensures
            final(self).wf(),
            final(self).run.asked == old(self).run.asked,
            match reply {
                Err(e) => {
                    &&& r.view() == agent_next(
                        old(self).run.asked as nat,
                        AgentEventView::ModelFailed(e@),
                    )
                    &&& final(self).messages@ == old(self).messages@
                    &&& final(self).calls@ == old(self).calls@
                    &&& final(self).answered == old(self).answered
                },
                Ok(t) => if t.tool_calls@.len() == 0 {
                    &&& r.view() == agent_next(
                        old(self).run.asked as nat,
                        AgentEventView::Answered(opt(t.content)),
                    )
                    &&& final(self).messages@ == old(self).messages@
                    &&& final(self).calls@ == old(self).calls@
                    &&& final(self).answered == old(self).answered
                } else {
                    &&& r.view() == AgentStepView::RunTools
                    &&& list_view(final(self).messages@) == list_view(old(self).messages@).push(
                        t.raw_message.view(),
                    )
                    &&& final(self).calls@ == t.tool_calls@
                    &&& final(self).answered == 0
                },
            },
    {
        match reply {
            Err(e) => self.run.on_event(AgentEvent::ModelFailed(e)),
            Ok(t) => {
                if t.tool_calls.len() == 0 {
                    self.run.on_event(AgentEvent::Answered(t.content))
                } else {
                    self.messages.push(t.raw_message);
                    proof {
                        crate::json::lemma_list_view(old(self).messages@);
                        crate::json::lemma_list_view(self.messages@);
                        assert(list_view(self.messages@) =~= list_view(old(self).messages@).push(
                            t.raw_message.view(),
                        ));
                    }
                    self.calls = t.tool_calls;
                    self.answered = 0;
                    self.run.on_event(AgentEvent::WantsTools)
                }
            },
        }
    }

    /// The next call to run.
    pub fn next_call(&self) -> (r: Option<&ToolCallOut>)
        requires
            self.wf(),
        ensures
            match r {
                Some(c) => self.answered < self.calls@.len() && *c == self.calls@[self.answered as int],
                None => self.answered == self.calls@.len(),
            },
    {
        if self.answered < self.calls.len() {
            Some(&self.calls[self.answered])
        } else {
            None
        }
    }

    /// Takes in what the next call observed.
    pub fn on_observation(&mut self, observation: &str)
        requires
            old(self).wf(),
            old(self).answered < old(self).calls@.len(),
        ensures
            final(self).wf(),
            final(self).calls@ == old(self).calls@,
            final(self).answered == old(self).answered + 1,
            final(self).run.asked == old(self).run.asked,
            list_view(final(self).messages@) == list_view(old(self).messages@).push(
                answer_to(old(self).calls@[old(self).answered as int].id@, observation@),
            ),
    {
        let m = tool_message(self.calls[self.answered].id.as_str(), observation);
        let ghost shown = m.view();
        self.messages.push(m);
        proof {
            crate::json::lemma_list_view(old(self).messages@);
            crate::json::lemma_list_view(self.messages@);
            assert(list_view(self.messages@) =~= list_view(old(self).messages@).push(shown));
        }
        assert(self.answered < self.calls.len());
        self.answered = self.answered + 1;
    }

    /// Goes on once every call was answered.
    pub fn on_tools_ran(&mut self, plan_proposed: bool) -> (r: AgentStep)
        requires
            old(self).wf(),
            old(self).answered == old(self).calls@.len(),
        ensures
            final(self).wf(),
            final(self).messages@ == old(self).messages@,
            final(self).calls@ == old(self).calls@,
            final(self).answered == old(self).answered,
            r.view() == agent_next(
                old(self).run.asked as nat,
                AgentEventView::ToolsRan { plan_proposed },
            ),
            final(self).run.asked == old(self).run.asked + if r.view() == AgentStepView::AskModel {
                1int
            } else {
                0int
            },
    {
        self.run.on_event(AgentEvent::ToolsRan { plan_proposed })
    }
}

/// The messages once the first calls were answered with these texts, one after the other.
pub open spec fn observed(
    messages: Seq<JsonView>,
    calls: Seq<ToolCallOut>,
    texts: Seq<Seq<char>>,
) -> Seq<JsonView>
    decreases texts.len(),
{
    if texts.len() == 0 {
        messages
    } else {
        observed(messages, calls, texts.drop_last()).push(
            answer_to(calls[texts.len() - 1].id@, texts.last()),
        )
    }
}

/// Every call of the model is answered under its own id, in the order of the calls, right after
/// the message that holds them; nothing that was said before is changed.
pub proof fn law_every_call_is_answered(
    messages: Seq<JsonView>,
    calls: Seq<ToolCallOut>,
    texts: Seq<Seq<char>>,
    i: int,
)
    requires
        texts.len() <= calls.len(),
        0 <= i < texts.len(),
    ensures
        observed(messages, calls, texts).len() == messages.len() + texts.len(),
        observed(messages, calls, texts).take(messages.len() as int) == messages,
        observed(messages, calls, texts)[messages.len() + i] == answer_to(calls[i].id@, texts[i]),
    decreases texts.len(),
{
    let rest = texts.drop_last();
    if rest.len() == 0 {
        assert(observed(messages, calls, rest) == messages);
        assert(messages.push(answer_to(calls[0].id@, texts[0])).take(messages.len() as int)
            =~= messages);
    } else {
        let k = if i < rest.len() {
            i
        } else {
            0
        };
        law_every_call_is_answered(messages, calls, rest, k);
        assert(observed(messages, calls, texts).take(messages.len() as int) =~= observed(
            messages,
            calls,
            rest,
        ).take(messages.len() as int));
    }
}

/// After the last round the loop asks the model no more: it answers or shows a plan.
pub proof fn law_the_loop_is_bounded(asked: nat, plan_proposed: bool)
    requires
        asked >= MAX_AGENT_ROUNDS,
    ensures
        agent_next(asked, AgentEventView::ToolsRan { plan_proposed }) != AgentStepView::AskModel,
        agent_next(asked, AgentEventView::ToolsRan { plan_proposed }) != AgentStepView::RunTools,
{
}

/// A proposed plan ends the loop: nothing more is asked before the user decides.
pub proof fn law_a_plan_ends_the_loop(asked: nat)
    ensures
        agent_next(asked, AgentEventView::ToolsRan { plan_proposed: true })
            == AgentStepView::ShowPlan,
{
}

// ---------------------------------------------------------------------------
// What the model gets to see
// ---------------------------------------------------------------------------

/// The model sees the whole conversation: the system's message first, then each turn, in its
/// order and with its role.
pub proof fn law_the_whole_conversation_is_sent(system: Seq<char>, turns: Seq<ChatTurn>, i: int)
    requires
        0 <= i < turns.len(),
    ensures
        history(system, turns).len() == turns.len() + 1,
        history(system, turns)[0] == message("system"@, system),
        history(system, turns)[i + 1] == message(turns[i].role@, turns[i].content@),
    decreases turns.len(),
{
    let less = turns.drop_last();
    if i < less.len() {
        law_the_whole_conversation_is_sent(system, less, i);
        assert(less[i] == turns[i]);
    } else if less.len() > 0 {
        law_the_whole_conversation_is_sent(system, less, 0);
    } else {
        assert(history(system, less).len() == 1);
    }
}

/// The question is the last thing that the user said, whatever the assistant said since.
pub proof fn law_the_question_is_the_last_of_the_user(turns: Seq<ChatTurn>, i: int)
    requires
        0 <= i < turns.len(),
        turns[i].role@ == "user"@,
        forall|j: int| i < j < turns.len() ==> (#[trigger] turns[j]).role@ != "user"@,
    ensures
        last_question(turns) == turns[i].content@,
    decreases turns.len(),
{
    if i < turns.len() - 1 {
        let less = turns.drop_last();
        assert(turns[turns.len() - 1].role@ != "user"@);
        assert forall|j: int| i < j < less.len() implies (#[trigger] less[j]).role@ != "user"@ by {
            assert(less[j] == turns[j]);
        }
        assert(less[i] == turns[i]);
        law_the_question_is_the_last_of_the_user(less, i);
    }
}

/// No source is lost: those that were there stay at their places, and every file that was found
/// is named.
pub proof fn law_no_source_is_lost(sources: Seq<FoundView>, found: Seq<FoundView>)
    ensures
        sources.len() <= merged(sources, found).len(),
        merged(sources, found).take(sources.len() as int) == sources,
        forall|i: int|
            0 <= i < found.len() ==> names_path(merged(sources, found), (#[trigger] found[i]).path),
        forall|k: int|
            sources.len() <= k < merged(sources, found).len() ==> found.contains(
                #[trigger] merged(sources, found)[k],
            ),
    decreases found.len(),
{
    if found.len() == 0 {
        assert(sources.take(sources.len() as int) =~= sources);
    } else {
        let less = found.drop_last();
        law_no_source_is_lost(sources, less);
        let before = merged(sources, less);
        let after = merged(sources, found);
        assert(after.take(sources.len() as int) =~= before.take(sources.len() as int));
        assert forall|i: int| 0 <= i < found.len() implies names_path(
            after,
            (#[trigger] found[i]).path,
        ) by {
            if i < less.len() {
                assert(less[i] == found[i]);
                let k = choose|k: int| 0 <= k < before.len() && (#[trigger] before[k]).path == less[i].path;
                assert(after[k].path == found[i].path);
            } else if after.len() > before.len() {
                assert(after[before.len() as int].path == found[i].path);
            }
        }
        assert forall|k: int| sources.len() <= k < after.len() implies found.contains(
            #[trigger] after[k],
        ) by {
            if k < before.len() {
                assert(after[k] == before[k]);
                let i = choose|i: int| 0 <= i < less.len() && less[i] == before[k];
                assert(found[i] == after[k]);
            } else {
                assert(found[found.len() - 1] == after[k]);
            }
        }
    }
}

/// A call of an external tool goes to the server that offers it, under the name that the server
/// gave it and with all of its arguments.
pub proof fn law_an_external_call_goes_to_its_server(
    routes: Seq<RouteView>,
    k: int,
    args: JsonView,
    scope: Option<Seq<char>>,
    roots: Seq<String>,
)
    requires
        0 <= k < routes.len(),
        forall|j: int| k < j < routes.len() ==> (#[trigger] routes[j]).name != routes[k].name,
    ensures
        tool_action(routes[k].name, args, routes, scope, roots) == (ToolActionView::External {
            server: routes[k].server,
            tool: routes[k].tool,
            arguments: args,
        }),
{
    lemma_route_of(routes, k);
}

proof fn lemma_route_of(routes: Seq<RouteView>, k: int)
    requires
        0 <= k < routes.len(),
        forall|j: int| k < j < routes.len() ==> (#[trigger] routes[j]).name != routes[k].name,
    ensures
        route_of(routes, routes[k].name) == Some(routes[k]),
    decreases routes.len(),
{
    if k < routes.len() - 1 {
        let less = routes.drop_last();
        assert(routes[routes.len() - 1].name != routes[k].name);
        assert(less[k] == routes[k]);
        assert forall|j: int| k < j < less.len() implies (#[trigger] less[j]).name != less[k].name by {
            assert(less[j] == routes[j]);
        }
        lemma_route_of(less, k);
    }
}

/// A tool that is offered is the one that is called: what stands in the list of tools and what
/// stands in the routes bear the same name.
pub proof fn law_an_offered_tool_is_routed(t: McpToolView, server: int)
    ensures
        external_view(t) == function_schema(
            route_to(t, server).name,
            "["@ + t.server + "] "@ + t.description,
            t.input_schema,
        ),
        route_to(t, server).tool == t.name,
        route_to(t, server).server == server,
        route_to(t, server).server_name == t.server,
{
}

/// A built-in tool does what it is asked: it looks for the query, reads and lists the path, and
/// proposes the operations, as the arguments give them.
pub proof fn law_a_built_in_call_does_what_it_says(
    args: JsonView,
    routes: Seq<RouteView>,
    scope: Option<Seq<char>>,
    roots: Seq<String>,
    path: Seq<char>,
    query: Seq<char>,
)
    requires
        route_of(routes, "search_files"@) is None,
        route_of(routes, "read_file"@) is None,
        route_of(routes, "list_directory"@) is None,
        field_text(args, "path"@) == Some(path),
        field_text(args, "query"@) == Some(query),
        within_roots(path, roots),
    ensures
        tool_action("read_file"@, args, routes, scope, roots) == (ToolActionView::ReadFile { path }),
        tool_action("list_directory"@, args, routes, scope, roots) == (
        ToolActionView::ListDirectory { path }),
        tool_action("search_files"@, args, routes, scope, roots) matches ToolActionView::Search {
            query: q,
            scope: s,
        } && q == query && (field_text(args, "scope"@) is None ==> s == scope),
{
    reveal_strlit("search_files");
    reveal_strlit("read_file");
    reveal_strlit("list_directory");
    assert("search_files"@.len() == 12 && "read_file"@.len() == 9 && "list_directory"@.len() == 14);
}

/// A file that is short enough is shown whole, and of a longer one the first 4000 characters.
pub proof fn law_a_file_is_shown_from_its_start(path: Seq<char>, bytes: Seq<u8>)
    requires
        !is_blank(path),
        !is_blank(first_chars(utf8_lossy(bytes), 4000)),
    ensures
        utf8_lossy(bytes).len() <= 4000 ==> file_observation(path, Ok(bytes)) == utf8_lossy(bytes),
        utf8_lossy(bytes).len() > 4000 ==> file_observation(path, Ok(bytes)) == utf8_lossy(
            bytes,
        ).take(4000),
{
    let t = utf8_lossy(bytes);
    if t.len() <= 4000 {
        assert(first_chars(t, 4000) =~= t);
    } else {
        assert(first_chars(t, 4000) =~= t.take(4000));
    }
}

/// Every entry of a directory is shown by its path, as far as the list goes.
pub proof fn law_every_entry_is_shown(path: Seq<char>, paths: Seq<ListedPath>, i: int)
    requires
        0 <= i < paths.len(),
        i < LIST_CLIP,
    ensures
        crate::reading::holds(dir_observation(path, Ok(paths)), paths[i].path@),
{
    let lines = dir_lines(paths, LIST_CLIP as nat);
    let none = Seq::<char>::empty();
    crate::reading::lemma_join_holds(lines, "\n"@, i);
    let tag = (if paths[i].is_dir {
        "[D]"@
    } else {
        "[F]"@
    }) + " "@;
    assert(lines[i] =~= tag + paths[i].path@ + none);
    crate::reading::lemma_holds(tag, paths[i].path@, none);
    crate::reading::lemma_holds_through(
        dir_observation(path, Ok(paths)),
        lines[i],
        paths[i].path@,
    );
}

/// The model is told of every excerpt that was found: its path and what it says. What the user
/// added to the prompt stands in it too.
pub proof fn law_the_prompt_tells_what_was_found(
    own: Seq<char>,
    found: Seq<FoundFile>,
    scope: Option<(Seq<char>, Seq<char>)>,
    i: int,
)
    requires
        0 <= i < found.len(),
    ensures
        crate::reading::holds(agent_prompt(own, found, scope), found[i].path@),
        crate::reading::holds(agent_prompt(own, found, scope), found[i].snippet@),
        crate::reading::holds(agent_prompt(own, found, scope), AGENT_RULES@),
        !is_blank(own) ==> crate::reading::holds(agent_prompt(own, found, scope), trim(own)),
        scope matches Some((dir, tree)) && tree.len() > 0 ==> crate::reading::holds(
            agent_prompt(own, found, scope),
            scope->Some_0.1,
        ),
{
    let p = agent_prompt(own, found, scope);
    let none = Seq::<char>::empty();
    let a = if is_blank(own) {
        none
    } else {
        "\n\nConsignes supplémentaires :\n"@ + trim(own)
    };
    let list = join(excerpts(found), "\n\n"@);
    let head =
        "\n\nExtraits déjà trouvés (tu peux en chercher d'autres via search_files) :\n"@;
    let c = match scope {
        Some((dir, tree)) if tree.len() > 0 => "\n\nStructure du dossier courant ("@ + dir
            + ") — [D]=dossier, [F]=fichier, chemins exacts :\n"@ + tree,
        _ => none,
    };
    assert(p =~= AGENT_RULES@ + a + head + list + c);
    crate::reading::lemma_holds(AGENT_RULES@ + a + head, list, c);
    crate::reading::lemma_join_holds(excerpts(found), "\n\n"@, i);
    let e = excerpts(found)[i];
    crate::reading::lemma_holds_through(p, list, e);
    lemma_excerpt(i, found[i]);
    crate::reading::lemma_holds_through(p, e, found[i].path@);
    crate::reading::lemma_holds_through(p, e, found[i].snippet@);
    assert(crate::reading::holds(p, AGENT_RULES@)) by {
        assert(p =~= none + AGENT_RULES@ + (a + head + list + c));
        crate::reading::lemma_holds(none, AGENT_RULES@, a + head + list + c);
    }
    if !is_blank(own) {
        let intro = "\n\nConsignes supplémentaires :\n"@;
        assert(p =~= AGENT_RULES@ + intro + trim(own) + (head + list + c));
        crate::reading::lemma_holds(AGENT_RULES@ + intro, trim(own), head + list + c);
    }
    if let Some((dir, tree)) = scope {
        if tree.len() > 0 {
            let front = AGENT_RULES@ + a + head + list + ("\n\nStructure du dossier courant ("@ + dir
                + ") — [D]=dossier, [F]=fichier, chemins exacts :\n"@);
            assert(p =~= front + tree + none);
            crate::reading::lemma_holds(front, tree, none);
        }
    }
}

proof fn lemma_excerpt(i: int, f: FoundFile)
    ensures
        crate::reading::holds(excerpt(i, f), f.path@),
        crate::reading::holds(excerpt(i, f), f.snippet@),
{
    let e = excerpt(i, f);
    let none = Seq::<char>::empty();
    let front = "["@ + decimal((i + 1) as nat) + "] "@ + f.name@ + " — "@;
    assert(e =~= front + f.path@ + ("\n"@ + f.snippet@));
    crate::reading::lemma_holds(front, f.path@, "\n"@ + f.snippet@);
    assert(e =~= front + f.path@ + "\n"@ + f.snippet@ + none);
    crate::reading::lemma_holds(front + f.path@ + "\n"@, f.snippet@, none);
}

/// The tree of a folder shows every entry below it that is not hidden, in order, as far as the
/// budget goes.
pub proof fn law_the_tree_shows_what_is_visible(entries: Seq<TreeEntry>, budget: nat)
    ensures
        ({
            let seen = entries.filter(
                |e: TreeEntry| e.depth > 0 && !(e.name@.len() > 0 && e.name@[0] == '.'),
            );
            tree_lines(entries, budget) == Seq::new(
                if seen.len() < budget {
                    seen.len()
                } else {
                    budget
                },
                |i: int| tree_line(seen[i]),
            )
        }),
    decreases entries.len(),
{
    reveal(Seq::filter);
    reveal_strlit(".");
    let f = |e: TreeEntry| e.depth > 0 && !(e.name@.len() > 0 && e.name@[0] == '.');
    let seen = entries.filter(f);
    let want = Seq::new(
        if seen.len() < budget {
            seen.len()
        } else {
            budget
        },
        |i: int| tree_line(seen[i]),
    );
    if entries.len() > 0 {
        let less = entries.drop_last();
        law_the_tree_shows_what_is_visible(less, budget);
        let e = entries.last();
        let n = e.name@;
        assert(starts_with(n, "."@) == (n.len() > 0 && n[0] == '.')) by {
            if n.len() > 0 {
                assert(n.subrange(0, 1)[0] == n[0]);
                if n[0] == '.' {
                    assert(n.subrange(0, 1) =~= "."@);
                }
            }
        }
        assert(tree_lines(entries, budget) =~= want);
    } else {
        assert(tree_lines(entries, budget) =~= want);
    }
}

/// What the model answers without a tool is the answer, word for word.
pub proof fn law_an_answer_is_passed_on(asked: nat, answer: Seq<char>)
    ensures
        agent_next(asked, AgentEventView::Answered(Some(answer))) == AgentStepView::Answer(answer),
        agent_next(asked, AgentEventView::WantsTools) == AgentStepView::RunTools,
{
}

/// A name that the protocol accepts stays as it is.
pub proof fn law_an_accepted_name_stays(s: Seq<char>)
    requires
        s.len() <= 64,
        forall|i: int| 0 <= i < s.len() ==> is_name_char(#[trigger] s[i]),
    ensures
        sanitized(s) == s,
{
    assert(sanitized(s) =~= s);
}

/// The tools are asked for anew when any server that is used changes: each of those, and no
/// other, has a part in the key.
pub proof fn law_every_active_server_has_a_key(servers: Seq<McpServerConfig>)
    ensures
        active_keys(servers) == servers.filter(
            |s: McpServerConfig| s.enabled && !(is_blank(s.url@) && is_blank(s.command@)),
        ).map_values(|s: McpServerConfig| server_key(s)),
    decreases servers.len(),
{
    reveal(Seq::filter);
    let f = |s: McpServerConfig| s.enabled && !(is_blank(s.url@) && is_blank(s.command@));
    let g = |s: McpServerConfig| server_key(s);
    if servers.len() > 0 {
        let less = servers.drop_last();
        law_every_active_server_has_a_key(less);
        if f(servers.last()) {
            assert(servers.filter(f).map_values(g) =~= less.filter(f).map_values(g).push(
                server_key(servers.last()),
            ));
        }
    } else {
        assert(active_keys(servers) =~= servers.filter(f).map_values(g));
    }
}

/// What a search found is told file by file: the path and what it says, as JSON texts.
pub proof fn law_what_was_found_is_told(found: Seq<FoundFile>, i: int)
    requires
        0 <= i < found.len(),
    ensures
        ({
            let r = rendered(
                JsonView::List(Seq::new(found.len(), |k: int| found_json(found[k]))),
            );
            crate::reading::holds(r, crate::json::quoted(found[i].path@)) && crate::reading::holds(
                r,
                crate::json::quoted(found[i].snippet@),
            )
        }),
{
    let none = Seq::<char>::empty();
    let items = Seq::new(found.len(), |k: int| found_json(found[k]));
    let fields = seq![
        ("name"@, txt(found[i].name@)),
        ("path"@, txt(found[i].path@)),
        ("score"@, JsonView::Number(found[i].score@)),
        ("snippet"@, txt(found[i].snippet@)),
    ];
    crate::json::law_all_is_written(items, fields);
    let parts = Seq::new(items.len(), |k: int| rendered(items[k]));
    let list = crate::json::rendered_items(items);
    let r = rendered(JsonView::List(items));
    assert(r =~= seq!['['] + list + seq![']']);
    crate::reading::lemma_holds(seq!['['], list, seq![']']);
    crate::reading::lemma_join_holds(parts, seq![','], i);
    let one = rendered(found_json(found[i]));
    assert(parts[i] == one);
    crate::reading::lemma_holds_through(r, list, one);
    let inner = crate::json::rendered_fields(fields);
    assert(one =~= seq!['{'] + inner + seq!['}']);
    crate::reading::lemma_holds(seq!['{'], inner, seq!['}']);
    crate::reading::lemma_holds_through(r, one, inner);
    let pieces = Seq::new(
        fields.len(),
        |k: int| crate::json::quoted(fields[k].0) + seq![':'] + rendered(fields[k].1),
    );
    let path = crate::json::quoted(found[i].path@);
    let says = crate::json::quoted(found[i].snippet@);
    crate::reading::lemma_join_holds(pieces, seq![','], 1);
    assert(pieces[1] =~= (crate::json::quoted("path"@) + seq![':']) + path + none);
    crate::reading::lemma_holds(crate::json::quoted("path"@) + seq![':'], path, none);
    crate::reading::lemma_holds_through(r, inner, pieces[1]);
    crate::reading::lemma_holds_through(r, pieces[1], path);
    crate::reading::lemma_join_holds(pieces, seq![','], 3);
    assert(pieces[3] =~= (crate::json::quoted("snippet"@) + seq![':']) + says + none);
    crate::reading::lemma_holds(crate::json::quoted("snippet"@) + seq![':'], says, none);
    crate::reading::lemma_holds_through(r, inner, pieces[3]);
    crate::reading::lemma_holds_through(r, pieces[3], says);
}

} // verus!
