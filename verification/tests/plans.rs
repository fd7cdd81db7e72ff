//! Plans on files, the assistant and its tools.

use std::collections::BTreeMap;

use sensetree::actions::{
    analyze_directory, apply_action_plan, build_listing, check_draft, execute_op, isolate_plan, new_trash_name,
    normalize_path, path_within_roots, plan_request, rollback, select_operations,
    summarize_rollback, trash_name, validate_operations, Action, ApplyRun, DiskStep, Done,
    IndexUpdate, ListedPath, OpKind, Operation, Outcome, Places, Planned,
};
use sensetree::agent::{
    all_tools, build_agent_prompt, chat_messages, decide_tool, describe_tool_call, discovery_is_fresh,
    discovery_key, execute_tool, external_name, failure_reply, find_route, folder_structure,
    list_dir_compact, merge_sources, priming_query, proposed_reply, propose_plan, question_of,
    read_arguments, read_file_bounded, sanitize_tool_name, search_observation, server_is_active,
    tool_message, tool_schemas, AgentEvent, AgentRun, AgentStep, ChatTurn, Conversation, Discovery,
    FoundFile, ToolAction, ToolCallOut, ToolFailure, ToolRoute, TreeEntry, MAX_AGENT_ROUNDS,
};
use sensetree::chat::AgentTurn;
use sensetree::config::McpServerConfig;
use sensetree::db::DuplicateGroup;
use sensetree::gardener::{EntryKind, WalkEntry};
use sensetree::json::{text_json, Json};
use sensetree::mcp::{
    call_params, extract_content_text, handshake_params, notification, on_line, parse_jsonrpc,
    parse_tools, read_http_reply, transport, LineStep, McpTool, Requests, Transport,
};

fn s(t: &str) -> String {
    t.to_string()
}

fn op(kind: OpKind, old: Option<&str>, new: Option<&str>) -> Operation {
    Operation { kind, old_path: old.map(s), new_path: new.map(s), reason: s("parce que") }
}

fn places() -> Places {
    Places {
        target_dirs: vec![s("/r"), s("/r/b")],
        trash_dirs: vec![s("/t")],
        trashed: s("/t/x"),
        aside: s("/r/old/y"),
    }
}

fn call(name: &str, arguments: &str) -> ToolCallOut {
    ToolCallOut { id: s("1"), name: s(name), arguments: s(arguments) }
}

#[test]
fn within_roots_respecte_la_frontiere_de_segment() {
    let roots = vec![r"C:\Users\virgi\Docs".to_string()];
    assert!(path_within_roots(r"C:\Users\virgi\Docs\a\b.txt", &roots));
    assert!(path_within_roots(r"C:\Users\virgi\Docs", &roots));
    assert!(path_within_roots(r"c:/users/virgi/docs/x", &roots));
    assert!(!path_within_roots(r"C:\Users\virgi\DocsEvil\secret", &roots));
    assert!(!path_within_roots(r"C:\Users\virgi\.ssh\id_rsa", &roots));
    assert!(path_within_roots(r"C:\nimporte\ou", &vec![]));
}

#[test]
fn a_path_that_steps_back_out_is_refused() {
    let roots = vec![s(r"C:\Users\virgi\Docs")];
    // One that stays inside is not.
    assert!(path_within_roots(r"C:\Users\virgi\Docs\a\..\b", &roots));
    assert!(path_within_roots("C:/Users/virgi/Docs/./a/../../docs", &roots));
    assert!(path_within_roots(r"C:\Windows\..\Users\virgi\Docs\a", &roots));
    assert!(path_within_roots(r"C:\..\..\Users\virgi\Docs", &roots));
    assert!(path_within_roots(r"C:\x", &vec![s(r"C:\a\..")]));
    assert!(!path_within_roots(r"C:\Users\virgi\Docs\a\..\..\DocsEvil", &roots));
    assert!(!path_within_roots(r"C:\Users\virgi\Docs\..\.ssh\id_rsa", &roots));
    assert!(!path_within_roots("C:/Users/virgi/Docs/a/../..", &roots));
    assert!(!path_within_roots(r"..\C:\Users\virgi\Docs", &roots));
    assert!(path_within_roots(r"C:\Users\virgi\Docs\..a\b..\...\.", &roots));
    assert!(path_within_roots(r"C:\a\..\b", &vec![]));
    assert!(!path_within_roots("a/../../b", &vec![s("b")]));
    assert!(path_within_roots("a/../b/c", &vec![s("b")]));
    // A share is no directory: nothing says where a step back from it leads.
    let share = vec![s(r"\\server\docs")];
    assert!(path_within_roots(r"\\server\docs\a\..\b", &share));
    assert!(!path_within_roots(r"\\server\docs\..\b", &share));
    assert!(!path_within_roots(r"\\server\other\..\docs\b", &share));
    let leaving = vec![op(OpKind::Move, Some(r"C:\Users\virgi\Docs\a"), Some(r"C:\Users\virgi\Docs\..\a"))];
    assert!(validate_operations(&leaving, &roots).is_err());
}

#[test]
fn what_is_below_a_root_is_within_it() {
    let roots = vec![s("/home/a")];
    assert!(path_within_roots("/home/a/b/c", &roots));
    assert!(path_within_roots("/HOME/A/b", &roots));
    assert!(!path_within_roots("/home/ab", &roots));
    // Within is transitive.
    assert!(path_within_roots("/home/a/b", &roots));
    assert!(path_within_roots("/home/a/b/c", &vec![s("/home/a/b")]));
}

#[test]
fn paths_are_compared_without_case_and_kind_of_separator() {
    assert_eq!(normalize_path(r"C:\\A//B\"), r"c:\a\b");
    assert_eq!(normalize_path("/É/x/"), r"\é\x");
}

#[test]
fn operations_outside_of_the_roots_are_refused() {
    let roots = vec![s("/r")];
    let ok = vec![op(OpKind::Move, Some("/r/a"), Some("/r/b/a"))];
    assert!(validate_operations(&ok, &roots).is_ok());
    let bad = vec![op(OpKind::Move, Some("/r/a"), Some("/x/a"))];
    assert_eq!(
        validate_operations(&bad, &roots),
        Err(s("chemin hors périmètre autorisé: /x/a"))
    );
}

#[test]
fn the_plan_is_isolated_from_the_answer() {
    assert_eq!(isolate_plan("Voici :\n{\"a\": {}}\nVoilà"), "{\"a\": {}}");
    assert_eq!(isolate_plan("rien"), "rien");
    assert_eq!(isolate_plan("} {"), "} {");
}

#[test]
fn only_a_draft_is_run() {
    assert!(check_draft("draft").is_ok());
    assert_eq!(
        check_draft("committed"),
        Err(s("transaction déjà 'committed', non ré-exécutable"))
    );
}

#[test]
fn only_planned_operations_are_selected() {
    let plan = || vec![op(OpKind::Delete, Some("/r/a"), None), op(OpKind::Mkdir, None, Some("/r/d"))];
    assert_eq!(select_operations(plan(), None).unwrap().len(), 2);
    let kept = select_operations(plan(), Some(vec![op(OpKind::Mkdir, None, Some("/r/d"))])).unwrap();
    assert_eq!(kept.len(), 1);
    assert_eq!(kept[0].new_path.as_deref(), Some("/r/d"));
    assert_eq!(
        select_operations(plan(), Some(vec![])).unwrap_err(),
        "aucune opération sélectionnée"
    );
    assert_eq!(
        select_operations(plan(), Some(vec![op(OpKind::Delete, Some("/r/z"), None)])).unwrap_err(),
        "opération absente du plan d'origine : refusée"
    );
}

#[test]
fn operations_become_steps() {
    let m = execute_op(&op(OpKind::Move, Some("/r/a"), Some("/r/b/a")), &places()).unwrap();
    assert_eq!(m.len(), 4);
    assert!(matches!(&m[0], DiskStep::MakeDir { dir, .. } if dir == "/r"));
    assert!(matches!(&m[1], DiskStep::MakeDir { dir, .. } if dir == "/r/b"));
    assert!(matches!(&m[2], DiskStep::SetAside { original, aside, mover, context }
        if original == "/r/b/a" && aside == "/r/old/y" && mover == "/r/a"
            && context == "déplacement /r/a → /r/b/a: "));
    assert!(matches!(&m[3], DiskStep::Rename { from, to, .. } if from == "/r/a" && to == "/r/b/a"));
    let d = execute_op(&op(OpKind::Delete, Some("/r/a"), None), &places()).unwrap();
    assert_eq!(d.len(), 2);
    assert!(matches!(&d[1], DiskStep::Trash { original, trashed, .. } if original == "/r/a" && trashed == "/t/x"));
    let k = execute_op(&op(OpKind::Mkdir, None, Some("/r/d")), &places()).unwrap();
    assert_eq!(k.len(), 3);
    assert!(matches!(&k[2], DiskStep::MakeDir { dir, context } if dir == "/r/d" && context == "mkdir /r/d: "));
}

#[test]
fn incomplete_operations_are_refused() {
    let p = places();
    assert_eq!(execute_op(&op(OpKind::Mkdir, None, None), &p).unwrap_err(), "mkdir sans new_path");
    assert_eq!(
        execute_op(&op(OpKind::Move, None, Some("/r/b")), &p).unwrap_err(),
        "move/rename sans old_path"
    );
    assert_eq!(
        execute_op(&op(OpKind::Rename, Some("/r/a"), None), &p).unwrap_err(),
        "move/rename sans new_path"
    );
    assert_eq!(execute_op(&op(OpKind::Delete, None, None), &p).unwrap_err(), "delete sans old_path");
}

#[test]
fn a_rollback_runs_backwards() {
    let steps = rollback(&vec![
        Done::Created { dir: s("/d") },
        Done::Renamed { from: s("/a"), to: s("/d/a") },
        Done::Trashed { original: s("/b"), trashed: s("/t/b") },
    ]);
    assert_eq!(steps.len(), 3);
    assert!(matches!(&steps[0], DiskStep::Rename { from, to, .. } if from == "/t/b" && to == "/b"));
    assert!(matches!(&steps[1], DiskStep::Rename { from, to, .. } if from == "/d/a" && to == "/a"));
    assert!(matches!(&steps[2], DiskStep::RemoveDir { dir, .. } if dir == "/d"));
    assert_eq!(summarize_rollback(0), "complet");
    assert_eq!(summarize_rollback(2), "2 opération(s) non annulée(s)");
}

fn planned(kind: OpKind, old: Option<&str>, new: Option<&str>) -> Planned {
    match execute_op(&op(kind, old, new), &places()) {
        Ok(steps) => Planned::Steps(steps),
        Err(e) => Planned::Refused(e),
    }
}

/// A disk: `None` is a directory, anything else the content of a file.
type Disk = BTreeMap<String, Option<&'static str>>;

fn holds(p: &str, dir: &str) -> bool {
    p == dir || p.starts_with(&format!("{dir}/"))
}

fn moved(disk: &mut Disk, from: &str, to: &str) -> Outcome {
    if !disk.contains_key(from) || disk.keys().any(|k| holds(k, to)) || holds(to, from) {
        return Outcome::Failed(s("impossible"));
    }
    let old = std::mem::take(disk);
    for (k, v) in old {
        let k = if holds(&k, from) { format!("{to}{}", &k[from.len()..]) } else { k };
        disk.insert(k, v);
    }
    Outcome::Changed
}

fn on_disk(disk: &mut Disk, step: &DiskStep) -> Outcome {
    match step {
        DiskStep::MakeDir { dir, .. } => match disk.get(dir) {
            Some(None) => Outcome::Unchanged,
            Some(Some(_)) => Outcome::Failed(s("fichier")),
            None => {
                disk.insert(dir.clone(), None);
                Outcome::Changed
            }
        },
        DiskStep::Rename { from, to, .. } => moved(disk, from, to),
        DiskStep::Trash { original, trashed, .. } => moved(disk, original, trashed),
        DiskStep::SetAside { original, aside, mover, .. } => match disk.get(original) {
            Some(Some(_)) if original != mover => moved(disk, original, aside),
            _ => Outcome::Unchanged,
        },
        DiskStep::RemoveDir { dir, .. } => {
            if disk.keys().filter(|k| holds(k, dir)).count() != 1 {
                return Outcome::Failed(s("non vide"));
            }
            disk.remove(dir);
            Outcome::Changed
        }
    }
}

fn full_disk() -> Disk {
    let mut disk = Disk::new();
    for dir in ["/r", "/r/old"] {
        disk.insert(s(dir), None);
    }
    disk.insert(s("/r/a"), Some("a"));
    disk.insert(s("/r/z"), Some("z"));
    disk.insert(s("/r/old/b"), Some("b"));
    disk
}

/// Runs a plan; the step of this number fails.
fn run_on(
    disk: &mut Disk,
    plan: Vec<Planned>,
    failing: usize,
) -> Result<(usize, Vec<IndexUpdate>, Vec<String>), String> {
    let mut run = ApplyRun::start(plan);
    let mut n = 0;
    loop {
        match run.next() {
            Action::Do(step) => {
                let outcome = if n == failing { Outcome::Failed(s("plein")) } else { on_disk(disk, &step) };
                n += 1;
                run.report(outcome);
            }
            Action::Commit { updates, leftovers, result } => {
                return Ok((result.applied, updates, leftovers));
            }
            Action::Refuse(m) => return Err(m),
        }
    }
}

fn long_plan() -> Vec<Planned> {
    vec![
        planned(OpKind::Mkdir, None, Some("/r/old")),
        planned(OpKind::Mkdir, None, Some("/r/b/d")),
        planned(OpKind::Move, Some("/r/a"), Some("/r/old/b")),
        planned(OpKind::Move, Some("/r/old"), Some("/r/b/old")),
        planned(OpKind::Delete, Some("/r/z"), None),
    ]
}

#[test]
fn a_plan_that_goes_well_is_committed() {
    let mut disk = full_disk();
    let (applied, updates, leftovers) = run_on(&mut disk, long_plan(), usize::MAX).unwrap();
    assert_eq!(applied, 5);
    assert_eq!(updates.len(), 4);
    assert!(matches!(&updates[0], IndexUpdate::Forget { path } if path == "/r/old/b"));
    assert!(matches!(&updates[1], IndexUpdate::Rename { from, to } if from == "/r/a" && to == "/r/old/b"));
    assert!(matches!(&updates[2], IndexUpdate::Rename { from, to } if from == "/r/old" && to == "/r/b/old"));
    assert!(matches!(&updates[3], IndexUpdate::Forget { path } if path == "/r/z"));
    assert_eq!(disk.get("/r/b/old/b"), Some(&Some("a")));
    // What stood in the way is found where its directory went.
    assert_eq!(leftovers, vec![s("/r/b/old/y")]);
    assert_eq!(disk.get("/r/b/old/y"), Some(&Some("b")));
    assert_eq!(disk.get("/t/x"), Some(&Some("z")));
}

#[test]
fn a_failed_plan_leaves_the_disk_as_it_was() {
    for failing in 0..100 {
        let mut disk = full_disk();
        match run_on(&mut disk, long_plan(), failing) {
            Ok((applied, _, _)) => {
                assert_eq!(applied, 5);
                assert_eq!(failing, 16);
                return;
            }
            Err(m) => {
                assert!(m.contains("Rollback: complet."), "{m}");
                assert_eq!(disk, full_disk());
            }
        }
    }
    panic!();
}

#[test]
fn a_move_makes_no_trash() {
    for target in ["/r/c", "/r/old/b"] {
        let mut disk = full_disk();
        let plan = vec![planned(OpKind::Move, Some("/r/a"), Some(target))];
        let (_, _, leftovers) = run_on(&mut disk, plan, usize::MAX).unwrap();
        assert_eq!(disk.get(target), Some(&Some("a")));
        assert!(!disk.contains_key("/t"));
        assert_eq!(leftovers.len(), if target == "/r/c" { 0 } else { 1 });
    }
}

#[test]
fn a_move_into_itself_is_undone() {
    let mut disk = full_disk();
    let plan = vec![
        planned(OpKind::Delete, Some("/r/a"), None),
        planned(OpKind::Move, Some("/r/old"), Some("/r/old/x")),
    ];
    let e = run_on(&mut disk, plan, usize::MAX).unwrap_err();
    assert!(e.starts_with("échec sur l'opération (déplacement /r/old → /r/old/x: impossible)."));
    assert_eq!(disk, full_disk());
}

#[test]
fn a_failed_undo_is_counted() {
    let mut run = ApplyRun::start(vec![
        planned(OpKind::Mkdir, None, Some("/r/d")),
        planned(OpKind::Move, Some("/r/a"), Some("/r/d/a")),
    ]);
    for made in [false, false, true, false, false, false] {
        run.report(if made { Outcome::Changed } else { Outcome::Unchanged });
    }
    run.report(Outcome::Failed(s("plein")));
    // Only what was made is undone.
    assert!(matches!(run.next(), Action::Do(DiskStep::RemoveDir { dir, .. }) if dir == "/r/d"));
    run.report(Outcome::Failed(s("occupé")));
    match run.next() {
        Action::Refuse(m) => assert_eq!(
            m,
            "échec sur l'opération (déplacement /r/a → /r/d/a: plein). Rollback: 1 opération(s) non annulée(s). Aucune modification conservée."
        ),
        other => panic!("{other:?}"),
    }
}

#[test]
fn a_plan_with_an_impossible_operation_is_undone() {
    let mut disk = full_disk();
    let plan = vec![
        planned(OpKind::Mkdir, None, Some("/r/b/d")),
        planned(OpKind::Mkdir, None, None),
    ];
    assert_eq!(
        run_on(&mut disk, plan, usize::MAX).unwrap_err(),
        "échec sur l'opération (mkdir sans new_path). Rollback: complet. Aucune modification conservée."
    );
    assert_eq!(disk, full_disk());
}

#[test]
fn names_in_the_trash() {
    assert_eq!(trash_name("id", &Some(s("a.txt"))), "id__a.txt");
    assert_eq!(trash_name("id", &None), "id__fichier");
    let a = new_trash_name(&Some(s("a.txt")));
    let b = new_trash_name(&Some(s("a.txt")));
    assert_ne!(a, b);
    assert_eq!(a.len(), 36 + "__a.txt".len());
    for (i, c) in a.chars().take(36).enumerate() {
        if [8, 13, 18, 23].contains(&i) {
            assert_eq!(c, '-');
        } else {
            assert!(c.is_ascii_digit() || ('a'..='f').contains(&c));
        }
    }
    assert_eq!(a.as_bytes()[14], b'4');
}

#[test]
fn a_listing_tells_what_is_known() {
    let listing = build_listing(
        &vec![
            ListedPath { path: s("/r/d"), is_dir: true },
            ListedPath { path: s("/r/a.txt"), is_dir: false },
        ],
        &vec![(s("/r/a.txt"), s("une note"))],
    );
    assert!(listing.contains("/r/d"));
    assert!(listing.contains("une note"));
    assert!(plan_request("range", "/r", &listing).contains("range"));
}

#[test]
fn a_directory_is_analysed() {
    let entries = vec![
        WalkEntry { path: s("/r"), depth: 0, kind: EntryKind::Dir, is_empty: false },
        WalkEntry { path: s("/r/a"), depth: 1, kind: EntryKind::File, is_empty: false },
        WalkEntry { path: s("/r/e"), depth: 1, kind: EntryKind::Dir, is_empty: true },
    ];
    let groups = vec![DuplicateGroup { content_hash: s("h"), paths: vec![s("/r/a"), s("/r/b")] }];
    let r = analyze_directory(s("/r"), &entries, groups);
    assert_eq!(r.file_count, 1);
    assert_eq!(r.empty_dirs, vec!["/r/e"]);
    assert!(!r.cluttered);
    assert!(!r.suggestions.is_empty());
}

// --- The assistant ------------------------------------------------------------------------

#[test]
fn describe_tool_call_produit_des_libelles_lisibles() {
    let idx = vec![];
    let search = ToolCallOut {
        id: "1".into(),
        name: "search_files".into(),
        arguments: r#"{"query":"factures 2024"}"#.into(),
    };
    assert!(describe_tool_call(&search, &idx).contains("Recherche"));
    let read = ToolCallOut {
        id: "2".into(),
        name: "read_file".into(),
        arguments: r#"{"path":"C:/docs/rapport.pdf"}"#.into(),
    };
    assert!(describe_tool_call(&read, &idx).contains("rapport.pdf"));
    assert!(!describe_tool_call(&read, &idx).contains("C:/docs"));
}

#[test]
fn a_file_is_shown_by_its_name() {
    let shown = |path: &str| {
        let call = ToolCallOut {
            id: "1".into(),
            name: "read_file".into(),
            arguments: format!("{{\"path\":\"{}\"}}", path),
        };
        describe_tool_call(&call, &vec![])
    };
    assert_eq!(shown("C:/docs/rapport.pdf"), "📄 Lecture : rapport.pdf");
    assert_eq!(shown("docs/./notes.txt/./"), "📄 Lecture : notes.txt");
    assert_eq!(shown("/docs/.."), "📄 Lecture : /docs/..");
    assert_eq!(shown("./"), "📄 Lecture : ./");
    assert_eq!(shown("/"), "📄 Lecture : /");
    assert_eq!(shown(""), "📄 Lecture : ");
    assert_eq!(shown(".cache"), "📄 Lecture : .cache");
    // One of the two systems takes backslashes for separators.
    let both = shown(r"C:\\docs\\a.txt");
    assert!(both == "📄 Lecture : a.txt" || both == r"📄 Lecture : C:\docs\a.txt");
}

#[test]
fn tool_schemas_exposent_les_quatre_outils() {
    let arr = tool_schemas();
    assert_eq!(arr.len(), 4);
    let names: Vec<&str> = arr
        .iter()
        .filter_map(|t| t.get("function").and_then(|f| f.get("name")).and_then(|n| n.as_text()))
        .collect();
    for expected in ["search_files", "read_file", "list_directory", "propose_actions"] {
        assert!(names.contains(&expected), "outil manquant : {expected}");
    }
}

#[test]
fn read_file_bounded_gere_chemin_vide_et_inexistant() {
    assert_eq!(read_file_bounded("   ", Err(s("absent"))), "Chemin manquant.");
    assert!(read_file_bounded("Z:/nexiste/pas/vraiment.txt", Err(s("introuvable")))
        .starts_with("Impossible de lire"));
}

#[test]
fn a_file_is_read_up_to_a_bound() {
    let short = read_file_bounded("/a", Ok("été".as_bytes().to_vec()));
    assert!(short.contains("été"));
    let long = read_file_bounded("/a", Ok(vec![b'x'; 10_000]));
    assert!(long.len() < 5_000);
    // Bytes that are no text are still shown as text.
    assert!(read_file_bounded("/a", Ok(vec![0xff, b'o', b'k'])).contains("\u{fffd}ok"));
}

#[test]
fn a_folder_is_listed_compactly() {
    let list = list_dir_compact(
        "/r",
        Ok(vec![
            ListedPath { path: s("/r/d"), is_dir: true },
            ListedPath { path: s("/r/a"), is_dir: false },
        ]),
    );
    assert!(list.contains("/r/d") && list.contains("/r/a"));
    assert!(list_dir_compact("/r", Err(s("refusé"))).contains("refusé"));
}

#[test]
fn tools_stay_in_the_roots() {
    let roots = vec![s("/r")];
    let read = execute_tool(&call("read_file", r#"{"path":"/etc/passwd"}"#), &vec![], &None, &roots);
    assert!(matches!(read, ToolAction::Reply(_)));
    let read = execute_tool(&call("read_file", r#"{"path":"/r/a"}"#), &vec![], &None, &roots);
    assert!(matches!(read, ToolAction::ReadFile { path } if path == "/r/a"));
    let list = execute_tool(&call("list_directory", r#"{"path":"/r"}"#), &vec![], &None, &roots);
    assert!(matches!(list, ToolAction::ListDirectory { path } if path == "/r"));
    let list = execute_tool(&call("list_directory", r#"{"path":"/x"}"#), &vec![], &None, &roots);
    assert!(matches!(list, ToolAction::Reply(_)));
}

#[test]
fn tools_are_told_apart() {
    let search = execute_tool(
        &call("search_files", r#"{"query":"factures"}"#),
        &vec![],
        &Some(s("/r")),
        &vec![],
    );
    assert!(matches!(search, ToolAction::Search { query, scope } if query == "factures" && scope.as_deref() == Some("/r")));
    let propose = execute_tool(
        &call("propose_actions", r#"{"operations":[],"summary":"rien"}"#),
        &vec![],
        &None,
        &vec![],
    );
    assert!(matches!(propose, ToolAction::Propose { operations, summary } if operations == "[]" && summary == "rien"));
    assert!(matches!(
        execute_tool(&call("autre", "{}"), &vec![], &None, &vec![]),
        ToolAction::Reply(_)
    ));
    let routes = vec![ToolRoute { name: s("mcp__a__b"), server: 0, server_name: s("a"), tool: s("b") }];
    let ext = execute_tool(&call("mcp__a__b", r#"{"x":1}"#), &routes, &None, &vec![]);
    assert!(matches!(ext, ToolAction::External { server: 0, tool, .. } if tool == "b"));
    let same = decide_tool("mcp__a__b", read_arguments("{}"), &routes, &None, &vec![]);
    assert!(matches!(same, ToolAction::External { server: 0, .. }));
}

#[test]
fn names_of_outside_tools() {
    assert_eq!(sanitize_tool_name("a b/é-c_1"), "a_b__-c_1");
    assert_eq!(external_name("mon serveur", "lire"), "mcp__mon_serveur__lire");
}

fn server(name: &str, url: &str, command: &str, enabled: bool) -> McpServerConfig {
    McpServerConfig {
        name: s(name),
        url: s(url),
        auth: s(""),
        command: s(command),
        args: vec![],
        enabled,
    }
}

#[test]
fn outside_tools_are_discovered_once() {
    assert!(server_is_active(&server("a", "http://x", "", true)));
    assert!(!server_is_active(&server("a", "http://x", "", false)));
    assert!(!server_is_active(&server("a", " ", "", true)));
    assert!(discovery_key(&vec![]).is_none());
    let key = discovery_key(&vec![server("a", "http://x", "", true)]).unwrap();
    assert!(discovery_is_fresh(&key, &key, 119));
    assert!(!discovery_is_fresh(&key, &key, 120));
    assert!(!discovery_is_fresh(&key, "autre", 0));
    let mut d = Discovery::new();
    d.add_server(
        0,
        vec![McpTool {
            server: s("a"),
            name: s("lire"),
            description: s("lit"),
            input_schema: sensetree::json::empty_record(),
        }],
    );
    assert_eq!(d.routes.len(), 1);
    assert_eq!(find_route(&d.routes, "mcp__a__lire").unwrap().tool, "lire");
    match all_tools(&d.schemas) {
        Json::List(v) => assert_eq!(v.len(), 5),
        other => panic!("{other:?}"),
    }
}

fn found(path: &str) -> FoundFile {
    FoundFile { path: s(path), name: s("n"), score: s("0.5"), snippet: s("bout") }
}

#[test]
fn sources_name_a_file_once() {
    let mut sources = vec![found("/a")];
    merge_sources(&mut sources, vec![found("/a"), found("/b"), found("/b")]);
    let paths: Vec<&str> = sources.iter().map(|f| f.path.as_str()).collect();
    assert_eq!(paths, vec!["/a", "/b"]);
    assert!(search_observation(&sources).contains("/b"));
}

#[test]
fn proposals_are_checked() {
    let roots = vec![s("/r")];
    let plan = propose_plan(vec![op(OpKind::Delete, Some("/r/a"), None)], s("ménage"), &roots).unwrap();
    assert_eq!(plan.summary, "ménage");
    assert_eq!(plan.operations.len(), 1);
    assert!(propose_plan(vec![op(OpKind::Delete, Some("/x"), None)], s(""), &roots).is_err());
    assert!(propose_plan(vec![], s(""), &roots).is_err());
    assert!(proposed_reply(3).contains('3'));
    assert!(failure_reply(&ToolFailure::External(s("srv")), "panne").contains("panne"));
    assert!(failure_reply(&ToolFailure::Search, "panne").contains("panne"));
    assert!(failure_reply(&ToolFailure::Record, "panne").contains("panne"));
}

#[test]
fn questions_and_prompts() {
    let turns = vec![
        ChatTurn { role: s("user"), content: s("bonjour") },
        ChatTurn { role: s("assistant"), content: s("oui ?") },
        ChatTurn { role: s("user"), content: s("mes factures") },
    ];
    assert_eq!(question_of(&turns), "mes factures");
    assert_eq!(priming_query(&turns).as_deref(), Some("mes factures"));
    assert!(priming_query(&vec![]).is_none());
    let prompt = build_agent_prompt("", &vec![found("/a")], &None);
    assert!(prompt.contains("search_files") && prompt.contains("/a"));
    assert!(build_agent_prompt("Sois bref.", &vec![], &None).contains("Sois bref."));
    let messages = chat_messages("système", &turns);
    assert_eq!(messages.len(), 4);
    assert_eq!(messages[0].get_text("role"), Some("system"));
    assert_eq!(tool_message("7", "vu").get_text("tool_call_id"), Some("7"));
    let tree = folder_structure(
        &vec![TreeEntry { path: s("/r/a"), name: s("a"), depth: 1, is_dir: false }],
        100,
    );
    assert!(tree.contains("/r/a") || tree.contains('a'));
}

#[test]
fn the_loop_of_the_assistant_is_bounded() {
    let mut run = AgentRun::start();
    let mut asked = 1;
    loop {
        match run.on_event(AgentEvent::WantsTools) {
            AgentStep::RunTools => {}
            AgentStep::Answer(_) => break,
            other => panic!("{other:?}"),
        }
        match run.on_event(AgentEvent::ToolsRan { plan_proposed: false }) {
            AgentStep::AskModel => asked += 1,
            AgentStep::Answer(_) => break,
            other => panic!("{other:?}"),
        }
        assert!(asked <= MAX_AGENT_ROUNDS);
    }
    assert_eq!(asked, MAX_AGENT_ROUNDS);
}

#[test]
fn a_plan_ends_the_loop() {
    let mut run = AgentRun::start();
    assert!(matches!(run.on_event(AgentEvent::WantsTools), AgentStep::RunTools));
    assert!(matches!(
        run.on_event(AgentEvent::ToolsRan { plan_proposed: true }),
        AgentStep::ShowPlan
    ));
    let mut run = AgentRun::start();
    assert!(matches!(
        run.on_event(AgentEvent::Answered(Some(s("oui")))),
        AgentStep::Answer(a) if a == "oui"
    ));
    let mut run = AgentRun::start();
    assert!(matches!(
        run.on_event(AgentEvent::ModelFailed(s("panne"))),
        AgentStep::Answer(a) if a.contains("panne")
    ));
}

// --- Outside tool servers -----------------------------------------------------------------

#[test]
fn parse_json_pur() {
    let v = parse_jsonrpc(r#"{"jsonrpc":"2.0","id":1,"result":{"tools":[]}}"#).unwrap();
    assert!(v.get("result").is_some());
}

#[test]
fn parse_flux_sse() {
    let sse = "event: message\ndata: {\"jsonrpc\":\"2.0\",\"id\":2,\"result\":{\"ok\":true}}\n\n";
    let v = parse_jsonrpc(sse).unwrap();
    assert!(matches!(v.get("result").unwrap().get("ok").unwrap(), Json::Bool(true)));
}

#[test]
fn parse_rejette_le_non_json() {
    assert!(parse_jsonrpc("Internal Server Error").is_err());
}

#[test]
fn requests_are_numbered() {
    let mut r = Requests::new();
    let (a, first) = r.request("initialize", handshake_params("1.0"));
    let (b, _) = r.request("tools/call", call_params("lire", text_json("x")));
    assert_eq!(b, a + 1);
    assert_eq!(first.get_text("method"), Some("initialize"));
    assert_eq!(first.get_i64("id"), Some(a));
    assert!(notification("notifications/initialized").get("id").is_none());
}

#[test]
fn replies_are_told_apart() {
    assert!(matches!(on_line("pas du json", 3), LineStep::Skip));
    assert!(matches!(on_line(r#"{"id":4,"result":{}}"#, 3), LineStep::Skip));
    assert!(matches!(on_line(r#"{"id":3,"result":{"a":1}}"#, 3), LineStep::Done(_)));
    assert!(matches!(on_line(r#"{"id":3,"error":{"message":"non"}}"#, 3), LineStep::Failed(_)));
}

#[test]
fn answers_over_http() {
    let ok = read_http_reply("srv", "tools/list", true, "200 OK", r#"{"id":1,"result":{"tools":[]}}"#);
    assert!(ok.is_ok());
    assert!(read_http_reply("srv", "tools/list", false, "500", "panne").is_err());
    assert!(read_http_reply("srv", "tools/list", true, "200 OK", "panne").is_err());
}

#[test]
fn tools_and_contents_are_read() {
    let result = Json::parse(
        r#"{"tools":[{"name":"lire","description":"lit","inputSchema":{"type":"object"}},{"x":1}]}"#,
    )
    .unwrap();
    let tools = parse_tools(&result, "srv");
    assert_eq!(tools.len(), 1);
    assert_eq!(tools[0].name, "lire");
    assert_eq!(tools[0].server, "srv");
    let content = Json::parse(r#"{"content":[{"type":"text","text":"a"},{"type":"text","text":"b"}]}"#).unwrap();
    assert_eq!(extract_content_text(&content), "a\nb");
}

#[test]
fn how_a_server_is_reached() {
    assert!(matches!(transport(&server("a", "", "prog", true)), Transport::Stdio));
    assert!(matches!(transport(&server("a", "http://x", "", true)), Transport::Http));
    assert!(matches!(transport(&server("a", "", "", true)), Transport::Absent));
}

#[test]
fn only_approved_operations_run() {
    let roots = vec![s("/r")];
    let inside = || op(OpKind::Move, Some("/r/a"), Some("/r/b"));
    let other = || op(OpKind::Delete, Some("/r/c"), None);
    let outside = || op(OpKind::Delete, Some("/etc/x"), None);
    let plan = || Ok(vec![inside(), other()]);

    let all = apply_action_plan("draft", plan(), None, &roots).unwrap();
    assert_eq!(all.len(), 2);
    let kept = apply_action_plan("draft", plan(), Some(vec![other()]), &roots).unwrap();
    assert_eq!((kept.len(), kept[0].old_path.as_deref()), (1, Some("/r/c")));

    let refused = |status: &str, plan, edited| apply_action_plan(status, plan, edited, &roots).unwrap_err();
    assert_eq!(refused("committed", plan(), None), "transaction déjà 'committed', non ré-exécutable");
    assert_eq!(refused("discarded", plan(), None), "transaction déjà 'discarded', non ré-exécutable");
    assert_eq!(refused("draft", Err(s("EOF")), None), "plan corrompu: EOF");
    assert_eq!(refused("draft", plan(), Some(vec![])), "aucune opération sélectionnée");
    assert_eq!(
        refused("draft", plan(), Some(vec![outside()])),
        "opération absente du plan d'origine : refusée",
    );
    assert_eq!(
        refused("draft", Ok(vec![outside()]), None),
        "chemin hors périmètre autorisé: /etc/x",
    );
}

#[test]
fn every_call_is_answered_under_its_id() {
    let turns = vec![ChatTurn { role: s("user"), content: s("bonjour") }];
    let mut talk = Conversation::start("règles", &turns);
    assert_eq!(talk.messages.len(), 2);
    let asking = AgentTurn {
        content: None,
        tool_calls: vec![
            ToolCallOut { id: s("a"), name: s("read_file"), arguments: s("{}") },
            ToolCallOut { id: s("b"), name: s("read_file"), arguments: s("{}") },
        ],
        raw_message: text_json("appel"),
    };
    assert!(matches!(talk.on_reply(Ok(asking)), AgentStep::RunTools));
    while let Some(call) = talk.next_call() {
        let seen = format!("vu {}", call.id);
        talk.on_observation(&seen);
    }
    assert_eq!(talk.messages.len(), 5);
    for (i, id) in ["a", "b"].iter().enumerate() {
        let m = &talk.messages[3 + i];
        assert_eq!(m.get_text("tool_call_id"), Some(*id));
        assert_eq!(m.get_text("content"), Some(format!("vu {id}").as_str()));
        assert_eq!(m.get_text("role"), Some("tool"));
    }
    assert!(matches!(talk.on_tools_ran(false), AgentStep::AskModel));
    let done = AgentTurn { content: Some(s("voilà")), tool_calls: vec![], raw_message: Json::Null };
    assert!(matches!(talk.on_reply(Ok(done)), AgentStep::Answer(a) if a == "voilà"));
    assert!(matches!(
        talk.on_reply(Err(s("délai"))),
        AgentStep::Answer(a) if a == "Erreur du modèle de reasoning : délai"
    ));
    assert!(matches!(talk.on_tools_ran(true), AgentStep::ShowPlan));
}
