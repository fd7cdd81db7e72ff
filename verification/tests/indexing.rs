//! Files on their way into the index.

use std::io::Write;

use sensetree::bytes::{
    fingerprint, hex_text, inflate, pick_unpacked, sniff_head, text_fingerprint, Fingerprinter,
};
use sensetree::chunker::{push_chunk, Chunk, Chunker};
use sensetree::config::{
    add_indexed_folder, path_under_root, prompt_or, remove_indexed_folder, settings_change,
    AppConfig, PipelineMode, PromptsConfig, ReasoningEffort,
};
use sensetree::crawler::{
    catch_up, entry_step, next_epoch, next_round_secs, scan_goes_on, scan_key, walk_step, CatchUp,
    EntryStep, ScanRegistry, ScanState, WalkStep, CATALOG_FLUSH, PRIORITY_BLOCK, PRIORITY_CHANGED,
    PRIORITY_FILE, PRIORITY_ORPHAN,
};
use sensetree::db::{
    duplicate_group, enqueue_row, escape_like, indexing_stats, is_indexed, is_orphan,
    is_under_block, like_prefix, mark_indexed, migrations, needs_indexing, record_task_failure,
    set_file_summary, set_folder_profile, set_folder_profile_manual, summary_is_pinned,
    read_row, store_row, touch_seen, upsert_file_semantics, DuplicateGroup, FileMeta, Migration,
    QueueRow, SeenRow, StoredRow, SCHEMA_VERSION,
};
use sensetree::decimal::{read_decimal, read_natural, read_up_to};
use sensetree::default_prompts::FOLDER_CLASSIFY;
use sensetree::explorer::{
    collapse_separators, derive_content_kind, find_value, list_directory, normalize, path_details,
    IndexedFacts, RawEntry,
};
use sensetree::extract::{
    accept_pdf_text, count_text_bytes, embedded_jpeg, encode_jpeg, extract_docx_text, jpeg_in,
    extract_pdf_images, extract_pptx_text, extract_xlsx_text, extractor_for, has_text_share,
    strip_html, strip_xml_into, text_of_file, Extractor, OcrRun, PdfStream, Pixel,
};
use sensetree::folders::{
    classify_request, decide_with_answer, hard_ignore, heuristic_block, read_answer, resolve_mode,
    resolve_mode_fast, Decision, EntryInfo, FolderMode, Resolution,
};
use sensetree::gardener::{
    build_report, compute_health, count_duplicates, diagnose, diagnosis_due, folder_name, survey,
    EntryKind, HealthSeverity, WalkEntry, CLUTTER_THRESHOLD, DEEP_THRESHOLD,
};
use sensetree::json::Json;
use sensetree::parser::{FileFacts, FileType, Parser};
use sensetree::pending::{
    answered_meaning, asks_for_guess, block_facts, context_descriptor, context_question, doc_type_of,
    document_question, document_step, extract_question, folder_question, index_context_only,
    index_folder_block, qualify_or_excerpt, read_extraction, read_folder_description, read_guess,
    read_qualification, store_image, store_text_document, summary_of, unknown_question, DocumentStep,
    Meaning,
};
use sensetree::state::{Activity, CurrentActivity};
use sensetree::vectordb::{
    chunk_vectors, like_escape_datafusion, path_filter, scope_like_filter, snippet, upsert_chunks,
    KeywordIndex, KeywordStep,
};
use sensetree::watchdog::{unique_paths, watch_step, with_decision, Change, WatchStep};
use sensetree::worker::{
    after_ocr, au_dessus_du_plafond, encode_image, est_video, image_mime, index_image, index_media,
    index_textual, index_unknown, is_shown, is_too_big, is_unchanged, liberer_modeles_llm,
    media_mime, media_plan, media_step, media_type, mime_of_image, mime_of_media, prepare_task,
    route_for, unknown_without_text, wants_media, Extraction, Outcome, MediaStep, PathState,
    PrepareStep, Prepared, Queued, SliceRun, TaskStep, TextualStep, UnknownStep, WorkerLoop,
    IDLE_UNLOAD_CYCLES, MAX_RETRIES,
};
use sensetree::chat::AiCallError;

fn s(t: &str) -> String {
    t.to_string()
}

// --- Chunks -------------------------------------------------------------------------------

#[test]
fn vide_donne_aucun_chunk() {
    assert!(Chunker::slice_text("", 100, 20).is_empty());
    assert!(Chunker::slice_text("   \n\n  ", 100, 20).is_empty());
}

#[test]
fn texte_court_reste_un_seul_chunk_intact() {
    let c = Chunker::slice_text("Bonjour le monde.", 100, 20);
    assert_eq!(c.len(), 1);
    assert_eq!(c[0].text, "Bonjour le monde.");
    assert_eq!(c[0].chunk_index, 0);
}

#[test]
fn indexation_contigue_et_taille_bornee() {
    let para = "Phrase une. Phrase deux. Phrase trois. Phrase quatre. Phrase cinq.";
    let text = format!("{para}\n\n{para}\n\n{para}");
    let chunks = Chunker::slice_text(&text, 40, 10);
    assert!(chunks.len() > 1);
    for (i, c) in chunks.iter().enumerate() {
        assert_eq!(c.chunk_index, i, "index non contigu");
        assert!(!c.text.is_empty());
        assert!(c.text.chars().count() <= 40 * 2, "chunk trop gros : {}", c.text);
    }
}

#[test]
fn phrase_geante_coupee_sans_panic() {
    let giant = "a".repeat(1000);
    let chunks = Chunker::slice_text(&giant, 100, 20);
    assert!(chunks.len() >= 10);
    for c in &chunks {
        assert!(c.text.chars().count() <= 100 * 2);
    }
}

#[test]
fn unicode_ne_panique_pas() {
    let text = "café résumé naïve œuf. ".repeat(50);
    let chunks = Chunker::slice_text(&text, 60, 15);
    assert!(!chunks.is_empty());
}

#[test]
fn every_word_is_in_a_chunk() {
    let text = "un deux trois. quatre cinq six. sept huit neuf.\n\ndix onze douze.";
    let all: String =
        Chunker::slice_text(text, 20, 5).iter().map(|c| format!("{} ", c.text)).collect();
    for w in ["un", "six", "sept", "neuf", "dix", "douze"] {
        assert!(all.contains(w), "{w}");
    }
    let mut chunks: Vec<Chunk> = Vec::new();
    push_chunk(&mut chunks, &[' ']);
    assert!(chunks.is_empty());
}

// --- Health of folders --------------------------------------------------------------------

#[test]
fn folder_name_handles_separators_and_trailing_slashes() {
    assert_eq!(folder_name(r"C:\Users\virgi\Documents"), "Documents");
    assert_eq!(folder_name(r"C:\Users\virgi\Documents\"), "Documents");
    assert_eq!(folder_name("/home/user/notes/"), "notes");
    assert_eq!(folder_name("/home/user//notes//"), "notes");
    assert_eq!(folder_name("/"), "/");
}

#[test]
fn clean_folder_is_ok() {
    let (sev, head) = diagnose(0, 10, 0, 3);
    assert_eq!(sev, HealthSeverity::Healthy);
    assert_eq!(head, "Bien rangé");
}

#[test]
fn duplicates_or_clutter_warn() {
    assert_eq!(diagnose(4, 5, 0, 2).0, HealthSeverity::Warn);
    assert_eq!(diagnose(0, CLUTTER_THRESHOLD + 1, 0, 2).0, HealthSeverity::Warn);
    assert_eq!(diagnose(0, CLUTTER_THRESHOLD, 0, 2).0, HealthSeverity::Healthy);
}

#[test]
fn empty_or_deep_is_info_not_warn() {
    assert_eq!(diagnose(0, 3, 2, 2).0, HealthSeverity::Info);
    assert_eq!(diagnose(0, 3, 0, DEEP_THRESHOLD + 1).0, HealthSeverity::Info);
    assert_eq!(diagnose(0, 3, 0, DEEP_THRESHOLD).0, HealthSeverity::Healthy);
}

#[test]
fn headline_lists_every_active_symptom() {
    let (sev, head) = diagnose(3, CLUTTER_THRESHOLD + 12, 2, DEEP_THRESHOLD + 1);
    assert_eq!(sev, HealthSeverity::Warn);
    assert!(head.contains("3 doublon(s)"), "{head}");
    assert!(head.contains("en vrac"), "{head}");
    assert!(head.contains("profond"), "{head}");
    assert!(head.contains("vide(s)"), "{head}");
}

fn walked(path: &str, depth: usize, kind: EntryKind, is_empty: bool) -> WalkEntry {
    WalkEntry { path: s(path), depth, kind, is_empty }
}

#[test]
fn a_folder_is_surveyed() {
    let entries = vec![
        walked("/r", 0, EntryKind::Dir, false),
        walked("/r/a", 1, EntryKind::File, false),
        walked("/r/d", 1, EntryKind::Dir, false),
        walked("/r/d/b", 2, EntryKind::File, false),
        walked("/r/d/e", 2, EntryKind::Dir, true),
    ];
    let v = survey(&entries, 100);
    assert_eq!((v.file_count, v.direct_files, v.max_depth), (2, 1, 2));
    assert_eq!(v.empty_dirs, vec!["/r/d/e"]);
    // Direct files are files.
    assert!(v.direct_files <= v.file_count);
    let groups = vec![
        DuplicateGroup { content_hash: s("h"), paths: vec![s("1"), s("2"), s("3")] },
        DuplicateGroup { content_hash: s("g"), paths: vec![s("4"), s("5")] },
    ];
    assert_eq!(count_duplicates(&groups), 5);
    let h = compute_health("/r", &entries, &groups);
    assert_eq!((h.duplicate_files, h.duplicate_groups, h.empty_dirs), (5, 2, 1));
    assert_eq!(h.severity, HealthSeverity::Warn);
    let tidy = compute_health("/t", &vec![], &vec![]);
    let report = build_report(vec![tidy, h], 9);
    assert_eq!((report.anomaly_count, report.scanned_at), (1, 9));
    assert_eq!(report.folders[0].severity, HealthSeverity::Healthy);
    assert!(diagnosis_due(None, &vec![], &vec![]));
    assert!(diagnosis_due(Some(1), &vec![s("/a")], &vec![]));
    assert!(!diagnosis_due(Some(1), &vec![s("/a")], &vec![s("/a")]));
    assert!(diagnosis_due(Some(300), &vec![], &vec![]));
}

// --- Folders ------------------------------------------------------------------------------

fn entry(name: &str, is_dir: bool, ext: Option<&str>) -> EntryInfo {
    EntryInfo { name: s(name), is_dir, ext: ext.map(s) }
}

#[test]
fn technical_folders_are_blocks() {
    assert!(hard_ignore(".git"));
    assert!(!hard_ignore("Documents"));
    assert!(hard_ignore("node_modules"));
    assert!(heuristic_block("Vendor", &vec![]) && heuristic_block("X.app", &vec![]));
    assert!(heuristic_block("x", &vec![entry("a.nki", false, Some("nki"))]));
    assert!(!heuristic_block("Documents", &vec![entry("a.txt", false, Some("txt"))]));
}

#[test]
fn how_a_folder_is_resolved() {
    let many: Vec<EntryInfo> = (0..6).map(|i| entry(&format!("f{i}"), false, Some("txt"))).collect();
    let few = vec![entry("a", false, None)];
    let r = |cached: Option<&str>, entries: &Vec<EntryInfo>, llm: bool| {
        resolve_mode(&vec![s("/r/")], "/r/d", &cached.map(s), "d", entries, llm)
    };
    assert_eq!(r(None, &many, true), Resolution::AskModel);
    assert_eq!(r(None, &many, false), Resolution::Explore);
    assert_eq!(r(None, &few, true), Resolution::Explore);
    assert_eq!(r(Some("block"), &many, true), Resolution::Known(FolderMode::Block));
    assert_eq!(r(Some("pending"), &many, true), Resolution::AskModel);
    // A root is always explored.
    assert_eq!(
        resolve_mode(&vec![s("/r/")], "/r", &Some(s("block")), "r", &many, true),
        Resolution::Known(FolderMode::Recursive)
    );
    assert_eq!(resolve_mode_fast(Resolution::AskModel), Decision::Defer);
    assert_eq!(decide_with_answer(Resolution::AskModel, None), Decision::Defer);
    assert_eq!(
        decide_with_answer(Resolution::AskModel, Some(FolderMode::Block)),
        Decision::Block
    );
    assert_eq!(
        decide_with_answer(Resolution::Explore, Some(FolderMode::Block)),
        Decision::Recursive
    );
}

#[test]
fn answers_about_folders() {
    assert_eq!(read_answer(r#"{"mode":"block"}"#), FolderMode::Block);
    assert_eq!(read_answer("C'est un BLOCK."), FolderMode::Block);
    assert_eq!(read_answer("block ou recursive"), FolderMode::Recursive);
    assert_eq!(read_answer("?"), FolderMode::Recursive);
    for m in [FolderMode::Block, FolderMode::Recursive] {
        assert_eq!(FolderMode::from_str(m.as_str()), m);
    }
    let asked = classify_request("d", &vec![entry("sub", true, None), entry("a.txt", false, None)]);
    assert!(asked.contains("sub/") && asked.contains("a.txt"));
}

// --- Scans --------------------------------------------------------------------------------

#[test]
fn a_request_during_a_scan_is_not_lost() {
    let mut r = ScanRegistry::new();
    let k = scan_key("/R/a/");
    assert_eq!(k, "/r/a");
    assert!(r.request(&k));
    assert!(!r.request(&k));
    assert!(r.finish_pass(&k));
    assert!(!r.finish_pass(&k));
    r.release(&k);
    assert!(r.request(&k));
}

#[test]
fn the_steps_of_a_scan() {
    assert_eq!(entry_step(0, true, "r"), EntryStep::Enter);
    assert_eq!(entry_step(1, true, ".git"), EntryStep::Skip);
    assert_eq!(entry_step(1, true, "d"), EntryStep::Classify);
    assert_eq!(entry_step(1, false, "f"), EntryStep::File);
    let mut st = ScanState::new();
    let meta = |i: usize| FileMeta {
        path: format!("/r/{i}"),
        parent_path: Some(s("/r")),
        file_name: i.to_string(),
        is_directory: false,
        size_bytes: Some(1),
        modified_at: None,
    };
    for i in 0..CATALOG_FLUSH - 1 {
        assert!(st.note(meta(i)).is_none());
    }
    assert_eq!(st.note(meta(0)).unwrap().len(), CATALOG_FLUSH);
    assert_eq!(st.on_file(true, false), Some(PRIORITY_FILE));
    assert_eq!(st.on_file(false, false), None);
    assert_eq!(st.on_file(true, true), None);
    let block = st.on_directory(Decision::Block);
    assert_eq!((block.enqueue, block.enter), (Some(PRIORITY_BLOCK), false));
    assert!(st.on_directory(Decision::Recursive).enter);
    assert!(!st.on_directory(Decision::Defer).enter);
    assert_eq!(
        st.summary(2),
        "Fichiers: 3, à jour: 1, en file: 1, blocs: 1, reportés: 1, orphelins: 2."
    );
    assert_eq!(catch_up(Decision::Block), CatchUp::Enqueue(PRIORITY_BLOCK));
    assert_eq!(catch_up(Decision::Recursive), CatchUp::Scan);
    assert_eq!(catch_up(Decision::Defer), CatchUp::StopRound);
    assert!(next_round_secs(true, false) <= next_round_secs(false, true));
}

#[test]
fn changes_on_disk() {
    let change = |exists, is_dir, ignored, parent: Option<&str>| Change {
        exists,
        is_dir,
        name: s("x"),
        ignored,
        parent_name: parent.map(s),
    };
    assert_eq!(watch_step(&change(false, false, false, None)), WatchStep::Enqueue(PRIORITY_ORPHAN));
    assert_eq!(watch_step(&change(true, true, false, None)), WatchStep::AskSelf);
    assert_eq!(watch_step(&change(true, false, true, None)), WatchStep::Nothing);
    assert_eq!(watch_step(&change(true, false, false, None)), WatchStep::Index(PRIORITY_CHANGED));
    assert_eq!(watch_step(&change(true, false, false, Some(".git"))), WatchStep::Nothing);
    // A file in a block refreshes the block.
    let step = watch_step(&change(true, false, false, Some("d")));
    assert_eq!(step, WatchStep::AskParent);
    assert_eq!(with_decision(step, Decision::Block), WatchStep::EnqueueParent(PRIORITY_BLOCK));
    assert_eq!(with_decision(step, Decision::Recursive), WatchStep::Index(PRIORITY_CHANGED));
    assert_eq!(with_decision(step, Decision::Defer), WatchStep::Nothing);
    assert_eq!(unique_paths(&vec![s("a"), s("b"), s("a")]), vec!["a", "b"]);
}

// --- The records --------------------------------------------------------------------------

#[test]
fn like_patterns_are_escaped() {
    assert_eq!(escape_like(r"a_b%c\d"), r"a\_b\%c\\d");
    assert_eq!(like_prefix("a_"), r"a\_%");
}

#[test]
fn a_path_is_tried_three_times() {
    let mut row = enqueue_row(&None, None, 5);
    assert_eq!((row.status.as_str(), row.priority, row.retry_count), ("pending", 5, 0));
    for _ in 1..MAX_RETRIES {
        row = record_task_failure(&row, "panne", MAX_RETRIES);
        assert_eq!(row.status, "pending_extraction");
    }
    row = record_task_failure(&row, "panne", MAX_RETRIES);
    assert_eq!(row.status, "failed_permanent");
    assert_eq!(row.last_error.as_deref(), Some("panne"));
    // What is queued again starts anew and keeps the higher priority.
    let again = enqueue_row(&Some(row), Some("pending_extraction"), 1);
    assert_eq!((again.priority, again.retry_count), (5, 0));
    assert!(again.last_error.is_none());
}

#[test]
fn a_file_is_indexed_until_it_changes() {
    assert!(needs_indexing(None, 10));
    let seen = touch_seen(None, 100);
    assert!(needs_indexing(Some(SeenRow { ..seen }), 10));
    let done = mark_indexed(Some(seen), 10);
    assert!(!needs_indexing(Some(SeenRow { ..done }), 10));
    assert!(needs_indexing(Some(SeenRow { ..done }), 11));
    let touched = touch_seen(Some(done), 200);
    assert!(!is_orphan(SeenRow { ..touched }, 200));
    assert!(is_orphan(touched, 201));
}

#[test]
fn a_manual_choice_stays() {
    let manual = set_folder_profile_manual("block");
    let kept = set_folder_profile(Some(manual), "recursive", "llm");
    assert_eq!((kept.mode.as_str(), kept.source.as_str()), ("block", "manual"));
    let auto = set_folder_profile(None, "recursive", "llm");
    assert_eq!(set_folder_profile(Some(auto), "block", "heuristic").mode, "block");
    assert!(is_under_block(&vec![None, Some(s("block"))]));
    assert!(!is_under_block(&vec![Some(s("recursive"))]));
}

#[test]
fn the_queue_is_counted() {
    let row = |status: &str| QueueRow { status: s(status), priority: 0, retry_count: 0, last_error: None };
    let st = indexing_stats(
        &vec![row("completed"), row("pending"), row("failed_permanent"), row("pending_extraction")],
        7,
    );
    assert_eq!((st.total, st.completed, st.failed, st.pending_folders), (4, 1, 1, 7));
    assert_eq!(st.pending, 2);
}

// --- The explorer -------------------------------------------------------------------------

fn raw(name: &str, is_directory: bool) -> RawEntry {
    RawEntry {
        path: format!("/r/{name}"),
        name: s(name),
        is_directory,
        size_bytes: 3,
        modified: Some(1),
        extension: None,
    }
}

#[test]
fn folders_come_first_in_a_listing() {
    let list = list_directory(
        &vec![raw("b", false), raw("Z", true), raw("A", false), raw("a2", true)],
        &vec![(s("/r/b"), s("pending"))],
        &vec![(s("/r/Z"), s("block"))],
        &vec![s("/r/A")],
    );
    let names: Vec<&str> = list.iter().map(|e| e.name.as_str()).collect();
    assert_eq!(names, vec!["a2", "Z", "A", "b"]);
    assert_eq!(list[1].folder_mode.as_deref(), Some("block"));
    assert!(list[2].indexed);
    assert_eq!(list[3].index_status.as_deref(), Some("pending"));
    assert_eq!(find_value(&vec![(s("k"), s("v"))], "k").as_deref(), Some("v"));
}

#[test]
fn what_is_told_of_a_path() {
    let facts = |indexed, hash: Option<&str>| IndexedFacts {
        indexed,
        queue: Some((s("completed"), None)),
        semantics: Some((s("un devis"), s("pdf"))),
        hash: hash.map(s),
        folder_mode: None,
    };
    let d = path_details(raw("a", false), facts(true, Some("h")));
    assert!(d.indexed);
    assert_eq!(d.summary.as_deref(), Some("un devis"));
    assert_eq!(d.status.as_deref(), Some("completed"));
    let none = derive_content_kind(&None, &None, false, &None);
    let some = derive_content_kind(&Some(s("h")), &Some(s("pdf")), true, &None);
    assert_ne!(none, some);
    assert_eq!(collapse_separators(r"a\\b//c"), r"a\b/c");
    assert_eq!(normalize("C:", '\\'), r"C:\");
}

// --- Types and extraction -----------------------------------------------------------------

#[test]
fn docx_et_pdf_sont_des_documents() {
    assert_eq!(Parser::route_by_extension("docx"), Some(FileType::Document));
    assert_eq!(Parser::route_by_extension("pdf"), Some(FileType::Document));
}

#[test]
fn images_et_texte_par_extension() {
    assert_eq!(Parser::route_by_extension("png"), Some(FileType::Image));
    assert_eq!(Parser::route_by_extension("jpeg"), Some(FileType::Image));
    assert_eq!(Parser::route_by_extension("txt"), Some(FileType::Text));
    assert_eq!(Parser::route_by_extension("rs"), Some(FileType::Text));
    assert_eq!(Parser::route_by_extension("json"), Some(FileType::Text));
}

#[test]
fn extension_inconnue_retombe_sur_les_magic_bytes() {
    assert_eq!(Parser::route_by_extension("xyz"), None);
    assert_eq!(Parser::route_by_extension(""), None);
    assert_eq!(Parser::route_by_extension("xlsx"), None);
}

#[test]
fn bytes_tell_the_type_of_an_unknown_extension() {
    let facts = |ext: &str| FileFacts {
        path: format!("/r/a.{ext}"),
        file_name: format!("a.{ext}"),
        extension: s(ext),
        size: Some(10),
    };
    let png = vec![0x89, b'P', b'N', b'G', 0x0d, 0x0a, 0x1a, 0x0a];
    assert_eq!(Parser::determine_file_type(&facts("xyz"), &Some(png.clone())), FileType::Image);
    // The extension comes before the bytes.
    assert_eq!(Parser::determine_file_type(&facts("txt"), &Some(png)), FileType::Text);
    assert_eq!(
        Parser::determine_file_type(&facts("xyz"), &Some(b"bonjour".to_vec())),
        FileType::Text
    );
    let mp3 = vec![0x49, 0x44, 0x33, 3, 0, 0, 0, 0, 0, 0];
    assert_eq!(Parser::determine_file_type(&facts("xyz"), &Some(mp3)), FileType::Media);
    assert_eq!(
        Parser::determine_file_type(&facts("xyz"), &Some(vec![0xff, 0x00, 0xfe, 0x80])),
        FileType::RequiresAIRouting
    );
    assert!(Parser::is_valid_utf8("été".as_bytes()));
    assert!(!Parser::is_valid_utf8(&[0xff, b'a']));
}

#[test]
fn strip_xml_separe_les_noeuds_texte() {
    let mut out = String::new();
    strip_xml_into("<a:t>Hello</a:t><a:t>World</a:t>", &mut out);
    assert!(out.contains("Hello World"), "collage des mots : {out:?}");
}

#[test]
fn strip_html_retire_script_style_et_balises() {
    let html = "<html><head><style>.a{color:red}</style></head><body>\
            <script>evil()</script><p>Bonjour&nbsp;le monde</p></body></html>";
    let text = strip_html(html);
    assert!(text.contains("Bonjour"));
    assert!(text.contains("le monde"));
    assert!(!text.contains("evil"), "script non retiré : {text:?}");
    assert!(!text.contains("color:red"), "style non retiré : {text:?}");
    assert!(!text.contains('<'));
}

fn archive(parts: &[(&str, &str)]) -> Vec<u8> {
    let mut w = zip::ZipWriter::new(std::io::Cursor::new(Vec::new()));
    for (name, text) in parts {
        w.start_file(*name, zip::write::SimpleFileOptions::default()).unwrap();
        w.write_all(text.as_bytes()).unwrap();
    }
    w.finish().unwrap().into_inner()
}

#[test]
fn office_documents_are_read() {
    let docx = archive(&[("word/document.xml", "<w:t>Un</w:t><w:t>devis</w:t>"), ("autre", "x")]);
    let text = extract_docx_text(&docx).unwrap();
    assert!(text.contains("Un") && text.contains("devis") && !text.contains('<'));
    let pptx = archive(&[
        ("ppt/slides/slide1.xml", "<a:t>Titre</a:t>"),
        ("ppt/theme/theme1.xml", "<a:t>Thème</a:t>"),
    ]);
    let slides = extract_pptx_text(&pptx).unwrap();
    assert!(slides.contains("Titre") && !slides.contains("Thème"));
    let xlsx = archive(&[("xl/sharedStrings.xml", "<t>Total</t>"), ("xl/styles.xml", "<t>non</t>")]);
    let strings = extract_xlsx_text(&xlsx).unwrap();
    assert!(strings.contains("Total") && !strings.contains("non"));
    assert!(extract_docx_text(b"pas une archive").is_none());
    assert!(extract_docx_text(&pptx).is_none());
}

#[test]
fn which_extractor_reads_a_file() {
    assert!(matches!(extractor_for("pdf"), Extractor::Pdf));
    assert!(matches!(extractor_for("docx"), Extractor::Docx));
    assert!(matches!(extractor_for("html"), Extractor::Html));
    assert!(matches!(extractor_for("rs"), Extractor::Plain));
    assert_eq!(text_of_file(&Some(b"abc".to_vec())), "abc");
    assert_eq!(text_of_file(&None), "");
    assert_eq!(accept_pdf_text(true, &None), None);
    assert_eq!(accept_pdf_text(false, &Some(s("texte"))).as_deref(), Some("texte"));
}

#[test]
fn compressed_data_is_read() {
    let mut z = flate2::write::ZlibEncoder::new(Vec::new(), flate2::Compression::default());
    z.write_all(b"bonjour bonjour").unwrap();
    assert_eq!(inflate(&z.finish().unwrap()).unwrap(), b"bonjour bonjour");
    let mut d = flate2::write::DeflateEncoder::new(Vec::new(), flate2::Compression::default());
    d.write_all(b"bonsoir bonsoir").unwrap();
    assert_eq!(inflate(&d.finish().unwrap()).unwrap(), b"bonsoir bonsoir");
    assert!(inflate(b"").is_none());
    assert_eq!(pick_unpacked(Some(vec![1]), vec![2]), Some(vec![1]));
    assert_eq!(pick_unpacked(Some(vec![]), vec![2]), Some(vec![2]));
    assert_eq!(pick_unpacked(None, vec![2]), Some(vec![2]));
    assert_eq!(pick_unpacked(None, vec![]), None);
}

#[test]
fn images_of_a_document_are_found() {
    let stream = |subtype: &str, filters: Vec<String>, content: Vec<u8>| PdfStream {
        subtype: Some(s(subtype)),
        filters,
        content,
    };
    let jpeg = vec![0xff, 0xd8, 0xff, 0xe0, 1, 2, 3];
    let plain = stream("Image", vec![s("DCTDecode")], jpeg.clone());
    assert_eq!(embedded_jpeg(&plain).unwrap(), jpeg);
    let mut z = flate2::write::ZlibEncoder::new(Vec::new(), flate2::Compression::default());
    z.write_all(&jpeg).unwrap();
    let packed = stream("Image", vec![s("FlateDecode"), s("DCTDecode")], z.finish().unwrap());
    assert_eq!(embedded_jpeg(&packed).unwrap(), jpeg);
    let other = stream("Form", vec![s("DCTDecode")], jpeg.clone());
    assert!(embedded_jpeg(&other).is_none());
    let untold = PdfStream { subtype: None, filters: vec![s("DCTDecode")], content: jpeg.clone() };
    assert!(embedded_jpeg(&untold).is_none());
    assert!(embedded_jpeg(&stream("Image", vec![], jpeg.clone())).is_none());
    assert_eq!(jpeg_in(&packed, Some(jpeg.clone())).unwrap(), jpeg);
    assert!(jpeg_in(&packed, Some(vec![1, 2, 3])).is_none());
    assert!(jpeg_in(&packed, None).is_none());
    assert_eq!(jpeg_in(&plain, None).unwrap(), jpeg);
    assert_eq!(extract_pdf_images(&vec![other, plain, packed], 1).len(), 1);
}

#[test]
fn a_new_index_stops_a_scan() {
    assert!(scan_goes_on(3, 3) && !scan_goes_on(3, 4));
    assert_eq!(walk_step(0, 0, false), WalkStep::Next);
    assert_eq!(walk_step(0, 0, true), WalkStep::Wait);
    for paused in [false, true] {
        assert_eq!(walk_step(0, next_epoch(0), paused), WalkStep::Stop);
        assert_eq!(walk_step(usize::MAX, next_epoch(usize::MAX), paused), WalkStep::Stop);
    }
    let meta = || FileMeta {
        path: s("/r/a"),
        parent_path: Some(s("/r")),
        file_name: s("a"),
        is_directory: false,
        size_bytes: Some(1),
        modified_at: Some(1),
    };
    let mut run = ScanState::new();
    run.note(meta());
    assert_eq!(run.finish(false).unwrap().len(), 1);
    run.note(meta());
    assert!(run.finish(true).is_none());
    assert!(run.batch.is_empty());
}

#[test]
fn what_was_only_seen_is_not_indexed() {
    assert!(!is_indexed(None));
    let seen = touch_seen(None, 10);
    assert!(!is_indexed(Some(seen)));
    for mtime in [5, 0, -1, i64::MIN, i64::MAX] {
        assert!(needs_indexing(Some(seen), mtime));
        let done = mark_indexed(Some(seen), mtime);
        assert!(is_indexed(Some(done)));
        assert!(is_indexed(Some(mark_indexed(None, mtime))));
        assert!(is_indexed(Some(touch_seen(Some(done), 20))));
        assert!(!needs_indexing(Some(done), mtime));
    }
}

#[test]
fn the_base_keeps_what_was_seen() {
    for row in [touch_seen(None, 3), mark_indexed(None, 0), mark_indexed(None, 9)] {
        assert_eq!(read_row(store_row(row)), row);
    }
    // A base of before has no mark beside the time.
    let old = |last_modified| StoredRow { last_modified, indexed: None, last_seen: 3 };
    assert_eq!(read_row(old(9)), SeenRow { last_modified: Some(9), last_seen: 3 });
    assert_eq!(read_row(old(0)), SeenRow { last_modified: None, last_seen: 3 });
}

#[test]
fn only_the_head_of_a_file_tells_its_type() {
    // Frames of nothing, one behind the other.
    let frame = [0x50, 0x2a, 0x4d, 0x18, 0, 0, 0, 0];
    let many: Vec<u8> = frame.iter().copied().cycle().take(8 * 2_000_000).collect();
    assert_eq!(sniff_head(&many), sniff_head(&many[..8192]));
    let mut late = vec![0u8; 8192];
    late.extend_from_slice(b"GIF89a");
    assert_eq!(sniff_head(&late), sniff_head(&[0u8; 8192]));
    assert_eq!(sniff_head(b"GIF89a...").as_deref(), Some("image/gif"));
}

#[test]
fn a_manual_choice_outlives_classifications() {
    let mut row = set_folder_profile_manual("block");
    for mode in ["recursive", "pending", "block", "recursive"] {
        row = set_folder_profile(Some(row), mode, "llm");
    }
    assert_eq!((row.mode.as_str(), row.source.as_str()), ("block", "manual"));
    let other = set_folder_profile(None, "recursive", "llm");
    let other = set_folder_profile(Some(other), "block", "heuristic");
    assert_eq!((other.mode.as_str(), other.source.as_str()), ("block", "heuristic"));
}

#[test]
fn the_spelling_of_a_path_makes_no_difference() {
    let roots = vec![s(r"C:\Users\Docs")];
    for p in [r"C:\Users\Docs", "c:/users/docs/", "C:/USERS/DOCS/x", r"C:\Users\Docs\x\\"] {
        assert!(path_under_root(&roots, p), "{p}");
        assert!(path_under_root(&roots, &p.to_ascii_uppercase()));
    }
    for p in [r"C:\Users\DocsEvil", r"C:\Users", ""] {
        assert!(!path_under_root(&roots, p), "{p}");
    }
    assert!(!path_under_root(&vec![], r"C:\Users\Docs"));
}

#[test]
fn drawn_pages_are_written_as_jpeg() {
    let page = |r, g, b, a, n: usize| -> Vec<Pixel> { vec![Pixel { r, g, b, a }; n] };
    let red = encode_jpeg(16, 8, &page(255, 0, 0, 255, 128)).unwrap();
    assert_eq!(&red[..2], &[0xff, 0xd8]);
    let seen = image::load_from_memory(&red).unwrap().to_rgb8();
    assert_eq!((seen.width(), seen.height()), (16, 8));
    let p = seen.get_pixel(9, 4);
    assert!(p[0] > 240 && p[1] < 20 && p[2] < 20);
    assert_eq!(encode_jpeg(16, 8, &page(255, 0, 0, 0, 128)).unwrap(), red);
    assert_ne!(encode_jpeg(16, 8, &page(0, 0, 255, 255, 128)).unwrap(), red);
    assert!(encode_jpeg(16, 9, &page(255, 0, 0, 255, 128)).is_none());
    assert!(encode_jpeg(0, 8, &page(255, 0, 0, 255, 128)).is_none());
    assert!(encode_jpeg(65536, 1, &page(255, 0, 0, 255, 65536)).is_none());
    assert!(encode_jpeg(65535, 1, &page(255, 0, 0, 255, 65536)).is_some());
}

#[test]
fn pages_are_read_one_by_one() {
    let mut run = OcrRun::start();
    assert!(run.finish().is_none());
    run.on_page(Some(s("page une")));
    run.on_page(Some(s("page deux")));
    let text = run.finish().unwrap();
    assert!(text.contains("page une") && text.contains("page deux"));
}

#[test]
fn the_share_of_text() {
    assert_eq!(count_text_bytes(b"ab\n\x00\x01"), 3);
    assert!(has_text_share(b"abcd", 100));
    assert!(!has_text_share(&[0, 1, 2, b'a'], 50));
}

// --- Fingerprints -------------------------------------------------------------------------

#[test]
fn fingerprints_are_those_of_sha256() {
    let empty = "e3b0c44298fc1c149afbf4c8996fb92427ae41e4649b934ca495991b7852b855";
    let abc = "ba7816bf8f01cfea414140de5dae2223b00361a396177a9cb410ff61f20015ad";
    assert_eq!(fingerprint(b""), empty);
    assert_eq!(text_fingerprint("abc"), abc);
    let mut f = Fingerprinter::start();
    f.feed(b"a");
    f.feed(b"bc");
    assert_eq!(f.finish(), abc);
    assert_eq!(hex_text(&vec![0, 255, 16]), "00ff10");
}

// --- Preparing ----------------------------------------------------------------------------

#[test]
fn summary_of_nettoie_et_tronque() {
    assert_eq!(summary_of("  hello\nworld  "), "hello world");
    assert_eq!(summary_of(&"a".repeat(500)).chars().count(), 300);
    assert_eq!(summary_of(""), "");
}

#[test]
fn a_pinned_meaning_stays() {
    let long = "x".repeat(200);
    assert!(matches!(
        qualify_or_excerpt(&Some(s("à moi")), true, true, &long),
        Meaning::Pinned(p) if p == "à moi"
    ));
    assert!(matches!(qualify_or_excerpt(&None, true, true, &long), Meaning::AskModel));
    assert!(matches!(qualify_or_excerpt(&None, true, false, &long), Meaning::Excerpt(_)));
    assert!(matches!(qualify_or_excerpt(&None, true, true, "court"), Meaning::Excerpt(e) if e == "court"));
    assert_eq!(answered_meaning(Some(s("un devis")), "x"), "un devis");
    assert_eq!(answered_meaning(None, " x "), "x");
    assert_eq!(doc_type_of(&Some(s("PDF"))), "pdf");
    assert_eq!(doc_type_of(&None), "text");
}

#[test]
fn a_document_is_stored_with_its_meaning() {
    let chunk = |t: &str, i: usize| Chunk { text: s(t), chunk_index: i };
    let chunks = vec![chunk("un", 0), chunk("deux", 1), chunk("trois", 2)];
    let p = store_text_document("/r/a.txt", "a.txt", 7, "un deux trois", "h", "txt", &chunks, 2, s("des  nombres"));
    assert_eq!(p.stored, vec!["[txt] des  nombres\n\nun", "deux"]);
    assert_eq!(p.embed, vec!["[txt] des  nombres\n\nun", "a.txt · des nombres\n\ndeux"]);
    assert_eq!((p.kind.as_str(), p.mtime, p.hash.as_str()), ("txt", 7, "h"));
    // A cut is told.
    assert!(p.extract.unwrap().contains("Indexation partielle : les 2 premiers"));
    let whole = store_text_document("/r/a.txt", "a.txt", 7, " un ", "h", "txt", &chunks, 0, s("m"));
    assert_eq!(whole.stored.len(), 3);
    assert_eq!(whole.extract.as_deref(), Some("un"));
}

#[test]
fn a_text_without_content_is_known_by_its_surroundings() {
    assert!(matches!(document_step(" \n\n ", 100, 20), DocumentStep::ContextOnly { kind } if kind == "vide"));
    match document_step("Bonjour le monde.", 100, 20) {
        DocumentStep::Store(chunks) => assert_eq!(chunks[0].text, "Bonjour le monde."),
        DocumentStep::ContextOnly { .. } => panic!(),
    }
}

#[test]
fn questions_to_the_models() {
    let q = document_question("système", "a.txt", "/r", "txt", "contenu");
    assert_eq!(q.len(), 2);
    assert_eq!(q[0].role, "system");
    assert!(q[1].content.contains("contenu") && q[1].content.contains("a.txt"));
    assert_eq!(extract_question("s", "n", "p", "bout").len(), 2);
    assert_eq!(
        unknown_question("s", "n", "p", b"bout\xff")[1].content,
        "Fichier: n\nDossier: p\n\nExtrait:\nbout\u{fffd}"
    );
    assert!(context_question("s", "décrit", Some(5))[1].content.contains("décrit"));
    assert!(folder_question("s", "n", "p", "txt", "a, b")[1].content.contains("a, b"));
    assert_eq!(read_qualification("  un devis "), Some(s("un devis")));
    assert_eq!(read_qualification("  "), None);
    assert_eq!(read_extraction("NO_CONTENT"), None);
    assert_eq!(read_extraction(" des logs "), Some(s("des logs")));
    assert_eq!(read_guess(" "), None);
    assert_eq!(read_folder_description("un dossier"), Some(s("un dossier")));
}

#[test]
fn files_known_by_their_context() {
    let d = context_descriptor("a.bin", "/r", "bin", "binaire", &vec![s("b.txt"), s(".caché"), s("a.bin")]);
    assert!(d.contains("a.bin") && d.contains("b.txt") && !d.contains(".caché"));
    let p = index_context_only("/r/a.bin", 3, "binaire", &d, &Some(s("un jeu")));
    assert!(p.summary.contains("un jeu"));
    assert_eq!(p.stored.len(), p.embed.len());
    let i = store_image("/r/a.png", 3, "h", "un chat", s("chat"), &d);
    assert!(i.stored[0].contains("un chat"));
    let b = block_facts("d", "/r", &vec![entry("a.dll", false, Some("dll")), entry("b.dll", false, Some("dll"))]);
    assert_eq!(b.count, 2);
    assert!(b.top_exts.contains("dll"));
    let f = index_folder_block("/r/d", 3, &b, &Some(s("des bibliothèques")));
    assert!(f.summary.contains("des bibliothèques"));
}

// --- The worker ---------------------------------------------------------------------------

#[test]
fn the_worker_rests() {
    let mut w = WorkerLoop::start();
    for _ in 1..IDLE_UNLOAD_CYCLES {
        assert!(!w.on_no_task(true).unload);
    }
    assert!(w.on_no_task(true).unload);
    assert!(!w.on_no_task(false).unload);
    w.on_tasks();
    assert!(!w.on_no_task(true).unload);
    assert_eq!(w.on_queue_error().sleep_ms, 5000);
    assert_eq!(w.on_no_embedder().sleep_ms, 15000);
    assert!(w.on_paused(true).unload);
    let mut cfg = AppConfig::default();
    assert_eq!(WorkerLoop::slice(&cfg), 8);
    cfg.indexing.pipeline_mode = PipelineMode::Batch;
    cfg.indexing.batch_files = 5000;
    assert_eq!(WorkerLoop::slice(&cfg), 1000);
    assert_eq!(liberer_modeles_llm(&cfg).len(), 1);
}

#[test]
fn a_slice_of_tasks() {
    let pending = || index_context_only("/a", 0, "k", "d", &None);
    let mut seq = SliceRun::start(false);
    assert!(matches!(seq.on_prepared(1, Prepared::Nothing), TaskStep::Complete));
    assert!(matches!(seq.on_prepared(2, Prepared::Failed(s("e"))), TaskStep::Fail(e) if e == "e"));
    assert!(matches!(seq.on_prepared(3, Prepared::Ready(pending())), TaskStep::Finalize(_)));
    assert!(seq.finish().is_empty());
    let mut batch = SliceRun::start(true);
    assert!(matches!(batch.on_prepared(3, Prepared::Ready(pending())), TaskStep::Held));
    assert_eq!(batch.finish()[0].0, 3);
}

#[test]
fn what_is_done_with_a_path() {
    let state = |exists, is_dir, parent: Option<&str>, file_type| PathState {
        exists,
        is_dir,
        parent_mode: parent.map(s),
        file_type,
    };
    assert_eq!(prepare_task(&state(false, false, None, FileType::Text)), PrepareStep::Purge);
    assert_eq!(prepare_task(&state(true, true, None, FileType::Text)), PrepareStep::FolderBlock);
    assert_eq!(
        prepare_task(&state(true, false, Some("block"), FileType::Text)),
        PrepareStep::DropFromQueue
    );
    assert_eq!(prepare_task(&state(true, false, None, FileType::Ignored)), PrepareStep::Ignore);
    assert_eq!(prepare_task(&state(true, false, None, FileType::Image)), PrepareStep::Image);
    assert_eq!(prepare_task(&state(true, false, None, FileType::Media)), PrepareStep::Media);
    assert_eq!(prepare_task(&state(true, false, None, FileType::Document)), PrepareStep::Textual);
    assert_eq!(
        prepare_task(&state(true, false, None, FileType::RequiresAIRouting)),
        PrepareStep::Unknown
    );
}

#[test]
fn every_route_ends_with_a_vector() {
    let cfg = AppConfig::default();
    for q in [
        Queued::Folder,
        Queued::File(FileType::Text),
        Queued::File(FileType::Image),
        Queued::File(FileType::Media),
        Queued::File(FileType::RequiresAIRouting),
        Queued::File(FileType::Ignored),
    ] {
        assert_eq!(route_for(&cfg, &q).0.last(), Some(&"embedding"));
    }
    assert_eq!(route_for(&cfg, &Queued::Folder).1, "dossier");
    let unknown = route_for(&cfg, &Queued::File(FileType::RequiresAIRouting));
    assert!(unknown.0.iter().all(|st| ["vision", "media", "reasoning", "embedding"].contains(st)));
    assert_eq!(unknown.1, "inconnu");
}

#[test]
fn documents_are_read_or_known_by_their_context() {
    let done = |content: &str| Extraction::Done { content: s(content), hash: s("h") };
    assert!(matches!(index_textual(done("x"), &Some(s("h")), "txt", true), TextualStep::Unchanged));
    assert!(matches!(
        index_textual(done(" x "), &None, "txt", true),
        TextualStep::Store { text, .. } if text == "x"
    ));
    assert!(matches!(index_textual(done(" "), &None, "pdf", true), TextualStep::Ocr { .. }));
    assert!(matches!(index_textual(done(" "), &None, "pdf", false), TextualStep::Context(_)));
    assert!(matches!(
        index_textual(Extraction::Panicked, &None, "pdf", true),
        TextualStep::Context("illisible")
    ));
    assert!(matches!(
        index_textual(Extraction::Failed(s("e")), &None, "pdf", true),
        TextualStep::Fail(e) if e == "e"
    ));
    assert!(matches!(after_ocr(Some(s("lu")), s("h")), TextualStep::Store { .. }));
    assert!(matches!(after_ocr(None, s("h")), TextualStep::Context(_)));
    assert!(is_unchanged(&Some(s("h")), "h") && !is_unchanged(&None, "h"));
    assert!(is_too_big(Some(1048577), 1) && !is_too_big(Some(1048576), 1));
}

#[test]
fn files_of_an_unknown_type() {
    let text = b"du texte tout simple et lisible".to_vec();
    assert!(matches!(index_unknown(&text, false, true, &Some(s("h")), "h"), UnknownStep::Unchanged));
    assert!(matches!(index_unknown(&text, false, true, &None, "h"), UnknownStep::ReadAll));
    let binary = vec![0u8; 64];
    assert!(!matches!(index_unknown(&binary, false, true, &None, "h"), UnknownStep::ReadAll));
    assert!(matches!(unknown_without_text(&binary, false), UnknownStep::Context));
}

#[test]
fn the_last_try_falls_back_to_the_context() {
    let transient = || Err(AiCallError::Transient(s("délai")));
    assert!(matches!(index_image(Ok(s("un chat")), 0), Outcome::Use(c) if c == "un chat"));
    assert!(matches!(index_image(transient(), 0), Outcome::Retry(_)));
    assert!(matches!(index_image(transient(), MAX_RETRIES - 1), Outcome::Context));
    assert!(matches!(index_image(Err(AiCallError::Permanent(s("400"))), 0), Outcome::Context));
    assert!(is_shown(true, "png") && !is_shown(false, "png"));
    assert_eq!(image_mime(&None), "image/png");
    assert_eq!(image_mime(&Some(s("image/gif"))), "image/gif");
}

#[test]
fn an_image_is_sent_in_base64() {
    let (b64, hash) = encode_image(b"abc");
    assert_eq!(b64, "YWJj");
    assert_eq!(hash, "ba7816bf8f01cfea414140de5dae2223b00361a396177a9cb410ff61f20015ad");
    assert_eq!(encode_image(b"").0, "");
}

#[test]
fn the_first_bytes_tell_the_type() {
    let gif = Some(b"GIF89a\x01\x00\x01\x00".to_vec());
    assert_eq!(mime_of_image(&gif), "image/gif");
    assert_eq!(mime_of_image(&Some(b"rien".to_vec())), "image/png");
    assert_eq!(mime_of_image(&None), "image/png");
    assert_eq!(mime_of_media(&gif), "image/gif");
    assert_eq!(mime_of_media(&None), "application/octet-stream");
    assert_eq!(media_mime(&Some(s("video/mp4"))), "video/mp4");
}

#[test]
fn a_current_base_is_left_alone() {
    assert!(migrations(SCHEMA_VERSION).is_empty());
    assert_eq!(migrations(4), vec![Migration::ForgetProfiles]);
    assert_eq!(migrations(3), vec![Migration::ReadContextAgain, Migration::ForgetProfiles]);
    assert_eq!(
        migrations(0),
        vec![Migration::ForgetIndex, Migration::ReadContextAgain, Migration::ForgetProfiles],
    );
}

#[test]
fn a_corrected_sense_stays() {
    let found = upsert_file_semantics(None, "un texte", Some(s("extrait")), "txt");
    assert!(!found.pinned);
    assert_eq!(summary_is_pinned(&None), None);
    let again = upsert_file_semantics(Some(found), "autre", None, "md");
    assert_eq!((again.summary.as_str(), again.doc_type.as_str()), ("autre", "md"));
    let written = set_file_summary(again, "ma facture");
    assert_eq!(written.doc_type, "md");
    let indexed = upsert_file_semantics(Some(written), "regénéré", Some(s("x")), "pdf");
    assert_eq!(summary_is_pinned(&Some(indexed)).as_deref(), Some("ma facture"));
}

#[test]
fn a_medium_is_asked_about_where_a_model_is_there() {
    let mut cfg = AppConfig::default();
    let hash = Some(s("h"));
    assert!(!wants_media(&cfg));
    assert_eq!(media_step(&cfg, &hash, &None), MediaStep::Context);
    cfg.video.enabled = true;
    assert!(wants_media(&cfg));
    assert_eq!(media_step(&cfg, &hash, &None), MediaStep::Ask);
    assert_eq!(media_step(&cfg, &hash, &Some(s("g"))), MediaStep::Ask);
    assert_eq!(media_step(&cfg, &hash, &Some(s("h"))), MediaStep::Unchanged);
    assert_eq!(media_step(&cfg, &None, &None), MediaStep::Context);
    cfg.indexing.qualify_context = true;
    cfg.reasoning.enabled = false;
    assert!(!asks_for_guess(&cfg));
    cfg.reasoning.enabled = true;
    assert!(asks_for_guess(&cfg));
}

#[test]
fn duplicates_come_as_one_text() {
    let g = duplicate_group(s("h"), "/a|/b c|/d");
    assert_eq!(g.content_hash, "h");
    assert_eq!(g.paths, vec!["/a", "/b c", "/d"]);
    assert_eq!(duplicate_group(s("h"), "/a").paths, vec!["/a"]);
}

#[test]
fn what_was_learned_of_a_media_file_is_kept() {
    let transient = || Some(Err(AiCallError::Transient(s("délai"))));
    match index_media(Some(Ok(s("un chat"))), transient(), MAX_RETRIES - 1) {
        Outcome::Use(t) => assert!(t.contains("un chat")),
        other => panic!("{other:?}"),
    }
    assert!(matches!(index_media(transient(), None, 0), Outcome::Retry(_)));
    assert!(matches!(index_media(None, None, 0), Outcome::Context));
    assert!(est_video("video/mp4", "") && est_video("", "mp4") && !est_video("audio/mpeg", "mp3"));
    assert!(!au_dessus_du_plafond(u64::MAX, 0));
    assert!(!au_dessus_du_plafond(u64::MAX, u64::MAX));
    assert!(au_dessus_du_plafond(2_000_000_000, 1));
    let mut cfg = AppConfig::default();
    assert!(!media_plan(&cfg, true, 1).describe);
    cfg.video.enabled = true;
    cfg.transcription.enabled = true;
    assert!(media_plan(&cfg, true, 1).describe && media_plan(&cfg, true, 1).transcribe);
    assert!(!media_plan(&cfg, false, 1).describe);
    assert_ne!(media_type(true), media_type(false));
}

// --- The vector index ---------------------------------------------------------------------

#[test]
fn echappe_les_metacaracteres_like() {
    let bs = char::from(92);
    assert_eq!(like_escape_datafusion(&format!("x{bs}y")), format!("x{bs}{bs}y"));
    assert_eq!(like_escape_datafusion("a_b%c"), format!("a{bs}_b{bs}%c"));
    assert_eq!(like_escape_datafusion("simple"), "simple");
}

#[test]
fn rows_of_the_vector_index() {
    assert_eq!(path_filter("l'été"), "path = 'l''été'");
    assert!(scope_like_filter("/r", '/').contains("/r/%"));
    assert!(snippet(&"a".repeat(5000)).chars().count() < 5000);
    let chunks = chunk_vectors(&vec![s("a"), s("b")], &vec![3, 3]);
    let rows = upsert_chunks("/r/a", "h", 1, &chunks, 3).unwrap();
    assert_eq!(rows.len(), 2);
    assert_eq!((rows[1].chunk_index, rows[1].text.as_str()), (1, "b"));
    assert_ne!(rows[0].id, rows[1].id);
    assert!(upsert_chunks("/r/a", "h", 1, &chunks, 4).is_err());
    let mut k = KeywordIndex::new();
    assert!(matches!(k.on_search("  "), KeywordStep::NoQuery));
    k.on_write();
    assert!(matches!(k.on_search("a"), KeywordStep::BuildAndSearch));
    assert!(matches!(k.on_search("a"), KeywordStep::Search));
}

// --- Settings -----------------------------------------------------------------------------

#[test]
fn roots_of_the_index() {
    let roots = vec![s(r"C:\Docs")];
    assert!(path_under_root(&roots, "c:/docs/a"));
    assert!(!path_under_root(&roots, r"C:\DocsEvil"));
    let added = add_indexed_folder(vec![s("/a")], "/b/", true).unwrap();
    assert_eq!(added.roots, vec!["/a", "/b"]);
    assert_eq!(added.added.as_deref(), Some("/b"));
    assert!(add_indexed_folder(vec![s("/a")], "/A/", true).unwrap().added.is_none());
    assert_eq!(add_indexed_folder(vec![], "/", true).unwrap_err(), "chemin vide");
    assert_eq!(add_indexed_folder(vec![], "/x", false).unwrap_err(), "le dossier est introuvable");
    // What was added can be removed.
    let removed = remove_indexed_folder(&added.roots, "/b");
    assert_eq!(removed.remaining, vec!["/a"]);
    assert_eq!(removed.purge.as_deref(), Some("/b"));
    let nested = remove_indexed_folder(&vec![s("/a"), s("/a/b")], "/a");
    assert_eq!(nested.rescan, vec!["/a/b"]);
    assert!(remove_indexed_folder(&vec![s("/a"), s("/a/b")], "/a/b").purge.is_none());
    assert!(remove_indexed_folder(&vec![s("/a")], "/z").purge.is_none());
}

#[test]
fn what_a_change_of_settings_asks_for() {
    let mut old = AppConfig::default();
    old.indexing.roots = vec![s("/a")];
    let mut new = old.clone();
    new.indexing.roots.push(s("/b"));
    let c = settings_change(&old, &new, false);
    assert!(!c.reindex && !c.reclassify);
    assert_eq!(c.to_scan, vec!["/b"]);
    new.embedding.model = s("bge");
    let c = settings_change(&old, &new, false);
    assert!(c.reindex && !c.dims_changed);
    assert_eq!(c.to_scan, vec!["/a", "/b"]);
    assert!(settings_change(&old, &old, true).reclassify);
    new.embedding.dimensions = 768;
    assert!(settings_change(&old, &new, false).dims_changed);
}

#[test]
fn blank_prompts_stand_for_the_built_in_ones() {
    assert_eq!(prompt_or("  ", "défaut"), "défaut");
    assert_eq!(prompt_or("à moi", "défaut"), "à moi");
    assert_eq!(PromptsConfig::defaults().folder_classify, FOLDER_CLASSIFY);
    assert_eq!(PromptsConfig::default().folder_classify, "");
    assert_eq!(ReasoningEffort::Auto.as_param(), None);
    assert_eq!(ReasoningEffort::Off.as_param(), Some("none"));
    assert_eq!(ReasoningEffort::High.as_param(), Some("high"));
}

#[test]
fn what_is_worked_on_is_shown() {
    let mut a = Activity::new();
    assert!(a.activity_snapshot().is_none());
    a.set_activity(Some(CurrentActivity { path: s("/a"), routes: vec![s("embedding")], kind: s("texte") }));
    assert_eq!(a.activity_snapshot().unwrap().routes, vec!["embedding"]);
    a.set_activity(None);
    assert!(a.activity_snapshot().is_none());
}

// --- Values -------------------------------------------------------------------------------

#[test]
fn json_is_read_and_written() {
    let text = r#"{"a":[1,2.5,"é\n"],"b":{"c":null,"d":true}}"#;
    let v = Json::parse(text).unwrap();
    assert_eq!(v.render(), text);
    assert_eq!(v.get("a").unwrap().as_list().unwrap().len(), 3);
    assert_eq!(v.copy().render(), text);
    assert!(Json::parse("{").is_none());
    assert!(Json::parse("").is_none());
    assert_eq!(Json::parse("-3").unwrap().as_i64(), Some(-3));
    assert_eq!(Json::parse("-3").unwrap().as_u64(), None);
    assert_eq!(Json::parse("18446744073709551615").unwrap().as_u64(), Some(u64::MAX));
}

#[test]
fn numbers_are_read_exactly() {
    let c = |t: &str| t.chars().collect::<Vec<char>>();
    assert_eq!(read_decimal(&c("6.6")).unwrap().times_power(9), 6_600_000_000);
    assert_eq!(read_decimal(&c("1e3")).unwrap().times_power(0), 1000);
    assert_eq!(read_decimal(&c("-1")).unwrap().times_power(0), 0);
    assert_eq!(read_decimal(&c("inf")).unwrap().times_power(0), u64::MAX);
    assert!(read_decimal(&c("x")).is_none());
    assert_eq!(read_up_to(&c("42"), 100), Some(42));
    assert_eq!(read_natural(&c("101"), 100), None);
}
