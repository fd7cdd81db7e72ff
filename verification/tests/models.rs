//! Models: how they are found, ranked, installed and asked.

use sensetree::benchmarks::{
    board_needs_fetch, board_url, boards_url, fetch_board, list_boards, merge_boards,
    missing_boards, positive, scores_url, ApiBoard, ApiRow, AskedBoard,
};
use sensetree::catalog::{
    assign_ranks, clean_llm_name, fetch_reasoning, fetch_vision, link_of, parse_params,
    parse_params_from_name, reasoning_boards, repository_of, vision_boards, RankedScore,
};
use sensetree::chat::HttpReply;
use sensetree::commands::{
    check_preview, data_url, delete_model, delete_request, embedding_test_body, fetch_models,
    image_data_url, image_limit, image_query, image_roots, is_lmstudio, pull_lmstudio,
    pull_request, pulled_message, qualify_file, qualify_folder, queue_item, queue_limit,
    set_folder_mode, test_chat_endpoint, test_embedding_endpoint, DeleteReply, ExtractedFile,
    ImageWalk, KnownFile, LmsEnd, ModeStep, PullRun, QueueEntry, IMAGES_MAX, PREVIEW_MAX,
};
use sensetree::config::{AppConfig, EmbeddingConfig, EmbeddingMode};
use sensetree::embedding::{
    embedding_cache_key, embedding_num_ctx, embeddings_body, embeddings_url, folder_of,
    local_cache_dir, local_model_folder, native_embeddings_body, native_embeddings_url,
    native_reply_counts, passage_inputs, payload_bytes, query_input, resolve_local_model,
    resolve_reranker_model, split_batches, supported_local_models, supported_reranker_models,
    LocalModel, RerankModel,
};
use sensetree::installs::{
    choose_repo, contains_token, est_quant, group_quants, is_gguf, needs_lookup, not_installable,
    proposed_quant, quant_of, search_base, search_url, tree_url, try_fetch, urlencode, GgufQuant,
    HfRepo, HfTreeEntry, KeptInstall,
};
use sensetree::json::Json;
use sensetree::ollama_catalog::{
    all_between, badge_text, between, days_from_civil, decode_entities, is_fresh, label_value,
    month_num, mot_avant_unite, parse_date_day, parse_library, parse_pulls, parse_size,
    parse_tags, serve, tags_url, valeur_avant, Served,
};
use sensetree::ollama_server::{
    loaded, loaded_url, native_base, unload_body, unload_refused, unload_url, ListedModel,
    ModelDetails,
};
use sensetree::ort_setup::{ensure_ort, keeps_entry, CPU_URL, GPU_URL};
use sensetree::parser::FileType;
use sensetree::worker::Queued;

fn s(t: &str) -> String {
    t.to_string()
}

/// A card of the library as its page shows it.
const CARD: &str = r#"
    <li  class="flex items-baseline border-b border-neutral-200 py-6">
      <a href="/library/qwen3.5" class="group w-full space-y-5">
        <div  title="qwen3.5" class="flex flex-col">
          <h2 class="truncate text-xl font-medium"><div class="flex space-x-2 items-center">
            <span class="group-hover:underline truncate">qwen3.5</span></div></h2>
          <p class="max-w-lg break-words text-neutral-800 text-md">Qwen 3.5 is Alibaba&#39;s family.</p>
        </div>
        <div class="flex flex-col space-y-2">
          <div class="flex flex-wrap space-x-2">
            <span  class="inline-flex items-center rounded-md bg-indigo-50 px-2 py-0.5 text-xs font-medium text-indigo-600 sm:text-[13px]">vision</span>
            <span  class="inline-flex items-center rounded-md bg-indigo-50 px-2 py-0.5 text-xs font-medium text-indigo-600 sm:text-[13px]">tools</span>
            <span class="inline-flex items-center rounded-md bg-cyan-50 px-2 py-0.5 text-xs font-medium text-cyan-500 sm:text-[13px]">cloud</span>
            <span  class="inline-flex items-center rounded-md bg-[#ddf4ff] px-2 py-0.5 text-xs font-medium text-blue-600 sm:text-[13px]">4b</span>
            <span  class="inline-flex items-center rounded-md bg-[#ddf4ff] px-2 py-0.5 text-xs font-medium text-blue-600 sm:text-[13px]">9b</span>
          </div>
          <p class="my-4 flex space-x-5 text-[13px] font-medium text-neutral-500">
            <span class="flex items-center"><svg></svg>
              <span >18.5M</span><span class="hidden sm:flex">&nbsp;Pulls</span></span>
            <span class="flex items-center"><svg></svg>
              <span >64</span><span class="hidden sm:flex">&nbsp;Tags</span></span>
            <span class="flex items-center" title="May 21, 2026 7:08 PM UTC"><svg></svg>
              <span class="hidden sm:flex">Updated&nbsp;</span><span >3 months ago</span></span>
          </p>
        </div>
      </a>
    </li>"#;

/// Two tags of a model as their page shows them.
const TAG_BLOC: &str = r#"
      <a href="/library/qwen3.5:9b-q4_K_M" class="md:hidden flex flex-col group">
        <span class="group-hover:underline">qwen3.5:9b-q4_K_M</span>
        <div class="flex flex-col text-neutral-500 text-[13px]"><span>
          <span class="font-mono">6488c96fa5fa</span> · 6.6GB · 256K context window ·
          <span class="hidden sm:inline">Text, Image input · 5 months ago</span>
        </span></div>
      </a>
      <div class="hidden md:flex"><a href="/library/qwen3.5:9b-q4_K_M">qwen3.5:9b-q4_K_M</a></div>
      <a href="/library/qwen3.5:9b-q8_0" class="md:hidden">
        <div class="flex flex-col text-neutral-500 text-[13px]"><span>
          <span class="font-mono">aa11bb22cc33</span> · 11GB · 256K context window ·
          <span class="hidden sm:inline">Text, Image input · 5 months ago</span>
        </span></div>
      </a>"#;

#[test]
fn parse_une_carte_reelle() {
    let v = parse_library(CARD);
    assert_eq!(v.len(), 1, "une carte attendue");
    let m = &v[0];
    assert_eq!(m.name, "qwen3.5");
    assert_eq!(m.description, "Qwen 3.5 is Alibaba's family.");
    assert_eq!(m.capabilities, vec!["vision", "tools", "cloud"]);
    assert_eq!(m.sizes, vec!["4b", "9b"]);
    assert_eq!(m.pulls_label, "18.5M");
    assert_eq!(m.pulls, 18_500_000);
    assert_eq!(m.tags, Some(64));
    assert_eq!(m.updated.as_deref(), Some("May 21, 2026 7:08 PM UTC"));
    assert_eq!(m.updated_day, Some(days_from_civil(2026, 5, 21)));
}

#[test]
fn pulls_normalises_pour_le_tri() {
    assert_eq!(parse_pulls("18.5M"), 18_500_000);
    assert_eq!(parse_pulls("83.6M"), 83_600_000);
    assert_eq!(parse_pulls("135.7K"), 135_700);
    assert_eq!(parse_pulls("2,503"), 2_503);
    assert_eq!(parse_pulls("520"), 520);
    assert_eq!(parse_pulls("n/a"), 0);
}

#[test]
fn dates_absolues_uniquement() {
    assert_eq!(days_from_civil(1970, 1, 1), 0);
    assert_eq!(parse_date_day("Jan 1, 1970 12:00 AM UTC"), None);
    assert_eq!(
        parse_date_day("Jan 1, 2024 12:00 AM UTC"),
        Some(days_from_civil(2024, 1, 1))
    );
    let a = parse_date_day("Aug 26, 2026 11:07 PM UTC").unwrap();
    let b = parse_date_day("May 21, 2026 7:08 PM UTC").unwrap();
    assert!(a > b);
    assert_eq!(parse_date_day("3 months ago"), None);
    assert_eq!(parse_date_day("qwen3.5"), None);
}

#[test]
fn tags_portent_la_quantification_et_sa_taille() {
    let v = parse_tags(TAG_BLOC, "qwen3.5");
    assert_eq!(v.len(), 2, "dédoublonnage mobile/bureau");
    assert_eq!(v[0].tag, "9b-q4_K_M");
    assert_eq!(v[0].size_label.as_deref(), Some("6.6GB"));
    assert_eq!(v[0].bytes, Some(6_600_000_000));
    assert_eq!(v[0].context.as_deref(), Some("256K"));
    assert_eq!(v[0].modality.as_deref(), Some("Text, Image"));
    assert_eq!(v[1].tag, "9b-q8_0");
    assert_eq!(v[1].bytes, Some(11_000_000_000));
    assert!(v[1].bytes > v[0].bytes);
}

#[test]
fn tailles_en_unites_decimales() {
    assert_eq!(parse_size("6.6GB"), Some(6_600_000_000));
    assert_eq!(parse_size("11GB"), Some(11_000_000_000));
    assert_eq!(parse_size("622MB"), Some(622_000_000));
    assert_eq!(parse_size("1.0GB"), Some(1_000_000_000));
    assert_eq!(parse_size(""), None);
    assert_eq!(parse_size("256K context"), None);
}

#[test]
fn page_illisible_donne_zero_modele_pas_une_panne() {
    assert!(parse_library("<html><body>rien ici</body></html>").is_empty());
    assert!(parse_library("").is_empty());
}

#[test]
fn days_follow_each_other() {
    assert_eq!(days_from_civil(2024, 2, 29) + 1, days_from_civil(2024, 3, 1));
    assert_eq!(days_from_civil(2023, 2, 28) + 1, days_from_civil(2023, 3, 1));
    assert_eq!(days_from_civil(1999, 12, 31) + 1, days_from_civil(2000, 1, 1));
    assert_eq!(days_from_civil(2000, 1, 1), 10957);
    assert_eq!(month_num("Feb"), Some(2));
    assert_eq!(month_num("xyz"), None);
}

#[test]
fn pieces_of_a_page() {
    assert_eq!(between("a<b>c</b>", "<b>", "</b>").as_deref(), Some("c"));
    assert_eq!(between("a<b>c", "<b>", "</b>"), None);
    assert_eq!(all_between("<b>1</b><b>2</b>", "<b>", "</b>"), vec!["1", "2"]);
    assert_eq!(badge_text(" class=\"x\"> vision ").as_deref(), Some("vision"));
    assert_eq!(badge_text(" class=\"x\">vision</span>"), None);
    assert_eq!(
        label_value("<span >64</span><span class=\"x\">&nbsp;Tags</span>", "Tags").as_deref(),
        Some("64")
    );
    assert_eq!(decode_entities("a&amp;b&#39;c"), "a&b'c");
    assert_eq!(mot_avant_unite("x · 6.6GB · y").as_deref(), Some("6.6GB"));
    assert_eq!(valeur_avant("· 256K context window", "context window").as_deref(), Some("256K"));
    assert_eq!(tags_url("qwen3.5"), "https://ollama.com/library/qwen3.5/tags");
}

#[test]
fn what_was_kept_is_served_when_the_source_fails() {
    assert!(is_fresh(100, 150, 60, false));
    assert!(!is_fresh(100, 150, 60, true));
    assert!(!is_fresh(100, 160, 60, false));
    assert_eq!(serve(Some(3), true), Served::Fetched);
    assert_eq!(serve(Some(0), true), Served::Kept);
    assert_eq!(serve(None, true), Served::Kept);
    assert_eq!(serve(Some(0), false), Served::Unreadable);
    assert_eq!(serve(None, false), Served::Unreachable);
}

#[test]
fn le_prefixe_openai_est_retire() {
    assert_eq!(native_base("http://localhost:11434/v1"), "http://localhost:11434");
    assert_eq!(native_base("http://localhost:11434/v1/"), "http://localhost:11434");
    assert_eq!(native_base("http://192.168.1.20:11434/v1"), "http://192.168.1.20:11434");
    assert_eq!(native_base("http://localhost:11434"), "http://localhost:11434");
    assert_eq!(native_base("http://api.example.com/v1/proxy"), "http://api.example.com/v1/proxy");
    assert_eq!(native_base("  http://x:11434/v1  "), "http://x:11434");
}

#[test]
fn the_making_of_a_loaded_model_stands_beside_it() {
    let entry = |name: &str, details: Option<ModelDetails>| ListedModel {
        name: s(name),
        size: 10,
        size_vram: 4,
        expires_at: None,
        details,
    };
    let made = ModelDetails { parameter_size: Some(s("7B")), quantization_level: None };
    let models = loaded(vec![entry("a", Some(made)), entry("b", None)]);
    assert_eq!(models.len(), 2);
    assert_eq!((models[0].name.as_str(), models[0].size, models[0].size_vram), ("a", 10, 4));
    assert_eq!(models[0].parameter_size.as_deref(), Some("7B"));
    assert_eq!(models[0].quantization_level, None);
    assert_eq!((models[1].name.as_str(), &models[1].parameter_size), ("b", &None));
}

#[test]
fn requests_to_the_native_server() {
    assert_eq!(loaded_url("http://x/v1"), "http://x/api/ps");
    assert_eq!(unload_url("http://x/v1"), "http://x/api/generate");
    let body = unload_body("m");
    assert_eq!(body.get_text("model"), Some("m"));
    assert_eq!(body.get_i64("keep_alive"), Some(0));
    assert!(unload_refused("m").contains('m'));
}

// --- Installs -----------------------------------------------------------------------------

fn f(path: &str, size: u64) -> HfTreeEntry {
    HfTreeEntry { path: path.to_string(), size }
}

#[test]
fn quantification_reconnue_par_forme() {
    assert_eq!(quant_of("Qwen2.5-7B-Instruct-Q4_K_M.gguf").as_deref(), Some("Q4_K_M"));
    assert_eq!(quant_of("model.Q8_0.gguf").as_deref(), Some("Q8_0"));
    assert_eq!(quant_of("Qwen2.5-7B-Instruct-IQ4_XS.gguf").as_deref(), Some("IQ4_XS"));
    assert_eq!(quant_of("machin-BF16.gguf").as_deref(), Some("BF16"));
    assert_eq!(quant_of("truc-Q4_K_XL.gguf").as_deref(), Some("Q4_K_XL"));
    assert_eq!(quant_of("Qwen2-7B.gguf"), None);
    assert_eq!(quant_of("Q8-model-Q6_K.gguf").as_deref(), Some("Q6_K"));
    assert_eq!(
        quant_of("Qwen3-30B-A3B-Q4_K_M-00001-of-00002.gguf").as_deref(),
        Some("Q4_K_M")
    );
    assert_eq!(quant_of("BF16/Qwen3-30B-A3B-BF16-00002-of-00002.gguf").as_deref(), Some("BF16"));
}

#[test]
fn parties_additionnees_et_triees_du_plus_leger() {
    let v = group_quants(&vec![
        f("m-Q8_0.gguf", 8_000),
        f("BF16/m-BF16-00001-of-00002.gguf", 9_000),
        f("BF16/m-BF16-00002-of-00002.gguf", 7_000),
        f("m-Q4_K_M.gguf", 4_000),
        f("README.md", 10),
    ]);
    let noms: Vec<&str> = v.iter().map(|q| q.quant.as_str()).collect();
    assert_eq!(noms, vec!["Q4_K_M", "Q8_0", "BF16"], "tri du plus léger au plus lourd");
    let bf16 = v.iter().find(|q| q.quant == "BF16").unwrap();
    assert_eq!(bf16.bytes, 16_000, "les parties doivent être additionnées");
    assert_eq!(bf16.parts, 2);
    assert_eq!(v.iter().find(|q| q.quant == "Q4_K_M").unwrap().parts, 1);
}

#[test]
fn matching_par_token_uniquement() {
    assert!(!contains_token("qwen3-reranker-4b-gguf", "r-4b"));
    assert!(contains_token("voodisss/r-4b-gguf", "r-4b"));
    assert!(contains_token("r-4b", "r-4b"));
    assert!(contains_token("org/harrier-oss-v1-0.6b-gguf", "harrier-oss-v1-0.6b"));
    assert!(!contains_token("superqwen", "qwen"));
    assert!(contains_token("super-qwen-x", "qwen"));
}

#[test]
fn quantizations_of_the_same_weight_are_ordered_by_name() {
    let v = group_quants(&vec![f("m-Q8_0.gguf", 5), f("m-Q4_0.gguf", 5)]);
    let noms: Vec<&str> = v.iter().map(|q| q.quant.as_str()).collect();
    assert_eq!(noms, vec!["Q4_0", "Q8_0"]);
}

#[test]
fn only_numbers_mark_a_part() {
    assert_eq!(quant_of("best-of-breed-Q4_K_M.gguf").as_deref(), Some("Q4_K_M"));
    assert_eq!(quant_of("one-of-2-Q4_0.gguf").as_deref(), Some("Q4_0"));
    assert_eq!(quant_of("m-Q4_0-1-of-x.gguf").as_deref(), Some("Q4_0"));
    assert_eq!(quant_of("m-Q4_0-1-of-2.gguf").as_deref(), Some("Q4_0"));
    assert_eq!(quant_of("Q4_0-of-2.gguf").as_deref(), Some("Q4_0"));
}

#[test]
fn the_order_of_the_files_makes_no_difference() {
    let all = || vec![f("m-Q8_0-1-of-2.gguf", 7), f("m-Q4_0.gguf", 9), f("m-Q8_0-2-of-2.gguf", 2), f("x", 1)];
    let plain = |v: Vec<HfTreeEntry>| -> Vec<(String, u64, u32)> {
        group_quants(&v).into_iter().map(|q| (q.quant, q.bytes, q.parts)).collect()
    };
    let want = vec![("Q4_0".to_string(), 9, 1), ("Q8_0".to_string(), 9, 2)];
    let mut files = all();
    for _ in 0..4 {
        let first = files.remove(0);
        files.push(first);
        let copy = files.iter().map(|e| f(&e.path, e.size)).collect();
        assert_eq!(plain(copy), want);
    }
}

#[test]
fn the_repository_with_the_most_downloads_is_chosen() {
    let repo = |id: &str, downloads: i64| HfRepo { id: s(id), downloads };
    let repos = vec![
        repo("a/Qwen3-8B-GGUF", 10),
        repo("b/qwen3-8b-distill-GGUF", 99),
        repo("c/qwen3-8b-gguf", 20),
        repo("d/qwen3-8b-gguf", 20),
        repo("e/superqwen3-8b", 500),
    ];
    // Derivatives do not count, and of two the last wins.
    assert_eq!(choose_repo(&repos, "qwen3-8b"), Some(3));
    assert_eq!(choose_repo(&repos, "llama"), None);
    // Unless a derivative is looked for.
    assert_eq!(choose_repo(&repos, "qwen3-8b-distill"), Some(1));
    assert_eq!(search_base("Qwen/Qwen3-8B"), "qwen3-8b");
}

#[test]
fn how_a_model_is_installed() {
    let one = try_fetch("Qwen/Q", "x/q-gguf", &vec![f("q-Q4_K_M.gguf", 1)]);
    assert_eq!(one.ollama.as_deref(), Some("hf.co/x/q-gguf"));
    assert_eq!(one.lmstudio.as_deref(), Some("x/q-gguf"));
    assert_eq!(one.quant.as_deref(), Some("Q4_K_M"));
    let two = try_fetch("Qwen/Q", "x/q-gguf", &vec![f("q-Q4_K_M.gguf", 1), f("q-Q8_0.gguf", 2)]);
    assert_eq!(two.ollama.as_deref(), Some("hf.co/x/q-gguf:Q8_0"));
    let none = try_fetch("Qwen/Q", "x/q-gguf", &vec![]);
    assert_eq!(none.ollama, None);
    assert_eq!(not_installable("Qwen/Q").gguf_repo, None);
    let q = |n: &str| GgufQuant { quant: s(n), bytes: 1, parts: 1 };
    assert_eq!(proposed_quant(&vec![q("IQ2_XS"), q("q6_k")]).as_deref(), Some("Q6_K"));
    assert_eq!(proposed_quant(&vec![q("IQ2_XS"), q("IQ3_M")]).as_deref(), Some("IQ2_XS"));
    assert_eq!(proposed_quant(&vec![]), None);
    assert!(est_quant("F16") && !est_quant("Q8") && est_quant("IQ1_S"));
    assert!(is_gguf("A/m.GGUF") && !is_gguf("m.bin"));
}

#[test]
fn what_is_looked_up_again() {
    let kept = |at, repo, quants| Some(KeptInstall { fetched_at: at, has_repo: repo, has_quants: quants });
    assert!(needs_lookup(&None, 0));
    assert!(needs_lookup(&kept(0, true, false), 1));
    assert!(!needs_lookup(&kept(0, true, true), 1));
    assert!(!needs_lookup(&kept(0, false, false), 604799));
    assert!(needs_lookup(&kept(0, true, true), 604800));
}

#[test]
fn addresses_are_encoded() {
    assert_eq!(urlencode("MTEB(fra, v1)"), "MTEB%28fra%2C%20v1%29");
    assert_eq!(urlencode("é-_.~aZ9"), "%C3%A9-_.~aZ9");
    assert_eq!(
        search_url("a b"),
        "https://huggingface.co/api/models?search=a%20b&filter=gguf&sort=downloads&direction=-1&limit=15"
    );
    assert_eq!(tree_url("o/r"), "https://huggingface.co/api/models/o/r/tree/main?recursive=1");
    assert_eq!(boards_url(), "https://mteb-leaderboard-backend.hf.space/v1/benchmarks");
    assert_eq!(board_url("a b"), "https://mteb-leaderboard-backend.hf.space/v1/benchmarks/a%20b");
    assert_eq!(
        scores_url("a b"),
        "https://mteb-leaderboard-backend.hf.space/v1/benchmarks/a%20b/scores"
    );
}

// --- Rankings -----------------------------------------------------------------------------

fn board(name: &str, models: Option<u32>, modalities: Vec<String>) -> ApiBoard {
    ApiBoard {
        name: s(name),
        display_name: None,
        num_models: models,
        languages: vec![s("fra")],
        modalities,
    }
}

#[test]
fn rankings_of_texts_are_listed() {
    let boards = vec![
        board("MTEB(fra, v1)", Some(10), vec![s("text")]),
        board("MIEB", Some(99), vec![s("image"), s("text")]),
        board("MTEB(deu, v1)", None, vec![]),
        board("MTEB(kor, v1)", Some(30), vec![s("text")]),
        board("MTEB(Multilingual, v2)", Some(5), vec![s("text")]),
    ];
    assert_eq!(missing_boards(&boards), vec!["MTEB(eng, v2)"]);
    assert_eq!(missing_boards(&vec![]), vec!["MTEB(Multilingual, v2)", "MTEB(eng, v2)"]);
    let listed = list_boards(&boards);
    let names: Vec<&str> = listed.iter().map(|b| b.name.as_str()).collect();
    assert_eq!(
        names,
        vec!["MTEB(Multilingual, v2)", "MTEB(kor, v1)", "MTEB(fra, v1)", "MTEB(deu, v1)"]
    );
    assert_eq!(listed[0].display_name, "MTEB(Multilingual, v2)");
    assert_eq!(listed[0].languages, 1);
}

fn row(name: &str, mean: &str) -> ApiRow {
    ApiRow {
        rank: Some(1),
        name: s(name),
        url: None,
        embedding_dim: Some(s("384.0")),
        total_params_b: Some(s("0.0")),
        max_tokens: Some(s("512")),
        mean_task: Some(s(mean)),
        retrieval: None,
    }
}

#[test]
fn zero_is_no_score() {
    assert!(positive("0.001") && positive("1e-9"));
    assert!(!positive("0.0") && !positive("-1") && !positive("x"));
    let b = fetch_board(&vec![row("a", "0.61"), row("b", "0.0")], 7);
    assert_eq!(b.total, 2);
    assert_eq!(b.fetched_at, 7);
    assert_eq!(b.models[0].mean.as_deref(), Some("0.61"));
    assert_eq!(b.models[1].mean, None);
    assert_eq!(b.models[0].embed_dim, Some(384));
    assert_eq!(b.models[0].params_b, None);
}

#[test]
fn a_model_is_listed_once() {
    let first = fetch_board(&vec![row("a", "0.5"), row("b", "0.4")], 0);
    let second = fetch_board(&vec![row("b", "0.9")], 0);
    let v = merge_boards(&vec![
        AskedBoard { name: s("fr"), kept: Some(first) },
        AskedBoard { name: s("ko"), kept: None },
        AskedBoard { name: s("en"), kept: Some(second) },
    ]);
    assert_eq!(v.len(), 2);
    assert_eq!(v[1].name, "b");
    assert_eq!(v[1].hf.as_deref(), Some("b"));
    let boards: Vec<&str> = v[1].scores.iter().map(|x| x.board.as_str()).collect();
    assert_eq!(boards, vec!["fr", "en"]);
    assert_eq!(v[1].scores[1].total, Some(1));
    assert!(board_needs_fetch(None, 0, false));
    assert!(!board_needs_fetch(Some(0), 604799, false));
    assert!(board_needs_fetch(Some(0), 604800, false));
    assert!(board_needs_fetch(Some(0), 1, true));
}

#[test]
fn sizes_in_names() {
    assert_eq!(parse_params("8.29B").as_deref(), Some("8.29"));
    assert_eq!(parse_params("7B").as_deref(), Some("7"));
    assert_eq!(parse_params("1.8b").as_deref(), Some("1.8"));
    assert_eq!(parse_params("7M"), None);
    assert_eq!(parse_params("B"), None);
    assert_eq!(parse_params_from_name("qwen2.5-14B-instruct").as_deref(), Some("14"));
    assert_eq!(parse_params_from_name("yi-1.5b").as_deref(), Some("1.5"));
    assert_eq!(parse_params_from_name("gpt-4"), None);
    assert_eq!(clean_llm_name("qwen2.5-7b-instruct-turbomind").0, "qwen2.5-7b-instruct");
    assert_eq!(clean_llm_name("a-hf-vllm").1, "a");
    assert_eq!(clean_llm_name("a").0, "a");
}

#[test]
fn rankings_of_vision() {
    let boards = vision_boards();
    assert_eq!(boards.len(), 8);
    assert_eq!(boards[0].name, "Général");
    assert_eq!(boards[0].display_name, "Général (moyenne)");
    assert_eq!(boards[1].name, "MMMU");
    let page = Json::parse(
        r#"{"results":{"M":{"META":{"Method":"M https://huggingface.co/Org/M/","Parameters":"8.29B"},
        "MMMU_VAL":{"Overall":54.1},"OCRBench":{"Final Score":820},"AI2D":{"Overall":0}},
        "N":{"META":{},"MMMU_VAL":{"Overall":"-"}}}}"#,
    )
    .unwrap();
    let v = fetch_vision(&page).unwrap();
    assert_eq!(v.len(), 1);
    assert_eq!(v[0].name, "M");
    assert_eq!(v[0].hf.as_deref(), Some("Org/M"));
    assert_eq!(v[0].url.as_deref(), Some("https://huggingface.co/Org/M/"));
    assert_eq!(v[0].params_b.as_deref(), Some("8.29"));
    let scores: Vec<(&str, &str, u32)> =
        v[0].scores.iter().map(|x| (x.board.as_str(), x.value.as_str(), x.scale)).collect();
    assert_eq!(scores, vec![("MMMU", "54.1", 100), ("OCRBench", "820", 1000)]);
    assert!(fetch_vision(&Json::parse("{}").unwrap()).is_none());
    assert_eq!(repository_of("rien"), None);
    assert_eq!(link_of("a http://x b").as_deref(), Some("http://x"));
}

#[test]
fn rankings_of_reasoning() {
    assert_eq!(reasoning_boards().len(), 9);
    let page = Json::parse(
        r#"{"IFEval":{"dataset":"x","a-7b-hf":80.5,"b":"-","c":" 12.5 "},"BBH":{"a-7b-hf":10,"mode":1}}"#,
    )
    .unwrap();
    let v = fetch_reasoning(&page).unwrap();
    assert_eq!(v.len(), 2);
    assert_eq!(v[0].name, "a-7b");
    assert_eq!(v[0].params_b.as_deref(), Some("7"));
    let boards: Vec<&str> = v[0].scores.iter().map(|x| x.board.as_str()).collect();
    assert_eq!(boards, vec!["IFEval", "BBH"]);
    assert_eq!(v[1].scores[0].value, "12.5");
    assert!(fetch_reasoning(&Json::parse("{}").unwrap()).unwrap().is_empty());
    assert!(fetch_reasoning(&Json::parse("null").unwrap()).is_none());
    assert!(fetch_reasoning(&Json::parse("[]").unwrap()).is_none());
}

#[test]
fn places_are_told_apart() {
    let score = |board: &str, key: Option<u64>| RankedScore { board: s(board), key, rank: None, total: None };
    let v = assign_ranks(&vec![
        vec![score("A", Some(5)), score("B", Some(1))],
        vec![score("A", Some(9))],
        vec![score("A", Some(5)), score("B", None)],
    ]);
    let a: Vec<Option<u32>> = v.iter().map(|m| m[0].rank).collect();
    assert_eq!(a, vec![Some(2), Some(1), Some(3)]);
    assert_eq!(v[0][0].total, Some(3));
    assert_eq!((v[0][1].rank, v[0][1].total), (Some(1), Some(1)));
    assert_eq!((v[2][1].rank, v[2][1].total), (None, None));
}

// --- Embedding ----------------------------------------------------------------------------

#[test]
fn catalogue_local_coherent_avec_le_resolveur() {
    for (id, dims, multilingue) in supported_local_models() {
        let choice = resolve_local_model(id);
        assert_eq!(choice.dimensions, dims, "dimension incohérente pour {id}");
        assert_eq!(choice.needs_e5_prefix, multilingue, "drapeau multilingue incohérent pour {id}");
    }
}

#[test]
fn unknown_models_fall_back() {
    assert_eq!(resolve_local_model("inconnu").model, LocalModel::MultilingualE5Small);
    assert_eq!(resolve_local_model("BGE-Small-EN-v1.5").model, LocalModel::BGESmallENV15);
}

#[test]
fn models_are_kept_in_their_folders() {
    assert_eq!(folder_of("Qdrant/bge"), "models--Qdrant--bge");
    let folder = local_model_folder("multilingual-e5-small").unwrap();
    assert!(folder.starts_with("models--"));
    assert!(folder.contains("e5-small"));
    assert_eq!(local_cache_dir("/data", '/'), "/data/models");
    assert_eq!(local_cache_dir("/data/", '/'), "/data/models");
}

#[test]
fn rerankers_are_told_apart() {
    let names = supported_reranker_models();
    for n in &names {
        for m in &names {
            assert_eq!(n == m, resolve_reranker_model(n) == resolve_reranker_model(m));
        }
    }
    assert!(matches!(resolve_reranker_model("bge-reranker-base"), RerankModel::BGERerankerBase));
}

#[test]
fn inputs_of_an_embedder() {
    assert_eq!(passage_inputs(vec![s("a")], true), vec!["passage: a"]);
    assert_eq!(passage_inputs(vec![s("a")], false), vec!["a"]);
    assert_eq!(query_input("a", true), "query: a");
    assert_eq!(query_input("a", false), "a");
    assert_eq!(payload_bytes(&vec![s("é"), s("ab")]), 4);
    let b = split_batches(&vec![s("1"), s("2"), s("3")], 2);
    assert_eq!(b, vec![vec![s("1"), s("2")], vec![s("3")]]);
}

#[test]
fn the_context_grows_with_the_chunks() {
    assert!(embedding_num_ctx(1000) <= embedding_num_ctx(8000));
    assert_eq!(embedding_num_ctx(10_000), 6144);
    assert_eq!(embedding_num_ctx(usize::MAX), 4_294_966_272);
    let body = native_embeddings_body("m", &vec![s("a")], 2048);
    assert_eq!(body.get("options").unwrap().get_u64("num_ctx"), Some(2048));
    assert_eq!(embeddings_body("m", &vec![s("a")]).get_text("model"), Some("m"));
    assert_eq!(embeddings_url("http://x/v1/"), "http://x/v1/embeddings");
    assert_eq!(native_embeddings_url("http://x/v1", "").as_deref(), Some("http://x/api/embed"));
    assert!(native_reply_counts(true, Some(2), 2));
    assert!(!native_reply_counts(true, Some(1), 2));
    assert!(!native_reply_counts(false, Some(2), 2));
    let cfg = |model: &str| EmbeddingConfig {
        mode: EmbeddingMode::Local,
        model: s(model),
        base_url: s(""),
        api_key: s(""),
        dimensions: 384,
        use_gpu: false,
    };
    assert_ne!(embedding_cache_key(&cfg("a")), embedding_cache_key(&cfg("b")));
    assert_eq!(embedding_cache_key(&cfg("a")), embedding_cache_key(&cfg("a")));
}

#[test]
fn the_runtime_for_the_graphics_card_is_used_only_where_there_is_one() {
    assert_eq!(ensure_ort(true, true).url, GPU_URL);
    assert_eq!(ensure_ort(true, false).url, CPU_URL);
    assert_eq!(ensure_ort(false, true).url, CPU_URL);
    assert!(keeps_entry("a/lib/onnxruntime.dll"));
    assert!(!keeps_entry("a/README.md"));
}

// --- Commands -----------------------------------------------------------------------------

fn answer(body: &str) -> HttpReply {
    HttpReply::Answer(Json::parse(body).unwrap())
}

#[test]
fn the_models_of_a_server() {
    let reply = answer(r#"{"data":[{"id":"llama3.1:8b"},{"x":1},{"id":"qwen"}]}"#);
    let models = fetch_models(&reply).unwrap();
    assert_eq!(models, vec!["llama3.1:8b", "qwen"]);
    assert_eq!(fetch_models(&answer("{}")).unwrap().len(), 0);
    assert_eq!(
        fetch_models(&HttpReply::NotSent(s("refusé"))).unwrap_err(),
        "serveur injoignable: refusé"
    );
    let refused = HttpReply::Refused { status: 404, status_text: s("404 Not Found"), body: s("x") };
    assert_eq!(fetch_models(&refused).unwrap_err(), "le serveur a répondu 404 Not Found");
    assert_eq!(fetch_models(&HttpReply::Unreadable(s("json"))).unwrap_err(), "json");
    assert_eq!(
        test_chat_endpoint(&models, "llama3.1").unwrap(),
        "Connecté — modèle « llama3.1 » disponible"
    );
    assert_eq!(
        test_chat_endpoint(&models, "").unwrap(),
        "Serveur joignable (2 modèle(s) disponible(s))"
    );
    assert_eq!(
        test_chat_endpoint(&models, "phi").unwrap_err(),
        "Serveur joignable mais modèle « phi » introuvable. Modèles installés : llama3.1:8b, qwen"
    );
    assert!(test_chat_endpoint(&vec![], "phi").unwrap_err().ends_with("aucun"));
}

#[test]
fn an_embedding_model_is_tried() {
    assert_eq!(
        test_embedding_endpoint(&answer(r#"{"data":[{"embedding":[0.1,0.2,0.3]}]}"#)).unwrap(),
        "Modèle OK — 3 dimensions (règle « Dimensions » sur 3)"
    );
    assert_eq!(
        test_embedding_endpoint(&answer(r#"{"data":[]}"#)).unwrap_err(),
        "réponse sans vecteur d'embedding"
    );
    let refused =
        HttpReply::Refused { status: 500, status_text: s("500 X"), body: "é".repeat(300) };
    assert_eq!(
        test_embedding_endpoint(&refused).unwrap_err(),
        format!("le serveur a répondu 500 X: {}", "é".repeat(200))
    );
    assert_eq!(embedding_test_body("m").render(), r#"{"input":["test"],"model":"m"}"#);
}

#[test]
fn models_are_removed() {
    assert!(is_lmstudio("http://HOST:1234/v1") && is_lmstudio("http://LM-Studio.local"));
    assert!(!is_lmstudio("http://localhost:11434/v1"));
    let q = delete_request("http://x:11434/v1", "m").unwrap();
    assert_eq!(q.url, "http://x:11434/api/delete");
    assert_eq!(q.body.render(), r#"{"model":"m"}"#);
    assert_eq!(
        delete_request("http://x:1234/v1", "m").unwrap_err(),
        "LM Studio n'expose pas de suppression : retire le modèle depuis son interface."
    );
    assert_eq!(delete_request("http://x", " ").unwrap_err(), "aucun modèle indiqué");
    let status = |code: u16| DeleteReply::Status { code, text: s("T"), detail: s("d") };
    assert!(delete_model("m", &status(200)).is_ok());
    assert_eq!(
        delete_model("m", &status(404)).unwrap_err(),
        "« m » n'est pas installé sur ce serveur"
    );
    assert_eq!(delete_model("m", &status(500)).unwrap_err(), "échec de la suppression (T) : d");
    assert_eq!(
        delete_model("m", &DeleteReply::NotSent(s("e"))).unwrap_err(),
        "suppression impossible (serveur Ollama ?) : e"
    );
}

#[test]
fn models_are_loaded_by_lm_studio() {
    assert_eq!(
        pull_lmstudio("m", &LmsEnd::Done).unwrap(),
        "Modèle « m » téléchargé (LM Studio)"
    );
    let failed = |err: &str| LmsEnd::Failed { stderr: s(err), stdout: s(" sortie ") };
    assert_eq!(pull_lmstudio("m", &failed(" e ")).unwrap_err(), "échec de `lms get` : e");
    assert_eq!(pull_lmstudio("m", &failed("  ")).unwrap_err(), "échec de `lms get` : sortie");
    assert!(pull_lmstudio("m", &LmsEnd::Missing).unwrap_err().starts_with("CLI « lms »"));
    assert_eq!(
        pull_lmstudio("m", &LmsEnd::NotStarted(s("e"))).unwrap_err(),
        "lancement de `lms` impossible : e"
    );
    assert_eq!(
        pull_lmstudio("m", &LmsEnd::Interrupted(s("e"))).unwrap_err(),
        "tâche lms interrompue : e"
    );
}

#[test]
fn pieces_make_no_difference() {
    let text = "{\"status\":\"a\",\"total\":10,\"completed\":5}\n\nbruit\n{\"status\":\"b\"}\n{\"sta";
    let mut whole = PullRun::new();
    let all = whole.on_text(text);
    assert_eq!(all.events.len(), 2);
    assert_eq!(all.events[0].status, "a");
    assert_eq!((all.events[0].completed, all.events[0].total), (5, 10));
    let mut parts = PullRun::new();
    let mut seen = Vec::new();
    for c in text.chars() {
        let step = parts.on_bytes(c.to_string().as_bytes());
        assert!(step.error.is_none());
        seen.extend(step.events.into_iter().map(|e| e.status));
    }
    assert_eq!(seen, vec!["a", "b"]);
    assert_eq!(whole.buf, parts.buf);
    let failed = whole.on_text("tus\":\"c\"}\n{\"error\":\"plein\"}\n{\"status\":\"d\"}\n");
    assert_eq!(failed.events.len(), 1);
    assert_eq!(failed.error.as_deref(), Some("plein"));
    let q = pull_request("http://x/v1/", "m");
    assert_eq!(q.url, "http://x/api/pull");
    assert_eq!(q.body.render(), r#"{"name":"m","stream":true}"#);
    assert_eq!(pulled_message("m"), "Modèle « m » téléchargé");
}

#[test]
fn the_queue_is_shown() {
    assert_eq!(queue_limit(None), 60);
    assert_eq!(queue_limit(Some(0)), 1);
    assert_eq!(queue_limit(Some(1000)), 300);
    let item = queue_item(
        &AppConfig::default(),
        QueueEntry {
            path: s("/a"),
            queued: Queued::File(FileType::Text),
            status: s("pending"),
            retry_count: 1,
            last_error: Some(s("e")),
        },
    );
    assert_eq!(item.routes.last().map(|r| r.as_str()), Some("embedding"));
    assert_eq!((item.status.as_str(), item.retry_count), ("pending", 1));
}

#[test]
fn only_indexed_folders_get_a_mode() {
    let roots = vec![s("/r")];
    assert_eq!(set_folder_mode(&roots, "/r/a", "block"), Ok(ModeStep::AsBlock));
    assert_eq!(set_folder_mode(&roots, "/r/a", "recursive"), Ok(ModeStep::Rescan));
    assert!(set_folder_mode(&roots, "/x", "block").unwrap_err().starts_with("Ce dossier"));
}

#[test]
fn files_are_qualified_on_demand() {
    let known = |t: &str, e: Option<&str>| Some(KnownFile { doc_type: s(t), extract: e.map(s) });
    let q = qualify_file(true, &known(" ", Some("texte"))).unwrap();
    assert_eq!((q.doc_type.as_str(), q.extract.as_str()), ("document", "texte"));
    assert_eq!(
        qualify_file(false, &None).unwrap_err(),
        "Le modèle de reasoning est désactivé."
    );
    assert_eq!(qualify_file(true, &None).unwrap_err(), "Ce fichier n'a pas encore été indexé.");
    assert_eq!(
        qualify_file(true, &known("a", Some(" "))).unwrap_err(),
        "Aucun contenu extrait à qualifier pour ce fichier."
    );
    let file = |summary: &str| ExtractedFile {
        path: s("/a"),
        doc_type: s("t"),
        summary: s(summary),
        extract: s("  hello\nworld  "),
    };
    let todo = qualify_folder(true, &vec![file("qualifié"), file("hello world ")]).unwrap();
    assert_eq!(todo.len(), 1);
    assert_eq!((todo[0].path.as_str(), todo[0].doc_type.as_str()), ("/a", "t"));
    assert_eq!(todo[0].extract, "  hello\nworld  ");
    let untyped = ExtractedFile { doc_type: s(" "), ..file("hello world") };
    assert_eq!(qualify_folder(true, &vec![untyped]).unwrap()[0].doc_type, "document");
    assert!(qualify_folder(false, &vec![]).is_err());
}

#[test]
fn images_are_shown_and_searched() {
    assert!(check_preview(PREVIEW_MAX).is_ok());
    assert_eq!(
        check_preview(PREVIEW_MAX + 1).unwrap_err(),
        "image trop volumineuse pour l'aperçu"
    );
    assert_eq!(data_url("png", b"abc"), "data:image/png;base64,YWJj");
    assert_eq!(image_data_url("GIF", b"ab"), "data:image/gif;base64,YWI=");
    assert_eq!(data_url("", b""), "data:image/jpeg;base64,");
    let mut walk = ImageWalk::new();
    assert!(!walk.on_file("/a.PNG", "PNG"));
    assert!(!walk.on_file("/a.txt", "txt"));
    assert_eq!(walk.images, vec!["/a.PNG"]);
    for i in 1..IMAGES_MAX {
        assert_eq!(walk.on_file("/b.jpg", "jpg"), i == IMAGES_MAX - 1);
    }
    assert_eq!(image_roots(Some(s("/s")), vec![s("/r")]), vec!["/s"]);
    assert_eq!(image_roots(Some(s(" ")), vec![s("/r")]), vec!["/r"]);
    assert_eq!(image_query("  chat "), Some(s("chat")));
    assert_eq!(image_query("  "), None);
    assert_eq!((image_limit(None), image_limit(Some(0)), image_limit(Some(999))), (24, 1, 100));
}
