//! Servers that answer, transcribe and describe.

use base64::Engine;
use sensetree::agent::ToolCallOut;
use sensetree::chat::{
    image_bytes, messages_bytes, parse_agent_turn, parse_chat_content, plain_text,
    read_agent_reply, read_chat_reply, read_vision_reply, AiCallError, ChatMessage, HttpReply,
    OpenAiChatClient,
};
use sensetree::config::{
    AppConfig, ChatConfig, ReasoningEffort, TranscriptionConfig, VideoConfig, VideoDelivery,
};
use sensetree::health::{health, models_url, native_root_of, unload_remote_models, Ping};
use sensetree::json::Json;
use sensetree::media::{
    champs_supplementaires, content_length, longueur_base64, normalise_chemin, open_failure,
    parse_transcription, read_transcription_reply, size_failure, uri_fichier, BodyStep, BodyStream,
    TextReply, TranscriptionClient, VideoClient, BLOC_LECTURE,
};
use sensetree::metrics::{
    metrics, record, record_error, reset, snapshot, Counters, Ratio, Stage,
};

fn s(t: &str) -> String {
    t.to_string()
}

fn answer(text: &str) -> HttpReply {
    HttpReply::Answer(Json::parse(text).unwrap())
}

#[test]
fn transcription_lue_en_json_comme_en_texte_brut() {
    assert_eq!(parse_transcription(r#"{"text": "  bonjour le monde  "}"#), "bonjour le monde");
    assert_eq!(parse_transcription("  bonjour le monde\n"), "bonjour le monde");
    assert_eq!(parse_transcription(r#"{"autre": 1}"#), r#"{"autre": 1}"#);
    assert_eq!(parse_transcription("   "), "");
}

#[test]
fn chemin_d_endpoint_normalise() {
    assert_eq!(normalise_chemin("", "/audio/transcriptions"), "/audio/transcriptions");
    assert_eq!(normalise_chemin("   ", "/defaut"), "/defaut");
    assert_eq!(normalise_chemin("/v2/asr", "/defaut"), "/v2/asr");
    assert_eq!(normalise_chemin("v2/asr", "/defaut"), "/v2/asr");
}

#[test]
fn champs_supplementaires_tolerants() {
    assert!(champs_supplementaires("").is_empty());
    assert!(champs_supplementaires("pas du json").is_empty());
    assert!(champs_supplementaires("[1,2]").is_empty());

    let mut c = champs_supplementaires(r#"{"temperature": "0", "beam": 5}"#);
    c.sort();
    assert_eq!(
        c,
        vec![
            ("beam".to_string(), "5".to_string()),
            ("temperature".to_string(), "0".to_string()),
        ]
    );
}

#[test]
fn longueur_base64_exacte() {
    assert_eq!(longueur_base64(0), 0);
    assert_eq!(longueur_base64(1), 4);
    assert_eq!(longueur_base64(2), 4);
    assert_eq!(longueur_base64(3), 4);
    assert_eq!(longueur_base64(4), 8);
    assert_eq!(longueur_base64(200_000), 266_668);
}

#[test]
fn uri_fichier_windows_et_posix() {
    assert_eq!(uri_fichier(r"C:\Users\a\film.mp4"), "file:///C:/Users/a/film.mp4");
    assert_eq!(uri_fichier("/home/a/film.mp4"), "file:///home/a/film.mp4");
}

#[test]
fn the_form_of_a_transcription() {
    let cfg = TranscriptionConfig {
        base_url: s("http://x/v1/"),
        model: s("whisper-x"),
        language: s("fr"),
        response_format: s("verbose_json"),
        extra_fields: s(r#"{"temperature": "0"}"#),
        ..TranscriptionConfig::default()
    };
    let client = TranscriptionClient::new(&cfg);
    assert_eq!(client.url(), "http://x/v1/audio/transcriptions");
    let fields = client.form_fields();
    let value = |k: &str| fields.iter().find(|f| f.0 == k).map(|f| f.1.clone());
    assert_eq!(value("model").as_deref(), Some("whisper-x"));
    assert_eq!(value("language").as_deref(), Some("fr"));
    assert_eq!(value("response_format").as_deref(), Some("verbose_json"));
    assert_eq!(value("temperature").as_deref(), Some("0"));
    // What is not set is not sent.
    let bare = TranscriptionClient::new(&TranscriptionConfig::default()).form_fields();
    assert!(!bare.iter().any(|f| f.0 == "language" || f.0 == "response_format"));
}

#[test]
fn answers_of_a_transcription() {
    let body = TextReply::Body(s(r#"{"text": "  bonjour ici  "}"#));
    assert_eq!(read_transcription_reply("u", body).unwrap(), "bonjour ici");
    let refused = |status: u16| TextReply::Refused { status, status_text: s("X"), body: s("b") };
    assert!(matches!(
        read_transcription_reply("u", refused(400)),
        Err(AiCallError::Permanent(_))
    ));
    assert!(matches!(
        read_transcription_reply("u", refused(503)),
        Err(AiCallError::Transient(_))
    ));
    assert!(matches!(
        read_transcription_reply("u", TextReply::NotSent(s("e"))),
        Err(AiCallError::Transient(_))
    ));
    assert!(open_failure("/a", "absent").message().contains("/a"));
    assert!(size_failure("/a", "absent").message().contains("absent"));
}

/// The whole body of a request that holds a video, read in blocks.
fn body_of(client: &VideoClient, prompt: &str, mime: &str, content: &[u8], block: usize) -> (String, u64) {
    let (head, tail) = client.enveloppe_json(prompt, mime);
    let announced = content_length(&head, content.len() as u64, &tail);
    let mut stream = BodyStream::start(head, tail);
    let mut body = String::new();
    let mut at = 0;
    loop {
        match stream.next() {
            BodyStep::Emit(t) => body.push_str(&t),
            BodyStep::Read => {
                if at == content.len() {
                    body.push_str(&stream.on_end());
                } else {
                    let end = (at + block).min(content.len());
                    body.push_str(&stream.on_block(&content[at..end]));
                    at = end;
                }
            }
            BodyStep::Finished => return (body, announced),
        }
    }
}

#[test]
fn description_video_streame_un_json_valide() {
    let original: Vec<u8> = (0..200_000u32).map(|i| (i % 251) as u8).collect();
    assert_ne!(original.len() % 3, 0, "taille volontairement non multiple de 3");
    let cfg = VideoConfig {
        base_url: s("http://x/v1"),
        model: s("Qwen/Qwen2.5-VL-7B-Instruct"),
        delivery: VideoDelivery::Base64,
        ..VideoConfig::default()
    };
    let client = VideoClient::new(&cfg);
    for block in [BLOC_LECTURE, 1000, 7] {
        let (corps, announced) =
            body_of(&client, "Décris \"cette\" vidéo", "video/mp4", &original, block);
        assert_eq!(corps.len() as u64, announced);
        let v: serde_json::Value =
            serde_json::from_str(&corps).expect("le corps JSON assemblé n'est pas valide");
        assert_eq!(v["model"], "Qwen/Qwen2.5-VL-7B-Instruct");
        let contenu = &v["messages"][0]["content"];
        assert_eq!(contenu[0]["text"], "Décris \"cette\" vidéo");
        let url = contenu[1]["video_url"]["url"].as_str().expect("video_url absent");
        let prefixe = "data:video/mp4;base64,";
        assert!(url.starts_with(prefixe), "préfixe de data-URL inattendu");
        let decode = base64::engine::general_purpose::STANDARD
            .decode(&url[prefixe.len()..])
            .expect("base64 invalide");
        assert_eq!(decode, original, "contenu du média altéré par le streaming");
    }
    assert_eq!(
        client
            .read_reply(answer(r#"{"choices":[{"message":{"content":"un chat sur un clavier"}}]}"#))
            .unwrap(),
        "un chat sur un clavier"
    );
}

#[test]
fn description_video_en_file_uri_n_envoie_pas_le_media() {
    let cfg = VideoConfig {
        base_url: s("http://x/v1"),
        delivery: VideoDelivery::FileUri,
        ..VideoConfig::default()
    };
    let client = VideoClient::new(&cfg);
    let requete = client.corps_json("décris", &uri_fichier("/tmp/local.mp4")).render();
    assert!(requete.len() < 2_000);
    assert!(requete.contains("file:///"), "URL de fichier absente");
    assert!(!requete.contains("base64"), "un base64 a été envoyé malgré file_uri");
    assert_eq!(client.url(), "http://x/v1/chat/completions");
}

#[test]
fn a_body_that_cannot_be_read_ends() {
    let mut stream = BodyStream::start(s("{"), s("}"));
    assert!(matches!(stream.next(), BodyStep::Emit(h) if h == "{"));
    assert!(matches!(stream.next(), BodyStep::Read));
    stream.on_error();
    // The video is not read on.
    assert!(matches!(stream.next(), BodyStep::Emit(t) if t == "}"));
    assert!(matches!(stream.next(), BodyStep::Finished));
}

// --- Chat ---------------------------------------------------------------------------------

#[test]
fn client_errors_are_permanent() {
    for code in [400u16, 401, 404, 422] {
        assert!(matches!(AiCallError::from_status(code, s("e")), AiCallError::Permanent(_)));
    }
    for code in [408u16, 429, 500, 503] {
        assert!(matches!(AiCallError::from_status(code, s("e")), AiCallError::Transient(_)));
    }
    assert!(AiCallError::Permanent(s("non")).message().contains("non"));
}

#[test]
fn answers_of_a_chat() {
    let ok = r#"{"choices":[{"message":{"content":"oui"}}]}"#;
    assert_eq!(parse_chat_content(&Json::parse(ok).unwrap()).unwrap(), "oui");
    assert!(parse_chat_content(&Json::parse("{}").unwrap()).is_err());
    assert_eq!(read_chat_reply(answer(ok)).unwrap(), "oui");
    assert_eq!(
        read_chat_reply(HttpReply::NotSent(s("panne"))).unwrap_err(),
        "appel /chat/completions"
    );
    assert!(matches!(
        read_vision_reply(HttpReply::Refused { status: 400, status_text: s("X"), body: s("b") }),
        Err(AiCallError::Permanent(_))
    ));
    assert_eq!(read_vision_reply(answer(ok)).unwrap(), "oui");
    assert_eq!(plain_text(&Json::parse(r#""a""#).unwrap()), "a");
}

#[test]
fn turns_of_the_assistant() {
    let turn = parse_agent_turn(
        &Json::parse(
            r#"{"choices":[{"message":{"content":null,"tool_calls":[{"id":"1","function":{"name":"read_file","arguments":"{}"}}]}}]}"#,
        )
        .unwrap(),
    );
    assert!(turn.content.is_none());
    let call: &ToolCallOut = &turn.tool_calls[0];
    assert_eq!((call.id.as_str(), call.name.as_str()), ("1", "read_file"));
    assert!(read_agent_reply(HttpReply::NotSent(s("e"))).is_err());
}

#[test]
fn requests_of_a_chat() {
    let mut cfg = ChatConfig::default_reasoning();
    cfg.reasoning_effort = ReasoningEffort::Low;
    let client = OpenAiChatClient::new(&cfg);
    assert_eq!(client.url(), "http://localhost:11434/v1/chat/completions");
    let messages = vec![ChatMessage { role: s("user"), content: s("été") }];
    assert_eq!(messages_bytes(&messages), 5);
    let body = client.chat_body(&messages, true);
    assert_eq!(body.get_text("model"), Some("llama3.1:8b"));
    assert_eq!(body.get_text("reasoning_effort"), Some("low"));
    assert!(body.get("response_format").is_some());
    let quick = client.quick_body(&messages, false, ReasoningEffort::Auto);
    assert!(quick.get("response_format").is_none());
    assert!(client.tools_body(&vec![], &Json::List(vec![])).get("tools").is_none());
    let tools = Json::List(vec![Json::Null]);
    assert_eq!(client.tools_body(&vec![], &tools).get_text("tool_choice"), Some("auto"));
    assert!(client.image_body("YWJj", "image/png", "décris").render().contains("data:image/png;base64,YWJj"));
    assert_eq!(image_bytes(4), 3);
}

// --- Health -------------------------------------------------------------------------------

#[test]
fn the_health_of_the_servers() {
    let mut cfg = AppConfig::default();
    cfg.vision.enabled = true;
    cfg.transcription.enabled = true;
    let ok = Ping::Status { code: 200, text: s("200 OK") };
    let missing = Ping::Status { code: 404, text: s("404 Not Found") };
    let down = Ping::Unreachable(s("refusé"));
    let h = health(&cfg, true, &ok, &missing, &missing, &down);
    assert!(h.reasoning_ok);
    // A missing list of models is forgiven to the servers of media only.
    assert!(!h.vision_ok && h.transcription_ok);
    assert!(health(&cfg, true, &ok, &down, &down, &down).vision_detail.contains("refusé"));
    assert_eq!(models_url("http://x/v1/"), "http://x/v1/models");
}

#[test]
fn models_are_let_go() {
    assert_eq!(native_root_of("http://x/v1/"), "http://x");
    let cfg = AppConfig::default();
    let list = unload_remote_models(&cfg);
    assert!(list.iter().any(|u| u.url == "http://localhost:11434/api/generate"));
    assert!(list.iter().all(|u| u.body.get_i64("keep_alive") == Some(0)));
}

// --- Throughput ---------------------------------------------------------------------------

fn ratio(r: &Option<Ratio>) -> f64 {
    let r = r.as_ref().unwrap();
    r.num as f64 / r.den as f64
}

#[test]
fn moyennes_calculees_sur_le_temps_de_l_etage() {
    let mut c = Counters::new();
    c.record(500_000_000, 10, 2_000_000);
    c.record(500_000_000, 10, 2_000_000);
    let s = c.snapshot(Stage::Embedding);

    assert_eq!(s.ops, 2);
    assert_eq!(s.units, 20);
    assert!((s.nanos as f64 / 1e9 - 1.0).abs() < 1e-9);
    assert!((ratio(&s.ms_per_op) - 500.0).abs() < 1e-6);
    assert!((ratio(&s.units_per_sec) - 20.0).abs() < 1e-6);
    assert!((ratio(&s.mb_per_sec) - 4.0).abs() < 1e-6);
}

#[test]
fn aucune_mesure_ne_donne_none_et_non_zero_ni_infini() {
    let s = Counters::new().snapshot(Stage::Vision);
    assert_eq!(s.ops, 0);
    assert!(s.ms_per_op.is_none());
    assert!(s.units_per_sec.is_none());
    assert!(s.mb_per_sec.is_none());
}

#[test]
fn les_echecs_ne_faussent_pas_les_durees() {
    let mut c = Counters::new();
    c.record(100_000_000, 1, 10);
    c.record_error();
    c.record_error();
    c.record_error();
    let s = c.snapshot(Stage::Reasoning);
    assert_eq!(s.errors, 3);
    assert_eq!(s.ops, 1, "un échec n'est pas un appel mesuré");
    assert!((ratio(&s.ms_per_op) - 100.0).abs() < 1e-6);
}

#[test]
fn stages_are_counted_apart() {
    let mut m = metrics(100);
    record(&mut m, Stage::Vision, 1_000_000, 1, 5);
    record_error(&mut m, Stage::Media);
    let t = snapshot(&m, 160);
    assert_eq!((t.since_unix, t.wall_seconds), (100, 60));
    assert_eq!(t.stages.iter().filter(|s| s.ops == 1).count(), 1);
    assert_eq!(m.stage(Stage::Media).errors, 1);
    assert_eq!(m.stage(Stage::Embedding).ops, 0);
    reset(&mut m, 200);
    assert_eq!(m.stage(Stage::Vision).ops, 0);
    assert_eq!(snapshot(&m, 200).since_unix, 200);
    assert_eq!(Stage::Embedding.label(), "embedding");
}
