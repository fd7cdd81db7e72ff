//! What is left to do with a file once its meaning is known: the texts that are stored and
//! those that are turned into vectors.

use vstd::prelude::*;

use crate::bytes::{hex, lossy_text, sha256, text_fingerprint, utf8_lossy};
use crate::chat::ChatMessage;
use crate::chunker::{chunk_texts, indexed, texts, Chunk, Chunker};
use crate::config::AppConfig;
use crate::embedding::bytes_of;
use crate::folders::EntryInfo;
use crate::order::{
    all_below, as_ints, lemma_sorted_items, picked, sort_places, sorted_by, Ranked,
};
use crate::reading::{holds, lemma_holds};
use crate::text::{
    byte_len, cat2, cat3, cat4, cat5, contains, decimal, decimal_text, first_chars, is_blank, join,
    joined, lower_case, lowered, opt, signed_decimal, signed_text, split_words, starts_with,
    str_contains, str_eq, str_first_chars, str_is_blank, str_starts_with, str_trim, swap_char,
    swapped_char, texts_of, to_chars, to_text, trim, views, words,
};

verus! {

/// What is left to do: turn texts into vectors and store them.
#[derive(Debug)]
pub struct Pending {
    pub path: String,
    pub mtime: i64,
    pub hash: String,
    pub kind: String,
    /// The meaning of the file.
    pub summary: String,
    /// What was extracted, beside the meaning.
    pub extract: Option<String>,
    /// The texts that are stored, one for each chunk.
    pub stored: Vec<String>,
    /// The texts that are turned into vectors, as many as are stored.
    pub embed: Vec<String>,
    pub log: String,
}

#[verifier::ext_equal]
pub struct PendingView {
    pub path: Seq<char>,
    pub mtime: int,
    pub hash: Seq<char>,
    pub kind: Seq<char>,
    pub summary: Seq<char>,
    pub extract: Option<Seq<char>>,
    pub stored: Seq<Seq<char>>,
    pub embed: Seq<Seq<char>>,
    pub log: Seq<char>,
}

impl Pending {
    pub open spec fn view(self) -> PendingView {
        PendingView {
            path: self.path@,
            mtime: self.mtime as int,
            hash: self.hash@,
            kind: self.kind@,
            summary: self.summary@,
            extract: opt(self.extract),
            stored: views(self.stored@),
            embed: views(self.embed@),
            log: self.log@,
        }
    }

    /// Each text that is stored has a vector.
    pub open spec fn wf(self) -> bool {
        self.stored@.len() == self.embed@.len()
    }
}

fn one_text(s: &String) -> (r: Vec<String>)
    ensures
        views(r@) == seq![s@],
{
    let mut v: Vec<String> = Vec::new();
    v.push(s.clone());
    assert(views(v@) =~= seq![s@]);
    v
}

// ---------------------------------------------------------------------------
// Summaries
// ---------------------------------------------------------------------------

/// The start of a text on one line.
pub open spec fn summary_spec(content: Seq<char>) -> Seq<char> {
    first_chars(trim(swap_char(content, '\n', ' ')), 300)
}

pub fn summary_of(content: &str) -> (r: String)
    ensures
        r@ == summary_spec(content@),
{
    let line = to_text(swapped_char(to_chars(content).as_slice(), '\n', ' ').as_slice());
    str_first_chars(str_trim(line.as_str()).as_str(), 300)
}

/// The type of a document: its extension, or `text` where it has none.
pub fn doc_type_of(extension: &Option<String>) -> (r: String)
    ensures
        r@ == (match extension {
            Some(e) => lower_case(e@),
            None => "text"@,
        }),
{
    match extension {
        Some(e) => lowered(e.as_str()),
        None => "text".to_owned(),
    }
}

/// How the meaning of a text is found.
#[derive(Debug)]
pub enum Meaning {
    /// The user wrote it: it stays as it is.
    Pinned(String),
    /// A model is asked.
    AskModel,
    /// The start of the text stands for it.
    Excerpt(String),
}

pub enum MeaningView {
    Pinned(Seq<char>),
    AskModel,
    Excerpt(Seq<char>),
}

impl Meaning {
    pub open spec fn view(self) -> MeaningView {
        match self {
            Meaning::Pinned(s) => MeaningView::Pinned(s@),
            Meaning::AskModel => MeaningView::AskModel,
            Meaning::Excerpt(s) => MeaningView::Excerpt(s@),
        }
    }
}

/// A text that is shorter is not worth a question to a model.
pub const LEAST_CHARS_TO_ASK: usize = 120;

pub open spec fn meaning_spec(
    pinned: Option<Seq<char>>,
    allowed: bool,
    reasoning: bool,
    text: Seq<char>,
) -> MeaningView {
    match pinned {
        Some(p) => MeaningView::Pinned(p),
        None => if allowed && reasoning && trim(text).len() >= LEAST_CHARS_TO_ASK {
            MeaningView::AskModel
        } else {
            MeaningView::Excerpt(summary_spec(text))
        },
    }
}

/// How the meaning of a text is found. `pinned` is the meaning that the user wrote.
pub fn qualify_or_excerpt(pinned: &Option<String>, allowed: bool, reasoning: bool, text: &str) -> (r:
    Meaning)
    ensures
        r.view() == meaning_spec(opt(*pinned), allowed, reasoning, text@),
{
    if let Some(p) = pinned {
        return Meaning::Pinned(p.clone());
    }
    let t = to_chars(str_trim(text).as_str());
    if allowed && reasoning && t.len() >= LEAST_CHARS_TO_ASK {
        Meaning::AskModel
    } else {
        Meaning::Excerpt(summary_of(text))
    }
}

/// A meaning that the user wrote is never replaced.
pub proof fn law_a_pinned_meaning_stays(p: Seq<char>, allowed: bool, reasoning: bool, text: Seq<char>)
    ensures
        meaning_spec(Some(p), allowed, reasoning, text) == MeaningView::Pinned(p),
{
}

/// The meaning once the model was asked: its answer, or the start of the text where it gave
/// none.
pub fn answered_meaning(answer: Option<String>, text: &str) -> (r: String)
    ensures
        r@ == (match answer {
            Some(a) => a@,
            None => summary_spec(text@),
        }),
{
    match answer {
        Some(a) => a,
        None => summary_of(text),
    }
}

pub open spec fn asks(messages: Seq<ChatMessage>, system: Seq<char>, user: Seq<char>) -> bool {
    messages.len() == 2 && messages[0].role@ == "system"@ && messages[0].content@ == system
        && messages[1].role@ == "user"@ && messages[1].content@ == user
}

/// A question to a model.
pub fn ask(system: &str, user: String) -> (r: Vec<ChatMessage>)
    ensures
        asks(r@, system@, user@),
{
    let mut v: Vec<ChatMessage> = Vec::new();
    v.push(ChatMessage { role: "system".to_owned(), content: system.to_owned() });
    v.push(ChatMessage { role: "user".to_owned(), content: user });
    v
}

/// The answer of a model: trimmed and cut, `None` where it is blank.
pub open spec fn answer_text(response: Seq<char>, limit: nat) -> Option<Seq<char>> {
    if is_blank(response) {
        None
    } else {
        Some(first_chars(trim(response), limit))
    }
}

fn read_answer(response: &str, limit: usize) -> (r: Option<String>)
    ensures
        opt(r) == answer_text(response@, limit as nat),
{
    if str_is_blank(response) {
        None
    } else {
        Some(str_first_chars(str_trim(response).as_str(), limit))
    }
}

/// The question what a document is.
pub fn document_question(system: &str, name: &str, parent: &str, doc_type: &str, text: &str) -> (r:
    Vec<ChatMessage>)
    ensures
        asks(
            r@,
            system@,
            "Fichier: "@ + name@ + "\nDossier: "@ + parent@ + "\nType: "@ + doc_type@
                + "\n\nContenu:\n"@ + first_chars(text@, 4000),
        ),
{
    let mut user = cat4("Fichier: ", name, "\nDossier: ", parent);
    user.append("\nType: ");
    user.append(doc_type);
    user.append("\n\nContenu:\n");
    user.append(str_first_chars(text, 4000).as_str());
    ask(system, user)
}

pub fn read_qualification(response: &str) -> (r: Option<String>)
    ensures
        opt(r) == answer_text(response@, 1200),
{
    read_answer(response, 1200)
}

/// The question what can be read from a file of unknown type.
pub fn extract_question(system: &str, name: &str, parent: &str, sample: &str) -> (r: Vec<
    ChatMessage,
>)
    ensures
        asks(
            r@,
            system@,
            "Fichier: "@ + name@ + "\nDossier: "@ + parent@ + "\n\nExtrait:\n"@ + first_chars(
                sample@,
                4000,
            ),
        ),
{
    let mut user = cat4("Fichier: ", name, "\nDossier: ", parent);
    user.append("\n\nExtrait:\n");
    user.append(str_first_chars(sample, 4000).as_str());
    ask(system, user)
}

/// The question what can be read from a file of unknown type, of which `sample` is the start.
pub fn unknown_question(system: &str, name: &str, parent: &str, sample: &[u8]) -> (r: Vec<
    ChatMessage,
>)
    ensures
        asks(
            r@,
            system@,
            "Fichier: "@ + name@ + "\nDossier: "@ + parent@ + "\n\nExtrait:\n"@ + first_chars(
                utf8_lossy(sample@),
                4000,
            ),
        ),
{
    extract_question(system, name, parent, lossy_text(sample).as_str())
}

/// What a model read from a file of unknown type; `None` where it says that there is nothing.
pub fn read_extraction(response: &str) -> (r: Option<String>)
    ensures
        opt(r) == (if is_blank(response@) || contains(trim(response@), "NO_CONTENT"@) {
            None
        } else {
            Some(trim(response@))
        }),
{
    let t = str_trim(response);
    if str_is_blank(response) || str_contains(t.as_str(), "NO_CONTENT") {
        None
    } else {
        Some(t)
    }
}

// ---------------------------------------------------------------------------
// Documents
// ---------------------------------------------------------------------------

/// How many chunks of a file are kept; no limit is 0.
pub open spec fn kept_chunks(n: nat, limit: nat) -> nat {
    if limit > 0 && n > limit {
        limit
    } else {
        n
    }
}

/// The text that is stored for a chunk. The first one carries the type and the meaning of
/// the document, so that words of these find it too.
pub open spec fn stored_text(i: int, chunk: Seq<char>, doc_type: Seq<char>, summary: Seq<char>) -> Seq<
    char,
> {
    if i == 0 {
        "["@ + doc_type + "] "@ + summary + "\n\n"@ + chunk
    } else {
        chunk
    }
}

/// The meaning on one line, cut short.
pub open spec fn compact(summary: Seq<char>) -> Seq<char> {
    first_chars(join(words(summary), " "@), 180)
}

/// The text that is turned into a vector: behind the first one, a chunk is put into the
/// context of its document.
pub open spec fn embed_text(i: int, stored: Seq<char>, file_name: Seq<char>, summary: Seq<char>) -> Seq<
    char,
> {
    if i == 0 {
        stored
    } else {
        file_name + " · "@ + compact(summary) + "\n\n"@ + stored
    }
}

pub open spec fn chunk_views(chunks: Seq<Chunk>) -> Seq<Seq<char>> {
    Seq::new(chunks.len(), |i: int| chunks[i].text@)
}

pub open spec fn stored_texts(
    chunks: Seq<Seq<char>>,
    limit: nat,
    doc_type: Seq<char>,
    summary: Seq<char>,
) -> Seq<Seq<char>> {
    Seq::new(
        kept_chunks(chunks.len(), limit),
        |i: int| stored_text(i, chunks[i], doc_type, summary),
    )
}

pub open spec fn embed_texts(stored: Seq<Seq<char>>, file_name: Seq<char>, summary: Seq<char>) -> Seq<
    Seq<char>,
> {
    Seq::new(stored.len(), |i: int| embed_text(i, stored[i], file_name, summary))
}

/// What is kept of the text itself, with a note where only a part of it was indexed.
pub open spec fn extract_text_of(text: Seq<char>, chunks: nat, limit: nat) -> Seq<char> {
    first_chars(trim(text), 16000) + (if kept_chunks(chunks, limit) < chunks {
        "\n\n[Indexation partielle : les "@ + decimal(limit)
            + " premiers extraits seulement — document trop volumineux. Ajustez « chunks max par fichier » si besoin.]"@
    } else {
        Seq::empty()
    })
}

/// A document whose meaning is known.
pub open spec fn document_view(
    path: Seq<char>,
    file_name: Seq<char>,
    mtime: int,
    text: Seq<char>,
    hash: Seq<char>,
    doc_type: Seq<char>,
    chunks: Seq<Seq<char>>,
    limit: nat,
    summary: Seq<char>,
) -> PendingView {
    let stored = stored_texts(chunks, limit, doc_type, summary);
    PendingView {
        path,
        mtime,
        hash,
        kind: doc_type,
        summary,
        extract: Some(extract_text_of(text, chunks.len(), limit)),
        stored,
        embed: embed_texts(stored, file_name, summary),
        log: "✅ indexé ("@ + decimal(byte_len(text)) + " car., "@ + doc_type + ") : "@ + path,
    }
}

fn compact_text(summary: &str) -> (r: String)
    ensures
        r@ == compact(summary@),
{
    let w = split_words(to_chars(summary).as_slice());
    let t = texts_of(&w);
    str_first_chars(joined(&t, " ").as_str(), 180)
}

/// What becomes of a text that was read from a file.
#[derive(Debug)]
pub enum DocumentStep {
    /// There is nothing in it: the file is known by its surroundings alone.
    ContextOnly { kind: String },
    Store(Vec<Chunk>),
}

pub fn document_step(text: &str, chunk_size: usize, overlap: usize) -> (r: DocumentStep)
    ensures
        match r {
            DocumentStep::ContextOnly { kind } => chunk_texts(
                text@,
                chunk_size as nat,
                overlap as nat,
            ).len() == 0 && kind@ == "vide"@,
            DocumentStep::Store(chunks) => chunks@.len() > 0 && texts(chunks@) == chunk_texts(
                text@,
                chunk_size as nat,
                overlap as nat,
            ) && indexed(chunks@),
        },
{
    let chunks = Chunker::slice_text(text, chunk_size, overlap);
    assert(texts(chunks@).len() == chunks@.len());
    if chunks.len() == 0 {
        DocumentStep::ContextOnly { kind: "vide".to_owned() }
    } else {
        DocumentStep::Store(chunks)
    }
}

/// Prepares a document that was cut into chunks and whose meaning is known.
pub fn store_text_document(
    path: &str,
    file_name: &str,
    mtime: i64,
    text: &str,
    hash: &str,
    doc_type: &str,
    chunks: &Vec<Chunk>,
    limit: usize,
    summary: String,
) -> (r: Pending)
    requires
        byte_len(text@) <= u64::MAX,
    ensures
        r.wf(),
        r.view() == document_view(
            path@,
            file_name@,
            mtime as int,
            text@,
            hash@,
            doc_type@,
            chunk_views(chunks@),
            limit as nat,
            summary@,
        ),
{
    let ghost all = chunk_views(chunks@);
    let ghost want_stored = stored_texts(all, limit as nat, doc_type@, summary@);
    let n: usize = if limit > 0 && chunks.len() > limit {
        limit
    } else {
        chunks.len()
    };
    let ctx = compact_text(summary.as_str());
    let ghost want_embed = embed_texts(want_stored, file_name@, summary@);
    let mut stored: Vec<String> = Vec::new();
    let mut embed: Vec<String> = Vec::new();
    let mut i: usize = 0;
    while i < n
        invariant
            i <= n,
            n <= chunks.len(),
            n == kept_chunks(chunks@.len(), limit as nat),
            ctx@ == compact(summary@),
            all == chunk_views(chunks@),
            want_stored == stored_texts(all, limit as nat, doc_type@, summary@),
            want_embed == embed_texts(want_stored, file_name@, summary@),
            views(stored@) == want_stored.take(i as int),
            views(embed@) == want_embed.take(i as int),
        decreases n - i,
    {
        let ghost before_s = views(stored@);
        let ghost before_e = views(embed@);
        let s = if i == 0 {
            let mut s = cat5("[", doc_type, "] ", summary.as_str(), "\n\n");
            s.append(chunks[i].text.as_str());
            s
        } else {
            chunks[i].text.clone()
        };
        assert(s@ == want_stored[i as int]);
        let e = if i == 0 {
            s.clone()
        } else {
            cat5(file_name, " · ", ctx.as_str(), "\n\n", s.as_str())
        };
        assert(e@ == want_embed[i as int]);
        stored.push(s);
        embed.push(e);
        assert(views(stored@) =~= before_s.push(want_stored[i as int]));
        assert(views(embed@) =~= before_e.push(want_embed[i as int]));
        i = i + 1;
        assert(views(stored@) =~= want_stored.take(i as int));
        assert(views(embed@) =~= want_embed.take(i as int));
    }
    assert(want_stored.take(i as int) =~= want_stored);
    assert(want_embed.take(i as int) =~= want_embed);
    let mut extract = str_first_chars(str_trim(text).as_str(), 16000);
    if n < chunks.len() {
        extract.append("\n\n[Indexation partielle : les ");
        extract.append(decimal_text(limit as u64).as_str());
        extract.append(
            " premiers extraits seulement — document trop volumineux. Ajustez « chunks max par fichier » si besoin.]",
        );
    }
    assert(extract@ =~= extract_text_of(text@, chunks@.len(), limit as nat));
    let mut log = cat5(
        "✅ indexé (",
        decimal_text(bytes_of(text)).as_str(),
        " car., ",
        doc_type,
        ") : ",
    );
    log.append(path);
    assert(stored@.len() == views(stored@).len());
    assert(embed@.len() == views(embed@).len());
    let r = Pending {
        path: path.to_owned(),
        mtime,
        hash: hash.to_owned(),
        kind: doc_type.to_owned(),
        summary,
        extract: Some(extract),
        stored,
        embed,
        log,
    };
    assert(r.view() =~= document_view(
        path@,
        file_name@,
        mtime as int,
        text@,
        hash@,
        doc_type@,
        all,
        limit as nat,
        r.summary@,
    ));
    r
}

/// A document that was cut short says so in what is kept of its text.
pub proof fn law_a_cut_is_told(text: Seq<char>, chunks: nat, limit: nat)
    requires
        limit > 0,
        chunks > limit,
    ensures
        extract_text_of(text, chunks, limit).len() > first_chars(trim(text), 16000).len(),
        kept_chunks(chunks, limit) == limit,
{
    reveal_strlit("\n\n[Indexation partielle : les ");
}

// ---------------------------------------------------------------------------
// Files known by their context
// ---------------------------------------------------------------------------

/// The neighbours of a file that are shown: no hidden ones, not the file itself, 15 at most.
pub open spec fn shown_siblings(names: Seq<Seq<char>>, name: Seq<char>) -> Seq<Seq<char>>
    decreases names.len(),
{
    if names.len() == 0 {
        Seq::empty()
    } else {
        let so_far = shown_siblings(names.drop_last(), name);
        let n = names.last();
        if so_far.len() >= 15 || n == name || starts_with(n, "."@) {
            so_far
        } else {
            so_far.push(n)
        }
    }
}

/// What is known of a file without its content.
pub open spec fn descriptor(
    name: Seq<char>,
    parent: Seq<char>,
    extension: Seq<char>,
    kind: Seq<char>,
    neighbours: Seq<Seq<char>>,
) -> Seq<char> {
    let facts = "Fichier: "@ + name + ". Dossier: "@ + parent + ". Type: "@ + kind + ". Extension: "@
        + extension + "."@;
    let shown = shown_siblings(neighbours, name);
    if shown.len() == 0 {
        facts
    } else {
        facts + " Fichiers voisins: "@ + join(shown, ", "@) + "."@
    }
}

pub fn context_descriptor(
    name: &str,
    parent: &str,
    extension: &str,
    kind: &str,
    neighbours: &Vec<String>,
) -> (r: String)
    ensures
        r@ == descriptor(name@, parent@, extension@, kind@, views(neighbours@)),
{
    let ghost all = views(neighbours@);
    let mut shown: Vec<String> = Vec::new();
    let mut i: usize = 0;
    assert(views(shown@) =~= Seq::<Seq<char>>::empty());
    assert(all.take(0) =~= Seq::<Seq<char>>::empty());
    while i < neighbours.len()
        invariant
            i <= neighbours.len(),
            all == views(neighbours@),
            views(shown@) == shown_siblings(all.take(i as int), name@),
        decreases neighbours.len() - i,
    {
        assert(all.take(i + 1).drop_last() =~= all.take(i as int));
        assert(all.take(i + 1).last() == neighbours@[i as int]@);
        assert(views(shown@).len() == shown@.len());
        let n = &neighbours[i];
        if shown.len() < 15 && !str_eq(n.as_str(), name) && !str_starts_with(n.as_str(), ".") {
            let ghost before = views(shown@);
            shown.push(n.clone());
            assert(views(shown@) =~= before.push(n@));
        }
        i = i + 1;
    }
    assert(all.take(i as int) =~= all);
    assert(views(shown@).len() == shown@.len());
    let mut s = cat4("Fichier: ", name, ". Dossier: ", parent);
    s.append(". Type: ");
    s.append(kind);
    s.append(". Extension: ");
    s.append(extension);
    s.append(".");
    if shown.len() > 0 {
        s.append(" Fichiers voisins: ");
        s.append(joined(&shown, ", ").as_str());
        s.append(".");
    }
    s
}

/// A file that cannot be read is guessed at where the settings and a model allow it.
pub fn asks_for_guess(cfg: &AppConfig) -> (r: bool)
    ensures
        r == (cfg.indexing.qualify_context && cfg.reasoning.enabled),
{
    cfg.indexing.qualify_context && cfg.reasoning.enabled
}

/// The question what a file may be that cannot be read. The size is told where it is known.
pub fn context_question(system: &str, described: &str, size: Option<u64>) -> (r: Vec<ChatMessage>)
    ensures
        asks(
            r@,
            system@,
            described@ + (match size {
                Some(n) => " Taille: "@ + decimal(n as nat) + " octets."@,
                None => Seq::empty(),
            }),
        ),
{
    let mut user = described.to_owned();
    match size {
        Some(n) => {
            user.append(cat3(" Taille: ", decimal_text(n).as_str(), " octets.").as_str());
        },
        None => {
            assert(user@ =~= described@ + Seq::<char>::empty());
        },
    }
    ask(system, user)
}

pub fn read_guess(response: &str) -> (r: Option<String>)
    ensures
        opt(r) == answer_text(response@, 600),
{
    read_answer(response, 600)
}

pub open spec fn text_digest(s: Seq<char>) -> Seq<char> {
    hex(sha256(vstd::utf8::encode_utf8(s)))
}

/// A file that is known by its context. `guess` is what a model takes it for.
pub open spec fn context_view(
    path: Seq<char>,
    mtime: int,
    kind: Seq<char>,
    described: Seq<char>,
    guess: Option<Seq<char>>,
) -> PendingView {
    let text = match guess {
        Some(g) => g + "\n"@ + described,
        None => described,
    };
    PendingView {
        path,
        mtime,
        hash: "ctx:"@ + text_digest(path + ":"@ + signed_decimal(mtime)),
        kind,
        summary: match guess {
            Some(g) => g,
            None => described,
        },
        extract: match guess {
            Some(_) => Some(described),
            None => None,
        },
        stored: seq![text],
        embed: seq![text],
        log: "🧩 indexé par contexte ("@ + kind + ") : "@ + path,
    }
}

pub fn index_context_only(
    path: &str,
    mtime: i64,
    kind: &str,
    described: &str,
    guess: &Option<String>,
) -> (r: Pending)
    ensures
        r.wf(),
        r.view() == context_view(path@, mtime as int, kind@, described@, opt(*guess)),
{
    let hash = cat2(
        "ctx:",
        text_fingerprint(cat3(path, ":", signed_text(mtime).as_str()).as_str()).as_str(),
    );
    let (summary, extract, text) = match guess {
        Some(g) => (g.clone(), Some(described.to_owned()), cat3(g.as_str(), "\n", described)),
        None => (described.to_owned(), None, described.to_owned()),
    };
    let r = Pending {
        path: path.to_owned(),
        mtime,
        hash,
        kind: kind.to_owned(),
        summary,
        extract,
        stored: one_text(&text),
        embed: one_text(&text),
        log: cat4("🧩 indexé par contexte (", kind, ") : ", path),
    };
    assert(r.stored@.len() == views(r.stored@).len());
    assert(r.embed@.len() == views(r.embed@).len());
    assert(r.view() =~= context_view(path@, mtime as int, kind@, described@, opt(*guess)));
    r
}

// ---------------------------------------------------------------------------
// Images
// ---------------------------------------------------------------------------

/// An image that was described.
pub open spec fn image_view(
    path: Seq<char>,
    mtime: int,
    hash: Seq<char>,
    caption: Seq<char>,
    summary: Seq<char>,
    described: Seq<char>,
) -> PendingView {
    let text = summary + "\n\n"@ + trim(caption) + " | "@ + described;
    PendingView {
        path,
        mtime,
        hash,
        kind: "image"@,
        summary,
        extract: Some(trim(caption)),
        stored: seq![text],
        embed: seq![text],
        log: "🖼️ image décrite et indexée : "@ + path,
    }
}

pub fn store_image(
    path: &str,
    mtime: i64,
    hash: &str,
    caption: &str,
    summary: String,
    described: &str,
) -> (r: Pending)
    ensures
        r.wf(),
        r.view() == image_view(path@, mtime as int, hash@, caption@, summary@, described@),
{
    let shown = str_trim(caption);
    let text = cat5(summary.as_str(), "\n\n", shown.as_str(), " | ", described);
    let r = Pending {
        path: path.to_owned(),
        mtime,
        hash: hash.to_owned(),
        kind: "image".to_owned(),
        summary,
        extract: Some(shown),
        stored: one_text(&text),
        embed: one_text(&text),
        log: cat2("🖼️ image décrite et indexée : ", path),
    };
    assert(r.stored@.len() == views(r.stored@).len());
    assert(r.embed@.len() == views(r.embed@).len());
    assert(r.view() =~= image_view(
        path@,
        mtime as int,
        hash@,
        caption@,
        r.summary@,
        described@,
    ));
    r
}

// ---------------------------------------------------------------------------
// Folders that are one block
// ---------------------------------------------------------------------------

/// An extension and how many files have it.
pub struct ExtCount {
    pub ext: Seq<char>,
    pub count: int,
}

pub open spec fn ext_place(counts: Seq<ExtCount>, ext: Seq<char>) -> Option<int>
    decreases counts.len(),
{
    if counts.len() == 0 {
        None
    } else if counts.last().ext == ext {
        Some(counts.len() - 1)
    } else {
        ext_place(counts.drop_last(), ext)
    }
}

/// The extensions of some files with their counts, in the order in which they first occur.
pub open spec fn ext_counts(entries: Seq<EntryInfo>) -> Seq<ExtCount>
    decreases entries.len(),
{
    if entries.len() == 0 {
        Seq::empty()
    } else {
        let so_far = ext_counts(entries.drop_last());
        match entries.last().ext {
            Some(e) => match ext_place(so_far, e@) {
                Some(k) => so_far.update(k, ExtCount { ext: e@, count: so_far[k].count + 1 }),
                None => so_far.push(ExtCount { ext: e@, count: 1 }),
            },
            None => so_far,
        }
    }
}

pub open spec fn more_often(a: ExtCount, b: ExtCount) -> bool {
    a.count > b.count
}

/// The extensions that occur most often, five at most; of those that occur as often, the one
/// that was met first comes first.
pub open spec fn top_exts(entries: Seq<EntryInfo>) -> Seq<Seq<char>> {
    let sorted = sorted_by(ext_counts(entries), |a: ExtCount, b: ExtCount| more_often(a, b));
    Seq::new(
        if sorted.len() < 5 {
            sorted.len()
        } else {
            5
        },
        |i: int| sorted[i].ext,
    )
}

pub open spec fn count_views(v: Seq<(String, usize)>) -> Seq<ExtCount> {
    Seq::new(v.len(), |i: int| ExtCount { ext: v[i].0@, count: v[i].1 as int })
}

fn find_ext(counts: &Vec<(String, usize)>, ext: &str) -> (r: Option<usize>)
    ensures
        match r {
            Some(k) => k < counts@.len() && ext_place(count_views(counts@), ext@) == Some(k as int),
            None => ext_place(count_views(counts@), ext@) is None,
        },
{
    let ghost all = count_views(counts@);
    let mut i: usize = counts.len();
    assert(all.take(i as int) =~= all);
    while i > 0
        invariant
            i <= counts.len(),
            all == count_views(counts@),
            ext_place(all, ext@) == ext_place(all.take(i as int), ext@),
        decreases i,
    {
        assert(all.take(i as int).drop_last() =~= all.take(i - 1));
        assert(all.take(i as int).last() == all[i - 1]);
        if str_eq(counts[i - 1].0.as_str(), ext) {
            return Some(i - 1);
        }
        i = i - 1;
    }
    None
}

fn count_exts(entries: &Vec<EntryInfo>) -> (r: Vec<(String, usize)>)
    ensures
        count_views(r@) == ext_counts(entries@),
{
    let mut out: Vec<(String, usize)> = Vec::new();
    let mut i: usize = 0;
    assert(count_views(out@) =~= Seq::<ExtCount>::empty());
    assert(entries@.take(0) =~= Seq::<EntryInfo>::empty());
    while i < entries.len()
        invariant
            i <= entries.len(),
            forall|k: int| 0 <= k < out@.len() ==> (#[trigger] out@[k]).1 <= i,
            count_views(out@) == ext_counts(entries@.take(i as int)),
        decreases entries.len() - i,
    {
        assert(entries@.take(i + 1).drop_last() =~= entries@.take(i as int));
        assert(entries@.take(i + 1).last() == entries@[i as int]);
        if let Some(e) = &entries[i].ext {
            let ghost before = count_views(out@);
            match find_ext(&out, e.as_str()) {
                Some(k) => {
                    assert(out@[k as int].1 <= i);
                    let n: usize = out[k].1 + 1;
                    proof {
                        lemma_ext_place(before, e@);
                    }
                    out.set(k, (e.clone(), n));
                    assert(count_views(out@) =~= before.update(
                        k as int,
                        ExtCount { ext: e@, count: n as int },
                    ));
                },
                None => {
                    out.push((e.clone(), 1));
                    assert(count_views(out@) =~= before.push(ExtCount { ext: e@, count: 1 }));
                },
            }
        }
        i = i + 1;
    }
    assert(entries@.take(i as int) =~= entries@);
    out
}

proof fn lemma_ext_place(counts: Seq<ExtCount>, ext: Seq<char>)
    ensures
        ext_place(counts, ext) matches Some(k) ==> 0 <= k < counts.len() && counts[k].ext == ext,
    decreases counts.len(),
{
    if counts.len() > 0 {
        lemma_ext_place(counts.drop_last(), ext);
    }
}

struct CountedExts<'a> {
    counts: &'a Vec<(String, usize)>,
}

impl<'a> Ranked for CountedExts<'a> {
    closed spec fn count(&self) -> nat {
        self.counts@.len()
    }

    closed spec fn comes_before(&self, a: int, b: int) -> bool {
        more_often(count_views(self.counts@)[a], count_views(self.counts@)[b])
    }

    fn is_before(&self, a: usize, b: usize) -> (r: bool) {
        self.counts[a].1 > self.counts[b].1
    }
}

fn top_exts_of(entries: &Vec<EntryInfo>) -> (r: Vec<String>)
    ensures
        views(r@) == top_exts(entries@),
{
    let counts = count_exts(entries);
    let ghost all = count_views(counts@);
    let n: usize = counts.len();
    let ghost often = |a: ExtCount, b: ExtCount| more_often(a, b);
    let list = CountedExts { counts: &counts };
    let order = sort_places(&list, n);
    proof {
        lemma_sorted_items(&list, all, often);
    }
    let ghost sorted = sorted_by(all, often);
    assert(sorted =~= picked(all, as_ints(order@)));
    let mut out: Vec<String> = Vec::new();
    let mut i: usize = 0;
    while i < n && i < 5
        invariant
            i <= n,
            i <= 5,
            n == counts@.len(),
            order@.len() == n,
            all == count_views(counts@),
            all_below(as_ints(order@), n as nat),
            sorted == picked(all, as_ints(order@)),
            views(out@) == Seq::new(i as nat, |k: int| sorted[k].ext),
        decreases n - i,
    {
        assert(0 <= as_ints(order@)[i as int] < n);
        let ghost before = views(out@);
        out.push(counts[order[i]].0.clone());
        assert(views(out@) =~= before.push(sorted[i as int].ext));
        i = i + 1;
        assert(views(out@) =~= Seq::new(i as nat, |k: int| sorted[k].ext));
    }
    assert(views(out@) =~= top_exts(entries@));
    out
}

/// The names of the first 40 entries.
pub open spec fn sample_names(entries: Seq<EntryInfo>) -> Seq<Seq<char>> {
    Seq::new(
        if entries.len() < 40 {
            entries.len()
        } else {
            40
        },
        |i: int| entries[i].name@,
    )
}

fn sample_of(entries: &Vec<EntryInfo>) -> (r: Vec<String>)
    ensures
        views(r@) == sample_names(entries@),
{
    let mut out: Vec<String> = Vec::new();
    let mut i: usize = 0;
    while i < entries.len() && i < 40
        invariant
            i <= entries.len(),
            i <= 40,
            views(out@) == Seq::new(i as nat, |k: int| entries@[k].name@),
        decreases entries.len() - i,
    {
        let ghost before = views(out@);
        out.push(entries[i].name.clone());
        assert(views(out@) =~= before.push(entries@[i as int].name@));
        i = i + 1;
        assert(views(out@) =~= Seq::new(i as nat, |k: int| entries@[k].name@));
    }
    assert(views(out@) =~= sample_names(entries@));
    out
}

/// What is known of a folder that is one block.
#[derive(Debug)]
pub struct BlockFacts {
    pub count: usize,
    pub top_exts: String,
    pub sample: String,
    /// All of it in one text.
    pub facts: String,
}

pub open spec fn block_text(
    name: Seq<char>,
    parent: Seq<char>,
    count: nat,
    exts: Seq<char>,
    sample: Seq<char>,
) -> Seq<char> {
    "Dossier (bloc): "@ + name + ". Emplacement: "@ + parent + ". "@ + decimal(count)
        + " éléments. Types: "@ + exts + ". Exemples: "@ + sample + "."@
}

pub fn block_facts(name: &str, parent: &str, entries: &Vec<EntryInfo>) -> (r: BlockFacts)
    ensures
        r.count == entries@.len(),
        r.top_exts@ == join(top_exts(entries@), ", "@),
        r.sample@ == join(sample_names(entries@), ", "@),
        r.facts@ == block_text(name@, parent@, entries@.len(), r.top_exts@, r.sample@),
{
    let top_exts = joined(&top_exts_of(entries), ", ");
    let sample = joined(&sample_of(entries), ", ");
    let count: usize = entries.len();
    let mut facts = cat5("Dossier (bloc): ", name, ". Emplacement: ", parent, ". ");
    facts.append(decimal_text(count as u64).as_str());
    facts.append(" éléments. Types: ");
    facts.append(top_exts.as_str());
    facts.append(". Exemples: ");
    facts.append(sample.as_str());
    facts.append(".");
    BlockFacts { count, top_exts, sample, facts }
}

/// The question what a folder is.
pub fn folder_question(system: &str, name: &str, parent: &str, top_exts: &str, sample: &str) -> (r:
    Vec<ChatMessage>)
    ensures
        asks(
            r@,
            system@,
            "Nom: "@ + name@ + "\nEmplacement: "@ + parent@ + "\nTypes de fichiers: "@ + top_exts@
                + "\nExemples: "@ + sample@,
        ),
{
    let mut user = cat4("Nom: ", name, "\nEmplacement: ", parent);
    user.append("\nTypes de fichiers: ");
    user.append(top_exts);
    user.append("\nExemples: ");
    user.append(sample);
    ask(system, user)
}

/// What a model says of a folder; `None` where it says nothing.
pub fn read_folder_description(response: &str) -> (r: Option<String>)
    ensures
        opt(r) == (if is_blank(response@) {
            None
        } else {
            Some(trim(response@))
        }),
{
    if str_is_blank(response) {
        None
    } else {
        Some(str_trim(response))
    }
}

/// A folder that is indexed as a whole.
pub open spec fn block_view(
    path: Seq<char>,
    mtime: int,
    count: nat,
    facts: Seq<char>,
    description: Option<Seq<char>>,
) -> PendingView {
    let text = match description {
        Some(d) => d + "\n"@ + facts,
        None => facts,
    };
    PendingView {
        path,
        mtime,
        hash: "block:"@ + text_digest(
            path + ":"@ + signed_decimal(mtime) + ":"@ + decimal(count),
        ),
        kind: "folder-block"@,
        summary: match description {
            Some(d) => d,
            None => facts,
        },
        extract: match description {
            Some(_) => Some(facts),
            None => None,
        },
        stored: seq![text],
        embed: seq![text],
        log: "📦 dossier indexé en bloc : "@ + path,
    }
}

pub fn index_folder_block(
    path: &str,
    mtime: i64,
    block: &BlockFacts,
    description: &Option<String>,
) -> (r: Pending)
    ensures
        r.wf(),
        r.view() == block_view(
            path@,
            mtime as int,
            block.count as nat,
            block.facts@,
            opt(*description),
        ),
{
    let key = cat5(
        path,
        ":",
        signed_text(mtime).as_str(),
        ":",
        decimal_text(block.count as u64).as_str(),
    );
    let (summary, extract, text) = match description {
        Some(d) => (
            d.clone(),
            Some(block.facts.clone()),
            cat3(d.as_str(), "\n", block.facts.as_str()),
        ),
        None => (block.facts.clone(), None, block.facts.clone()),
    };
    let r = Pending {
        path: path.to_owned(),
        mtime,
        hash: cat2("block:", text_fingerprint(key.as_str()).as_str()),
        kind: "folder-block".to_owned(),
        summary,
        extract,
        stored: one_text(&text),
        embed: one_text(&text),
        log: cat2("📦 dossier indexé en bloc : ", path),
    };
    assert(r.stored@.len() == views(r.stored@).len());
    assert(r.embed@.len() == views(r.embed@).len());
    assert(r.view() =~= block_view(
        path@,
        mtime as int,
        block.count as nat,
        block.facts@,
        opt(*description),
    ));
    r
}

// ---------------------------------------------------------------------------
// What can be found again
// ---------------------------------------------------------------------------

/// Every chunk of a document that is kept can be found: it is stored and turned into a vector,
/// each time whole, at its own place. The first carries the type and the meaning of the
/// document as well, the others its name. All chunks are kept unless there are more than the
/// limit, and of those the first.
pub proof fn law_every_kept_chunk_is_found(
    path: Seq<char>,
    file_name: Seq<char>,
    mtime: int,
    text: Seq<char>,
    hash: Seq<char>,
    doc_type: Seq<char>,
    chunks: Seq<Seq<char>>,
    limit: nat,
    summary: Seq<char>,
    i: int,
)
    requires
        0 <= i < chunks.len(),
        limit == 0 || i < limit,
    ensures
        ({
            let d = document_view(
                path,
                file_name,
                mtime,
                text,
                hash,
                doc_type,
                chunks,
                limit,
                summary,
            );
            &&& i < d.stored.len() == d.embed.len() <= chunks.len()
            &&& limit == 0 || chunks.len() <= limit ==> d.stored.len() == chunks.len()
            &&& 0 < limit < chunks.len() ==> d.stored.len() == limit
            &&& holds(d.stored[i], chunks[i]) && holds(d.embed[i], chunks[i])
            &&& i > 0 ==> d.stored[i] == chunks[i] && holds(d.embed[i], file_name)
            &&& holds(d.stored[0], doc_type) && holds(d.stored[0], summary)
            &&& d.embed[0] == d.stored[0]
            &&& d.path == path && d.mtime == mtime && d.hash == hash && d.kind == doc_type
                && d.summary == summary
        }),
{
    lemma_first_stored(doc_type, summary, chunks[0]);
    if i > 0 {
        lemma_later_embedded(file_name, summary, chunks[i]);
    }
}

proof fn lemma_first_stored(doc_type: Seq<char>, summary: Seq<char>, chunk: Seq<char>)
    ensures
        holds(stored_text(0, chunk, doc_type, summary), chunk),
        holds(stored_text(0, chunk, doc_type, summary), doc_type),
        holds(stored_text(0, chunk, doc_type, summary), summary),
{
    let t = stored_text(0, chunk, doc_type, summary);
    let none = Seq::<char>::empty();
    let front = "["@ + doc_type + "] "@ + summary + "\n\n"@;
    assert(holds(t, chunk)) by {
        assert(t =~= front + chunk + none);
        lemma_holds(front, chunk, none);
    }
    assert(holds(t, doc_type)) by {
        let rest = "] "@ + summary + "\n\n"@ + chunk;
        assert(t =~= "["@ + doc_type + rest);
        lemma_holds("["@, doc_type, rest);
    }
    assert(holds(t, summary)) by {
        let before = "["@ + doc_type + "] "@;
        let behind = "\n\n"@ + chunk;
        assert(t =~= before + summary + behind);
        lemma_holds(before, summary, behind);
    }
}

proof fn lemma_later_embedded(file_name: Seq<char>, summary: Seq<char>, chunk: Seq<char>)
    ensures
        holds(chunk, chunk),
        holds(embed_text(1, chunk, file_name, summary), chunk),
        holds(embed_text(1, chunk, file_name, summary), file_name),
{
    let none = Seq::<char>::empty();
    let t = embed_text(1, chunk, file_name, summary);
    assert(holds(chunk, chunk)) by {
        assert(chunk =~= none + chunk + none);
        lemma_holds(none, chunk, none);
    }
    assert(holds(t, chunk)) by {
        let context = file_name + " · "@ + compact(summary) + "\n\n"@;
        assert(t =~= context + chunk + none);
        lemma_holds(context, chunk, none);
    }
    assert(holds(t, file_name)) by {
        let tail = " · "@ + compact(summary) + "\n\n"@ + chunk;
        assert(t =~= none + file_name + tail);
        lemma_holds(none, file_name, tail);
    }
}

/// The text of a document is kept from its start, as far as 16000 characters go.
pub proof fn law_the_start_of_the_text_is_kept(text: Seq<char>, chunks: nat, limit: nat)
    ensures
        trim(text).len() <= 16000 && (limit == 0 || chunks <= limit) ==> extract_text_of(
            text,
            chunks,
            limit,
        ) == trim(text),
        trim(text).len() <= 16000 ==> extract_text_of(text, chunks, limit).take(
            trim(text).len() as int,
        ) == trim(text),
        trim(text).len() > 16000 ==> extract_text_of(text, chunks, limit).take(16000) == trim(
            text,
        ).take(16000),
{
    let t = trim(text);
    let e = extract_text_of(text, chunks, limit);
    if t.len() <= 16000 {
        assert(first_chars(t, 16000) =~= t);
        assert(e.take(t.len() as int) =~= t);
        if limit == 0 || chunks <= limit {
            assert(e =~= t);
        }
    } else {
        assert(first_chars(t, 16000) =~= t.take(16000));
        assert(e.take(16000) =~= t.take(16000));
    }
}

/// A file that is known by its context is found by all that is known of it, and by what a model
/// takes it for.
pub proof fn law_a_context_is_found(
    path: Seq<char>,
    mtime: int,
    kind: Seq<char>,
    described: Seq<char>,
    guess: Option<Seq<char>>,
)
    ensures
        ({
            let d = context_view(path, mtime, kind, described, guess);
            &&& d.stored.len() == 1 && d.embed.len() == 1 && d.stored[0] == d.embed[0]
            &&& holds(d.stored[0], described)
            &&& guess matches Some(g) ==> holds(d.stored[0], g) && d.summary == g
            &&& guess is None ==> d.summary == described
            &&& d.path == path && d.mtime == mtime && d.kind == kind
            &&& starts_with(d.hash, "ctx:"@)
        }),
{
    let d = context_view(path, mtime, kind, described, guess);
    let none = Seq::<char>::empty();
    match guess {
        Some(g) => {
            assert(d.stored[0] =~= g + "\n"@ + described + none);
            lemma_holds(g + "\n"@, described, none);
            assert(d.stored[0] =~= none + g + ("\n"@ + described));
            lemma_holds(none, g, "\n"@ + described);
        },
        None => {
            assert(described =~= none + described + none);
            lemma_holds(none, described, none);
        },
    }
    assert(d.hash.subrange(0, "ctx:"@.len() as int) =~= "ctx:"@);
}

/// An image is found by its caption, its meaning and what is known of its file.
pub proof fn law_an_image_is_found(
    path: Seq<char>,
    mtime: int,
    hash: Seq<char>,
    caption: Seq<char>,
    summary: Seq<char>,
    described: Seq<char>,
)
    ensures
        ({
            let d = image_view(path, mtime, hash, caption, summary, described);
            &&& d.stored.len() == 1 && d.embed.len() == 1 && d.stored[0] == d.embed[0]
            &&& holds(d.stored[0], trim(caption)) && holds(d.stored[0], summary) && holds(
                d.stored[0],
                described,
            )
            &&& d.path == path && d.mtime == mtime && d.hash == hash && d.summary == summary
            &&& d.extract == Some(trim(caption))
        }),
{
    let d = image_view(path, mtime, hash, caption, summary, described);
    let none = Seq::<char>::empty();
    let c = trim(caption);
    assert(d.stored[0] =~= summary + "\n\n"@ + c + (" | "@ + described));
    lemma_holds(summary + "\n\n"@, c, " | "@ + described);
    assert(d.stored[0] =~= none + summary + ("\n\n"@ + c + " | "@ + described));
    lemma_holds(none, summary, "\n\n"@ + c + " | "@ + described);
    assert(d.stored[0] =~= summary + "\n\n"@ + c + " | "@ + described + none);
    lemma_holds(summary + "\n\n"@ + c + " | "@, described, none);
}

/// A folder that is one block is found by all that is known of it, and by its description.
pub proof fn law_a_block_is_found(
    path: Seq<char>,
    mtime: int,
    count: nat,
    facts: Seq<char>,
    description: Option<Seq<char>>,
)
    ensures
        ({
            let d = block_view(path, mtime, count, facts, description);
            &&& d.stored.len() == 1 && d.embed.len() == 1 && d.stored[0] == d.embed[0]
            &&& holds(d.stored[0], facts)
            &&& description matches Some(t) ==> holds(d.stored[0], t) && d.summary == t
            &&& description is None ==> d.summary == facts
            &&& d.path == path && d.mtime == mtime
            &&& starts_with(d.hash, "block:"@)
        }),
{
    let d = block_view(path, mtime, count, facts, description);
    let none = Seq::<char>::empty();
    match description {
        Some(t) => {
            assert(d.stored[0] =~= t + "\n"@ + facts + none);
            lemma_holds(t + "\n"@, facts, none);
            assert(d.stored[0] =~= none + t + ("\n"@ + facts));
            lemma_holds(none, t, "\n"@ + facts);
        },
        None => {
            assert(facts =~= none + facts + none);
            lemma_holds(none, facts, none);
        },
    }
    assert(d.hash.subrange(0, "block:"@.len() as int) =~= "block:"@);
}

/// The facts of a block name its folder, where it lies, and its sample.
pub proof fn law_a_block_is_named(
    name: Seq<char>,
    parent: Seq<char>,
    count: nat,
    exts: Seq<char>,
    sample: Seq<char>,
)
    ensures
        holds(block_text(name, parent, count, exts, sample), name),
        holds(block_text(name, parent, count, exts, sample), parent),
        holds(block_text(name, parent, count, exts, sample), exts),
        holds(block_text(name, parent, count, exts, sample), sample),
{
    let t = block_text(name, parent, count, exts, sample);
    let d = decimal(count);
    let a = "Dossier (bloc): "@;
    let b = ". Emplacement: "@;
    let e = " éléments. Types: "@;
    let f = ". Exemples: "@;
    assert(t =~= a + name + (b + parent + ". "@ + d + e + exts + f + sample + "."@));
    lemma_holds(a, name, b + parent + ". "@ + d + e + exts + f + sample + "."@);
    assert(t =~= a + name + b + parent + (". "@ + d + e + exts + f + sample + "."@));
    lemma_holds(a + name + b, parent, ". "@ + d + e + exts + f + sample + "."@);
    assert(t =~= a + name + b + parent + ". "@ + d + e + exts + (f + sample + "."@));
    lemma_holds(a + name + b + parent + ". "@ + d + e, exts, f + sample + "."@);
    lemma_holds(a + name + b + parent + ". "@ + d + e + exts + f, sample, "."@);
}

/// A neighbour that is shown is no hidden one and not the file itself.
pub open spec fn may_be_shown(n: Seq<char>, name: Seq<char>) -> bool {
    n != name && !(n.len() > 0 && n[0] == '.')
}

/// The neighbours of a file that are shown: 15 at most, no hidden ones and not the file
/// itself, and where fewer than 15 are shown, all of the others.
pub proof fn law_the_neighbours_are_shown(names: Seq<Seq<char>>, name: Seq<char>)
    ensures
        shown_siblings(names, name).len() <= 15,
        forall|i: int|
            0 <= i < shown_siblings(names, name).len() ==> may_be_shown(
                #[trigger] shown_siblings(names, name)[i],
                name,
            ) && names.contains(shown_siblings(names, name)[i]),
        shown_siblings(names, name).len() < 15 ==> forall|i: int|
            0 <= i < names.len() && may_be_shown(#[trigger] names[i], name) ==> shown_siblings(
                names,
                name,
            ).contains(names[i]),
    decreases names.len(),
{
    if names.len() > 0 {
        reveal_strlit(".");
        let less = names.drop_last();
        let n = names.last();
        law_the_neighbours_are_shown(less, name);
        let before = shown_siblings(less, name);
        let after = shown_siblings(names, name);
        assert(names[names.len() - 1] == n);
        assert(starts_with(n, "."@) == (n.len() > 0 && n[0] == '.')) by {
            if n.len() > 0 {
                assert(n.subrange(0, 1)[0] == n[0]);
                if n[0] == '.' {
                    assert(n.subrange(0, 1) =~= "."@);
                }
            }
        }
        assert forall|i: int| 0 <= i < after.len() implies may_be_shown(#[trigger] after[i], name)
            && names.contains(after[i]) by {
            if i < before.len() {
                assert(after[i] == before[i]);
                let j = choose|j: int| 0 <= j < less.len() && less[j] == before[i];
                assert(names[j] == after[i]);
            }
        }
        if after.len() < 15 {
            assert forall|i: int| 0 <= i < names.len() && may_be_shown(#[trigger] names[i], name) implies after.contains(
                names[i],
            ) by {
                if i < less.len() {
                    assert(less[i] == names[i]);
                    let j = choose|j: int| 0 <= j < before.len() && before[j] == less[i];
                    assert(after[j] == names[i]);
                } else {
                    assert(after[after.len() - 1] == n);
                }
            }
        }
    }
}

/// The counts of the extensions: each extension once, with as many files as have it.
pub proof fn law_extensions_are_counted(entries: Seq<EntryInfo>, k: int)
    requires
        0 <= k < ext_counts(entries).len(),
    ensures
        ext_counts(entries)[k].count == entries.filter(
            |e: EntryInfo| opt(e.ext) == Some(ext_counts(entries)[k].ext),
        ).len(),
        ext_counts(entries)[k].count > 0,
        forall|j: int|
            0 <= j < ext_counts(entries).len() && j != k ==> (
            #[trigger] ext_counts(entries)[j]).ext != ext_counts(entries)[k].ext,
{
    let ext = ext_counts(entries)[k].ext;
    lemma_ext_counts(entries, ext);
    let f = |e: EntryInfo| opt(e.ext) == Some(ext_counts(entries)[k].ext);
    let g = |e: EntryInfo| opt(e.ext) == Some(ext);
    assert(f =~= g);
}

proof fn lemma_ext_counts(entries: Seq<EntryInfo>, ext: Seq<char>)
    ensures
        forall|k: int|
            0 <= k < ext_counts(entries).len() && (#[trigger] ext_counts(entries)[k]).ext == ext
                ==> ext_counts(entries)[k].count == entries.filter(
                |e: EntryInfo| opt(e.ext) == Some(ext),
            ).len() && ext_counts(entries)[k].count > 0,
        forall|j: int, k: int|
            0 <= j < k < ext_counts(entries).len() ==> (#[trigger] ext_counts(entries)[j]).ext != (
            #[trigger] ext_counts(entries)[k]).ext,
        (forall|k: int|
            0 <= k < ext_counts(entries).len() ==> (#[trigger] ext_counts(entries)[k]).ext != ext)
            ==> entries.filter(|e: EntryInfo| opt(e.ext) == Some(ext)).len() == 0,
    decreases entries.len(),
{
    reveal(Seq::filter);
    if entries.len() > 0 {
        let less = entries.drop_last();
        let before = ext_counts(less);
        let after = ext_counts(entries);
        lemma_ext_counts(less, ext);
        if let Some(e) = entries.last().ext {
            lemma_ext_place(before, e@);
            lemma_no_ext_place(before, e@);
            if ext_place(before, e@) is None {
                assert(after[before.len() as int].ext == e@);
                assert forall|k: int| 0 <= k < before.len() implies after[k] == #[trigger] before[k] by {}
            }
            assert forall|j: int, k: int| 0 <= j < k < after.len() implies (#[trigger] after[j]).ext
                != (#[trigger] after[k]).ext by {
                assert(after[j].ext == before[j].ext);
                if k < before.len() {
                    assert(after[k].ext == before[k].ext);
                }
            }
            if forall|k: int| 0 <= k < after.len() ==> (#[trigger] after[k]).ext != ext {
                assert forall|k: int| 0 <= k < before.len() implies (#[trigger] before[k]).ext != ext by {
                    assert(after[k].ext == before[k].ext);
                }
                match ext_place(before, e@) {
                    Some(k) => {
                        assert(after[k].ext == e@);
                    },
                    None => {
                        assert(after[before.len() as int].ext == e@);
                    },
                }
            }
            assert forall|k: int| 0 <= k < after.len() && (#[trigger] after[k]).ext == ext implies after[k].count
                == entries.filter(|x: EntryInfo| opt(x.ext) == Some(ext)).len() && after[k].count
                > 0 by {
                if k < before.len() {
                    assert(before[k].ext == ext);
                    if e@ == ext {
                        assert(ext_place(before, e@) is Some);
                        let p = ext_place(before, e@)->Some_0;
                        assert(before[p].ext == before[k].ext);
                        assert(p == k);
                    }
                }
            }
        }
    }
}

proof fn lemma_no_ext_place(counts: Seq<ExtCount>, ext: Seq<char>)
    ensures
        ext_place(counts, ext) is None ==> forall|k: int|
            0 <= k < counts.len() ==> (#[trigger] counts[k]).ext != ext,
    decreases counts.len(),
{
    if counts.len() > 0 {
        lemma_no_ext_place(counts.drop_last(), ext);
        if ext_place(counts, ext) is None {
            assert forall|k: int| 0 <= k < counts.len() implies (#[trigger] counts[k]).ext != ext by {
                if k < counts.len() - 1 {
                    assert(counts.drop_last()[k] == counts[k]);
                }
            }
        }
    }
}

/// What is told of a file without content holds its name, its folder, its kind, its extension and
/// each of the neighbours that are shown.
pub proof fn law_the_context_is_told(
    name: Seq<char>,
    parent: Seq<char>,
    extension: Seq<char>,
    kind: Seq<char>,
    neighbours: Seq<Seq<char>>,
    i: int,
)
    ensures
        ({
            let d = descriptor(name, parent, extension, kind, neighbours);
            &&& holds(d, name)
            &&& holds(d, parent)
            &&& holds(d, kind)
            &&& holds(d, extension)
            &&& 0 <= i < shown_siblings(neighbours, name).len() ==> holds(
                d,
                shown_siblings(neighbours, name)[i],
            )
        }),
{
    let shown = shown_siblings(neighbours, name);
    let d = descriptor(name, parent, extension, kind, neighbours);
    let none = Seq::<char>::empty();
    let list = join(shown, ", "@);
    let tail = if shown.len() == 0 {
        none
    } else {
        " Fichiers voisins: "@ + list + "."@
    };
    let c = ". Extension: "@ + extension + "."@ + tail;
    let b = ". Type: "@ + kind + c;
    let a = ". Dossier: "@ + parent + b;
    assert(d =~= "Fichier: "@ + name + a);
    lemma_holds("Fichier: "@, name, a);
    let p1 = "Fichier: "@ + name + ". Dossier: "@;
    assert(d =~= p1 + parent + b);
    lemma_holds(p1, parent, b);
    let p2 = p1 + parent + ". Type: "@;
    assert(d =~= p2 + kind + c);
    lemma_holds(p2, kind, c);
    let p3 = p2 + kind + ". Extension: "@;
    assert(d =~= p3 + extension + ("."@ + tail));
    lemma_holds(p3, extension, "."@ + tail);
    if 0 <= i < shown.len() {
        let p4 = p3 + extension + "."@ + " Fichiers voisins: "@;
        assert(d =~= p4 + list + "."@);
        lemma_holds(p4, list, "."@);
        crate::reading::lemma_join_holds(shown, ", "@, i);
        crate::reading::lemma_holds_through(d, list, shown[i]);
    }
}

/// The extensions that are told of a block are those that occur most: no other occurs more often.
pub proof fn law_the_most_frequent_extensions_are_told(entries: Seq<EntryInfo>)
    ensures
        ({
            let counts = ext_counts(entries);
            let sorted = sorted_by(counts, |a: ExtCount, b: ExtCount| more_often(a, b));
            &&& sorted.to_multiset() == counts.to_multiset()
            &&& top_exts(entries).len() == (if counts.len() < 5 {
                counts.len() as int
            } else {
                5
            })
            &&& forall|i: int|
                0 <= i < top_exts(entries).len() ==> #[trigger] top_exts(entries)[i]
                    == sorted[i].ext
            &&& forall|i: int, j: int|
                0 <= i < j < sorted.len() ==> (#[trigger] sorted[i]).count >= (
                #[trigger] sorted[j]).count
        }),
{
    let counts = ext_counts(entries);
    let before = |a: ExtCount, b: ExtCount| more_often(a, b);
    let sorted = sorted_by(counts, before);
    crate::order::law_sorting_orders_and_keeps(counts, before);
    assert forall|i: int, j: int| 0 <= i < j < sorted.len() implies (#[trigger] sorted[i]).count >= (
    #[trigger] sorted[j]).count by {
        assert(!before(sorted[j], sorted[i]));
    }
}

/// The answer of a model is taken from its start, without the white space around it.
pub proof fn law_an_answer_is_taken_from_its_start(response: Seq<char>, limit: nat)
    ensures
        is_blank(response) <==> answer_text(response, limit) is None,
        answer_text(response, limit) matches Some(t) ==> starts_with(trim(response), t) && t.len()
            == (if trim(response).len() < limit {
            trim(response).len()
        } else {
            limit
        }),
{
    let t = trim(response);
    let f = first_chars(t, limit);
    assert(t.subrange(0, f.len() as int) =~= f);
}

/// The summary that a text gets without a model says what the text says from its start on: all of
/// it where it is short, and never more than 300 characters.
pub proof fn law_a_summary_says_what_the_text_says(content: Seq<char>)
    ensures
        summary_spec(content).len() <= 300,
        content.len() <= 300 ==> crate::reading::reading(summary_spec(content))
            == crate::reading::reading(content),
        starts_with(trim(swap_char(content, '\n', ' ')), summary_spec(content)),
        content.len() > 300 && trim(swap_char(content, '\n', ' ')).len() >= 300 ==> summary_spec(
            content,
        ).len() == 300,
{
    let t = swap_char(content, '\n', ' ');
    let at = crate::text::law_trimming_takes_the_white_space(t);
    crate::reading::lemma_reading_swap(content, '\n', ' ');
    crate::reading::lemma_reading_trim(t);
    let s = summary_spec(content);
    assert(trim(t).subrange(0, s.len() as int) =~= s);
}

/// What stands before each part of a document says what its summary says, where it is short.
pub proof fn law_a_short_summary_stands_whole(summary: Seq<char>)
    ensures
        compact(summary).len() <= 180,
        crate::reading::reading(summary).len() <= 180 ==> compact(summary)
            == crate::reading::reading(summary),
        starts_with(crate::reading::reading(summary), compact(summary)),
{
    crate::reading::law_a_text_is_read_by_its_words(summary);
    let r = crate::reading::reading(summary);
    let c = compact(summary);
    assert(r.subrange(0, c.len() as int) =~= c);
}

/// The model is asked for the meaning of a text that is long enough where it may be, and only
/// there; a meaning that the user wrote is never asked for again.
pub proof fn law_the_model_is_asked_where_it_may_be(allowed: bool, reasoning: bool, text: Seq<char>)
    ensures
        meaning_spec(None, allowed, reasoning, text) is AskModel <==> allowed && reasoning && trim(
            text,
        ).len() >= LEAST_CHARS_TO_ASK,
        meaning_spec(None, false, reasoning, text) == MeaningView::Excerpt(summary_spec(text)),
        meaning_spec(None, allowed, false, text) == MeaningView::Excerpt(summary_spec(text)),
{
}

} // verus!
