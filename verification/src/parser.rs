//! What a file is, from its name, its size and its first bytes.

use vstd::prelude::*;
use vstd::utf8::valid_utf8;

use crate::bytes::{head_of, is_utf8, mime_of_bytes, sniff_head};
use crate::text::{
    contains, eq_ignore_ascii_case, lower_case, opt, same_ignoring_ascii_case, starts_with, str_contains,
    str_eq, str_starts_with, lowered,
};

verus! {

#[derive(Debug, PartialEq, Eq, Structural)]
pub enum FileType {
    /// Code, notes, data that can be read: the text is taken as it is.
    Text,
    /// A document from which the text is extracted.
    Document,
    /// An image, for the vision model.
    Image,
    /// Sound or moving pictures, to be transcribed and described.
    Media,
    /// Something else: a model decides.
    RequiresAIRouting,
    /// Noise.
    Ignored,
}

/// What is known of a file before it is opened.
#[derive(Debug)]
pub struct FileFacts {
    pub path: String,
    /// The last component of the path.
    pub file_name: String,
    /// What follows the last dot of the name.
    pub extension: String,
    /// `None` where the size cannot be told.
    pub size: Option<u64>,
}

/// How many bytes are tried for text.
pub const TEXT_PROBE: usize = 512;

/// Documents whose text can be extracted.
pub open spec fn is_document_ext(e: Seq<char>) -> bool {
    e == "pdf"@
        || e == "docx"@
}

/// Images that the vision model can be shown.
pub open spec fn is_image_ext(e: Seq<char>) -> bool {
    e == "png"@
        || e == "jpg"@
        || e == "jpeg"@
        || e == "gif"@
        || e == "bmp"@
        || e == "webp"@
}

/// Texts, code and data that can be read.
pub open spec fn is_text_ext(e: Seq<char>) -> bool {
    e == "txt"@
        || e == "md"@
        || e == "markdown"@
        || e == "rst"@
        || e == "csv"@
        || e == "tsv"@
        || e == "log"@
        || e == "json"@
        || e == "toml"@
        || e == "yaml"@
        || e == "yml"@
        || e == "xml"@
        || e == "html"@
        || e == "htm"@
        || e == "css"@
        || e == "scss"@
        || e == "ini"@
        || e == "cfg"@
        || e == "conf"@
        || e == "env"@
        || e == "tex"@
        || e == "bib"@
        || e == "rs"@
        || e == "py"@
        || e == "js"@
        || e == "jsx"@
        || e == "ts"@
        || e == "tsx"@
        || e == "c"@
        || e == "h"@
        || e == "cpp"@
        || e == "hpp"@
        || e == "cc"@
        || e == "cxx"@
        || e == "java"@
        || e == "kt"@
        || e == "kts"@
        || e == "go"@
        || e == "rb"@
        || e == "php"@
        || e == "sh"@
        || e == "bash"@
        || e == "zsh"@
        || e == "ps1"@
        || e == "bat"@
        || e == "sql"@
        || e == "r"@
        || e == "swift"@
        || e == "scala"@
        || e == "lua"@
        || e == "pl"@
        || e == "pm"@
        || e == "vue"@
        || e == "svelte"@
        || e == "dart"@
        || e == "clj"@
        || e == "hs"@
        || e == "ml"@
        || e == "gradle"@
        || e == "properties"@
}

fn document_ext(e: &str) -> (r: bool)
    ensures
        r == is_document_ext(e@),
{
    str_eq(e, "pdf")
        || str_eq(e, "docx")
}

fn image_ext(e: &str) -> (r: bool)
    ensures
        r == is_image_ext(e@),
{
    str_eq(e, "png")
        || str_eq(e, "jpg")
        || str_eq(e, "jpeg")
        || str_eq(e, "gif")
        || str_eq(e, "bmp")
        || str_eq(e, "webp")
}

fn text_ext(e: &str) -> (r: bool)
    ensures
        r == is_text_ext(e@),
{
    str_eq(e, "txt")
        || str_eq(e, "md")
        || str_eq(e, "markdown")
        || str_eq(e, "rst")
        || str_eq(e, "csv")
        || str_eq(e, "tsv")
        || str_eq(e, "log")
        || str_eq(e, "json")
        || str_eq(e, "toml")
        || str_eq(e, "yaml")
        || str_eq(e, "yml")
        || str_eq(e, "xml")
        || str_eq(e, "html")
        || str_eq(e, "htm")
        || str_eq(e, "css")
        || str_eq(e, "scss")
        || str_eq(e, "ini")
        || str_eq(e, "cfg")
        || str_eq(e, "conf")
        || str_eq(e, "env")
        || str_eq(e, "tex")
        || str_eq(e, "bib")
        || str_eq(e, "rs")
        || str_eq(e, "py")
        || str_eq(e, "js")
        || str_eq(e, "jsx")
        || str_eq(e, "ts")
        || str_eq(e, "tsx")
        || str_eq(e, "c")
        || str_eq(e, "h")
        || str_eq(e, "cpp")
        || str_eq(e, "hpp")
        || str_eq(e, "cc")
        || str_eq(e, "cxx")
        || str_eq(e, "java")
        || str_eq(e, "kt")
        || str_eq(e, "kts")
        || str_eq(e, "go")
        || str_eq(e, "rb")
        || str_eq(e, "php")
        || str_eq(e, "sh")
        || str_eq(e, "bash")
        || str_eq(e, "zsh")
        || str_eq(e, "ps1")
        || str_eq(e, "bat")
        || str_eq(e, "sql")
        || str_eq(e, "r")
        || str_eq(e, "swift")
        || str_eq(e, "scala")
        || str_eq(e, "lua")
        || str_eq(e, "pl")
        || str_eq(e, "pm")
        || str_eq(e, "vue")
        || str_eq(e, "svelte")
        || str_eq(e, "dart")
        || str_eq(e, "clj")
        || str_eq(e, "hs")
        || str_eq(e, "ml")
        || str_eq(e, "gradle")
        || str_eq(e, "properties")
}

/// The type that an extension in lower case stands for.
pub open spec fn by_extension(e: Seq<char>) -> Option<FileType> {
    if is_document_ext(e) {
        Some(FileType::Document)
    } else if is_image_ext(e) {
        Some(FileType::Image)
    } else if is_text_ext(e) {
        Some(FileType::Text)
    } else {
        None
    }
}

/// Files that a system leaves behind.
pub open spec fn is_system_litter(name: Seq<char>) -> bool {
    starts_with(name, "._"@) || same_ignoring_ascii_case(name, ".DS_Store"@)
        || same_ignoring_ascii_case(name, "Thumbs.db"@) || same_ignoring_ascii_case(
        name,
        "desktop.ini"@,
    )
}

/// Places that hold what tools wrote.
pub open spec fn is_noise(lower_path: Seq<char>) -> bool {
    contains(lower_path, "node_modules"@) || contains(lower_path, ".venv"@) || contains(
        lower_path,
        "\\target\\"@,
    ) || contains(lower_path, ".git"@)
}

/// What can be said before the file is opened: it is ignored, or its extension tells.
pub open spec fn known_type(f: FileFacts) -> Option<FileType> {
    if is_system_litter(f.file_name@) || f.size == Some(0u64) || is_noise(lower_case(f.path@)) {
        Some(FileType::Ignored)
    } else {
        by_extension(lower_case(f.extension@))
    }
}

/// The type by the MIME type of the first bytes; `text` tells whether they are text, which
/// decides where there is no MIME type.
pub open spec fn by_content(mime: Option<Seq<char>>, text: bool) -> FileType {
    match mime {
        Some(m) => if starts_with(m, "image/"@) {
            FileType::Image
        } else if m == "application/pdf"@
            || m == "application/vnd.openxmlformats-officedocument.wordprocessingml.document"@ {
            FileType::Document
        } else if starts_with(m, "audio/"@) || starts_with(m, "video/"@) {
            FileType::Media
        } else {
            FileType::RequiresAIRouting
        },
        None => if text {
            FileType::Text
        } else {
            FileType::RequiresAIRouting
        },
    }
}

/// The first bytes that are tried for text.
pub open spec fn probe(head: Seq<u8>) -> Seq<u8> {
    head.take(
        if head.len() < TEXT_PROBE {
            head.len() as int
        } else {
            TEXT_PROBE as int
        },
    )
}

pub open spec fn is_readable(head: Seq<u8>) -> bool {
    head.len() > 0 && valid_utf8(probe(head))
}

pub struct Parser;

impl Parser {
    /// The type that a well-known extension in lower case stands for. It comes before what
    /// the bytes tell: a `.docx` is a document though its bytes are those of an archive.
    pub fn route_by_extension(ext: &str) -> (r: Option<FileType>)
        ensures
            r == by_extension(ext@),
    {
        if document_ext(ext) {
            Some(FileType::Document)
        } else if image_ext(ext) {
            Some(FileType::Image)
        } else if text_ext(ext) {
            Some(FileType::Text)
        } else {
            None
        }
    }

    /// What can be said of a file before it is opened.
    pub fn type_by_name(f: &FileFacts) -> (r: Option<FileType>)
        ensures
            r == known_type(*f),
    {
        let name = f.file_name.as_str();
        if str_starts_with(name, "._") || eq_ignore_ascii_case(name, ".DS_Store")
            || eq_ignore_ascii_case(name, "Thumbs.db") || eq_ignore_ascii_case(name, "desktop.ini") {
            return Some(FileType::Ignored);
        }
        if let Some(n) = f.size {
            if n == 0 {
                return Some(FileType::Ignored);
            }
        }
        let lower = lowered(f.path.as_str());
        if str_contains(lower.as_str(), "node_modules") || str_contains(lower.as_str(), ".venv")
            || str_contains(lower.as_str(), "\\target\\") || str_contains(lower.as_str(), ".git") {
            return Some(FileType::Ignored);
        }
        Self::route_by_extension(lowered(f.extension.as_str()).as_str())
    }

    /// The type by the MIME type of the first bytes.
    pub fn type_by_content(mime: &Option<String>, text: bool) -> (r: FileType)
        ensures
            r == by_content(opt(*mime), text),
    {
        match mime {
            Some(m) => {
                if str_starts_with(m.as_str(), "image/") {
                    FileType::Image
                } else if str_eq(m.as_str(), "application/pdf") || str_eq(
                    m.as_str(),
                    "application/vnd.openxmlformats-officedocument.wordprocessingml.document",
                ) {
                    FileType::Document
                } else if str_starts_with(m.as_str(), "audio/") || str_starts_with(
                    m.as_str(),
                    "video/",
                ) {
                    FileType::Media
                } else {
                    FileType::RequiresAIRouting
                }
            },
            None => if text {
                FileType::Text
            } else {
                FileType::RequiresAIRouting
            },
        }
    }

    /// Whether the first bytes of a file are text.
    pub fn is_valid_utf8(head: &[u8]) -> (r: bool)
        ensures
            r == is_readable(head@),
    {
        let n: usize = if head.len() < TEXT_PROBE {
            head.len()
        } else {
            TEXT_PROBE
        };
        if n == 0 {
            return false;
        }
        let p = vstd::slice::slice_subrange(head, 0, n);
        assert(p@ =~= probe(head@));
        is_utf8(p)
    }

    /// What a file is. `head` holds its first bytes; `None` where it could not be read.
    pub fn determine_file_type(f: &FileFacts, head: &Option<Vec<u8>>) -> (r: FileType)
        ensures
            r == (match known_type(*f) {
                Some(t) => t,
                None => match head {
                    Some(h) => by_content(mime_of_bytes(head_of(h@)), is_readable(h@)),
                    None => FileType::RequiresAIRouting,
                },
            }),
    {
        if let Some(t) = Self::type_by_name(f) {
            return t;
        }
        match head {
            Some(h) => Self::type_by_content(
                &sniff_head(h.as_slice()),
                Self::is_valid_utf8(h.as_slice()),
            ),
            None => FileType::RequiresAIRouting,
        }
    }
}

/// A well-known extension decides, whatever the bytes look like.
pub proof fn law_an_extension_comes_before_the_bytes(f: FileFacts)
    requires
        by_extension(lower_case(f.extension@)) is Some,
    ensures
        known_type(f) is Some,
        known_type(f) == Some(FileType::Ignored) || known_type(f) == by_extension(
            lower_case(f.extension@),
        ),
{
}

/// What is nothing but noise is never indexed, whatever its extension: an empty file, what a
/// system leaves behind, and what lies in a folder of tools.
pub proof fn law_noise_is_ignored(f: FileFacts, noise: Seq<char>)
    requires
        noise == "node_modules"@ || noise == ".venv"@ || noise == "\\target\\"@ || noise == ".git"@,
    ensures
        f.size == Some(0u64) ==> known_type(f) == Some(FileType::Ignored),
        crate::reading::holds(lower_case(f.path@), noise) ==> known_type(f) == Some(
            FileType::Ignored,
        ),
        f.file_name@.len() >= 2 && f.file_name@[0] == '.' && f.file_name@[1] == '_' ==> known_type(
            f,
        ) == Some(FileType::Ignored),
{
    let p = lower_case(f.path@);
    crate::text::lemma_find_from(p, noise, 0);
    if crate::reading::holds(p, noise) {
        let k = choose|k: int| #[trigger] crate::text::matches_at(p, noise, k);
        assert(contains(p, noise));
    }
    reveal_strlit("._");
    let n = f.file_name@;
    if n.len() >= 2 && n[0] == '.' && n[1] == '_' {
        assert(n.subrange(0, 2) =~= "._"@);
    }
}

/// What a file is goes by its content where its name says nothing: pictures, sound and film by
/// their kind, what reads as text as text, and all else is left to the model.
pub proof fn law_content_tells_the_type(kind: Seq<char>, text: bool)
    ensures
        by_content(Some("image/"@ + kind), text) == FileType::Image,
        by_content(Some("audio/"@ + kind), text) == FileType::Media,
        by_content(Some("video/"@ + kind), text) == FileType::Media,
        by_content(None, true) == FileType::Text,
        by_content(None, false) == FileType::RequiresAIRouting,
{
    reveal_strlit("image/");
    reveal_strlit("audio/");
    reveal_strlit("video/");
    reveal_strlit("application/pdf");
    reveal_strlit("application/vnd.openxmlformats-officedocument.wordprocessingml.document");
    let a = "image/"@ + kind;
    let b = "audio/"@ + kind;
    let c = "video/"@ + kind;
    assert(a.subrange(0, 6) =~= "image/"@);
    assert(b.subrange(0, 6) =~= "audio/"@);
    assert(c.subrange(0, 6) =~= "video/"@);
    assert(a[0] == 'i' && b[0] == 'a' && c[0] == 'v');
    assert(b.subrange(0, 6)[0] == 'a' && c.subrange(0, 6)[0] == 'v');
    assert(b[1] == 'u' && c[1] == 'i');
    assert("application/pdf"@[1] == 'p');
    assert(
    "application/vnd.openxmlformats-officedocument.wordprocessingml.document"@[1] == 'p');
    assert("image/"@[0] == 'i');
    assert("application/pdf"@[0] == 'a');
    assert(
    "application/vnd.openxmlformats-officedocument.wordprocessingml.document"@[0] == 'a');
}

} // verus!
