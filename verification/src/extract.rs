//! Text out of documents: markup that is taken off, office archives, PDF files, and bytes that
//! may or may not be text.

use vstd::prelude::*;
use vstd::utf8::{decode_utf8, valid_utf8};

use crate::bytes::{
    archive_len, archive_name, archive_text, deflate_data, fits_jpeg, inflate, inflates_to, is_utf8,
    jpeg_data, lossy_text, opt_bytes, unpacked, write_jpeg, zip_len, zip_name, zip_text, zlib_data,
};
use crate::embedding::bytes_of;
use crate::reading::{lemma_reading_apart, reading, then_read};
use crate::text::{
    ascii_lower_all, byte_len, char_ascii_lower, char_is_space, ends_with, find, find_from,
    index_from, index_of, is_blank, is_space, join, joined, opt, part, push_all, replace_all,
    replaced, starts_with, str_ends_with, str_eq, str_is_blank, str_starts_with, str_trim, to_chars,
    to_text, trim, views,
};

verus! {

// ---------------------------------------------------------------------------
// Markup
// ---------------------------------------------------------------------------

/// How far a document was read: what came out, and whether a tag is open.
pub struct Stripped {
    pub out: Seq<char>,
    pub in_tag: bool,
}

/// What is left of `xml` behind `start` once its tags are taken off. A space goes between
/// two nodes, so that words do not run together.
pub open spec fn stripped(start: Seq<char>, xml: Seq<char>) -> Stripped
    decreases xml.len(),
{
    if xml.len() == 0 {
        Stripped { out: start, in_tag: false }
    } else {
        let s = stripped(start, xml.drop_last());
        let c = xml.last();
        if c == '<' {
            Stripped {
                out: if s.out.len() > 0 && !is_space(s.out.last()) {
                    s.out.push(' ')
                } else {
                    s.out
                },
                in_tag: true,
            }
        } else if c == '>' {
            Stripped { out: s.out, in_tag: false }
        } else if s.in_tag {
            s
        } else {
            Stripped { out: s.out.push(c), in_tag: false }
        }
    }
}

fn strip_chars(xml: &[char], out: &mut Vec<char>)
    ensures
        final(out)@ == stripped(old(out)@, xml@).out,
{
    let ghost start = out@;
    let mut in_tag = false;
    let mut i: usize = 0;
    assert(xml@.take(0) =~= Seq::<char>::empty());
    while i < xml.len()
        invariant
            i <= xml.len(),
            out@ == stripped(start, xml@.take(i as int)).out,
            in_tag == stripped(start, xml@.take(i as int)).in_tag,
        decreases xml.len() - i,
    {
        assert(xml@.take(i + 1).drop_last() =~= xml@.take(i as int));
        assert(xml@.take(i + 1).last() == xml@[i as int]);
        let c = xml[i];
        if c == '<' {
            in_tag = true;
            let n: usize = out.len();
            if n > 0 && !char_is_space(out[n - 1]) {
                out.push(' ');
            }
        } else if c == '>' {
            in_tag = false;
        } else if !in_tag {
            out.push(c);
        }
        i = i + 1;
    }
    assert(xml@.take(i as int) =~= xml@);
}

pub fn strip_xml_into(xml: &str, out: &mut String)
    ensures
        final(out)@ == stripped(old(out)@, xml@).out,
{
    let mut chars = to_chars(out.as_str());
    strip_chars(to_chars(xml).as_slice(), &mut chars);
    *out = to_text(chars.as_slice());
}

/// No bracket of a tag is left.
pub proof fn law_no_tag_is_left(xml: Seq<char>)
    ensures
        forall|i: int|
            0 <= i < stripped(Seq::empty(), xml).out.len() ==> {
                let c = #[trigger] stripped(Seq::empty(), xml).out[i];
                c != '<' && c != '>'
            },
    decreases xml.len(),
{
    if xml.len() > 0 {
        law_no_tag_is_left(xml.drop_last());
        let before = stripped(Seq::empty(), xml.drop_last()).out;
        let after = stripped(Seq::empty(), xml).out;
        assert forall|i: int| 0 <= i < after.len() implies {
            let c = #[trigger] after[i];
            c != '<' && c != '>'
        } by {
            if i < before.len() {
                assert(after[i] == before[i]);
            }
        }
    }
}

/// Where the block that opens at `start` ends: behind its close, or at the end of the text.
pub open spec fn block_end(lower: Seq<char>, close: Seq<char>, start: int) -> int {
    match find_from(lower, close, start) {
        Some(i) => i + close.len(),
        None => lower.len() as int,
    }
}

/// A text without the blocks between `open` and `close`, each of which leaves a space.
pub open spec fn without_blocks(s: Seq<char>, open: Seq<char>, close: Seq<char>) -> Seq<char>
    decreases s.len(),
{
    let lower = ascii_lower_all(s);
    match find(lower, open) {
        Some(start) => {
            let end = block_end(lower, close, start);
            if 0 <= start && start + 1 < end <= s.len() {
                without_blocks(s.take(start) + seq![' '] + s.skip(end), open, close)
            } else {
                s
            }
        },
        None => s,
    }
}

/// Some entities as the characters that they stand for.
pub open spec fn decoded(s: Seq<char>) -> Seq<char> {
    replace_all(
        replace_all(
            replace_all(
                replace_all(
                    replace_all(replace_all(s, "&nbsp;"@, " "@), "&amp;"@, "&"@),
                    "&lt;"@,
                    "<"@,
                ),
                "&gt;"@,
                ">"@,
            ),
            "&quot;"@,
            "\""@,
        ),
        "&#39;"@,
        "'"@,
    )
}

/// The text that a page shows.
pub open spec fn page_text(html: Seq<char>) -> Seq<char> {
    decoded(
        stripped(
            Seq::empty(),
            without_blocks(
                without_blocks(html, "<script"@, "</script>"@),
                "<style"@,
                "</style>"@,
            ),
        ).out,
    )
}

fn lowered(s: &[char]) -> (r: Vec<char>)
    ensures
        r@ == ascii_lower_all(s@),
{
    let mut out: Vec<char> = Vec::new();
    let mut i: usize = 0;
    while i < s.len()
        invariant
            i <= s.len(),
            out@ == ascii_lower_all(s@).take(i as int),
        decreases s.len() - i,
    {
        out.push(char_ascii_lower(s[i]));
        i = i + 1;
        assert(out@ =~= ascii_lower_all(s@).take(i as int));
    }
    assert(ascii_lower_all(s@).take(i as int) =~= ascii_lower_all(s@));
    out
}

fn drop_blocks(s: Vec<char>, open: &[char], close: &[char]) -> (r: Vec<char>)
    requires
        open@.len() > 1,
    ensures
        r@ == without_blocks(s@, open@, close@),
{
    let ghost want = without_blocks(s@, open@, close@);
    let mut cur: Vec<char> = s;
    loop
        invariant
            open@.len() > 1,
            want == without_blocks(cur@, open@, close@),
        ensures
            cur@ == want,
        decreases cur@.len(),
    {
        let lower = lowered(cur.as_slice());
        let n: usize = cur.len();
        match index_of(lower.as_slice(), open) {
            None => {
                break;
            },
            Some(start) => {
                proof {
                    crate::text::lemma_find_from(lower@, open@, 0);
                    crate::text::lemma_find_from(lower@, close@, start as int);
                }
                let end: usize = match index_from(lower.as_slice(), close, start) {
                    Some(i) => i + close.len(),
                    None => n,
                };
                if start + 1 < end {
                    let mut next: Vec<char> = Vec::new();
                    push_all(&mut next, part(cur.as_slice(), 0, start));
                    next.push(' ');
                    push_all(&mut next, part(cur.as_slice(), end, n));
                    assert(next@ =~= cur@.take(start as int) + seq![' '] + cur@.skip(end as int));
                    cur = next;
                } else {
                    break;
                }
            },
        }
    }
    cur
}

fn swapped_text(s: &Vec<char>, pat: &str, with: &str) -> (r: Vec<char>)
    requires
        pat@.len() > 0,
    ensures
        r@ == replace_all(s@, pat@, with@),
{
    replaced(s.as_slice(), to_chars(pat).as_slice(), to_chars(with).as_slice())
}

pub fn strip_html(html: &str) -> (r: String)
    ensures
        r@ == page_text(html@),
{
    proof {
        reveal_strlit("<script");
        reveal_strlit("<style");
        reveal_strlit("&nbsp;");
        reveal_strlit("&amp;");
        reveal_strlit("&lt;");
        reveal_strlit("&gt;");
        reveal_strlit("&quot;");
        reveal_strlit("&#39;");
    }
    let a = drop_blocks(
        to_chars(html),
        to_chars("<script").as_slice(),
        to_chars("</script>").as_slice(),
    );
    let b = drop_blocks(a, to_chars("<style").as_slice(), to_chars("</style>").as_slice());
    let mut out: Vec<char> = Vec::new();
    assert(out@ =~= Seq::<char>::empty());
    strip_chars(b.as_slice(), &mut out);
    let c = swapped_text(&out, "&nbsp;", " ");
    let d = swapped_text(&c, "&amp;", "&");
    let e = swapped_text(&d, "&lt;", "<");
    let f = swapped_text(&e, "&gt;", ">");
    let g = swapped_text(&f, "&quot;", "\"");
    let h = swapped_text(&g, "&#39;", "'");
    to_text(h.as_slice())
}

/// Once the blocks are taken out, no block opens any more.
pub proof fn law_blocks_are_taken_out(s: Seq<char>, open: Seq<char>, close: Seq<char>)
    requires
        open.len() > 1,
        close.len() > 1,
    ensures
        find(ascii_lower_all(without_blocks(s, open, close)), open) is None,
    decreases s.len(),
{
    let lower = ascii_lower_all(s);
    crate::text::lemma_find_from(lower, open, 0);
    if let Some(start) = find(lower, open) {
        crate::text::lemma_find_from(lower, close, start);
        let end = block_end(lower, close, start);
        law_blocks_are_taken_out(s.take(start) + seq![' '] + s.skip(end), open, close);
    }
}

// ---------------------------------------------------------------------------
// Files
// ---------------------------------------------------------------------------

/// How the text of a file is found.
#[derive(Debug, PartialEq, Eq, Structural)]
pub enum Extractor {
    Pdf,
    Docx,
    Pptx,
    Xlsx,
    Html,
    Plain,
}

/// The extractor for an extension in lower case.
pub open spec fn extractor_spec(ext: Seq<char>) -> Extractor {
    if ext == "pdf"@ {
        Extractor::Pdf
    } else if ext == "docx"@ {
        Extractor::Docx
    } else if ext == "pptx"@ {
        Extractor::Pptx
    } else if ext == "xlsx"@ {
        Extractor::Xlsx
    } else if ext == "html"@ || ext == "htm"@ {
        Extractor::Html
    } else {
        Extractor::Plain
    }
}

pub fn extractor_for(ext: &str) -> (r: Extractor)
    ensures
        r == extractor_spec(ext@),
{
    if str_eq(ext, "pdf") {
        Extractor::Pdf
    } else if str_eq(ext, "docx") {
        Extractor::Docx
    } else if str_eq(ext, "pptx") {
        Extractor::Pptx
    } else if str_eq(ext, "xlsx") {
        Extractor::Xlsx
    } else if str_eq(ext, "html") || str_eq(ext, "htm") {
        Extractor::Html
    } else {
        Extractor::Plain
    }
}

/// A file as a text; empty where it cannot be read or is no text.
pub open spec fn file_text(content: Option<Seq<u8>>) -> Seq<char> {
    match content {
        Some(b) => if valid_utf8(b) {
            decode_utf8(b)
        } else {
            Seq::empty()
        },
        None => Seq::empty(),
    }
}

pub fn text_of_file(content: &Option<Vec<u8>>) -> (r: String)
    ensures
        r@ == file_text(opt_bytes(*content)),
{
    if let Some(b) = content {
        if is_utf8(b.as_slice()) {
            return lossy_text(b.as_slice());
        }
    }
    let s = String::new();
    assert(s@ =~= Seq::<char>::empty());
    s
}

/// The text of a word processor's document; `None` where the archive or its main part
/// cannot be read.
pub open spec fn docx_text(archive: Seq<u8>) -> Option<Seq<char>> {
    match zip_text(archive, "word/document.xml"@) {
        Some(xml) => Some(stripped(Seq::empty(), xml).out),
        None => None,
    }
}

/// The text of a part that was read.
pub fn part_text(xml: &str) -> (r: String)
    ensures
        r@ == stripped(Seq::empty(), xml@).out,
{
    let mut out = String::new();
    assert(out@ =~= Seq::<char>::empty());
    strip_xml_into(xml, &mut out);
    out
}

pub fn extract_docx_text(archive: &[u8]) -> (r: Option<String>)
    ensures
        opt(r) == docx_text(archive@),
{
    match archive_text(archive, "word/document.xml") {
        Some(xml) => Some(part_text(xml.as_str())),
        None => None,
    }
}

/// Which parts of an archive hold its text.
#[derive(Debug, Clone, Copy, PartialEq, Eq, Structural)]
pub enum OfficeParts {
    /// The slides of a presentation.
    Slides,
    /// The shared strings of a spreadsheet.
    Strings,
}

pub open spec fn is_part(which: OfficeParts, name: Seq<char>) -> bool {
    match which {
        OfficeParts::Slides => starts_with(name, "ppt/slides/slide"@) && ends_with(name, ".xml"@),
        OfficeParts::Strings => name == "xl/sharedStrings.xml"@,
    }
}

pub fn keeps_part(which: OfficeParts, name: &str) -> (r: bool)
    ensures
        r == is_part(which, name@),
{
    match which {
        OfficeParts::Slides => str_starts_with(name, "ppt/slides/slide") && str_ends_with(
            name,
            ".xml",
        ),
        OfficeParts::Strings => str_eq(name, "xl/sharedStrings.xml"),
    }
}

/// The text of the first `n` parts of an archive, a line for each part that is kept and can
/// be read.
pub open spec fn parts_text(archive: Seq<u8>, which: OfficeParts, n: nat) -> Seq<char>
    decreases n,
{
    if n == 0 {
        Seq::empty()
    } else {
        let so_far = parts_text(archive, which, (n - 1) as nat);
        match zip_name(archive, (n - 1) as nat) {
            Some(name) => if is_part(which, name) {
                match zip_text(archive, name) {
                    Some(xml) => stripped(so_far, xml).out.push('\n'),
                    None => so_far,
                }
            } else {
                so_far
            },
            None => so_far,
        }
    }
}

pub open spec fn office_text(archive: Seq<u8>, which: OfficeParts) -> Option<Seq<char>> {
    match zip_len(archive) {
        Some(n) => Some(parts_text(archive, which, n)),
        None => None,
    }
}

/// Adds a part that was read to the text so far.
pub fn add_part(out: &mut String, xml: &str)
    ensures
        final(out)@ == stripped(old(out)@, xml@).out.push('\n'),
{
    strip_xml_into(xml, out);
    out.push('\n');
}

pub fn extract_office_zip_text(archive: &[u8], which: OfficeParts) -> (r: Option<String>)
    ensures
        opt(r) == office_text(archive@, which),
{
    match archive_len(archive) {
        None => None,
        Some(n) => {
            let mut out = String::new();
            let mut i: usize = 0;
            assert(out@ =~= Seq::<char>::empty());
            while i < n
                invariant
                    i <= n,
                    out@ == parts_text(archive@, which, i as nat),
                decreases n - i,
            {
                if let Some(name) = archive_name(archive, i) {
                    if keeps_part(which, name.as_str()) {
                        if let Some(xml) = archive_text(archive, name.as_str()) {
                            add_part(&mut out, xml.as_str());
                        }
                    }
                }
                i = i + 1;
            }
            Some(out)
        },
    }
}

pub fn extract_pptx_text(archive: &[u8]) -> (r: Option<String>)
    ensures
        opt(r) == office_text(archive@, OfficeParts::Slides),
{
    extract_office_zip_text(archive, OfficeParts::Slides)
}

pub fn extract_xlsx_text(archive: &[u8]) -> (r: Option<String>)
    ensures
        opt(r) == office_text(archive@, OfficeParts::Strings),
{
    extract_office_zip_text(archive, OfficeParts::Strings)
}

// ---------------------------------------------------------------------------
// PDF
// ---------------------------------------------------------------------------

/// What an attempt to read a PDF must give in bytes: the plain attempt may yield a stray
/// mark or two, so it has to give more than those that come after it.
pub open spec fn least_bytes(first_attempt: bool) -> nat {
    if first_attempt {
        20
    } else {
        1
    }
}

/// The text that an attempt to read a PDF found, if it is worth taking.
pub fn accept_pdf_text(first_attempt: bool, found: &Option<String>) -> (r: Option<String>)
    ensures
        opt(r) == (match found {
            Some(s) => if byte_len(trim(s@)) >= least_bytes(first_attempt) {
                Some(trim(s@))
            } else {
                None
            },
            None => None,
        }),
{
    match found {
        Some(s) => {
            let t = str_trim(s.as_str());
            let n = bytes_of(t.as_str());
            let least: u64 = if first_attempt {
                20
            } else {
                1
            };
            if n >= least {
                Some(t)
            } else {
                None
            }
        },
        None => None,
    }
}

/// A stream in a PDF: its kind, where it tells it, the filters that it went through, and its
/// bytes.
#[derive(Debug)]
pub struct PdfStream {
    pub subtype: Option<String>,
    pub filters: Vec<String>,
    pub content: Vec<u8>,
}

pub open spec fn names_filter(filters: Seq<String>, name: Seq<char>) -> bool {
    exists|i: int| 0 <= i < filters.len() && (#[trigger] filters[i])@ == name
}

pub open spec fn looks_like_jpeg(b: Seq<u8>) -> bool {
    b.len() >= 2 && b[0] == 0xFF && b[1] == 0xD8
}

/// A stream that may hold a JPEG file: an image whose last filter is that of JPEG.
pub open spec fn may_be_jpeg(s: PdfStream) -> bool {
    opt(s.subtype) == Some("Image"@) && s.filters@.len() > 0 && s.filters@.last()@ == "DCTDecode"@
}

/// The JPEG file that a stream holds, where its bytes start as a JPEG does. `unpacked` is what
/// they give once a compression around them is undone.
pub open spec fn jpeg_of(s: PdfStream, unpacked: Option<Seq<u8>>) -> Option<Seq<u8>> {
    let bytes = if names_filter(s.filters@, "FlateDecode"@) {
        unpacked
    } else {
        Some(s.content@)
    };
    match bytes {
        Some(b) if may_be_jpeg(s) && looks_like_jpeg(b) => Some(b),
        _ => None,
    }
}

fn has_filter(filters: &Vec<String>, name: &str) -> (r: bool)
    ensures
        r == names_filter(filters@, name@),
{
    let mut i: usize = 0;
    while i < filters.len()
        invariant
            i <= filters.len(),
            forall|k: int| 0 <= k < i ==> (#[trigger] filters@[k])@ != name@,
        decreases filters.len() - i,
    {
        if str_eq(filters[i].as_str(), name) {
            return true;
        }
        i = i + 1;
    }
    false
}

fn copied_bytes(b: &Vec<u8>) -> (r: Vec<u8>)
    ensures
        r@ == b@,
{
    let mut out: Vec<u8> = Vec::new();
    let mut i: usize = 0;
    while i < b.len()
        invariant
            i <= b.len(),
            out@ == b@.take(i as int),
        decreases b.len() - i,
    {
        out.push(b[i]);
        i = i + 1;
        assert(out@ =~= b@.take(i as int));
    }
    assert(b@.take(i as int) =~= b@);
    out
}

fn is_jpeg_stream(s: &PdfStream) -> (r: bool)
    ensures
        r == may_be_jpeg(*s),
{
    let image = match &s.subtype {
        Some(t) => str_eq(t.as_str(), "Image"),
        None => false,
    };
    let n: usize = s.filters.len();
    image && n > 0 && str_eq(s.filters[n - 1].as_str(), "DCTDecode")
}

pub fn jpeg_in(s: &PdfStream, unpacked: Option<Vec<u8>>) -> (r: Option<Vec<u8>>)
    ensures
        opt_bytes(r) == jpeg_of(*s, opt_bytes(unpacked)),
{
    if !is_jpeg_stream(s) {
        return None;
    }
    let bytes = if has_filter(&s.filters, "FlateDecode") {
        unpacked
    } else {
        Some(copied_bytes(&s.content))
    };
    match bytes {
        Some(b) => if b.len() >= 2 && b[0] == 0xFF && b[1] == 0xD8 {
            Some(b)
        } else {
            None
        },
        None => None,
    }
}

/// The JPEG file that a stream holds. Of one whose compression is broken it is not said how
/// much is read.
pub fn embedded_jpeg(s: &PdfStream) -> (r: Option<Vec<u8>>)
    ensures
        exists|u: Option<Seq<u8>>|
            inflates_to(s.content@, u) && opt_bytes(r) == #[trigger] jpeg_of(*s, u),
{
    if !is_jpeg_stream(s) || !has_filter(&s.filters, "FlateDecode") {
        let r = jpeg_in(s, None);
        proof {
            let u = some_inflation(s.content@);
            assert(opt_bytes(r) == jpeg_of(*s, u));
        }
        r
    } else {
        let u = inflate(s.content.as_slice());
        jpeg_in(s, u)
    }
}

proof fn some_inflation(data: Seq<u8>) -> (u: Option<Seq<u8>>)
    ensures
        inflates_to(data, u),
{
    let raw = match deflate_data(data) {
        Some(d) => d,
        None => Seq::empty(),
    };
    unpacked(zlib_data(data), raw)
}

/// The first `max` JPEG files among the streams. `found` is what each gives once a compression
/// around it is undone.
pub open spec fn jpegs(streams: Seq<PdfStream>, found: Seq<Option<Seq<u8>>>, max: nat) -> Seq<Seq<u8>>
    decreases streams.len(),
{
    if streams.len() == 0 {
        Seq::empty()
    } else {
        let so_far = jpegs(streams.drop_last(), found, max);
        match jpeg_of(streams.last(), found[streams.len() - 1]) {
            Some(b) => if so_far.len() < max {
                so_far.push(b)
            } else {
                so_far
            },
            None => so_far,
        }
    }
}

proof fn lemma_jpegs_frame(
    streams: Seq<PdfStream>,
    found: Seq<Option<Seq<u8>>>,
    next: Option<Seq<u8>>,
    max: nat,
)
    requires
        streams.len() <= found.len(),
    ensures
        jpegs(streams, found.push(next), max) == jpegs(streams, found, max),
    decreases streams.len(),
{
    if streams.len() > 0 {
        lemma_jpegs_frame(streams.drop_last(), found, next, max);
    }
}

/// What streams may give once the compression around each is undone.
pub open spec fn all_inflate_to(streams: Seq<PdfStream>, found: Seq<Option<Seq<u8>>>) -> bool {
    found.len() == streams.len() && forall|i: int|
        0 <= i < streams.len() ==> inflates_to(streams[i].content@, #[trigger] found[i])
}

pub open spec fn byte_views(v: Seq<Vec<u8>>) -> Seq<Seq<u8>> {
    Seq::new(v.len(), |i: int| v[i]@)
}

/// The images in a PDF that are JPEG files. Of one whose compression is broken it is not said
/// how much is read.
pub fn extract_pdf_images(streams: &Vec<PdfStream>, max: usize) -> (r: Vec<Vec<u8>>)
    ensures
        exists|found: Seq<Option<Seq<u8>>>|
            all_inflate_to(streams@, found) && byte_views(r@) == #[trigger] jpegs(
                streams@,
                found,
                max as nat,
            ),
{
    let mut out: Vec<Vec<u8>> = Vec::new();
    let mut i: usize = 0;
    let ghost mut found: Seq<Option<Seq<u8>>> = Seq::empty();
    assert(byte_views(out@) =~= Seq::<Seq<u8>>::empty());
    assert(streams@.take(0) =~= Seq::<PdfStream>::empty());
    while i < streams.len()
        invariant
            i <= streams.len(),
            all_inflate_to(streams@.take(i as int), found),
            byte_views(out@) == jpegs(streams@.take(i as int), found, max as nat),
        decreases streams.len() - i,
    {
        let ghost so_far = streams@.take(i as int);
        assert(streams@.take(i + 1).drop_last() =~= so_far);
        assert(streams@.take(i + 1).last() == streams@[i as int]);
        let ghost before = byte_views(out@);
        let ghost mut u: Option<Seq<u8>> = None;
        proof {
            u = some_inflation(streams@[i as int].content@);
        }
        if out.len() < max {
            let jpeg = embedded_jpeg(&streams[i]);
            proof {
                u = choose|u: Option<Seq<u8>>|
                    inflates_to(streams@[i as int].content@, u) && opt_bytes(jpeg) == #[trigger] jpeg_of(
                        streams@[i as int],
                        u,
                    );
            }
            if let Some(b) = jpeg {
                let ghost bv = b@;
                out.push(b);
                assert(byte_views(out@) =~= before.push(bv));
            }
        }
        proof {
            lemma_jpegs_frame(so_far, found, u, max as nat);
            let more = found.push(u);
            assert forall|k: int| 0 <= k < i + 1 implies inflates_to(
                streams@.take(i + 1)[k].content@,
                #[trigger] more[k],
            ) by {
                if k < i {
                    assert(inflates_to(so_far[k].content@, found[k]));
                }
            }
            found = more;
        }
        i = i + 1;
    }
    assert(streams@.take(i as int) =~= streams@);
    out
}

/// The quality of the pages that are drawn: above it the weight doubles and nothing is seen
/// of it.
pub const RENDU_QUALITE_JPEG: u8 = 82;

/// A pixel of a page.
#[derive(Debug, Clone, Copy)]
pub struct Pixel {
    pub r: u8,
    pub g: u8,
    pub b: u8,
    pub a: u8,
}

/// The colours of some pixels, three bytes for each.
pub open spec fn colours(pixels: Seq<Pixel>) -> Seq<u8> {
    Seq::new(
        3 * pixels.len(),
        |i: int|
            if i % 3 == 0 {
                pixels[i / 3].r
            } else if i % 3 == 1 {
                pixels[i / 3].g
            } else {
                pixels[i / 3].b
            },
    )
}

/// A page that was drawn on white, as a JPEG file: how opaque its pixels are makes no
/// difference.
pub fn encode_jpeg(width: u32, height: u32, pixels: &Vec<Pixel>) -> (r: Option<Vec<u8>>)
    ensures
        opt_bytes(r) == (if fits_jpeg(3 * pixels@.len(), width as nat, height as nat) {
            Some(
                jpeg_data(
                    colours(pixels@),
                    width as nat,
                    height as nat,
                    RENDU_QUALITE_JPEG as nat,
                ),
            )
        } else {
            None
        }),
{
    let mut rgb: Vec<u8> = Vec::new();
    let mut i: usize = 0;
    assert(rgb@ =~= colours(pixels@.take(0)));
    while i < pixels.len()
        invariant
            i <= pixels.len(),
            rgb@ == colours(pixels@.take(i as int)),
        decreases pixels.len() - i,
    {
        let p = pixels[i];
        let ghost before = rgb@;
        rgb.push(p.r);
        rgb.push(p.g);
        rgb.push(p.b);
        i = i + 1;
        assert(rgb@ =~= colours(pixels@.take(i as int))) by {
            assert forall|k: int| 0 <= k < before.len() implies before[k] == colours(
                pixels@.take(i as int),
            )[k] by {
                assert(pixels@.take(i - 1)[k / 3] == pixels@.take(i as int)[k / 3]);
            }
        }
    }
    assert(pixels@.take(i as int) =~= pixels@);
    write_jpeg(rgb, width, height, RENDU_QUALITE_JPEG)
}

/// The pages of a scan as a model reads them one by one.
#[derive(Debug)]
pub struct OcrRun {
    pub pages: Vec<String>,
}

impl OcrRun {
    pub fn start() -> (r: OcrRun)
        ensures
            views(r.pages@) == Seq::<Seq<char>>::empty(),
    {
        let r = OcrRun { pages: Vec::new() };
        assert(views(r.pages@) =~= Seq::<Seq<char>>::empty());
        r
    }

    /// Takes in what the model read of a page, `None` where it failed: then no other page
    /// is tried. The result tells whether to go on.
    pub fn on_page(&mut self, read: Option<String>) -> (r: bool)
        ensures
            r == read is Some,
            views(final(self).pages@) == (match read {
                Some(t) => if is_blank(t@) {
                    views(old(self).pages@)
                } else {
                    views(old(self).pages@).push(t@)
                },
                None => views(old(self).pages@),
            }),
    {
        match read {
            Some(t) => {
                if !str_is_blank(t.as_str()) {
                    let ghost before = views(self.pages@);
                    let ghost tv = t@;
                    self.pages.push(t);
                    assert(views(self.pages@) =~= before.push(tv));
                }
                true
            },
            None => false,
        }
    }

    /// The text of the pages; `None` where nothing was read.
    pub fn finish(&self) -> (r: Option<String>)
        ensures
            opt(r) == (if is_blank(join(views(self.pages@), "\n\n"@)) {
                None
            } else {
                Some(join(views(self.pages@), "\n\n"@))
            }),
    {
        let s = joined(&self.pages, "\n\n");
        if str_is_blank(s.as_str()) {
            None
        } else {
            Some(s)
        }
    }
}

// ---------------------------------------------------------------------------
// Bytes that may be text
// ---------------------------------------------------------------------------

/// How many bytes of an unknown file are looked at.
pub const SAMPLE_BYTES: usize = 32768;

pub open spec fn is_text_byte(b: u8) -> bool {
    b == 9 || b == 10 || b == 13 || 0x20 <= b <= 0x7E || b >= 0x80
}

pub open spec fn text_bytes(s: Seq<u8>) -> nat
    decreases s.len(),
{
    if s.len() == 0 {
        0
    } else {
        text_bytes(s.drop_last()) + if is_text_byte(s.last()) {
            1nat
        } else {
            0nat
        }
    }
}

/// At least `percent` of the bytes are those of a text; no byte at all is no text.
pub open spec fn text_share(s: Seq<u8>, percent: nat) -> bool {
    s.len() > 0 && text_bytes(s) * 100 >= percent * s.len()
}

/// How many bytes of a sample are those of a text.
pub fn count_text_bytes(s: &[u8]) -> (r: usize)
    ensures
        r == text_bytes(s@),
        r <= s@.len(),
{
    let mut n: usize = 0;
    let mut i: usize = 0;
    assert(s@.take(0) =~= Seq::<u8>::empty());
    while i < s.len()
        invariant
            i <= s.len(),
            n <= i,
            n == text_bytes(s@.take(i as int)),
        decreases s.len() - i,
    {
        assert(s@.take(i + 1).drop_last() =~= s@.take(i as int));
        assert(s@.take(i + 1).last() == s@[i as int]);
        let b = s[i];
        if b == 9 || b == 10 || b == 13 || (0x20 <= b && b <= 0x7E) || b >= 0x80 {
            n = n + 1;
        }
        i = i + 1;
    }
    assert(s@.take(i as int) =~= s@);
    n
}

/// Whether at least `percent` of a sample are bytes of a text.
pub fn has_text_share(s: &[u8], percent: u8) -> (r: bool)
    requires
        percent <= 100,
    ensures
        r == text_share(s@, percent as nat),
{
    let good = count_text_bytes(s) as u128;
    let len = s.len() as u128;
    let p = percent as u128;
    assert(p * len <= 100 * len) by (nonlinear_arith)
        requires
            p <= 100,
    ;
    len > 0 && good * 100 >= p * len
}

// ---------------------------------------------------------------------------
// What is kept of a document
// ---------------------------------------------------------------------------

/// A tag is open at the end: behind some `<` no `>` has come yet.
pub open spec fn tag_is_open(xml: Seq<char>) -> bool {
    exists|j: int|
        0 <= j < xml.len() && #[trigger] xml[j] == '<' && forall|k: int|
            j < k < xml.len() ==> xml[k] != '>'
}

/// What a document shows: the characters outside of its tags, with a space for each tag.
pub open spec fn shown(xml: Seq<char>) -> Seq<char>
    decreases xml.len(),
{
    if xml.len() == 0 {
        Seq::empty()
    } else {
        let before = xml.drop_last();
        let c = xml.last();
        if c == '<' {
            shown(before).push(' ')
        } else if c == '>' || tag_is_open(before) {
            shown(before)
        } else {
            shown(before).push(c)
        }
    }
}

proof fn lemma_tag_is_open(xml: Seq<char>)
    requires
        xml.len() > 0,
    ensures
        tag_is_open(xml) == (xml.last() == '<' || (xml.last() != '>' && tag_is_open(
            xml.drop_last(),
        ))),
{
    let before = xml.drop_last();
    if xml.last() == '<' {
        assert(xml[xml.len() - 1] == '<');
    }
    if tag_is_open(before) && xml.last() != '>' {
        let j = choose|j: int|
            0 <= j < before.len() && #[trigger] before[j] == '<' && forall|k: int|
                j < k < before.len() ==> before[k] != '>';
        assert(xml[j] == '<');
        assert forall|k: int| j < k < xml.len() implies xml[k] != '>' by {
            if k < before.len() {
                assert(before[k] == xml[k]);
            }
        }
    }
    if tag_is_open(xml) && xml.last() != '<' {
        let j = choose|j: int|
            0 <= j < xml.len() && #[trigger] xml[j] == '<' && forall|k: int|
                j < k < xml.len() ==> xml[k] != '>';
        assert(before[j] == '<');
        assert(xml[xml.len() - 1] != '>');
    }
}

proof fn lemma_stripped(start: Seq<char>, xml: Seq<char>)
    ensures
        ({
            let out = stripped(start, xml).out;
            let want = start + shown(xml);
            &&& stripped(start, xml).in_tag == tag_is_open(xml)
            &&& reading(out) == reading(want)
            &&& (out.len() == 0 || is_space(out.last())) == (want.len() == 0 || is_space(want.last()))
            &&& start.len() <= out.len() && out.take(start.len() as int) == start
        }),
    decreases xml.len(),
{
    if xml.len() == 0 {
        assert(start + shown(xml) =~= start);
        assert(start.take(start.len() as int) =~= start);
    } else {
        let before = xml.drop_last();
        let c = xml.last();
        lemma_stripped(start, before);
        lemma_tag_is_open(xml);
        let a = stripped(start, before).out;
        let b = start + shown(before);
        let out = stripped(start, xml).out;
        let want = start + shown(xml);
        if c == '<' {
            assert(want =~= b.push(' '));
            assert(want.drop_last() =~= b);
            if out != a {
                assert(out.drop_last() =~= a);
            }
            assert(out.take(start.len() as int) =~= a.take(start.len() as int));
        } else if c == '>' || tag_is_open(before) {
            assert(want =~= b);
        } else {
            assert(want =~= b.push(c));
            assert(want.drop_last() =~= b);
            assert(out.drop_last() =~= a);
            assert(out.take(start.len() as int) =~= a.take(start.len() as int));
            if a.len() > 0 {
                assert(out[out.len() - 2] == a.last());
            }
            if b.len() > 0 {
                assert(want[want.len() - 2] == b.last());
            }
            if a.len() == 0 || b.len() == 0 {
                lemma_read_as_nothing(a, b);
            }
        }
    }
}

proof fn lemma_read_as_nothing(a: Seq<char>, b: Seq<char>)
    requires
        a.len() == 0 || b.len() == 0,
        reading(a) == reading(b),
    ensures
        reading(a).len() == 0,
        reading(b).len() == 0,
{
}

/// What is left of a document without its tags reads as what it shows: all of its words, each
/// apart from the next where a tag stood between them, behind what was there before.
pub proof fn law_stripping_keeps_what_is_shown(start: Seq<char>, xml: Seq<char>)
    ensures
        reading(stripped(start, xml).out) == reading(start + shown(xml)),
        start.len() <= stripped(start, xml).out.len(),
        stripped(start, xml).out.take(start.len() as int) == start,
{
    lemma_stripped(start, xml);
}

/// A text without tags shows all of itself; a tag shows as a space, whatever stands in it.
pub proof fn law_tags_are_read_as_spaces(a: Seq<char>, tag: Seq<char>, b: Seq<char>)
    requires
        forall|i: int| 0 <= i < a.len() ==> #[trigger] a[i] != '<' && a[i] != '>',
        forall|i: int| 0 <= i < tag.len() ==> #[trigger] tag[i] != '<' && tag[i] != '>',
        forall|i: int| 0 <= i < b.len() ==> #[trigger] b[i] != '<' && b[i] != '>',
    ensures
        shown(a) == a,
        shown(a.push('<') + tag + seq!['>'] + b) == a.push(' ') + b,
{
    lemma_shown_plain(Seq::empty(), a);
    assert(Seq::<char>::empty() + a =~= a);
    assert(shown(Seq::<char>::empty()) + a =~= a);
    let open = a.push('<');
    assert(open.drop_last() =~= a);
    assert(shown(open) == a.push(' '));
    assert(open[open.len() - 1] == '<');
    assert(tag_is_open(open));
    lemma_shown_inside(open, tag);
    let all = open + tag + seq!['>'];
    assert(all.drop_last() =~= open + tag);
    lemma_tag_is_open(all);
    lemma_shown_plain(all, b);
}

proof fn lemma_shown_plain(before: Seq<char>, b: Seq<char>)
    requires
        !tag_is_open(before),
        forall|i: int| 0 <= i < b.len() ==> #[trigger] b[i] != '<' && b[i] != '>',
    ensures
        shown(before + b) == shown(before) + b,
        !tag_is_open(before + b),
    decreases b.len(),
{
    if b.len() == 0 {
        assert(before + b =~= before);
        assert(shown(before) + b =~= shown(before));
    } else {
        let less = b.drop_last();
        assert forall|i: int| 0 <= i < less.len() implies #[trigger] less[i] != '<' && less[i] != '>' by {
            assert(less[i] == b[i]);
        }
        lemma_shown_plain(before, less);
        assert((before + b).drop_last() =~= before + less);
        lemma_tag_is_open(before + b);
        assert(b[b.len() - 1] != '<' && b[b.len() - 1] != '>');
        assert((before + b).last() == b.last());
        assert((shown(before) + less).push(b.last()) =~= shown(before) + b);
    }
}

proof fn lemma_shown_inside(before: Seq<char>, tag: Seq<char>)
    requires
        tag_is_open(before),
        forall|i: int| 0 <= i < tag.len() ==> #[trigger] tag[i] != '<' && tag[i] != '>',
    ensures
        shown(before + tag) == shown(before),
        tag_is_open(before + tag),
    decreases tag.len(),
{
    if tag.len() == 0 {
        assert(before + tag =~= before);
    } else {
        let less = tag.drop_last();
        assert forall|i: int| 0 <= i < less.len() implies #[trigger] less[i] != '<' && less[i] != '>' by {
            assert(less[i] == tag[i]);
        }
        lemma_shown_inside(before, less);
        assert((before + tag).drop_last() =~= before + less);
        lemma_tag_is_open(before + tag);
        assert(tag[tag.len() - 1] != '<' && tag[tag.len() - 1] != '>');
        assert((before + tag).last() == tag.last());
    }
}

/// The document of a word processor reads as its main part shows.
pub proof fn law_a_document_reads_as_its_main_part(archive: Seq<u8>)
    ensures
        match zip_text(archive, "word/document.xml"@) {
            Some(xml) => docx_text(archive) matches Some(t) && reading(t) == reading(shown(xml)),
            None => docx_text(archive) is None,
        },
{
    if let Some(xml) = zip_text(archive, "word/document.xml"@) {
        lemma_stripped(Seq::empty(), xml);
        assert(Seq::<char>::empty() + shown(xml) =~= shown(xml));
    }
}

/// The slides of a presentation, whatever their numbers are, and the shared strings of a
/// spreadsheet are the parts that hold text.
pub proof fn law_every_slide_is_a_part(number: Seq<char>, name: Seq<char>)
    ensures
        is_part(OfficeParts::Slides, "ppt/slides/slide"@ + number + ".xml"@),
        is_part(OfficeParts::Strings, "xl/sharedStrings.xml"@),
        is_part(OfficeParts::Strings, name) ==> name == "xl/sharedStrings.xml"@,
        is_part(OfficeParts::Slides, name) ==> name.len() >= 16 && name.take(16)
            == "ppt/slides/slide"@,
{
    reveal_strlit("ppt/slides/slide");
    reveal_strlit(".xml");
    let a = "ppt/slides/slide"@;
    let b = ".xml"@;
    let n = a + number + b;
    assert(n.subrange(0, a.len() as int) =~= a);
    assert(n.subrange(n.len() - b.len(), n.len() as int) =~= b);
    if is_part(OfficeParts::Slides, name) {
        assert(name.take(16) =~= name.subrange(0, 16));
    }
}

/// What is read from part `k` of an archive; nothing where it holds no text or cannot be read.
pub open spec fn part_reading(archive: Seq<u8>, which: OfficeParts, k: nat) -> Seq<char> {
    match zip_name(archive, k) {
        Some(name) => match zip_text(archive, name) {
            Some(xml) if is_part(which, name) => reading(shown(xml)),
            _ => Seq::empty(),
        },
        None => Seq::empty(),
    }
}

/// What is read from the first `n` parts of an archive, one after the other.
pub open spec fn parts_reading(archive: Seq<u8>, which: OfficeParts, n: nat) -> Seq<char>
    decreases n,
{
    if n == 0 {
        Seq::empty()
    } else {
        then_read(
            parts_reading(archive, which, (n - 1) as nat),
            part_reading(archive, which, (n - 1) as nat),
        )
    }
}

proof fn lemma_parts_text(archive: Seq<u8>, which: OfficeParts, n: nat)
    ensures
        reading(parts_text(archive, which, n)) == parts_reading(archive, which, n),
        parts_text(archive, which, n).len() > 0 ==> parts_text(archive, which, n).last() == '\n',
    decreases n,
{
    let t = parts_text(archive, which, n);
    if n == 0 {
        assert(reading(t) =~= Seq::<char>::empty());
    } else {
        let m = (n - 1) as nat;
        lemma_parts_text(archive, which, m);
        let before = parts_text(archive, which, m);
        let more = part_reading(archive, which, m);
        assert(then_read(reading(before), Seq::<char>::empty()) =~= reading(before));
        if let Some(name) = zip_name(archive, m) {
            if is_part(which, name) {
                if let Some(xml) = zip_text(archive, name) {
                    lemma_stripped(before, xml);
                    let body = stripped(before, xml).out;
                    assert(t.drop_last() =~= body);
                    assert(reading(t) == reading(body));
                    if before.len() == 0 {
                        assert(before + shown(xml) =~= shown(xml));
                        assert(reading(before) =~= Seq::<char>::empty());
                    } else {
                        let gap = seq!['\n'];
                        let head = before.drop_last();
                        assert(before + shown(xml) =~= head + gap + shown(xml));
                        lemma_reading_apart(head, gap, shown(xml));
                        assert(reading(before) == reading(head));
                    }
                }
            }
        }
    }
}

/// The text of an office archive reads as all of its parts that hold text, one after the
/// other; each part ends its line.
pub proof fn law_an_archive_reads_as_its_parts(archive: Seq<u8>, which: OfficeParts)
    ensures
        match zip_len(archive) {
            Some(n) => office_text(archive, which) matches Some(t) && reading(t) == parts_reading(
                archive,
                which,
                n,
            ) && (t.len() > 0 ==> t.last() == '\n'),
            None => office_text(archive, which) is None,
        },
{
    if let Some(n) = zip_len(archive) {
        lemma_parts_text(archive, which, n);
    }
}

/// Whatever part of an archive holds text, all of it stands in the text of the archive.
pub proof fn law_no_part_is_lost(archive: Seq<u8>, which: OfficeParts, k: nat)
    requires
        zip_len(archive) matches Some(n) && k < n,
    ensures
        office_text(archive, which) matches Some(t) && exists|at: int| #[trigger]
            crate::text::matches_at(reading(t), part_reading(archive, which, k), at),
{
    let n = zip_len(archive)->Some_0;
    lemma_parts_text(archive, which, n);
    lemma_part_stands(archive, which, k, n);
    let t = office_text(archive, which)->Some_0;
    let part = part_reading(archive, which, k);
    let at = choose|at: int| #[trigger]
        crate::text::matches_at(parts_reading(archive, which, n), part, at);
    assert(crate::text::matches_at(reading(t), part, at));
}

proof fn lemma_part_stands(archive: Seq<u8>, which: OfficeParts, k: nat, n: nat)
    requires
        k < n,
    ensures
        exists|at: int| #[trigger]
            crate::text::matches_at(
                parts_reading(archive, which, n),
                part_reading(archive, which, k),
                at,
            ),
    decreases n,
{
    let all = parts_reading(archive, which, n);
    let part = part_reading(archive, which, k);
    let m = (n - 1) as nat;
    let before = parts_reading(archive, which, m);
    if k == m {
        let at = all.len() - part.len();
        assert(all.subrange(at, at + part.len()) =~= part);
        assert(crate::text::matches_at(all, part, at));
    } else {
        lemma_part_stands(archive, which, k, m);
        let at = choose|at: int| #[trigger] crate::text::matches_at(before, part, at);
        let last = part_reading(archive, which, m);
        if before.len() == 0 {
            assert(part =~= Seq::<char>::empty());
            assert(all.subrange(0, 0) =~= part);
            assert(crate::text::matches_at(all, part, 0));
        } else {
            assert(all.subrange(at, at + part.len()) =~= before.subrange(at, at + part.len()));
            assert(crate::text::matches_at(all, part, at));
        }
    }
}

proof fn lemma_found_at(hay: Seq<char>, pat: Seq<char>, from: int, i: int)
    requires
        0 <= from <= i,
        crate::text::matches_at(hay, pat, i),
        forall|k: int| from <= k < i ==> !crate::text::matches_at(hay, pat, k),
    ensures
        find_from(hay, pat, from) == Some(i),
{
    crate::text::lemma_find_from(hay, pat, from);
}

/// A script or a style sheet is not read, and what stands around it is: a block between
/// `open` and `close`, in any letter case, counts as a space.
pub proof fn law_a_block_is_read_as_a_space(
    open: Seq<char>,
    close: Seq<char>,
    before: Seq<char>,
    opened: Seq<char>,
    inside: Seq<char>,
    closed: Seq<char>,
    behind: Seq<char>,
)
    requires
        open.len() > 1,
        close.len() > 1,
        open[0] == '<' && close[0] == '<' && open[1] != close[1],
        forall|i: int| 0 < i < open.len() ==> #[trigger] open[i] != '<',
        ascii_lower_all(opened) == open,
        ascii_lower_all(closed) == close,
        forall|i: int| 0 <= i < before.len() ==> #[trigger] before[i] != '<',
        forall|i: int| 0 <= i < inside.len() ==> #[trigger] inside[i] != '<',
    ensures
        without_blocks(before + opened + inside + closed + behind, open, close) == without_blocks(
            before + seq![' '] + behind,
            open,
            close,
        ),
{
    let s = before + opened + inside + closed + behind;
    let lower = ascii_lower_all(s);
    let start = before.len() as int;
    let at = start + open.len() + inside.len();
    let end = at + close.len();
    assert(opened.len() == open.len() && closed.len() == close.len());
    assert forall|k: int| 0 <= k < at && k != start implies #[trigger] lower[k] != '<' by {
        if k < start {
            assert(s[k] == before[k]);
        } else if k < start + open.len() {
            assert(s[k] == opened[k - start]);
            assert(open[k - start] != '<');
            assert(ascii_lower_all(opened)[k - start] == lower[k]);
        } else {
            assert(s[k] == inside[k - start - open.len()]);
        }
    }
    assert(lower.subrange(start, start + open.len()) =~= open) by {
        assert forall|k: int| 0 <= k < open.len() implies lower[start + k] == open[k] by {
            assert(s[start + k] == opened[k]);
            assert(ascii_lower_all(opened)[k] == lower[start + k]);
        }
    }
    assert(lower.subrange(at, end) =~= close) by {
        assert forall|k: int| 0 <= k < close.len() implies lower[at + k] == close[k] by {
            assert(s[at + k] == closed[k]);
            assert(ascii_lower_all(closed)[k] == lower[at + k]);
        }
    }
    assert forall|k: int| 0 <= k < start implies !crate::text::matches_at(lower, open, k) by {
        if crate::text::matches_at(lower, open, k) {
            assert(lower.subrange(k, k + open.len())[0] == lower[k]);
        }
    }
    lemma_found_at(lower, open, 0, start);
    assert forall|k: int| start <= k < at implies !crate::text::matches_at(lower, close, k) by {
        if crate::text::matches_at(lower, close, k) {
            assert(lower.subrange(k, k + close.len())[0] == lower[k]);
            assert(lower.subrange(k, k + close.len())[1] == lower[k + 1]);
            assert(lower.subrange(start, start + open.len())[1] == lower[start + 1]);
        }
    }
    lemma_found_at(lower, close, start, at);
    assert(s.take(start) =~= before);
    assert(s.skip(end) =~= behind);
}

proof fn lemma_replace_none(s: Seq<char>, pat: Seq<char>, with: Seq<char>, from: int)
    requires
        pat.len() > 0,
        0 <= from <= s.len(),
        forall|i: int| from <= i < s.len() ==> #[trigger] s[i] != pat[0],
    ensures
        crate::text::replace_from(s, pat, with, from) == s.skip(from),
{
    crate::text::lemma_find_from(s, pat, from);
    if let Some(i) = find_from(s, pat, from) {
        assert(s.subrange(i, i + pat.len())[0] == s[i]);
    }
    assert(s.subrange(from, s.len() as int) =~= s.skip(from));
}

proof fn lemma_replace_one(a: Seq<char>, pat: Seq<char>, b: Seq<char>, with: Seq<char>)
    requires
        pat.len() > 0,
        forall|i: int| 0 <= i < a.len() ==> #[trigger] a[i] != pat[0],
        forall|i: int| 0 <= i < b.len() ==> #[trigger] b[i] != pat[0],
    ensures
        replace_all(a + pat + b, pat, with) == a + with + b,
{
    let s = a + pat + b;
    let at = a.len() as int;
    let next = at + pat.len();
    assert(s.subrange(at, next) =~= pat);
    assert forall|k: int| 0 <= k < at implies !crate::text::matches_at(s, pat, k) by {
        if crate::text::matches_at(s, pat, k) {
            assert(s.subrange(k, k + pat.len())[0] == s[k]);
            assert(s[k] == a[k]);
        }
    }
    lemma_found_at(s, pat, 0, at);
    assert forall|i: int| next <= i < s.len() implies #[trigger] s[i] != pat[0] by {
        assert(s[i] == b[i - next]);
    }
    lemma_replace_none(s, pat, with, next);
    assert(s.subrange(0, at) =~= a);
    assert(s.skip(next) =~= b);
}

proof fn lemma_replace_other(a: Seq<char>, entity: Seq<char>, b: Seq<char>, pat: Seq<char>, with: Seq<char>, k: int)
    requires
        pat.len() > 0,
        0 < k < pat.len(),
        entity.len() > 0,
        k < entity.len(),
        entity[0] == pat[0],
        entity[k] != pat[k],
        forall|i: int| 0 < i < entity.len() ==> #[trigger] entity[i] != pat[0],
        forall|i: int| 0 <= i < a.len() ==> #[trigger] a[i] != pat[0],
        forall|i: int| 0 <= i < b.len() ==> #[trigger] b[i] != pat[0],
    ensures
        replace_all(a + entity + b, pat, with) == a + entity + b,
{
    let s = a + entity + b;
    let at = a.len() as int;
    crate::text::lemma_find_from(s, pat, 0);
    if let Some(i) = find_from(s, pat, 0) {
        assert(s.subrange(i, i + pat.len()) == pat);
        assert(s.subrange(i, i + pat.len())[0] == s[i]);
        assert(s.subrange(i, i + pat.len())[k] == s[i + k]);
        if i < at {
            assert(s[i] == a[i]);
        } else if i == at {
            assert(s[i + k] == entity[k]);
        } else if i < at + entity.len() {
            assert(s[i] == entity[i - at]);
        } else {
            assert(s[i] == b[i - at - entity.len()]);
        }
    }
    assert(s.subrange(0, s.len() as int) =~= s);
}

pub open spec fn no_ampersand(s: Seq<char>) -> bool {
    forall|i: int| 0 <= i < s.len() ==> #[trigger] s[i] != '&'
}

/// A text without an ampersand holds no entity and stays as it is.
pub proof fn law_what_holds_no_entity_stays(s: Seq<char>)
    requires
        no_ampersand(s),
    ensures
        decoded(s) == s,
{
    reveal_strlit("&nbsp;");
    reveal_strlit("&amp;");
    reveal_strlit("&lt;");
    reveal_strlit("&gt;");
    reveal_strlit("&quot;");
    reveal_strlit("&#39;");
    assert(s.skip(0) =~= s);
    lemma_replace_none(s, "&nbsp;"@, " "@, 0);
    lemma_replace_none(s, "&amp;"@, "&"@, 0);
    lemma_replace_none(s, "&lt;"@, "<"@, 0);
    lemma_replace_none(s, "&gt;"@, ">"@, 0);
    lemma_replace_none(s, "&quot;"@, "\""@, 0);
    lemma_replace_none(s, "&#39;"@, "'"@, 0);
}

/// A page without blocks and entities reads as it shows.
pub proof fn law_a_page_reads_as_it_shows(html: Seq<char>)
    requires
        no_ampersand(html),
        find(ascii_lower_all(html), "<script"@) is None,
        find(ascii_lower_all(html), "<style"@) is None,
    ensures
        reading(page_text(html)) == reading(shown(html)),
{
    lemma_stripped(Seq::empty(), html);
    assert(Seq::<char>::empty() + shown(html) =~= shown(html));
    let out = stripped(Seq::empty(), html).out;
    lemma_stripped_keeps_no_ampersand(html);
    law_what_holds_no_entity_stays(out);
}

proof fn lemma_stripped_keeps_no_ampersand(xml: Seq<char>)
    requires
        no_ampersand(xml),
    ensures
        no_ampersand(stripped(Seq::empty(), xml).out),
    decreases xml.len(),
{
    if xml.len() > 0 {
        let before = xml.drop_last();
        assert forall|i: int| 0 <= i < before.len() implies #[trigger] before[i] != '&' by {
            assert(before[i] == xml[i]);
        }
        lemma_stripped_keeps_no_ampersand(before);
        let a = stripped(Seq::empty(), before).out;
        let out = stripped(Seq::empty(), xml).out;
        assert(xml[xml.len() - 1] != '&');
        assert forall|i: int| 0 <= i < out.len() implies #[trigger] out[i] != '&' by {
            if i < a.len() {
                assert(out[i] == a[i]);
            }
        }
    }
}

/// Each entity is read as the character that it stands for.
pub proof fn law_entities_are_read(a: Seq<char>, b: Seq<char>)
    requires
        no_ampersand(a),
        no_ampersand(b),
    ensures
        decoded(a + "&nbsp;"@ + b) == a + seq![' '] + b,
        decoded(a + "&lt;"@ + b) == a + seq!['<'] + b,
        decoded(a + "&gt;"@ + b) == a + seq!['>'] + b,
        decoded(a + "&quot;"@ + b) == a + seq!['"'] + b,
        decoded(a + "&#39;"@ + b) == a + seq!['\''] + b,
{
    reveal_strlit("&nbsp;");
    reveal_strlit("&amp;");
    reveal_strlit("&lt;");
    reveal_strlit("&gt;");
    reveal_strlit("&quot;");
    reveal_strlit("&#39;");
    reveal_strlit(" ");
    reveal_strlit("&");
    reveal_strlit("<");
    reveal_strlit(">");
    reveal_strlit("\"");
    reveal_strlit("'");
    assert(" "@ =~= seq![' ']);
    assert("<"@ =~= seq!['<']);
    assert(">"@ =~= seq!['>']);
    assert("\""@ =~= seq!['"']);
    assert("'"@ =~= seq!['\'']);
    let nbsp = a + " "@ + b;
    assert(nbsp.skip(0) =~= nbsp);
    lemma_replace_one(a, "&nbsp;"@, b, " "@);
    lemma_replace_none(nbsp, "&amp;"@, "&"@, 0);
    lemma_replace_none(nbsp, "&lt;"@, "<"@, 0);
    lemma_replace_none(nbsp, "&gt;"@, ">"@, 0);
    lemma_replace_none(nbsp, "&quot;"@, "\""@, 0);
    lemma_replace_none(nbsp, "&#39;"@, "'"@, 0);
    let lt = a + "<"@ + b;
    assert(lt.skip(0) =~= lt);
    lemma_replace_other(a, "&lt;"@, b, "&nbsp;"@, " "@, 1);
    lemma_replace_other(a, "&lt;"@, b, "&amp;"@, "&"@, 1);
    lemma_replace_one(a, "&lt;"@, b, "<"@);
    lemma_replace_none(lt, "&gt;"@, ">"@, 0);
    lemma_replace_none(lt, "&quot;"@, "\""@, 0);
    lemma_replace_none(lt, "&#39;"@, "'"@, 0);
    let gt = a + ">"@ + b;
    assert(gt.skip(0) =~= gt);
    lemma_replace_other(a, "&gt;"@, b, "&nbsp;"@, " "@, 1);
    lemma_replace_other(a, "&gt;"@, b, "&amp;"@, "&"@, 1);
    lemma_replace_other(a, "&gt;"@, b, "&lt;"@, "<"@, 1);
    lemma_replace_one(a, "&gt;"@, b, ">"@);
    lemma_replace_none(gt, "&quot;"@, "\""@, 0);
    lemma_replace_none(gt, "&#39;"@, "'"@, 0);
    let quot = a + "\""@ + b;
    assert(quot.skip(0) =~= quot);
    lemma_replace_other(a, "&quot;"@, b, "&nbsp;"@, " "@, 1);
    lemma_replace_other(a, "&quot;"@, b, "&amp;"@, "&"@, 1);
    lemma_replace_other(a, "&quot;"@, b, "&lt;"@, "<"@, 1);
    lemma_replace_other(a, "&quot;"@, b, "&gt;"@, ">"@, 1);
    lemma_replace_one(a, "&quot;"@, b, "\""@);
    lemma_replace_none(quot, "&#39;"@, "'"@, 0);
    lemma_replace_other(a, "&#39;"@, b, "&nbsp;"@, " "@, 1);
    lemma_replace_other(a, "&#39;"@, b, "&amp;"@, "&"@, 1);
    lemma_replace_other(a, "&#39;"@, b, "&lt;"@, "<"@, 1);
    lemma_replace_other(a, "&#39;"@, b, "&gt;"@, ">"@, 1);
    lemma_replace_other(a, "&#39;"@, b, "&quot;"@, "\""@, 1);
    lemma_replace_one(a, "&#39;"@, b, "'"@);
}

/// Every picture of a document is taken, as far as the limit goes, and nothing else.
pub proof fn law_every_picture_is_taken(
    streams: Seq<PdfStream>,
    found: Seq<Option<Seq<u8>>>,
    max: nat,
    i: int,
)
    requires
        0 <= i < streams.len() <= found.len(),
        jpeg_of(streams[i], found[i]) is Some,
        streams.len() <= max,
    ensures
        jpegs(streams, found, max).contains(jpeg_of(streams[i], found[i])->Some_0),
        jpegs(streams, found, max).len() <= streams.len(),
    decreases streams.len(),
{
    let less = streams.drop_last();
    let before = jpegs(less, found, max);
    let after = jpegs(streams, found, max);
    lemma_no_more_pictures(less, found, max);
    if i < less.len() {
        assert(less[i] == streams[i]);
        law_every_picture_is_taken(less, found, max, i);
        let b = jpeg_of(streams[i], found[i])->Some_0;
        let k = choose|k: int| 0 <= k < before.len() && before[k] == b;
        assert(after[k] == b);
    } else {
        assert(after[before.len() as int] == jpeg_of(streams[i], found[i])->Some_0);
    }
}

proof fn lemma_no_more_pictures(streams: Seq<PdfStream>, found: Seq<Option<Seq<u8>>>, max: nat)
    ensures
        jpegs(streams, found, max).len() <= streams.len(),
        jpegs(streams, found, max).len() <= max,
    decreases streams.len(),
{
    if streams.len() > 0 {
        lemma_no_more_pictures(streams.drop_last(), found, max);
    }
}

/// What is text in a file is counted over all of it.
pub proof fn law_text_is_counted_everywhere(a: Seq<u8>, b: Seq<u8>)
    ensures
        text_bytes(a + b) == text_bytes(a) + text_bytes(b),
        (forall|i: int| 0 <= i < b.len() ==> 0x20 <= #[trigger] b[i] <= 0x7E) ==> text_bytes(b)
            == b.len(),
        (forall|i: int| 0 <= i < b.len() ==> #[trigger] b[i] < 9) ==> text_bytes(b) == 0,
    decreases b.len(),
{
    if b.len() == 0 {
        assert(a + b =~= a);
    } else {
        let less = b.drop_last();
        assert((a + b).drop_last() =~= a + less);
        law_text_is_counted_everywhere(a, less);
        if forall|i: int| 0 <= i < b.len() ==> 0x20 <= #[trigger] b[i] <= 0x7E {
            assert(0x20 <= b[b.len() - 1] <= 0x7E);
            assert forall|i: int| 0 <= i < less.len() implies 0x20 <= #[trigger] less[i] <= 0x7E by {
                assert(less[i] == b[i]);
            }
        }
        if forall|i: int| 0 <= i < b.len() ==> #[trigger] b[i] < 9 {
            assert(b[b.len() - 1] < 9);
            assert forall|i: int| 0 <= i < less.len() implies #[trigger] less[i] < 9 by {
                assert(less[i] == b[i]);
            }
        }
    }
}

/// An ampersand that is written as an entity is read as one, where what follows it does not start
/// another entity.
pub proof fn law_an_ampersand_is_read(a: Seq<char>, c: char, b: Seq<char>)
    requires
        no_ampersand(a),
        no_ampersand(b),
        c != '&' && c != 'l' && c != 'g' && c != 'q' && c != '#',
    ensures
        decoded(a + "&amp;"@ + (seq![c] + b)) == a + seq!['&'] + (seq![c] + b),
{
    reveal_strlit("&nbsp;");
    reveal_strlit("&amp;");
    reveal_strlit("&lt;");
    reveal_strlit("&gt;");
    reveal_strlit("&quot;");
    reveal_strlit("&#39;");
    reveal_strlit("&");
    assert("&"@ =~= seq!['&']);
    let t = seq![c] + b;
    assert forall|i: int| 0 <= i < t.len() implies #[trigger] t[i] != '&' by {
        if i > 0 {
            assert(t[i] == b[i - 1]);
        }
    }
    lemma_replace_other(a, "&amp;"@, t, "&nbsp;"@, " "@, 1);
    lemma_replace_one(a, "&amp;"@, t, "&"@);
    let pair = seq!['&', c];
    assert(a + "&"@ + t =~= a + pair + b);
    lemma_replace_other(a, pair, b, "&lt;"@, "<"@, 1);
    lemma_replace_other(a, pair, b, "&gt;"@, ">"@, 1);
    lemma_replace_other(a, pair, b, "&quot;"@, "\""@, 1);
    lemma_replace_other(a, pair, b, "&#39;"@, "'"@, 1);
}

} // verus!
