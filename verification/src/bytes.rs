//! Bytes: digests, base64, images, compressed data, archives and what their first bytes tell.

use std::io::Read;

use base64::Engine;
use sha2::Digest;
use vstd::prelude::*;
use vstd::utf8::{decode_utf8, valid_utf8};

verus! {

// ---------------------------------------------------------------------------
// Text
// ---------------------------------------------------------------------------

/// What `String::from_utf8_lossy` returns.
pub uninterp spec fn utf8_lossy(bytes: Seq<u8>) -> Seq<char>;

/// Calls `String::from_utf8_lossy`. The result is named by `utf8_lossy`; bytes that are valid
/// UTF-8 are decoded as they are.
#[verifier::external_body]
pub(crate) fn lossy_text(bytes: &[u8]) -> (r: String)
    ensures
        r@ == utf8_lossy(bytes@),
        valid_utf8(bytes@) ==> r@ == decode_utf8(bytes@),
{
    String::from_utf8_lossy(bytes).into_owned()
}

/// Calls `std::str::from_utf8`, which accepts exactly the bytes that are valid UTF-8.
#[verifier::external_body]
pub(crate) fn is_utf8(bytes: &[u8]) -> (r: bool)
    ensures
        r == valid_utf8(bytes@),
{
    std::str::from_utf8(bytes).is_ok()
}

// ---------------------------------------------------------------------------
// Fingerprints
// ---------------------------------------------------------------------------

/// The SHA-256 digest of some bytes.
pub uninterp spec fn sha256(bytes: Seq<u8>) -> Seq<u8>;

/// Collects the bytes of a content, block by block, towards its digest. It holds the hasher
/// of the `sha2` crate.
#[verifier::external_body]
pub struct Fingerprinter {
    hasher: sha2::Sha256,
}

/// The bytes that a fingerprinter was given so far.
pub uninterp spec fn fed(f: &Fingerprinter) -> Seq<u8>;

/// Calls `sha2::Sha256::new`: a hasher that was given nothing yet.
#[verifier::external_body]
fn new_hasher() -> (r: Fingerprinter)
    ensures
        fed(&r) == Seq::<u8>::empty(),
{
    Fingerprinter { hasher: sha2::Sha256::new() }
}

/// Calls `update` of `sha2::Sha256`: the bytes are added behind those that were given before.
#[verifier::external_body]
fn update_hasher(f: &mut Fingerprinter, block: &[u8])
    ensures
        fed(final(f)) == fed(old(f)) + block@,
{
    f.hasher.update(block)
}

/// Calls `finalize` of `sha2::Sha256`: the digest of all the bytes that were given, which is
/// named by `sha256` and has 32 bytes.
#[verifier::external_body]
fn finish_hasher(f: Fingerprinter) -> (r: Vec<u8>)
    ensures
        r@ == sha256(fed(&f)),
        r@.len() == 32,
{
    f.hasher.finalize().to_vec()
}

pub open spec fn hex_of_byte(b: u8) -> Seq<char> {
    seq![crate::json::hex_digit(b as int / 16), crate::json::hex_digit(b as int % 16)]
}

/// Bytes in lower-case hexadecimal digits, two for each.
pub open spec fn hex(bytes: Seq<u8>) -> Seq<char>
    decreases bytes.len(),
{
    if bytes.len() == 0 {
        Seq::empty()
    } else {
        hex(bytes.drop_last()) + hex_of_byte(bytes.last())
    }
}

pub fn hex_text(bytes: &Vec<u8>) -> (r: String)
    ensures
        r@ == hex(bytes@),
{
    let mut out = String::new();
    let mut i: usize = 0;
    assert(out@ =~= hex(bytes@.take(0)));
    while i < bytes.len()
        invariant
            i <= bytes.len(),
            out@ == hex(bytes@.take(i as int)),
        decreases bytes.len() - i,
    {
        assert(bytes@.take(i + 1).drop_last() =~= bytes@.take(i as int));
        let ghost before = out@;
        out.push(crate::json::hex_of(bytes[i] / 16));
        out.push(crate::json::hex_of(bytes[i] % 16));
        assert(out@ =~= before + hex_of_byte(bytes@[i as int]));
        i = i + 1;
    }
    assert(bytes@.take(i as int) =~= bytes@);
    out
}

impl Fingerprinter {
    pub fn start() -> (r: Fingerprinter)
        ensures
            fed(&r) == Seq::<u8>::empty(),
    {
        new_hasher()
    }

    /// Takes the next block of the content.
    pub fn feed(&mut self, block: &[u8])
        ensures
            fed(final(self)) == fed(old(self)) + block@,
    {
        update_hasher(self, block)
    }

    /// The fingerprint of all that was taken: its SHA-256 digest in hexadecimal digits.
    pub fn finish(self) -> (r: String)
        ensures
            r@ == hex(sha256(fed(&self))),
    {
        hex_text(&finish_hasher(self))
    }
}

/// The fingerprint of a content: its SHA-256 digest in hexadecimal digits.
pub fn fingerprint(bytes: &[u8]) -> (r: String)
    ensures
        r@ == hex(sha256(bytes@)),
{
    let mut f = Fingerprinter::start();
    f.feed(bytes);
    assert(Seq::<u8>::empty() + bytes@ =~= bytes@);
    f.finish()
}

/// The fingerprint of a context: of a path and what stands for its state.
pub fn text_fingerprint(s: &str) -> (r: String)
    ensures
        r@ == hex(sha256(vstd::utf8::encode_utf8(s@))),
{
    fingerprint(s.as_bytes())
}

// ---------------------------------------------------------------------------
// Base64
// ---------------------------------------------------------------------------

/// The character of a group of six bits.
pub open spec fn b64_char(n: int) -> char {
    if n < 26 {
        (('A' as u32 + n) as u32) as char
    } else if n < 52 {
        (('a' as u32 + (n - 26)) as u32) as char
    } else if n < 62 {
        (('0' as u32 + (n - 52)) as u32) as char
    } else if n == 62 {
        '+'
    } else {
        '/'
    }
}

/// Bytes in base64: four characters for each three bytes, `=` filling the last group.
pub open spec fn b64(bytes: Seq<u8>) -> Seq<char>
    decreases bytes.len(),
{
    if bytes.len() == 0 {
        Seq::empty()
    } else if bytes.len() == 1 {
        let a = bytes[0] as int;
        seq![b64_char(a / 4), b64_char(a % 4 * 16), '=', '=']
    } else if bytes.len() == 2 {
        let a = bytes[0] as int;
        let b = bytes[1] as int;
        seq![b64_char(a / 4), b64_char(a % 4 * 16 + b / 16), b64_char(b % 16 * 4), '=']
    } else {
        let a = bytes[0] as int;
        let b = bytes[1] as int;
        let c = bytes[2] as int;
        seq![
            b64_char(a / 4),
            b64_char(a % 4 * 16 + b / 16),
            b64_char(b % 16 * 4 + c / 64),
            b64_char(c % 64),
        ] + b64(bytes.skip(3))
    }
}

/// The length of the base64 of `n` bytes.
pub open spec fn b64_len(n: nat) -> nat {
    4 * ((n + 2) / 3)
}

/// Calls `encode` of `base64::engine::general_purpose::STANDARD`: base64 with the standard
/// alphabet and padding. It cannot encode what is too long for its text to be allocated.
#[verifier::external_body]
pub(crate) fn base64_text(bytes: &[u8]) -> (r: String)
    requires
        b64_len(bytes@.len()) <= isize::MAX,
    ensures
        r@ == b64(bytes@),
{
    base64::engine::general_purpose::STANDARD.encode(bytes)
}

pub proof fn lemma_b64_len(bytes: Seq<u8>)
    ensures
        b64(bytes).len() == b64_len(bytes.len()),
    decreases bytes.len(),
{
    if bytes.len() >= 3 {
        lemma_b64_len(bytes.skip(3));
    }
}

/// Base64 can be written in parts: what comes first has to be a multiple of three bytes.
pub proof fn law_base64_is_written_in_parts(a: Seq<u8>, b: Seq<u8>)
    requires
        a.len() % 3 == 0,
    ensures
        b64(a + b) == b64(a) + b64(b),
    decreases a.len(),
{
    if a.len() == 0 {
        assert(a + b =~= b);
        assert(b64(a) + b64(b) =~= b64(b));
    } else {
        let whole = a + b;
        assert(whole.skip(3) =~= a.skip(3) + b);
        law_base64_is_written_in_parts(a.skip(3), b);
        let head = seq![
            b64_char(a[0] as int / 4),
            b64_char(a[0] as int % 4 * 16 + a[1] as int / 16),
            b64_char(a[1] as int % 16 * 4 + a[2] as int / 64),
            b64_char(a[2] as int % 64),
        ];
        assert(whole[0] == a[0] && whole[1] == a[1] && whole[2] == a[2]);
        assert(head + (b64(a.skip(3)) + b64(b)) =~= (head + b64(a.skip(3))) + b64(b));
    }
}

// ---------------------------------------------------------------------------
// What the first bytes tell
// ---------------------------------------------------------------------------

/// How many bytes tell the type of a file.
pub const HEAD_LEN: usize = 8192;

/// The first bytes of a file, as far as they tell its type.
pub open spec fn head_of(bytes: Seq<u8>) -> Seq<u8> {
    if bytes.len() <= HEAD_LEN {
        bytes
    } else {
        bytes.take(HEAD_LEN as int)
    }
}

/// The MIME type that `infer::get` finds in the first bytes of a file.
pub uninterp spec fn mime_of_bytes(bytes: Seq<u8>) -> Option<Seq<char>>;

/// Calls `infer::get` and takes the MIME type of what it finds, which is named by
/// `mime_of_bytes`. It looks at a chain of frames by recursion, one level for eight bytes, so
/// it is given no more than the head of a file.
#[verifier::external_body]
fn sniff_mime(bytes: &[u8]) -> (r: Option<String>)
    requires
        bytes@.len() <= HEAD_LEN,
    ensures
        crate::text::opt(r) == mime_of_bytes(bytes@),
{
    infer::get(bytes).map(|k| k.mime_type().to_string())
}

/// The MIME type that the first bytes of a file tell; what lies beyond them is not looked at.
pub fn sniff_head(bytes: &[u8]) -> (r: Option<String>)
    ensures
        crate::text::opt(r) == mime_of_bytes(head_of(bytes@)),
{
    if bytes.len() <= HEAD_LEN {
        sniff_mime(bytes)
    } else {
        let head = vstd::slice::slice_subrange(bytes, 0, HEAD_LEN);
        assert(head@ =~= head_of(bytes@));
        sniff_mime(head)
    }
}

// ---------------------------------------------------------------------------
// Images
// ---------------------------------------------------------------------------

/// The JPEG file that the `image` crate writes of an image: three bytes for each pixel, row
/// by row, its width and height, and the quality, a percentage.
pub uninterp spec fn jpeg_data(rgb: Seq<u8>, width: nat, height: nat, quality: nat) -> Seq<u8>;

/// An image that a JPEG file can hold, and whose pixels are all there.
pub open spec fn fits_jpeg(len: nat, width: nat, height: nat) -> bool {
    &&& 1 <= width <= 65535
    &&& 1 <= height <= 65535
    &&& 3 * width * height <= len
}

/// Calls `from_raw` of `image::RgbImage` and `encode_image` of
/// `image::codecs::jpeg::JpegEncoder`. It writes exactly the images that fit, and what it
/// writes is named by `jpeg_data`.
#[verifier::external_body]
pub(crate) fn write_jpeg(rgb: Vec<u8>, width: u32, height: u32, quality: u8) -> (r: Option<Vec<u8>>)
    ensures
        opt_bytes(r) == (if fits_jpeg(rgb@.len(), width as nat, height as nat) {
            Some(jpeg_data(rgb@, width as nat, height as nat, quality as nat))
        } else {
            None
        }),
{
    let raw = image::RgbImage::from_raw(width, height, rgb)?;
    let mut out = std::io::Cursor::new(Vec::new());
    image::codecs::jpeg::JpegEncoder::new_with_quality(&mut out, quality)
        .encode_image(&image::DynamicImage::ImageRgb8(raw)).ok()?;
    Some(out.into_inner())
}

// ---------------------------------------------------------------------------
// Compressed data
// ---------------------------------------------------------------------------

/// What `flate2` reads from a zlib stream; `None` where the stream is broken.
pub uninterp spec fn zlib_data(bytes: Seq<u8>) -> Option<Seq<u8>>;

/// What `flate2` reads from a raw deflate stream; `None` where the stream is broken.
pub uninterp spec fn deflate_data(bytes: Seq<u8>) -> Option<Seq<u8>>;

pub open spec fn opt_bytes(o: Option<Vec<u8>>) -> Option<Seq<u8>> {
    match o {
        Some(v) => Some(v@),
        None => None,
    }
}

/// Reads a `flate2::read::ZlibDecoder` to its end; the result is named by `zlib_data`.
#[verifier::external_body]
fn read_zlib(data: &[u8]) -> (r: Option<Vec<u8>>)
    ensures
        opt_bytes(r) == zlib_data(data@),
{
    let mut out = Vec::new();
    match flate2::read::ZlibDecoder::new(data).read_to_end(&mut out) {
        Ok(_) => Some(out),
        Err(_) => None,
    }
}

/// Reads a `flate2::read::DeflateDecoder` as far as it goes, and says whether that was its end.
/// What a whole stream gives is named by `deflate_data`. How much is kept of a broken one
/// depends on the sizes in which it is read, so nothing is said of it.
#[verifier::external_body]
fn read_deflate(data: &[u8]) -> (r: (Vec<u8>, bool))
    ensures
        match deflate_data(data@) {
            Some(d) => r.1 && r.0@ == d,
            None => !r.1,
        },
{
    let mut out = Vec::new();
    let whole = flate2::read::DeflateDecoder::new(data).read_to_end(&mut out).is_ok();
    (out, whole)
}

/// What is taken of compressed data: what it gives as zlib, else what it gives as raw deflate,
/// unless that is nothing.
pub open spec fn unpacked(zlib: Option<Seq<u8>>, raw: Seq<u8>) -> Option<Seq<u8>> {
    match zlib {
        Some(d) if d.len() > 0 => Some(d),
        _ => if raw.len() > 0 {
            Some(raw)
        } else {
            None
        },
    }
}

pub fn pick_unpacked(zlib: Option<Vec<u8>>, raw: Vec<u8>) -> (r: Option<Vec<u8>>)
    ensures
        opt_bytes(r) == unpacked(opt_bytes(zlib), raw@),
{
    if let Some(d) = zlib {
        if d.len() > 0 {
            return Some(d);
        }
    }
    if raw.len() > 0 {
        Some(raw)
    } else {
        None
    }
}

/// What compressed data may give. Only of a stream that is broken as zlib and as raw deflate is
/// it open how much.
pub open spec fn inflates_to(data: Seq<u8>, r: Option<Seq<u8>>) -> bool {
    exists|raw: Seq<u8>|
        (deflate_data(data) matches Some(d) ==> raw == d) && r == #[trigger] unpacked(
            zlib_data(data),
            raw,
        )
}

/// Unpacks compressed data. How much is had of a stream that is broken both ways is not said.
pub fn inflate(data: &[u8]) -> (r: Option<Vec<u8>>)
    ensures
        inflates_to(data@, opt_bytes(r)),
{
    let zlib = read_zlib(data);
    if let Some(d) = &zlib {
        if d.len() > 0 {
            proof {
                let raw = match deflate_data(data@) {
                    Some(x) => x,
                    None => Seq::empty(),
                };
                assert(opt_bytes(zlib) == unpacked(zlib_data(data@), raw));
            }
            return zlib;
        }
    }
    let (raw, _) = read_deflate(data);
    pick_unpacked(zlib, raw)
}

// ---------------------------------------------------------------------------
// Archives
// ---------------------------------------------------------------------------

/// The number of entries of a ZIP archive; `None` where the bytes are none.
pub uninterp spec fn zip_len(archive: Seq<u8>) -> Option<nat>;

/// The name of an entry of a ZIP archive, where it can be opened.
pub uninterp spec fn zip_name(archive: Seq<u8>, index: nat) -> Option<Seq<char>>;

/// The text of an entry of a ZIP archive, where it is there and is text.
pub uninterp spec fn zip_text(archive: Seq<u8>, name: Seq<char>) -> Option<Seq<char>>;

/// Opens a `zip::ZipArchive` and calls its `len`; the result is named by `zip_len`.
#[verifier::external_body]
pub(crate) fn archive_len(archive: &[u8]) -> (r: Option<usize>)
    ensures
        match r {
            Some(n) => zip_len(archive@) == Some(n as nat),
            None => zip_len(archive@) is None,
        },
{
    zip::ZipArchive::new(std::io::Cursor::new(archive)).ok().map(|a| a.len())
}

/// Opens a `zip::ZipArchive`, calls its `by_index` and takes the name of the entry; the
/// result is named by `zip_name`.
#[verifier::external_body]
pub(crate) fn archive_name(archive: &[u8], index: usize) -> (r: Option<String>)
    ensures
        crate::text::opt(r) == zip_name(archive@, index as nat),
{
    let mut a = zip::ZipArchive::new(std::io::Cursor::new(archive)).ok()?;
    let entry = a.by_index(index).ok()?;
    Some(entry.name().to_string())
}

/// Opens a `zip::ZipArchive`, calls its `by_name` and reads the entry with `read_to_string`;
/// the result is named by `zip_text`.
#[verifier::external_body]
pub(crate) fn archive_text(archive: &[u8], name: &str) -> (r: Option<String>)
    ensures
        crate::text::opt(r) == zip_text(archive@, name@),
{
    let mut a = zip::ZipArchive::new(std::io::Cursor::new(archive)).ok()?;
    let mut text = String::new();
    a.by_name(name).ok()?.read_to_string(&mut text).ok()?;
    Some(text)
}

/// The number that a character of base64 stands for.
pub open spec fn b64_value(c: char) -> int {
    if 'A' <= c <= 'Z' {
        c as int - 'A' as int
    } else if 'a' <= c <= 'z' {
        c as int - 'a' as int + 26
    } else if '0' <= c <= '9' {
        c as int - '0' as int + 52
    } else if c == '+' {
        62
    } else {
        63
    }
}

/// The bytes that a text in base64 stands for.
pub open spec fn b64_read(s: Seq<char>) -> Seq<u8>
    decreases s.len(),
{
    if s.len() < 4 {
        Seq::empty()
    } else {
        let a = (b64_value(s[0]) * 4 + b64_value(s[1]) / 16) as u8;
        let b = (b64_value(s[1]) % 16 * 16 + b64_value(s[2]) / 4) as u8;
        let c = (b64_value(s[2]) % 4 * 64 + b64_value(s[3])) as u8;
        if s[2] == '=' {
            seq![a]
        } else if s[3] == '=' {
            seq![a, b]
        } else {
            seq![a, b, c] + b64_read(s.skip(4))
        }
    }
}

proof fn lemma_b64_char(n: int)
    requires
        0 <= n < 64,
    ensures
        b64_value(b64_char(n)) == n,
        b64_char(n) != '=',
{
}

/// What is written in base64 reads back byte by byte.
pub proof fn law_base64_reads_back(bytes: Seq<u8>)
    ensures
        b64_read(b64(bytes)) == bytes,
    decreases bytes.len(),
{
    let s = b64(bytes);
    if bytes.len() == 0 {
        assert(b64_read(s) =~= bytes);
    } else if bytes.len() == 1 {
        let a = bytes[0] as int;
        lemma_b64_char(a / 4);
        lemma_b64_char(a % 4 * 16);
        assert(b64_read(s) =~= bytes);
    } else if bytes.len() == 2 {
        let a = bytes[0] as int;
        let b = bytes[1] as int;
        lemma_b64_char(a / 4);
        lemma_b64_char(a % 4 * 16 + b / 16);
        lemma_b64_char(b % 16 * 4);
        assert(b64_read(s) =~= bytes);
    } else {
        let a = bytes[0] as int;
        let b = bytes[1] as int;
        let c = bytes[2] as int;
        lemma_b64_char(a / 4);
        lemma_b64_char(a % 4 * 16 + b / 16);
        lemma_b64_char(b % 16 * 4 + c / 64);
        lemma_b64_char(c % 64);
        law_base64_reads_back(bytes.skip(3));
        assert(s.skip(4) =~= b64(bytes.skip(3)));
        assert(seq![bytes[0], bytes[1], bytes[2]] + bytes.skip(3) =~= bytes);
    }
}

/// The bytes that a text of hexadecimal digits stands for.
pub open spec fn hex_read(s: Seq<char>) -> Seq<u8>
    decreases s.len(),
{
    if s.len() < 2 {
        Seq::empty()
    } else {
        seq![(crate::json::hex_value(s[0]) * 16 + crate::json::hex_value(s[1])) as u8] + hex_read(
            s.skip(2),
        )
    }
}

/// A fingerprint tells every byte, so two that differ are written differently.
pub proof fn law_a_fingerprint_reads_back(bytes: Seq<u8>)
    ensures
        hex_read(hex(bytes)) == bytes,
        hex(bytes).len() == 2 * bytes.len(),
    decreases bytes.len(),
{
    if bytes.len() == 0 {
        assert(hex_read(hex(bytes)) =~= bytes);
    } else {
        let t = bytes.skip(1);
        let b = bytes[0];
        law_a_fingerprint_reads_back(t);
        assert(bytes =~= seq![b] + t);
        lemma_hex_first(b, t);
        let s = hex(bytes);
        assert(s.skip(2) =~= hex(t));
        assert(crate::json::hex_value(s[0]) == b as int / 16);
        assert(crate::json::hex_value(s[1]) == b as int % 16);
        assert(crate::json::hex_value(s[0]) * 16 + crate::json::hex_value(s[1]) == b as int);
    }
}

proof fn lemma_hex_first(b: u8, t: Seq<u8>)
    ensures
        hex(seq![b] + t) == hex_of_byte(b) + hex(t),
    decreases t.len(),
{
    let s = seq![b] + t;
    if t.len() == 0 {
        assert(s.drop_last() =~= Seq::<u8>::empty());
        assert(hex(s.drop_last()) =~= Seq::<char>::empty());
        assert(hex(s) =~= hex_of_byte(b) + hex(t));
    } else {
        lemma_hex_first(b, t.drop_last());
        assert(s.drop_last() =~= seq![b] + t.drop_last());
        assert(hex(s) =~= hex_of_byte(b) + hex(t));
    }
}

} // verus!
