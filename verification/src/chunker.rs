//! Structure-aware slicing of a text into chunks.
//!
//! The text is first cut on its own boundaries (paragraphs, then sentences, and only a
//! sentence that is still too long is cut into windows). These units are then packed
//! greedily up to the target size. Two neighbouring chunks overlap by a tail that starts
//! after a space, so that no word is cut.

use vstd::prelude::*;

use crate::reading::{
    all_space, ink, ink_all, lemma_ink_add, lemma_ink_all_add, lemma_ink_len, lemma_ink_one,
    lemma_ink_trim, lemma_reading_apart, lemma_reading_replace, lemma_reading_swap,
    lemma_reading_trim, reading, then_read,
};
use crate::text::{
    char_is_space, char_views, copied, find, find_from, index_of, is_space, join, lemma_find_from,
    lemma_split_joins, matches_at, part, push_all, replace_all, replaced, split, split_from,
    splitted, swap_char, swapped_char, to_chars, to_text, trim, trim_end, trim_start, trimmed,
};

verus! {

#[derive(Debug)]
pub struct Chunk {
    pub text: String,
    pub chunk_index: usize,
}

pub struct Chunker;

// ---------------------------------------------------------------------------
// Sentences and units
// ---------------------------------------------------------------------------

/// A sentence ends with the character at `i`: a line break, or a full stop, exclamation
/// mark or question mark before white space or at the end.
pub open spec fn ends_sentence(s: Seq<char>, i: int) -> bool {
    s[i] == '\n' || ((s[i] == '.' || s[i] == '!' || s[i] == '?') && (i + 1 >= s.len() || is_space(
        s[i + 1],
    )))
}

/// Where the sentence that runs from `i` stops.
pub open spec fn sentence_end(s: Seq<char>, i: int) -> int
    decreases s.len() - i,
{
    if i < 0 || i >= s.len() {
        s.len() as int
    } else if ends_sentence(s, i) {
        i + 1
    } else {
        sentence_end(s, i + 1)
    }
}

pub open spec fn one_unless_empty(s: Seq<char>) -> Seq<Seq<char>> {
    if s.len() == 0 {
        Seq::empty()
    } else {
        seq![s]
    }
}

/// The sentences from `from` on, trimmed, without the blank ones.
pub open spec fn sentences_from(s: Seq<char>, from: int) -> Seq<Seq<char>>
    decreases s.len() - from,
{
    if from < 0 || from >= s.len() {
        Seq::empty()
    } else {
        let e = sentence_end(s, from);
        if from < e <= s.len() {
            one_unless_empty(trim(s.subrange(from, e))) + sentences_from(s, e)
        } else {
            Seq::empty()
        }
    }
}

pub open spec fn sentences(s: Seq<char>) -> Seq<Seq<char>> {
    sentences_from(s, 0)
}

/// `s` from `from` on, cut into windows of `max` characters; the last may be shorter.
pub open spec fn windows_from(s: Seq<char>, max: nat, from: int) -> Seq<Seq<char>>
    decreases s.len() - from,
{
    if from < 0 || from >= s.len() || max == 0 {
        Seq::empty()
    } else if from + max >= s.len() {
        seq![s.subrange(from, s.len() as int)]
    } else {
        seq![s.subrange(from, from + max)] + windows_from(s, max, from + max)
    }
}

/// A sentence as units of at most `max` characters.
pub open spec fn sentence_units(s: Seq<char>, max: nat) -> Seq<Seq<char>> {
    if s.len() <= max {
        seq![s]
    } else {
        windows_from(s, max, 0)
    }
}

pub open spec fn sentences_units(list: Seq<Seq<char>>, max: nat) -> Seq<Seq<char>>
    decreases list.len(),
{
    if list.len() == 0 {
        Seq::empty()
    } else {
        sentences_units(list.drop_last(), max) + sentence_units(list.last(), max)
    }
}

/// A paragraph as units of at most `max` characters: whole where it fits, else by sentences.
pub open spec fn paragraph_units(p: Seq<char>, max: nat) -> Seq<Seq<char>> {
    let t = trim(p);
    if t.len() == 0 {
        Seq::empty()
    } else if t.len() <= max {
        seq![t]
    } else {
        sentences_units(sentences(t), max)
    }
}

pub open spec fn paragraphs_units(list: Seq<Seq<char>>, max: nat) -> Seq<Seq<char>>
    decreases list.len(),
{
    if list.len() == 0 {
        Seq::empty()
    } else {
        paragraphs_units(list.drop_last(), max) + paragraph_units(list.last(), max)
    }
}

/// The units of a text: its paragraphs, cut further where they are longer than `max`.
pub open spec fn text_units(content: Seq<char>, max: nat) -> Seq<Seq<char>> {
    paragraphs_units(split(content, seq!['\n', '\n']), max)
}

pub fn char_len(s: &[char]) -> (r: usize)
    ensures
        r == s@.len(),
{
    s.len()
}

pub fn split_sentences(s: &[char]) -> (r: Vec<Vec<char>>)
    ensures
        char_views(r@) == sentences(s@),
{
    let mut out: Vec<Vec<char>> = Vec::new();
    let mut start: usize = 0;
    let mut i: usize = 0;
    assert(char_views(out@) =~= Seq::<Seq<char>>::empty());
    while i < s.len()
        invariant
            start <= i <= s.len(),
            sentences(s@) == char_views(out@) + sentences_from(s@, start as int),
            start < s.len() ==> sentence_end(s@, start as int) == sentence_end(s@, i as int),
            start == s.len() ==> i == s.len(),
        decreases s.len() - i,
    {
        let c = s[i];
        let closes = (c == '.' || c == '!' || c == '?') && (i + 1 >= s.len() || char_is_space(
            s[i + 1],
        ));
        if closes || c == '\n' {
            let ghost before = char_views(out@);
            let ghost rest = sentences_from(s@, i + 1);
            let t = trimmed(part(s, start, i + 1));
            if t.len() > 0 {
                out.push(copied(t));
                assert(char_views(out@) =~= before.push(t@));
            }
            assert(char_views(out@) + rest =~= before + (one_unless_empty(t@) + rest));
            start = i + 1;
        }
        i = i + 1;
    }
    if start < s.len() {
        let ghost before = char_views(out@);
        let t = trimmed(part(s, start, s.len()));
        if t.len() > 0 {
            out.push(copied(t));
            assert(char_views(out@) =~= before.push(t@));
        }
        assert(sentences_from(s@, s@.len() as int) =~= Seq::<Seq<char>>::empty());
        assert(char_views(out@) =~= before + (one_unless_empty(t@) + sentences_from(
            s@,
            s@.len() as int,
        )));
    } else {
        assert(sentences_from(s@, start as int) =~= Seq::<Seq<char>>::empty());
        assert(char_views(out@) =~= sentences(s@));
    }
    out
}

/// Adds a sentence to the units, in windows of `max` characters where it is too long.
fn push_sentence(units: &mut Vec<Vec<char>>, s: &[char], max: usize)
    requires
        max > 0,
    ensures
        char_views(final(units)@) == char_views(old(units)@) + sentence_units(s@, max as nat),
{
    let ghost before = char_views(units@);
    if char_len(s) <= max {
        units.push(copied(s));
        assert(char_views(units@) =~= before + seq![s@]);
        return;
    }
    let mut from: usize = 0;
    while from < s.len()
        invariant
            max > 0,
            from <= s.len(),
            before + windows_from(s@, max as nat, 0) == char_views(units@) + windows_from(
                s@,
                max as nat,
                from as int,
            ),
        decreases s.len() - from,
    {
        let upto: usize = if max >= s.len() - from {
            s.len()
        } else {
            from + max
        };
        let ghost so_far = char_views(units@);
        let ghost rest = windows_from(s@, max as nat, upto as int);
        units.push(copied(part(s, from, upto)));
        assert(char_views(units@) =~= so_far.push(s@.subrange(from as int, upto as int)));
        proof {
            if upto == s@.len() {
                assert(rest =~= Seq::<Seq<char>>::empty());
            }
        }
        assert(char_views(units@) + rest =~= so_far + (seq![s@.subrange(from as int, upto as int)]
            + rest));
        assert(seq![s@.subrange(from as int, upto as int)] + rest =~= windows_from(
            s@,
            max as nat,
            from as int,
        ));
        from = upto;
    }
    assert(char_views(units@) =~= before + windows_from(s@, max as nat, 0));
}

pub fn split_units(content: &[char], max: usize) -> (r: Vec<Vec<char>>)
    requires
        max > 0,
    ensures
        char_views(r@) == text_units(content@, max as nat),
{
    let mut units: Vec<Vec<char>> = Vec::new();
    let mut gap: Vec<char> = Vec::new();
    gap.push('\n');
    gap.push('\n');
    assert(gap@ =~= seq!['\n', '\n']);
    let paras = splitted(content, gap.as_slice());
    let ghost list = char_views(paras@);
    let mut i: usize = 0;
    assert(char_views(units@) =~= Seq::<Seq<char>>::empty());
    while i < paras.len()
        invariant
            max > 0,
            i <= paras.len(),
            list == char_views(paras@),
            char_views(units@) == paragraphs_units(list.take(i as int), max as nat),
        decreases paras.len() - i,
    {
        assert(list.take(i + 1).drop_last() =~= list.take(i as int));
        assert(list.take(i + 1).last() == paras@[i as int]@);
        let ghost before = char_views(units@);
        let para = trimmed(paras[i].as_slice());
        if para.len() == 0 {
            assert(before + Seq::<Seq<char>>::empty() =~= before);
        } else if char_len(para) <= max {
            units.push(copied(para));
            assert(char_views(units@) =~= before + seq![para@]);
        } else {
            let sents = split_sentences(para);
            let ghost sl = char_views(sents@);
            let mut k: usize = 0;
            assert(before + sentences_units(sl.take(0), max as nat) =~= before);
            while k < sents.len()
                invariant
                    max > 0,
                    k <= sents.len(),
                    sl == char_views(sents@),
                    char_views(units@) == before + sentences_units(sl.take(k as int), max as nat),
                decreases sents.len() - k,
            {
                assert(sl.take(k + 1).drop_last() =~= sl.take(k as int));
                assert(sl.take(k + 1).last() == sents@[k as int]@);
                push_sentence(&mut units, sents[k].as_slice(), max);
                k = k + 1;
                assert(char_views(units@) =~= before + sentences_units(
                    sl.take(k as int),
                    max as nat,
                ));
            }
            assert(sl.take(k as int) =~= sl);
        }
        i = i + 1;
    }
    assert(list.take(i as int) =~= list);
    units
}

// ---------------------------------------------------------------------------
// Packing
// ---------------------------------------------------------------------------

/// The end of `s`, of about `n` characters, that the next chunk repeats: it starts after
/// the first space of the last `n` characters where there is one.
pub open spec fn tail_of(s: Seq<char>, n: nat) -> Seq<char> {
    if n == 0 {
        Seq::empty()
    } else if s.len() <= n {
        trim(s)
    } else {
        let end = s.subrange(s.len() - n, s.len() as int);
        match find(end, seq![' ']) {
            Some(p) => trim(end.subrange(p + 1, end.len() as int)),
            None => trim(end),
        }
    }
}

/// `chunks` with `text`, trimmed, at its end; a blank `text` adds nothing.
pub open spec fn with_chunk(chunks: Seq<Seq<char>>, text: Seq<char>) -> Seq<Seq<char>> {
    chunks + one_unless_empty(trim(text))
}

/// The finished chunks and the open one.
pub struct Packing {
    pub chunks: Seq<Seq<char>>,
    pub open: Seq<char>,
}

/// `unit` after `open`, with a space between the two where `open` holds anything.
pub open spec fn after(open: Seq<char>, unit: Seq<char>) -> Seq<char> {
    if open.len() == 0 {
        unit
    } else {
        open + seq![' '] + unit
    }
}

/// One step of the packing: where `unit` does not fit, the open chunk is closed first and
/// the new one begins with its tail.
pub open spec fn pack_step(p: Packing, unit: Seq<char>, size: nat, overlap: nat) -> Packing {
    if p.open.len() > 0 && p.open.len() + 1 + unit.len() > size {
        Packing {
            chunks: with_chunk(p.chunks, p.open),
            open: after(tail_of(p.open, overlap), unit),
        }
    } else {
        Packing { chunks: p.chunks, open: after(p.open, unit) }
    }
}

pub open spec fn pack(units: Seq<Seq<char>>, size: nat, overlap: nat) -> Packing
    decreases units.len(),
{
    if units.len() == 0 {
        Packing { chunks: Seq::empty(), open: Seq::empty() }
    } else {
        pack_step(pack(units.drop_last(), size, overlap), units.last(), size, overlap)
    }
}

/// The text with `\n` for every line break, trimmed.
pub open spec fn normalized(content: Seq<char>) -> Seq<char> {
    trim(swap_char(replace_all(content, seq!['\r', '\n'], seq!['\n']), '\r', '\n'))
}

pub open spec fn effective_size(chunk_size: nat) -> nat {
    if chunk_size == 0 {
        1
    } else {
        chunk_size
    }
}

/// At most half of the chunk size.
pub open spec fn effective_overlap(chunk_size: nat, overlap: nat) -> nat {
    let half = effective_size(chunk_size) / 2;
    if overlap <= half {
        overlap
    } else {
        half
    }
}

/// The texts of the chunks of a content.
pub open spec fn chunk_texts(content: Seq<char>, chunk_size: nat, overlap: nat) -> Seq<Seq<char>> {
    let text = normalized(content);
    let size = effective_size(chunk_size);
    if text.len() == 0 {
        Seq::empty()
    } else {
        let p = pack(text_units(text, size), size, effective_overlap(chunk_size, overlap));
        with_chunk(p.chunks, p.open)
    }
}

pub fn overlap_tail(s: &[char], n: usize) -> (r: Vec<char>)
    ensures
        r@ == tail_of(s@, n as nat),
{
    if n == 0 {
        return Vec::new();
    }
    if s.len() <= n {
        return copied(trimmed(s));
    }
    let end = part(s, s.len() - n, s.len());
    let mut blank: Vec<char> = Vec::new();
    blank.push(' ');
    assert(blank@ =~= seq![' ']);
    match index_of(end, blank.as_slice()) {
        Some(p) => copied(trimmed(part(end, p + 1, end.len()))),
        None => copied(trimmed(end)),
    }
}

/// The texts of a list of chunks.
pub open spec fn texts(chunks: Seq<Chunk>) -> Seq<Seq<char>> {
    Seq::new(chunks.len(), |i: int| chunks[i].text@)
}

/// Each chunk carries its own position.
pub open spec fn indexed(chunks: Seq<Chunk>) -> bool {
    forall|i: int| 0 <= i < chunks.len() ==> (#[trigger] chunks[i]).chunk_index == i
}

pub fn push_chunk(chunks: &mut Vec<Chunk>, text: &[char])
    requires
        indexed(old(chunks)@),
    ensures
        indexed(final(chunks)@),
        texts(final(chunks)@) == with_chunk(texts(old(chunks)@), text@),
{
    let t = trimmed(text);
    if t.len() == 0 {
        assert(texts(chunks@) =~= with_chunk(texts(chunks@), text@));
        return;
    }
    let ghost before = texts(chunks@);
    let index: usize = chunks.len();
    chunks.push(Chunk { text: to_text(t), chunk_index: index });
    assert(texts(chunks@) =~= before + seq![t@]);
}

impl Chunker {
    /// Cuts `content` into chunks of about `chunk_size` characters that overlap by about
    /// `overlap`, on paragraph, sentence and word boundaries.
    pub fn slice_text(content: &str, chunk_size: usize, overlap: usize) -> (r: Vec<Chunk>)
        ensures
            texts(r@) == chunk_texts(content@, chunk_size as nat, overlap as nat),
            indexed(r@),
    {
        let raw = to_chars(content);
        let mut crlf: Vec<char> = Vec::new();
        crlf.push('\r');
        crlf.push('\n');
        assert(crlf@ =~= seq!['\r', '\n']);
        let mut lf: Vec<char> = Vec::new();
        lf.push('\n');
        assert(lf@ =~= seq!['\n']);
        let unix = replaced(raw.as_slice(), crlf.as_slice(), lf.as_slice());
        let plain = swapped_char(unix.as_slice(), '\r', '\n');
        let text = trimmed(plain.as_slice());
        let mut chunks: Vec<Chunk> = Vec::new();
        assert(texts(chunks@) =~= Seq::<Seq<char>>::empty());
        if text.len() == 0 {
            return chunks;
        }
        let size: usize = if chunk_size == 0 {
            1
        } else {
            chunk_size
        };
        let lap: usize = if overlap <= size / 2 {
            overlap
        } else {
            size / 2
        };
        let units = split_units(text, size);
        let ghost list = char_views(units@);
        let mut open: Vec<char> = Vec::new();
        let mut i: usize = 0;
        assert(open@ =~= Seq::<char>::empty());
        while i < units.len()
            invariant
                i <= units.len(),
                list == char_views(units@),
                indexed(chunks@),
                texts(chunks@) == pack(list.take(i as int), size as nat, lap as nat).chunks,
                open@ == pack(list.take(i as int), size as nat, lap as nat).open,
            decreases units.len() - i,
        {
            assert(list.take(i + 1).drop_last() =~= list.take(i as int));
            assert(list.take(i + 1).last() == units@[i as int]@);
            let unit = units[i].as_slice();
            let n: usize = char_len(unit);
            if open.len() > 0 && (n >= size || open.len() >= size - n) {
                push_chunk(&mut chunks, open.as_slice());
                open = overlap_tail(open.as_slice(), lap);
            }
            if open.len() > 0 {
                open.push(' ');
                push_all(&mut open, unit);
            } else {
                open = copied(unit);
            }
            i = i + 1;
        }
        assert(list.take(i as int) =~= list);
        push_chunk(&mut chunks, open.as_slice());
        chunks
    }
}

// ---------------------------------------------------------------------------
// Laws
// ---------------------------------------------------------------------------

proof fn lemma_trim_start_len(s: Seq<char>)
    ensures
        trim_start(s).len() <= s.len(),
    decreases s.len(),
{
    if s.len() > 0 && is_space(s[0]) {
        lemma_trim_start_len(s.skip(1));
    }
}

proof fn lemma_trim_end_len(s: Seq<char>)
    ensures
        trim_end(s).len() <= s.len(),
    decreases s.len(),
{
    if s.len() > 0 && is_space(s.last()) {
        lemma_trim_end_len(s.drop_last());
    }
}

proof fn lemma_trim_len(s: Seq<char>)
    ensures
        trim(s).len() <= s.len(),
{
    lemma_trim_start_len(s);
    lemma_trim_end_len(trim_start(s));
}

/// Every unit holds something and at most `max` characters.
pub open spec fn units_fit(units: Seq<Seq<char>>, max: nat) -> bool {
    forall|i: int| 0 <= i < units.len() ==> 0 < (#[trigger] units[i]).len() <= max
}

proof fn lemma_units_fit_concat(a: Seq<Seq<char>>, b: Seq<Seq<char>>, max: nat)
    requires
        units_fit(a, max),
        units_fit(b, max),
    ensures
        units_fit(a + b, max),
{
    assert forall|i: int| 0 <= i < (a + b).len() implies 0 < (#[trigger] (a + b)[i]).len() <= max by {
        if i < a.len() {
            assert((a + b)[i] == a[i]);
        } else {
            assert((a + b)[i] == b[i - a.len()]);
        }
    }
}

proof fn lemma_windows_fit(s: Seq<char>, max: nat, from: int)
    ensures
        units_fit(windows_from(s, max, from), max),
    decreases s.len() - from,
{
    if from < 0 || from >= s.len() || max == 0 {
    } else if from + max >= s.len() {
    } else {
        lemma_windows_fit(s, max, from + max);
        lemma_units_fit_concat(
            seq![s.subrange(from, from + max)],
            windows_from(s, max, from + max),
            max,
        );
    }
}

proof fn lemma_sentences_nonempty(s: Seq<char>, from: int)
    ensures
        forall|i: int|
            0 <= i < sentences_from(s, from).len() ==> 0 < (#[trigger] sentences_from(s, from)[i]).len(),
    decreases s.len() - from,
{
    if 0 <= from < s.len() {
        let e = sentence_end(s, from);
        if from < e <= s.len() {
            lemma_sentences_nonempty(s, e);
            let a = one_unless_empty(trim(s.subrange(from, e)));
            let b = sentences_from(s, e);
            assert forall|i: int| 0 <= i < (a + b).len() implies 0 < (#[trigger] (a + b)[i]).len() by {
                if i < a.len() {
                    assert((a + b)[i] == a[i]);
                } else {
                    assert((a + b)[i] == b[i - a.len()]);
                }
            }
        }
    }
}

proof fn lemma_sentences_units_fit(list: Seq<Seq<char>>, max: nat)
    requires
        forall|i: int| 0 <= i < list.len() ==> 0 < (#[trigger] list[i]).len(),
    ensures
        units_fit(sentences_units(list, max), max),
    decreases list.len(),
{
    if list.len() > 0 {
        assert forall|i: int| 0 <= i < list.drop_last().len() implies 0 < (
        #[trigger] list.drop_last()[i]).len() by {
            assert(list.drop_last()[i] == list[i]);
        }
        lemma_sentences_units_fit(list.drop_last(), max);
        assert(list.last() == list[list.len() - 1]);
        lemma_windows_fit(list.last(), max, 0);
        lemma_units_fit_concat(
            sentences_units(list.drop_last(), max),
            sentence_units(list.last(), max),
            max,
        );
    }
}

proof fn lemma_paragraphs_units_fit(list: Seq<Seq<char>>, max: nat)
    ensures
        units_fit(paragraphs_units(list, max), max),
    decreases list.len(),
{
    if list.len() > 0 {
        lemma_paragraphs_units_fit(list.drop_last(), max);
        let t = trim(list.last());
        lemma_sentences_nonempty(t, 0);
        lemma_sentences_units_fit(sentences(t), max);
        lemma_units_fit_concat(
            paragraphs_units(list.drop_last(), max),
            paragraph_units(list.last(), max),
            max,
        );
    }
}

proof fn lemma_tail_len(s: Seq<char>, n: nat)
    ensures
        tail_of(s, n).len() <= n,
{
    if n > 0 && s.len() > n {
        let end = s.subrange(s.len() - n, s.len() as int);
        lemma_trim_len(end);
        crate::text::lemma_find_from(end, seq![' '], 0);
        if let Some(p) = find(end, seq![' ']) {
            lemma_trim_len(end.subrange(p + 1, end.len() as int));
        }
    } else {
        lemma_trim_len(s);
    }
}

spec fn limit(size: nat, overlap: nat) -> nat {
    if overlap == 0 {
        size
    } else {
        size + overlap + 1
    }
}

spec fn chunks_fit(chunks: Seq<Seq<char>>, max: nat) -> bool {
    forall|i: int| 0 <= i < chunks.len() ==> 0 < (#[trigger] chunks[i]).len() <= max
}

proof fn lemma_with_chunk_fit(chunks: Seq<Seq<char>>, text: Seq<char>, max: nat)
    requires
        chunks_fit(chunks, max),
        text.len() <= max,
    ensures
        chunks_fit(with_chunk(chunks, text), max),
{
    lemma_trim_len(text);
    let all = with_chunk(chunks, text);
    assert forall|i: int| 0 <= i < all.len() implies 0 < (#[trigger] all[i]).len() <= max by {
        if i < chunks.len() {
            assert(all[i] == chunks[i]);
        }
    }
}

proof fn lemma_pack_fits(units: Seq<Seq<char>>, size: nat, overlap: nat)
    requires
        units_fit(units, size),
    ensures
        chunks_fit(pack(units, size, overlap).chunks, limit(size, overlap)),
        pack(units, size, overlap).open.len() <= limit(size, overlap),
    decreases units.len(),
{
    if units.len() > 0 {
        let before = units.drop_last();
        assert forall|i: int| 0 <= i < before.len() implies 0 < (#[trigger] before[i]).len() <= size by {
            assert(before[i] == units[i]);
        }
        lemma_pack_fits(before, size, overlap);
        let p = pack(before, size, overlap);
        assert(units.last() == units[units.len() - 1]);
        lemma_tail_len(p.open, overlap);
        lemma_with_chunk_fit(p.chunks, p.open, limit(size, overlap));
    }
}

/// No chunk is empty, and none is longer than the chunk size, the overlap and the space
/// between them; so none is longer than twice the chunk size.
pub proof fn law_chunks_are_bounded(content: Seq<char>, chunk_size: nat, overlap: nat)
    ensures
        forall|i: int|
            0 <= i < chunk_texts(content, chunk_size, overlap).len() ==> 0 < (
            #[trigger] chunk_texts(content, chunk_size, overlap)[i]).len() <= effective_size(
                chunk_size,
            ) + effective_overlap(chunk_size, overlap) + 1,
        forall|i: int|
            0 <= i < chunk_texts(content, chunk_size, overlap).len() ==> (
            #[trigger] chunk_texts(content, chunk_size, overlap)[i]).len() <= 2 * effective_size(
                chunk_size,
            ),
{
    let text = normalized(content);
    let size = effective_size(chunk_size);
    let lap = effective_overlap(chunk_size, overlap);
    if text.len() > 0 {
        lemma_paragraphs_units_fit(split(text, seq!['\n', '\n']), size);
        let p = pack(text_units(text, size), size, lap);
        lemma_pack_fits(text_units(text, size), size, lap);
        lemma_with_chunk_fit(p.chunks, p.open, limit(size, lap));
        assert(limit(size, lap) <= 2 * size);
    }
}

/// A blank content has no chunk.
pub proof fn law_blank_content_has_no_chunk(content: Seq<char>, chunk_size: nat, overlap: nat)
    requires
        normalized(content).len() == 0,
    ensures
        chunk_texts(content, chunk_size, overlap).len() == 0,
{
}

proof fn lemma_trim_end_idempotent(s: Seq<char>)
    ensures
        trim_end(trim_end(s)) == trim_end(s),
        trim_end(s).len() > 0 ==> !is_space(trim_end(s).last()),
        trim_end(s).len() > 0 ==> s.len() > 0 && trim_end(s)[0] == s[0],
    decreases s.len(),
{
    if s.len() > 0 && is_space(s.last()) {
        lemma_trim_end_idempotent(s.drop_last());
    }
}

proof fn lemma_trim_start_first(s: Seq<char>)
    ensures
        trim_start(s).len() > 0 ==> !is_space(trim_start(s)[0]),
    decreases s.len(),
{
    if s.len() > 0 && is_space(s[0]) {
        lemma_trim_start_first(s.skip(1));
    }
}

/// Trimming twice is trimming once.
pub proof fn lemma_trim_idempotent(s: Seq<char>)
    ensures
        trim(trim(s)) == trim(s),
{
    lemma_trim_start_first(s);
    lemma_trim_end_idempotent(trim_start(s));
    let t = trim(s);
    assert(trim_start(t) == t);
}

/// A text of one paragraph that fits in the chunk size is one chunk, kept as it is.
pub proof fn law_short_paragraph_is_one_chunk(content: Seq<char>, chunk_size: nat, overlap: nat)
    requires
        0 < normalized(content).len() <= effective_size(chunk_size),
        find(normalized(content), seq!['\n', '\n']) is None,
    ensures
        chunk_texts(content, chunk_size, overlap) == seq![normalized(content)],
{
    let text = normalized(content);
    let size = effective_size(chunk_size);
    let lap = effective_overlap(chunk_size, overlap);
    let gap = seq!['\n', '\n'];
    lemma_trim_idempotent(swap_char(replace_all(content, seq!['\r', '\n'], seq!['\n']), '\r', '\n'));
    assert(text.subrange(0, text.len() as int) =~= text);
    assert(split(text, gap) =~= seq![text]);
    assert(seq![text].drop_last() =~= Seq::<Seq<char>>::empty());
    assert(paragraphs_units(Seq::<Seq<char>>::empty(), size) =~= Seq::<Seq<char>>::empty());
    assert(text_units(text, size) =~= seq![text]);
    let units = seq![text];
    assert(units.drop_last() =~= Seq::<Seq<char>>::empty());
    assert(pack(units.drop_last(), size, lap).open =~= Seq::<char>::empty());
    assert(pack(units, size, lap).open == text);
    assert(with_chunk(Seq::empty(), text) =~= seq![text]);
}

/// How many characters of white space `s` starts with.
spec fn lead(s: Seq<char>) -> int
    decreases s.len(),
{
    if s.len() > 0 && is_space(s[0]) {
        1 + lead(s.skip(1))
    } else {
        0
    }
}

/// How many characters of `s` are left without the white space at its end.
spec fn kept(s: Seq<char>) -> int
    decreases s.len(),
{
    if s.len() > 0 && is_space(s.last()) {
        kept(s.drop_last())
    } else {
        s.len() as int
    }
}

proof fn lemma_lead(s: Seq<char>)
    ensures
        0 <= lead(s) <= s.len(),
        trim_start(s) == s.skip(lead(s)),
        forall|k: int| 0 <= k < s.len() && !is_space(#[trigger] s[k]) ==> lead(s) <= k,
    decreases s.len(),
{
    if s.len() > 0 && is_space(s[0]) {
        let t = s.skip(1);
        lemma_lead(t);
        assert(t.skip(lead(t)) =~= s.skip(lead(s)));
        assert forall|k: int| 0 <= k < s.len() && !is_space(#[trigger] s[k]) implies lead(s) <= k by {
            assert(t[k - 1] == s[k]);
        }
    } else {
        assert(s.skip(0) =~= s);
    }
}

proof fn lemma_kept(s: Seq<char>)
    ensures
        0 <= kept(s) <= s.len(),
        trim_end(s) == s.take(kept(s)),
        forall|k: int| 0 <= k < s.len() && !is_space(#[trigger] s[k]) ==> k < kept(s),
    decreases s.len(),
{
    if s.len() > 0 && is_space(s.last()) {
        let t = s.drop_last();
        lemma_kept(t);
        assert(t.take(kept(t)) =~= s.take(kept(s)));
        assert forall|k: int| 0 <= k < s.len() && !is_space(#[trigger] s[k]) implies k < kept(s) by {
            assert(t[k] == s[k]);
        }
    } else {
        assert(s.take(s.len() as int) =~= s);
    }
}

/// `part` stands somewhere in `whole`.
pub open spec fn stands_in(whole: Seq<char>, part: Seq<char>) -> bool {
    exists|k: int| #[trigger] matches_at(whole, part, k)
}

/// What stands in a text still stands, trimmed, in the trimmed text.
proof fn lemma_trim_keeps(s: Seq<char>, u: Seq<char>, o: int)
    requires
        matches_at(s, u, o),
        trim(u).len() > 0,
    ensures
        stands_in(trim(s), trim(u)),
{
    lemma_lead(s);
    lemma_lead(u);
    let s1 = trim_start(s);
    let u1 = trim_start(u);
    lemma_kept(s1);
    lemma_kept(u1);
    lemma_trim_start_first(u);
    lemma_trim_end_idempotent(u1);
    let p = lead(u);
    let n = kept(u1);
    assert(s.subrange(o, o + u.len()) == u);
    assert(u[p] == u1[0] && !is_space(u[p]));
    assert(s[o + p] == u[p]);
    assert(trim(u).last() == u1[n - 1] && u1[n - 1] == u[p + n - 1]);
    assert(s[o + p + n - 1] == u[p + n - 1]);
    assert(lead(s) <= o + p);
    let q = o + p - lead(s);
    assert(s1[q + n - 1] == s[o + p + n - 1]);
    assert(q + n <= kept(s1));
    assert(trim(s).subrange(q, q + n) =~= trim(u)) by {
        assert forall|k: int| 0 <= k < n implies trim(s)[q + k] == trim(u)[k] by {
            assert(s.subrange(o, o + u.len())[p + k] == s[o + p + k]);
        }
    }
    assert(matches_at(trim(s), trim(u), q));
}

spec fn in_some(chunks: Seq<Seq<char>>, u: Seq<char>) -> bool {
    exists|j: int| 0 <= j < chunks.len() && stands_in(#[trigger] chunks[j], trim(u))
}

proof fn lemma_pack_covers(units: Seq<Seq<char>>, size: nat, overlap: nat, i: int)
    requires
        0 <= i < units.len(),
        trim(units[i]).len() > 0,
    ensures
        in_some(pack(units, size, overlap).chunks, units[i]) || stands_in(
            pack(units, size, overlap).open,
            units[i],
        ),
    decreases units.len(),
{
    let before = units.drop_last();
    let p = pack(before, size, overlap);
    let r = pack(units, size, overlap);
    let closes = p.open.len() > 0 && p.open.len() + 1 + units.last().len() > size;
    let base = if closes {
        tail_of(p.open, overlap)
    } else {
        p.open
    };
    if i == units.len() - 1 {
        let o: int = if base.len() == 0 {
            0
        } else {
            base.len() as int + 1
        };
        assert(r.open.subrange(o, o + units[i].len()) =~= units[i]);
        assert(matches_at(r.open, units[i], o));
    } else {
        assert(before[i] == units[i]);
        lemma_pack_covers(before, size, overlap, i);
        if in_some(p.chunks, units[i]) {
            let j = choose|j: int| 0 <= j < p.chunks.len() && stands_in(#[trigger] p.chunks[j], trim(units[i]));
            assert(r.chunks[j] == p.chunks[j]);
        } else {
            let o = choose|o: int| #[trigger] matches_at(p.open, units[i], o);
            if closes {
                lemma_trim_keeps(p.open, units[i], o);
                let k = choose|k: int| #[trigger] matches_at(trim(p.open), trim(units[i]), k);
                assert(trim(p.open).len() > 0);
                assert(r.chunks[p.chunks.len() as int] == trim(p.open));
            } else {
                assert(p.open.len() > 0) by {
                    lemma_trim_len(units[i]);
                }
                assert(r.open.subrange(o, o + units[i].len()) =~= p.open.subrange(
                    o,
                    o + units[i].len(),
                ));
                assert(matches_at(r.open, units[i], o));
            }
        }
    }
}

/// Slicing loses nothing: each unit of the text that holds more than white space stands,
/// trimmed and whole, in some chunk.
pub proof fn law_every_unit_is_in_a_chunk(content: Seq<char>, chunk_size: nat, overlap: nat, i: int)
    requires
        0 <= i < text_units(normalized(content), effective_size(chunk_size)).len(),
        trim(text_units(normalized(content), effective_size(chunk_size))[i]).len() > 0,
    ensures
        exists|j: int|
            0 <= j < chunk_texts(content, chunk_size, overlap).len() && stands_in(
                #[trigger] chunk_texts(content, chunk_size, overlap)[j],
                trim(text_units(normalized(content), effective_size(chunk_size))[i]),
            ),
{
    let text = normalized(content);
    let size = effective_size(chunk_size);
    let lap = effective_overlap(chunk_size, overlap);
    let units = text_units(text, size);
    let p = pack(units, size, lap);
    let all = with_chunk(p.chunks, p.open);
    if text.len() == 0 {
        let gap = seq!['\n', '\n'];
        assert(text.subrange(0, 0) =~= text);
        assert(split(text, gap) =~= seq![text]);
        lemma_trim_len(text);
        assert(seq![text].drop_last() =~= Seq::<Seq<char>>::empty());
        assert(seq![text].last() == text);
        assert(paragraphs_units(Seq::<Seq<char>>::empty(), size) =~= Seq::<Seq<char>>::empty());
        assert(units =~= Seq::<Seq<char>>::empty());
    } else {
        assert(chunk_texts(content, chunk_size, overlap) == all);
        lemma_pack_covers(units, size, lap, i);
        if in_some(p.chunks, units[i]) {
            let j = choose|j: int| 0 <= j < p.chunks.len() && stands_in(#[trigger] p.chunks[j], trim(units[i]));
            assert(chunk_texts(content, chunk_size, overlap)[j] == p.chunks[j]);
        } else {
            let o = choose|o: int| #[trigger] matches_at(p.open, units[i], o);
            lemma_trim_keeps(p.open, units[i], o);
            let k = choose|k: int| #[trigger] matches_at(trim(p.open), trim(units[i]), k);
            assert(chunk_texts(content, chunk_size, overlap)[p.chunks.len() as int] == trim(p.open));
        }
    }
}

proof fn lemma_sentence_end(s: Seq<char>, i: int)
    requires
        0 <= i < s.len(),
    ensures
        i < sentence_end(s, i) <= s.len(),
    decreases s.len() - i,
{
    if !ends_sentence(s, i) {
        if i + 1 < s.len() {
            lemma_sentence_end(s, i + 1);
        } else {
            assert(sentence_end(s, i + 1) == s.len());
        }
    }
}

proof fn lemma_one_unless_empty(t: Seq<char>)
    ensures
        ink_all(one_unless_empty(t)) == ink(t),
{
    if t.len() > 0 {
        lemma_ink_one(t);
    } else {
        assert(ink_all(one_unless_empty(t)) =~= ink(t));
    }
}

proof fn lemma_sentences_ink(s: Seq<char>, from: int)
    requires
        0 <= from <= s.len(),
    ensures
        ink_all(sentences_from(s, from)) == ink(s.skip(from)),
    decreases s.len() - from,
{
    if from == s.len() {
        assert(s.skip(from) =~= Seq::<char>::empty());
        assert(ink_all(sentences_from(s, from)) =~= ink(s.skip(from)));
    } else {
        lemma_sentence_end(s, from);
        let e = sentence_end(s, from);
        lemma_sentences_ink(s, e);
        let a = s.subrange(from, e);
        lemma_one_unless_empty(trim(a));
        lemma_ink_trim(a);
        lemma_ink_all_add(one_unless_empty(trim(a)), sentences_from(s, e));
        assert(s.skip(from) =~= a + s.skip(e));
        lemma_ink_add(a, s.skip(e));
    }
}

proof fn lemma_windows_ink(s: Seq<char>, max: nat, from: int)
    requires
        max > 0,
        0 <= from <= s.len(),
    ensures
        ink_all(windows_from(s, max, from)) == ink(s.skip(from)),
    decreases s.len() - from,
{
    if from == s.len() {
        assert(s.skip(from) =~= Seq::<char>::empty());
        assert(ink_all(windows_from(s, max, from)) =~= ink(s.skip(from)));
    } else if from + max >= s.len() {
        assert(s.subrange(from, s.len() as int) =~= s.skip(from));
        lemma_ink_one(s.skip(from));
    } else {
        let a = s.subrange(from, from + max);
        lemma_windows_ink(s, max, from + max);
        lemma_ink_one(a);
        lemma_ink_all_add(seq![a], windows_from(s, max, from + max));
        assert(s.skip(from) =~= a + s.skip(from + max));
        lemma_ink_add(a, s.skip(from + max));
    }
}

proof fn lemma_sentences_units_ink(list: Seq<Seq<char>>, max: nat)
    requires
        max > 0,
    ensures
        ink_all(sentences_units(list, max)) == ink_all(list),
    decreases list.len(),
{
    if list.len() > 0 {
        let t = list.last();
        lemma_sentences_units_ink(list.drop_last(), max);
        lemma_ink_all_add(sentences_units(list.drop_last(), max), sentence_units(t, max));
        lemma_ink_one(t);
        lemma_windows_ink(t, max, 0);
        assert(t.skip(0) =~= t);
    }
}

proof fn lemma_paragraphs_units_ink(list: Seq<Seq<char>>, max: nat)
    requires
        max > 0,
    ensures
        ink_all(paragraphs_units(list, max)) == ink_all(list),
    decreases list.len(),
{
    if list.len() > 0 {
        let t = trim(list.last());
        lemma_paragraphs_units_ink(list.drop_last(), max);
        lemma_ink_all_add(
            paragraphs_units(list.drop_last(), max),
            paragraph_units(list.last(), max),
        );
        lemma_ink_trim(list.last());
        if t.len() == 0 {
            assert(ink_all(paragraph_units(list.last(), max)) =~= ink(t));
        } else if t.len() <= max {
            lemma_ink_one(t);
        } else {
            lemma_sentences_units_ink(sentences(t), max);
            lemma_sentences_ink(t, 0);
            assert(t.skip(0) =~= t);
        }
    }
}

proof fn lemma_split_ink(hay: Seq<char>, pat: Seq<char>, from: int)
    requires
        pat.len() > 0,
        all_space(pat),
        0 <= from <= hay.len(),
    ensures
        ink_all(split_from(hay, pat, from)) == ink(hay.skip(from)),
    decreases hay.len() - from,
{
    lemma_find_from(hay, pat, from);
    match find_from(hay, pat, from) {
        Some(i) => {
            let next = (i + pat.len()) as int;
            let a = hay.subrange(from, i);
            lemma_split_ink(hay, pat, next);
            lemma_ink_one(a);
            lemma_ink_all_add(seq![a], split_from(hay, pat, next));
            assert(hay.subrange(i, next) == pat);
            assert(hay.skip(from) =~= a + hay.subrange(i, next) + hay.skip(next));
            lemma_ink_add(a + pat, hay.skip(next));
            lemma_ink_add(a, pat);
            lemma_ink_len(pat);
            assert(ink(a) + ink(pat) =~= ink(a));
        },
        None => {
            assert(hay.subrange(from, hay.len() as int) =~= hay.skip(from));
            lemma_ink_one(hay.skip(from));
        },
    }
}

/// The units of a text hold all of it, in order: their characters, but for white space, are
/// those of the text.
pub proof fn law_the_units_are_the_text(content: Seq<char>, max: nat)
    requires
        max > 0,
    ensures
        ink_all(text_units(content, max)) == ink(content),
{
    let gap = seq!['\n', '\n'];
    lemma_paragraphs_units_ink(split(content, gap), max);
    lemma_split_ink(content, gap, 0);
    assert(content.skip(0) =~= content);
}

/// The kind of its line breaks and the white space around it make no difference to a text.
pub proof fn law_normalizing_keeps_the_words(content: Seq<char>)
    ensures
        reading(normalized(content)) == reading(content),
        ink(normalized(content)) == ink(content),
{
    let unix = replace_all(content, seq!['\r', '\n'], seq!['\n']);
    let plain = swap_char(unix, '\r', '\n');
    lemma_reading_replace(content, seq!['\r', '\n'], seq!['\n']);
    lemma_reading_swap(unix, '\r', '\n');
    lemma_reading_trim(plain);
    lemma_ink_trim(plain);
}

/// `chunks` tell `text` one after the other, but for white space. `again[j]` is how many
/// characters chunk `j` repeats of the end of the one before it, `lap` at most.
pub open spec fn tell(chunks: Seq<Seq<char>>, again: Seq<int>, text: Seq<char>, lap: nat) -> bool
    decreases chunks.len(),
{
    again.len() == chunks.len() && if chunks.len() == 0 {
        text.len() == 0
    } else {
        let k = again.last();
        let last = ink(chunks.last());
        &&& 0 <= k <= last.len() <= text.len() + k
        &&& k <= lap
        &&& last.skip(k) == text.skip(text.len() - (last.len() - k))
        &&& chunks.len() == 1 ==> k == 0
        &&& chunks.len() > 1 ==> ends_in(ink(chunks[chunks.len() - 2]), last.take(k))
        &&& tell(
            chunks.drop_last(),
            again.drop_last(),
            text.take(text.len() - (last.len() - k)),
            lap,
        )
    }
}

/// `s` ends in `end`.
pub open spec fn ends_in(s: Seq<char>, end: Seq<char>) -> bool {
    end.len() <= s.len() && s.skip(s.len() - end.len()) == end
}

proof fn lemma_tail_ink(s: Seq<char>, n: nat)
    ensures
        ends_in(ink(s), ink(tail_of(s, n))),
        ink(tail_of(s, n)).len() <= n,
{
    lemma_tail_len(s, n);
    lemma_ink_len(tail_of(s, n));
    let t = tail_of(s, n);
    if n == 0 {
        assert(ink(s).skip(ink(s).len() as int) =~= ink(t));
    } else if s.len() <= n {
        lemma_ink_trim(s);
        assert(ink(s).skip(0) =~= ink(s));
    } else {
        let end = s.subrange(s.len() - n, s.len() as int);
        lemma_find_from(end, seq![' '], 0);
        let k: int = match find(end, seq![' ']) {
            Some(p) => s.len() - n + p + 1,
            None => s.len() - n,
        };
        let rest = s.skip(k);
        assert(t == trim(rest)) by {
            match find(end, seq![' ']) {
                Some(p) => {
                    assert(end.subrange(p + 1, end.len() as int) =~= rest);
                },
                None => {
                    assert(end =~= rest);
                },
            }
        }
        lemma_ink_trim(rest);
        assert(s =~= s.take(k) + rest);
        lemma_ink_add(s.take(k), rest);
        assert(ink(s).skip(ink(s).len() - ink(rest).len()) =~= ink(rest));
    }
}

proof fn lemma_tell_one_more(
    chunks: Seq<Seq<char>>,
    again: Seq<int>,
    text: Seq<char>,
    lap: nat,
    open: Seq<char>,
    k: int,
)
    requires
        tell(chunks, again, text, lap),
        0 <= k <= ink(open).len(),
        k <= lap,
        chunks.len() == 0 ==> k == 0,
        chunks.len() > 0 ==> ends_in(ink(chunks.last()), ink(open).take(k)),
    ensures
        tell(chunks.push(open), again.push(k), text + ink(open).skip(k), lap),
{
    let all = chunks.push(open);
    let more = again.push(k);
    let t = text + ink(open).skip(k);
    assert(all.drop_last() =~= chunks);
    assert(more.drop_last() =~= again);
    assert(t.take(text.len() as int) =~= text);
    assert(t.skip(text.len() as int) =~= ink(open).skip(k));
    if chunks.len() > 0 {
        assert(all[all.len() - 2] == chunks.last());
    }
}

/// How the chunks that are closed and the one that is open tell the units, with how much each
/// repeats.
proof fn lemma_pack_tells(units: Seq<Seq<char>>, size: nat, lap: nat) -> (r: (Seq<int>, int))
    ensures
        ({
            let p = pack(units, size, lap);
            let (again, k) = r;
            &&& 0 <= k <= ink(p.open).len()
            &&& k <= lap
            &&& ink(p.open).len() - k <= ink_all(units).len()
            &&& ink_all(units).skip(ink_all(units).len() - (ink(p.open).len() - k)) == ink(
                p.open,
            ).skip(k)
            &&& tell(
                p.chunks,
                again,
                ink_all(units).take(ink_all(units).len() - (ink(p.open).len() - k)),
                lap,
            )
            &&& p.chunks.len() == 0 ==> k == 0
            &&& p.chunks.len() > 0 ==> ends_in(ink(p.chunks.last()), ink(p.open).take(k))
        }),
    decreases units.len(),
{
    let all = ink_all(units);
    if units.len() == 0 {
        assert(all.take(0) =~= Seq::<char>::empty());
        assert(all.skip(0) =~= ink(Seq::<char>::empty()).skip(0));
        (Seq::empty(), 0)
    } else {
        let before = units.drop_last();
        let unit = units.last();
        let (again, k) = lemma_pack_tells(before, size, lap);
        let p = pack(before, size, lap);
        let r = pack(units, size, lap);
        let told = ink_all(before);
        let fresh = ink(p.open).skip(k);
        let done = told.take(told.len() - fresh.len());
        assert(told =~= done + fresh);
        if p.open.len() > 0 && p.open.len() + 1 + unit.len() > size {
            let tail = tail_of(p.open, lap);
            lemma_tail_ink(p.open, lap);
            lemma_after_ink(tail, unit);
            lemma_ink_trim(p.open);
            let t = trim(p.open);
            let j = ink(tail).len() as int;
            assert(ink(r.open).skip(j) =~= ink(unit));
            assert(ink(r.open).take(j) =~= ink(tail));
            assert(all.skip(all.len() - ink(unit).len()) =~= ink(unit));
            assert(all.take(all.len() - ink(unit).len()) =~= told);
            if t.len() == 0 {
                assert(ink(t) =~= Seq::<char>::empty());
                assert(fresh =~= Seq::<char>::empty());
                assert(done =~= told);
                assert(j == 0);
                assert(with_chunk(p.chunks, p.open) =~= p.chunks);
                if p.chunks.len() > 0 {
                    let c = ink(p.chunks.last());
                    assert(c.skip(c.len() as int) =~= ink(r.open).take(0));
                }
                (again, 0)
            } else {
                lemma_tell_one_more(p.chunks, again, done, lap, t, k);
                assert(with_chunk(p.chunks, p.open) =~= p.chunks.push(t));
                (again.push(k), j)
            }
        } else {
            lemma_after_ink(p.open, unit);
            assert(ink(r.open).take(k) =~= ink(p.open).take(k));
            assert(ink(r.open).skip(k) =~= fresh + ink(unit));
            assert(all.take(all.len() - (ink(r.open).len() - k)) =~= done);
            assert(all.skip(all.len() - (ink(r.open).len() - k)) =~= fresh + ink(unit));
            (again, k)
        }
    }
}

proof fn lemma_after_ink(open: Seq<char>, unit: Seq<char>)
    ensures
        ink(after(open, unit)) == ink(open) + ink(unit),
{
    if open.len() == 0 {
        assert(ink(open) + ink(unit) =~= ink(unit));
    } else {
        let blank = seq![' '];
        lemma_ink_add(open + blank, unit);
        lemma_ink_add(open, blank);
        lemma_ink_len(blank);
        assert(ink(open) + ink(blank) =~= ink(open));
    }
}

/// Slicing loses nothing: one after the other, the chunks hold every character of the content
/// but its white space, in order. What a chunk repeats is the end of the one before it, and
/// no more of it than the overlap.
pub proof fn law_the_chunks_tell_the_content(content: Seq<char>, chunk_size: nat, overlap: nat)
    ensures
        exists|again: Seq<int>| #[trigger]
            tell(chunk_texts(content, chunk_size, overlap), again, ink(content), overlap),
{
    let text = normalized(content);
    let size = effective_size(chunk_size);
    let lap = effective_overlap(chunk_size, overlap);
    let chunks = chunk_texts(content, chunk_size, overlap);
    law_normalizing_keeps_the_words(content);
    if text.len() == 0 {
        let again = Seq::<int>::empty();
        assert(tell(chunks, again, ink(content), overlap));
    } else {
        let units = text_units(text, size);
        law_the_units_are_the_text(text, size);
        let (again, k) = lemma_pack_tells(units, size, lap);
        let p = pack(units, size, lap);
        let all = ink_all(units);
        let t = trim(p.open);
        lemma_ink_trim(p.open);
        let fresh = ink(p.open).skip(k);
        let done = all.take(all.len() - fresh.len());
        assert(all =~= done + fresh);
        if t.len() == 0 {
            assert(ink(t) =~= Seq::<char>::empty());
            assert(done =~= all);
            assert(chunks =~= p.chunks);
            lemma_tell_more_lap(chunks, again, all, lap, overlap);
            assert(tell(chunks, again, ink(content), overlap));
        } else {
            lemma_tell_one_more(p.chunks, again, done, lap, t, k);
            assert(chunks =~= p.chunks.push(t));
            lemma_tell_more_lap(chunks, again.push(k), all, lap, overlap);
            assert(tell(chunks, again.push(k), ink(content), overlap));
        }
    }
}

proof fn lemma_tell_more_lap(
    chunks: Seq<Seq<char>>,
    again: Seq<int>,
    text: Seq<char>,
    lap: nat,
    more: nat,
)
    requires
        tell(chunks, again, text, lap),
        lap <= more,
    ensures
        tell(chunks, again, text, more),
    decreases chunks.len(),
{
    if chunks.len() > 0 {
        let k = again.last();
        let last = ink(chunks.last());
        lemma_tell_more_lap(
            chunks.drop_last(),
            again.drop_last(),
            text.take(text.len() - (last.len() - k)),
            lap,
            more,
        );
    }
}

proof fn lemma_fits_in_one(list: Seq<Seq<char>>, size: nat, lap: nat)
    requires
        join(list, seq!['\n', '\n']).len() <= size,
    ensures
        ({
            let t = join(list, seq!['\n', '\n']);
            let p = pack(paragraphs_units(list, size), size, lap);
            &&& p.chunks.len() == 0
            &&& p.open.len() <= t.len()
            &&& reading(p.open) == reading(t)
        }),
    decreases list.len(),
{
    let gap = seq!['\n', '\n'];
    let t = join(list, gap);
    let units = paragraphs_units(list, size);
    if list.len() == 0 {
        assert(units =~= Seq::<Seq<char>>::empty());
    } else {
        let rest = list.drop_last();
        let para = list.last();
        let before = paragraphs_units(rest, size);
        let rt = join(rest, gap);
        if list.len() == 1 {
            assert(rt =~= Seq::<char>::empty());
            assert(t == para);
        }
        lemma_fits_in_one(rest, size, lap);
        let p = pack(before, size, lap);
        let u = trim(para);
        lemma_trim_len(para);
        lemma_reading_trim(para);
        assert(reading(t) == then_read(reading(rt), reading(u))) by {
            if list.len() > 1 {
                lemma_reading_apart(rt, gap, para);
            } else {
                assert(reading(rt) =~= Seq::<char>::empty());
            }
        }
        if u.len() == 0 {
            assert(units =~= before);
            assert(reading(u) =~= Seq::<char>::empty());
        } else {
            assert(units =~= before.push(u));
            assert(units.drop_last() =~= before);
            if p.open.len() > 0 {
                lemma_reading_apart(p.open, seq![' '], u);
                assert(list.len() > 1) by {
                    if list.len() == 1 {
                        assert(before =~= Seq::<Seq<char>>::empty());
                    }
                }
            } else {
                assert(reading(p.open) =~= Seq::<char>::empty());
            }
        }
    }
}

/// A content that fits into a chunk is one chunk, which reads as the content does, word for
/// word.
pub proof fn law_what_fits_is_one_chunk(content: Seq<char>, chunk_size: nat, overlap: nat)
    requires
        0 < normalized(content).len() <= effective_size(chunk_size),
    ensures
        chunk_texts(content, chunk_size, overlap).len() == 1,
        reading(chunk_texts(content, chunk_size, overlap)[0]) == reading(content),
{
    let text = normalized(content);
    let size = effective_size(chunk_size);
    let lap = effective_overlap(chunk_size, overlap);
    let gap = seq!['\n', '\n'];
    law_normalizing_keeps_the_words(content);
    lemma_split_joins(text, gap, 0);
    assert(text.skip(0) =~= text);
    lemma_fits_in_one(split(text, gap), size, lap);
    let p = pack(text_units(text, size), size, lap);
    lemma_reading_trim(p.open);
    assert(trim(p.open).len() > 0) by {
        if trim(p.open).len() == 0 {
            assert(reading(trim(p.open)) =~= Seq::<char>::empty());
            crate::reading::lemma_reading_of_nothing(text);
            lemma_normalized_starts_with_ink(content);
            assert(is_space(text[0]));
        }
    }
    assert(with_chunk(p.chunks, p.open) =~= seq![trim(p.open)]);
}

proof fn lemma_normalized_starts_with_ink(content: Seq<char>)
    requires
        normalized(content).len() > 0,
    ensures
        !is_space(normalized(content)[0]),
{
    let plain = swap_char(replace_all(content, seq!['\r', '\n'], seq!['\n']), '\r', '\n');
    lemma_trim_start_first(plain);
    lemma_trim_end_idempotent(trim_start(plain));
}

/// What a chunk repeats of the one before it starts a word: it starts behind the first space
/// of the last `n` characters, or with the first of them where they hold no space.
pub proof fn law_the_overlap_starts_a_word(s: Seq<char>, n: nat)
    requires
        0 < n < s.len(),
    ensures
        exists|k: int|
            s.len() - n <= k <= s.len() && #[trigger] reading(s.skip(k)) == reading(tail_of(s, n))
                && (k > s.len() - n ==> s[k - 1] == ' ') && (k == s.len() - n ==> forall|j: int|
                k <= j < s.len() ==> s[j] != ' ') && forall|j: int|
                s.len() - n <= j < k - 1 ==> s[j] != ' ',
{
    let end = s.subrange(s.len() - n, s.len() as int);
    let blank = seq![' '];
    lemma_find_from(end, blank, 0);
    assert forall|j: int| 0 <= j < end.len() && end[j] == ' ' implies matches_at(end, blank, j) by {
        assert(end.subrange(j, j + 1) =~= blank);
    }
    match find(end, blank) {
        Some(p) => {
            let k = s.len() - n + p + 1;
            assert(end.subrange(p, p + 1)[0] == blank[0]);
            assert(s.skip(k) =~= end.subrange(p + 1, end.len() as int));
            lemma_reading_trim(s.skip(k));
            assert forall|j: int| s.len() - n <= j < k - 1 implies s[j] != ' ' by {
                assert(end[j - (s.len() - n)] == s[j]);
            }
            assert(reading(s.skip(k)) == reading(tail_of(s, n)));
        },
        None => {
            let k = s.len() - n;
            assert(s.skip(k) =~= end);
            lemma_reading_trim(end);
            assert forall|j: int| k <= j < s.len() implies s[j] != ' ' by {
                assert(end[j - k] == s[j]);
            }
            assert(reading(s.skip(k)) == reading(tail_of(s, n)));
        },
    }
}

/// `next` starts with what is repeated of `last`, which was closed as `open`.
pub open spec fn repeats(open: Seq<char>, last: Seq<char>, next: Seq<char>, lap: nat) -> bool {
    let tail = ink(tail_of(open, lap));
    trim(open) == last && tail.len() <= ink(next).len() && ink(next).take(tail.len() as int) == tail
}

pub open spec fn all_repeat(chunks: Seq<Seq<char>>, lap: nat) -> bool {
    forall|j: int|
        0 < j < chunks.len() ==> exists|open: Seq<char>|
            repeats(open, chunks[j - 1], #[trigger] chunks[j], lap) && #[trigger] trim(open)
                == chunks[j - 1]
}

proof fn lemma_pack_repeats(units: Seq<Seq<char>>, size: nat, lap: nat)
    requires
        forall|i: int| 0 <= i < units.len() ==> trim(#[trigger] units[i]).len() > 0,
    ensures
        ({
            let p = pack(units, size, lap);
            &&& all_repeat(p.chunks, lap)
            &&& units.len() > 0 ==> trim(p.open).len() > 0
            &&& units.len() == 0 ==> p.open.len() == 0 && p.chunks.len() == 0
            &&& p.chunks.len() > 0 ==> exists|o: Seq<char>|
                repeats(o, p.chunks.last(), p.open, lap) && #[trigger] trim(o) == p.chunks.last()
        }),
    decreases units.len(),
{
    if units.len() > 0 {
        let before = units.drop_last();
        let unit = units.last();
        assert forall|i: int| 0 <= i < before.len() implies trim(#[trigger] before[i]).len() > 0 by {
            assert(before[i] == units[i]);
        }
        assert(trim(units[units.len() - 1]).len() > 0);
        lemma_pack_repeats(before, size, lap);
        let p = pack(before, size, lap);
        let r = pack(units, size, lap);
        let closes = p.open.len() > 0 && p.open.len() + 1 + unit.len() > size;
        let base = if closes {
            tail_of(p.open, lap)
        } else {
            p.open
        };
        lemma_after_ink(base, unit);
        assert(trim(r.open).len() > 0) by {
            let at: int = if base.len() == 0 {
                0
            } else {
                base.len() as int + 1
            };
            assert(r.open.subrange(at, at + unit.len()) =~= unit);
            lemma_trim_keeps(r.open, unit, at);
            let k = choose|k: int| #[trigger] matches_at(trim(r.open), trim(unit), k);
        }
        if closes {
            let t = trim(p.open);
            assert(t.len() > 0) by {
                assert(before.len() > 0);
            }
            assert(r.chunks =~= p.chunks.push(t));
            assert forall|j: int| 0 < j < r.chunks.len() implies exists|open: Seq<char>|
                repeats(open, r.chunks[j - 1], #[trigger] r.chunks[j], lap) && #[trigger] trim(open)
                    == r.chunks[j - 1] by {
                if j < p.chunks.len() {
                    assert(r.chunks[j] == p.chunks[j] && r.chunks[j - 1] == p.chunks[j - 1]);
                    let o = choose|open: Seq<char>|
                        repeats(open, p.chunks[j - 1], p.chunks[j], lap) && #[trigger] trim(open)
                            == p.chunks[j - 1];
                    assert(repeats(o, r.chunks[j - 1], r.chunks[j], lap) && trim(o) == r.chunks[j - 1]);
                } else {
                    let o = choose|o: Seq<char>|
                        repeats(o, p.chunks.last(), p.open, lap) && #[trigger] trim(o)
                            == p.chunks.last();
                    lemma_ink_trim(p.open);
                    assert(repeats(o, r.chunks[j - 1], r.chunks[j], lap) && trim(o) == r.chunks[j - 1]);
                }
            }
            let tail = ink(base);
            assert(ink(r.open).take(tail.len() as int) =~= tail);
            assert(repeats(p.open, r.chunks.last(), r.open, lap) && trim(p.open) == r.chunks.last());
        } else if p.chunks.len() > 0 {
            let o = choose|o: Seq<char>|
                repeats(o, p.chunks.last(), p.open, lap) && #[trigger] trim(o) == p.chunks.last();
            let tail = ink(tail_of(o, lap));
            assert(ink(r.open).take(tail.len() as int) =~= ink(p.open).take(tail.len() as int));
            assert(repeats(o, r.chunks.last(), r.open, lap) && trim(o) == r.chunks.last());
        }
    }
}

/// Two neighbouring chunks overlap: each starts with the end of the one before it. Only a
/// stretch of white space as long as a chunk can stand between two that do not.
pub proof fn law_neighbours_overlap(content: Seq<char>, chunk_size: nat, overlap: nat)
    requires
        forall|i: int|
            0 <= i < text_units(normalized(content), effective_size(chunk_size)).len() ==> trim(
                #[trigger] text_units(normalized(content), effective_size(chunk_size))[i],
            ).len() > 0,
        overlap <= chunk_size / 2,
    ensures
        all_repeat(chunk_texts(content, chunk_size, overlap), overlap),
{
    let text = normalized(content);
    let size = effective_size(chunk_size);
    if text.len() > 0 {
        let units = text_units(text, size);
        lemma_pack_repeats(units, size, overlap);
        let p = pack(units, size, overlap);
        let chunks = chunk_texts(content, chunk_size, overlap);
        let t = trim(p.open);
        lemma_ink_trim(p.open);
        assert forall|j: int| 0 < j < chunks.len() implies exists|open: Seq<char>|
            repeats(open, chunks[j - 1], #[trigger] chunks[j], overlap) && #[trigger] trim(open)
                == chunks[j - 1] by {
            if j < p.chunks.len() {
                assert(chunks[j] == p.chunks[j] && chunks[j - 1] == p.chunks[j - 1]);
                let o = choose|open: Seq<char>|
                    repeats(open, p.chunks[j - 1], p.chunks[j], overlap) && #[trigger] trim(open)
                        == p.chunks[j - 1];
                assert(repeats(o, chunks[j - 1], chunks[j], overlap) && trim(o) == chunks[j - 1]);
            } else {
                assert(chunks =~= p.chunks.push(t));
                let o = choose|o: Seq<char>|
                    repeats(o, p.chunks.last(), p.open, overlap) && #[trigger] trim(o)
                        == p.chunks.last();
                assert(repeats(o, chunks[j - 1], chunks[j], overlap) && trim(o) == chunks[j - 1]);
            }
        }
    }
}

} // verus!
