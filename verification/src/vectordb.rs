//! The store of vectors: the filters by which its rows are found, and the rows that a file
//! takes in it.

use vstd::prelude::*;

use crate::actions::{fresh_id, is_random_id};
use crate::db::{escape_like, like_escaped};
use crate::text::{
    cat2, cat3, cat5, decimal, decimal_text, first_chars, replace_all, str_first_chars,
    str_is_blank, str_replaced, str_trim, str_trim_end_of, swap_char, swapped_char, to_chars,
    to_text, trim, trim_end_of,
};

verus! {

// ---------------------------------------------------------------------------
// Filters
// ---------------------------------------------------------------------------

/// A text as it stands between the quotes of a filter.
pub open spec fn sql_quoted(s: Seq<char>) -> Seq<char> {
    replace_all(s, "'"@, "''"@)
}

fn quote_sql(s: &str) -> (r: String)
    ensures
        r@ == sql_quoted(s@),
{
    proof {
        reveal_strlit("'");
    }
    str_replaced(s, "'", "''")
}

/// The rows of one path.
pub fn path_filter(path: &str) -> (r: String)
    ensures
        r@ == "path = '"@ + sql_quoted(path@) + "'"@,
{
    cat3("path = '", quote_sql(path).as_str(), "'")
}

/// The new path of rows whose file has moved.
pub fn path_value(path: &str) -> (r: String)
    ensures
        r@ == "'"@ + sql_quoted(path@) + "'"@,
{
    cat3("'", quote_sql(path).as_str(), "'")
}

/// A text in which no character has a special meaning in a pattern.
pub fn like_escape_datafusion(input: &str) -> (r: String)
    ensures
        r@ == like_escaped(input@),
{
    escape_like(input)
}

/// A folder with one separator behind it.
pub open spec fn with_separator(folder: Seq<char>, separator: char) -> Seq<char> {
    trim_end_of(folder, '/', '\\').push(separator)
}

/// The rows of everything below a folder.
pub fn scope_like_filter(prefix: &str, separator: char) -> (r: String)
    ensures
        r@ == "path LIKE '"@ + sql_quoted(like_escaped(with_separator(prefix@, separator)))
            + "%'"@,
{
    let mut folder = str_trim_end_of(prefix, '/', '\\');
    folder.push(separator);
    let pattern = quote_sql(like_escape_datafusion(folder.as_str()).as_str());
    cat3("path LIKE '", pattern.as_str(), "%'")
}

// ---------------------------------------------------------------------------
// Rows
// ---------------------------------------------------------------------------

/// The start of a chunk, on one line.
pub open spec fn snippet_spec(text: Seq<char>) -> Seq<char> {
    let line = trim(swap_char(text, '\n', ' '));
    if line.len() > 240 {
        first_chars(line, 240) + "…"@
    } else {
        line
    }
}

pub fn snippet(text: &str) -> (r: String)
    ensures
        r@ == snippet_spec(text@),
{
    let line = str_trim(
        to_text(swapped_char(to_chars(text).as_slice(), '\n', ' ').as_slice()).as_str(),
    );
    if to_chars(line.as_str()).len() > 240 {
        cat2(str_first_chars(line.as_str(), 240).as_str(), "…")
    } else {
        line
    }
}

/// A chunk and the length of its vector.
#[derive(Debug)]
pub struct ChunkVector {
    pub chunk_index: i32,
    pub text: String,
    pub dimensions: usize,
}

/// Puts the texts of a file beside the vectors that were computed for them, of which the
/// lengths are given. Where there are fewer of one than of the other, the rest is left out.
pub fn chunk_vectors(stored: &Vec<String>, lengths: &Vec<usize>) -> (r: Vec<ChunkVector>)
    requires
        stored@.len() <= i32::MAX,
    ensures
        r@.len() == (if stored@.len() < lengths@.len() {
            stored@.len()
        } else {
            lengths@.len()
        }),
        forall|i: int|
            0 <= i < r@.len() ==> (#[trigger] r@[i]).chunk_index == i && r@[i].text@ == stored@[i]@
                && r@[i].dimensions == lengths@[i],
{
    let mut out: Vec<ChunkVector> = Vec::new();
    let mut i: usize = 0;
    while i < stored.len() && i < lengths.len()
        invariant
            i <= stored.len(),
            i <= lengths.len(),
            stored@.len() <= i32::MAX,
            out@.len() == i,
            forall|k: int|
                0 <= k < i ==> (#[trigger] out@[k]).chunk_index == k && out@[k].text@
                    == stored@[k]@ && out@[k].dimensions == lengths@[k],
        decreases stored.len() - i,
    {
        out.push(
            ChunkVector {
                chunk_index: i as i32,
                text: stored[i].clone(),
                dimensions: lengths[i],
            },
        );
        i = i + 1;
    }
    out
}

/// A row of the store. Its vector stands at the same place as its chunk.
#[derive(Debug)]
pub struct VectorRow {
    pub id: String,
    pub path: String,
    pub chunk_index: i32,
    pub text: String,
    pub content_hash: String,
    pub mtime: i64,
}

/// The first chunk whose vector does not fit the table.
pub open spec fn first_misfit(chunks: Seq<ChunkVector>, dim: nat, from: int) -> Option<int>
    decreases chunks.len() - from,
{
    if from < 0 || from >= chunks.len() {
        None
    } else if chunks[from].dimensions != dim {
        Some(from)
    } else {
        first_misfit(chunks, dim, from + 1)
    }
}

pub open spec fn row_of(
    row: VectorRow,
    c: ChunkVector,
    path: Seq<char>,
    hash: Seq<char>,
    mtime: i64,
) -> bool {
    row.path@ == path && row.chunk_index == c.chunk_index && row.text@ == c.text@
        && row.content_hash@ == hash && row.mtime == mtime && is_random_id(row.id@)
}

/// The rows that a file takes, each with a random identifier; none at all where a
/// vector does not have the dimension of the table.
pub fn upsert_chunks(
    path: &str,
    content_hash: &str,
    mtime: i64,
    chunks: &Vec<ChunkVector>,
    dim: usize,
) -> (r: Result<Vec<VectorRow>, String>)
    ensures
        match first_misfit(chunks@, dim as nat, 0) {
            Some(k) => r matches Err(e) && e@ == "dimension du vecteur ("@ + decimal(
                chunks@[k].dimensions as nat,
            ) + ") incohérente avec la table ("@ + decimal(dim as nat) + ")"@,
            None => r matches Ok(rows) && rows@.len() == chunks@.len() && forall|i: int|
                0 <= i < rows@.len() ==> row_of(
                    #[trigger] rows@[i],
                    chunks@[i],
                    path@,
                    content_hash@,
                    mtime,
                ),
        },
{
    let mut out: Vec<VectorRow> = Vec::new();
    let mut i: usize = 0;
    while i < chunks.len()
        invariant
            i <= chunks.len(),
            out@.len() == i,
            first_misfit(chunks@, dim as nat, 0) == first_misfit(chunks@, dim as nat, i as int),
            forall|k: int|
                0 <= k < i ==> row_of(
                    #[trigger] out@[k],
                    chunks@[k],
                    path@,
                    content_hash@,
                    mtime,
                ),
        decreases chunks.len() - i,
    {
        let c = &chunks[i];
        if c.dimensions != dim {
            return Err(
                cat5(
                    "dimension du vecteur (",
                    decimal_text(c.dimensions as u64).as_str(),
                    ") incohérente avec la table (",
                    decimal_text(dim as u64).as_str(),
                    ")",
                ),
            );
        }
        out.push(
            VectorRow {
                id: fresh_id(),
                path: path.to_owned(),
                chunk_index: c.chunk_index,
                text: c.text.clone(),
                content_hash: content_hash.to_owned(),
                mtime,
            },
        );
        i = i + 1;
    }
    Ok(out)
}

// ---------------------------------------------------------------------------
// The keyword index
// ---------------------------------------------------------------------------

/// Whether rows were written since the keyword index was built.
#[derive(Debug)]
pub struct KeywordIndex {
    pub dirty: bool,
}

/// What a search by keywords does next.
#[derive(Debug, PartialEq, Eq, Structural)]
pub enum KeywordStep {
    /// There is nothing to look for.
    NoQuery,
    /// Build the index anew, then search.
    BuildAndSearch,
    Search,
}

impl KeywordIndex {
    /// When the store is opened, nothing is known of the index.
    pub fn new() -> (r: KeywordIndex)
        ensures
            r.dirty,
    {
        KeywordIndex { dirty: true }
    }

    /// Rows were written or deleted.
    pub fn on_write(&mut self)
        ensures
            final(self).dirty,
    {
        self.dirty = true;
    }

    /// Starts a search. The index is built anew where rows were written since.
    pub fn on_search(&mut self, query: &str) -> (r: KeywordStep)
        ensures
            r == (if crate::text::is_blank(query@) {
                KeywordStep::NoQuery
            } else if old(self).dirty {
                KeywordStep::BuildAndSearch
            } else {
                KeywordStep::Search
            }),
            final(self).dirty == (old(self).dirty && crate::text::is_blank(query@)),
    {
        if str_is_blank(query) {
            KeywordStep::NoQuery
        } else if self.dirty {
            self.dirty = false;
            KeywordStep::BuildAndSearch
        } else {
            KeywordStep::Search
        }
    }
}

// ---------------------------------------------------------------------------
// What a filter means
// ---------------------------------------------------------------------------

/// The text that a literal stands for: between its quotes, two quotes are one.
pub open spec fn sql_unquoted(s: Seq<char>) -> Seq<char>
    decreases s.len(),
{
    if s.len() == 0 {
        Seq::empty()
    } else if s[0] == '\'' && s.len() > 1 && s[1] == '\'' {
        seq!['\''] + sql_unquoted(s.skip(2))
    } else {
        seq![s[0]] + sql_unquoted(s.skip(1))
    }
}

/// A literal ends nowhere inside: its quotes come in pairs.
pub open spec fn quotes_paired(s: Seq<char>) -> bool
    decreases s.len(),
{
    if s.len() == 0 {
        true
    } else if s[0] == '\'' {
        s.len() > 1 && s[1] == '\'' && quotes_paired(s.skip(2))
    } else {
        quotes_paired(s.skip(1))
    }
}

proof fn lemma_quoted_from(s: Seq<char>, from: int)
    requires
        0 <= from <= s.len(),
    ensures
        sql_unquoted(crate::text::replace_from(s, "'"@, "''"@, from)) == s.skip(from),
        quotes_paired(crate::text::replace_from(s, "'"@, "''"@, from)),
    decreases s.len() - from,
{
    reveal_strlit("'");
    reveal_strlit("''");
    let q = "'"@;
    let r = crate::text::replace_from(s, q, "''"@, from);
    crate::text::lemma_find_from(s, q, from);
    match crate::text::find_from(s, q, from) {
        Some(i) => {
            lemma_quoted_from(s, i + 1);
            let a = s.subrange(from, i);
            assert forall|k: int| 0 <= k < a.len() implies #[trigger] a[k] != '\'' by {
                if a[k] == '\'' {
                    assert(s.subrange(from + k, from + k + 1) =~= q);
                    assert(crate::text::matches_at(s, q, from + k));
                }
            }
            let rest = crate::text::replace_from(s, q, "''"@, i + 1);
            assert(s.subrange(i, i + 1)[0] == s[i]);
            assert(s.subrange(i, i + 1) == q);
            let tail = "''"@ + rest;
            assert(tail.skip(2) =~= rest);
            assert(r =~= a + tail);
            lemma_unquoted_plain(a, tail);
            assert(s.skip(from) =~= a + (seq!['\''] + s.skip(i + 1)));
        },
        None => {
            let a = s.skip(from);
            assert(r =~= a);
            assert forall|k: int| 0 <= k < a.len() implies #[trigger] a[k] != '\'' by {
                if a[k] == '\'' {
                    assert(s.subrange(from + k, from + k + 1) =~= q);
                    assert(crate::text::matches_at(s, q, from + k));
                }
            }
            let none = Seq::<char>::empty();
            assert(a + none =~= a);
            lemma_unquoted_plain(a, none);
            assert(sql_unquoted(none) =~= none);
        },
    }
}

proof fn lemma_unquoted_plain(a: Seq<char>, tail: Seq<char>)
    requires
        forall|k: int| 0 <= k < a.len() ==> #[trigger] a[k] != '\'',
    ensures
        sql_unquoted(a + tail) == a + sql_unquoted(tail),
        quotes_paired(a + tail) == quotes_paired(tail),
    decreases a.len(),
{
    if a.len() == 0 {
        assert(a + tail =~= tail);
        assert(a + sql_unquoted(tail) =~= sql_unquoted(tail));
    } else {
        let less = a.skip(1);
        assert forall|k: int| 0 <= k < less.len() implies #[trigger] less[k] != '\'' by {
            assert(less[k] == a[k + 1]);
        }
        lemma_unquoted_plain(less, tail);
        assert((a + tail).skip(1) =~= less + tail);
        assert(a[0] != '\'');
        assert(seq![a[0]] + (less + sql_unquoted(tail)) =~= a + sql_unquoted(tail));
    }
}

/// A text between the quotes of a filter stands for itself and never ends the literal, whatever
/// quotes it holds.
pub proof fn law_a_quoted_text_stands_for_itself(s: Seq<char>)
    ensures
        sql_unquoted(sql_quoted(s)) == s,
        quotes_paired(sql_quoted(s)),
{
    lemma_quoted_from(s, 0);
    assert(s.skip(0) =~= s);
}

/// The filter of a folder takes in what lies below it and nothing else: not a folder whose name
/// only starts like it, whatever characters the names hold and whatever separators end it.
pub proof fn law_a_scope_holds_what_lies_below(folder: Seq<char>, separator: char, path: Seq<char>)
    ensures
        crate::db::like_matches(
            sql_unquoted(sql_quoted(like_escaped(with_separator(folder, separator)))) + "%"@,
            path,
        ) == crate::text::starts_with(path, trim_end_of(folder, '/', '\\').push(separator)),
{
    law_a_quoted_text_stands_for_itself(like_escaped(with_separator(folder, separator)));
    crate::db::law_a_prefix_pattern_matches_what_starts_so(with_separator(folder, separator), path);
}

/// A snippet shows the start of a text on one line: all of its words where it is short, else
/// its first 240 characters and that there is more.
pub proof fn law_a_snippet_shows_the_start(text: Seq<char>)
    ensures
        forall|i: int| 0 <= i < snippet_spec(text).len() ==> #[trigger] snippet_spec(text)[i] != '\n',
        trim(text).len() <= 240 ==> crate::reading::reading(snippet_spec(text))
            == crate::reading::reading(text),
        trim(text).len() > 240 ==> snippet_spec(text).len() == 241 && snippet_spec(text).last()
            == '…' && forall|i: int|
            0 <= i < 240 && trim(text)[i] != '\n' ==> #[trigger] snippet_spec(text)[i] == trim(
                text,
            )[i],
{
    reveal_strlit("…");
    let flat = swap_char(text, '\n', ' ');
    let line = trim(flat);
    crate::reading::lemma_reading_swap(text, '\n', ' ');
    crate::reading::lemma_reading_trim(flat);
    lemma_trim_swap(text);
    assert(line == swap_char(trim(text), '\n', ' '));
    if line.len() > 240 {
        assert(first_chars(line, 240) =~= line.take(240));
    }
}

proof fn lemma_trim_swap(s: Seq<char>)
    ensures
        trim(swap_char(s, '\n', ' ')) == swap_char(trim(s), '\n', ' '),
{
    lemma_trim_start_swap(s);
    lemma_trim_end_swap(crate::text::trim_start(s));
}

proof fn lemma_trim_start_swap(s: Seq<char>)
    ensures
        crate::text::trim_start(swap_char(s, '\n', ' ')) == swap_char(
            crate::text::trim_start(s),
            '\n',
            ' ',
        ),
    decreases s.len(),
{
    if s.len() > 0 && crate::text::is_space(s[0]) {
        lemma_trim_start_swap(s.skip(1));
        assert(swap_char(s, '\n', ' ').skip(1) =~= swap_char(s.skip(1), '\n', ' '));
    }
}

proof fn lemma_trim_end_swap(s: Seq<char>)
    ensures
        crate::text::trim_end(swap_char(s, '\n', ' ')) == swap_char(
            crate::text::trim_end(s),
            '\n',
            ' ',
        ),
    decreases s.len(),
{
    if s.len() > 0 && crate::text::is_space(s.last()) {
        lemma_trim_end_swap(s.drop_last());
        assert(swap_char(s, '\n', ' ').drop_last() =~= swap_char(s.drop_last(), '\n', ' '));
    }
}

/// A file is refused where the vector of one of its chunks has another dimension, by the first
/// of them, and only there.
pub proof fn law_a_misfit_is_found(chunks: Seq<ChunkVector>, dim: nat, from: int)
    requires
        0 <= from <= chunks.len(),
    ensures
        first_misfit(chunks, dim, from) matches Some(k) ==> from <= k < chunks.len()
            && chunks[k].dimensions != dim && forall|i: int|
            from <= i < k ==> (#[trigger] chunks[i]).dimensions == dim,
        first_misfit(chunks, dim, from) is None ==> forall|i: int|
            from <= i < chunks.len() ==> (#[trigger] chunks[i]).dimensions == dim,
    decreases chunks.len() - from,
{
    if from < chunks.len() && chunks[from].dimensions == dim {
        law_a_misfit_is_found(chunks, dim, from + 1);
    }
}

} // verus!
