//! Text as it is read: its characters without the white space between them, and its words
//! with one space between each two. What is done to a text on its way into the index is
//! stated by what it keeps of these.

use vstd::prelude::*;

use crate::text::{
    is_space, lemma_find_from, matches_at, replace_all, replace_from, swap_char, trim, trim_end,
    trim_start,
};

verus! {

/// The characters of a text that are no white space, in their order.
pub open spec fn ink(s: Seq<char>) -> Seq<char>
    decreases s.len(),
{
    if s.len() == 0 {
        Seq::empty()
    } else if is_space(s.last()) {
        ink(s.drop_last())
    } else {
        ink(s.drop_last()).push(s.last())
    }
}

/// The ink of a list of texts, one after the other.
pub open spec fn ink_all(list: Seq<Seq<char>>) -> Seq<char>
    decreases list.len(),
{
    if list.len() == 0 {
        Seq::empty()
    } else {
        ink_all(list.drop_last()) + ink(list.last())
    }
}

/// The words of a text with one space between each two.
pub open spec fn reading(s: Seq<char>) -> Seq<char>
    decreases s.len(),
{
    if s.len() == 0 {
        Seq::empty()
    } else {
        let before = reading(s.drop_last());
        if is_space(s.last()) {
            before
        } else if before.len() > 0 && is_space(s[s.len() - 2]) {
            before.push(' ').push(s.last())
        } else {
            before.push(s.last())
        }
    }
}

/// Two readings, one behind the other.
pub open spec fn then_read(a: Seq<char>, b: Seq<char>) -> Seq<char> {
    if a.len() == 0 {
        b
    } else if b.len() == 0 {
        a
    } else {
        a.push(' ') + b
    }
}

pub open spec fn all_space(s: Seq<char>) -> bool {
    forall|i: int| 0 <= i < s.len() ==> is_space(#[trigger] s[i])
}

pub proof fn lemma_ink_add(a: Seq<char>, b: Seq<char>)
    ensures
        ink(a + b) == ink(a) + ink(b),
    decreases b.len(),
{
    if b.len() == 0 {
        assert(a + b =~= a);
        assert(ink(a) + ink(b) =~= ink(a));
    } else {
        assert((a + b).drop_last() =~= a + b.drop_last());
        lemma_ink_add(a, b.drop_last());
        assert(ink(a) + ink(b.drop_last()).push(b.last()) =~= (ink(a) + ink(b.drop_last())).push(
            b.last(),
        ));
    }
}

pub proof fn lemma_ink_len(s: Seq<char>)
    ensures
        ink(s).len() <= s.len(),
        all_space(s) ==> ink(s).len() == 0,
    decreases s.len(),
{
    if s.len() > 0 {
        lemma_ink_len(s.drop_last());
        if all_space(s) {
            assert(all_space(s.drop_last())) by {
                assert forall|i: int| 0 <= i < s.drop_last().len() implies is_space(
                    #[trigger] s.drop_last()[i],
                ) by {
                    assert(s.drop_last()[i] == s[i]);
                }
            }
            assert(is_space(s[s.len() - 1]));
        }
    }
}

pub proof fn lemma_ink_all_add(a: Seq<Seq<char>>, b: Seq<Seq<char>>)
    ensures
        ink_all(a + b) == ink_all(a) + ink_all(b),
    decreases b.len(),
{
    if b.len() == 0 {
        assert(a + b =~= a);
        assert(ink_all(a) + ink_all(b) =~= ink_all(a));
    } else {
        assert((a + b).drop_last() =~= a + b.drop_last());
        assert((a + b).last() == b.last());
        lemma_ink_all_add(a, b.drop_last());
        assert(ink_all(a) + (ink_all(b.drop_last()) + ink(b.last())) =~= (ink_all(a) + ink_all(
            b.drop_last(),
        )) + ink(b.last()));
    }
}

pub proof fn lemma_ink_one(s: Seq<char>)
    ensures
        ink_all(seq![s]) == ink(s),
{
    let one = seq![s];
    assert(one.drop_last() =~= Seq::<Seq<char>>::empty());
    assert(ink_all(one.drop_last()) =~= Seq::<char>::empty());
    assert(Seq::<char>::empty() + ink(s) =~= ink(s));
}

proof fn lemma_ink_trim_start(s: Seq<char>)
    ensures
        ink(trim_start(s)) == ink(s),
    decreases s.len(),
{
    if s.len() > 0 && is_space(s[0]) {
        lemma_ink_trim_start(s.skip(1));
        let w = seq![s[0]];
        assert(s =~= w + s.skip(1));
        lemma_ink_add(w, s.skip(1));
        lemma_ink_len(w);
        assert(ink(w) + ink(s.skip(1)) =~= ink(s.skip(1)));
    }
}

proof fn lemma_ink_trim_end(s: Seq<char>)
    ensures
        ink(trim_end(s)) == ink(s),
    decreases s.len(),
{
    if s.len() > 0 && is_space(s.last()) {
        lemma_ink_trim_end(s.drop_last());
    }
}

pub proof fn lemma_ink_trim(s: Seq<char>)
    ensures
        ink(trim(s)) == ink(s),
{
    lemma_ink_trim_start(s);
    lemma_ink_trim_end(trim_start(s));
}

pub proof fn lemma_reading_of_spaces(s: Seq<char>)
    requires
        all_space(s),
    ensures
        reading(s) == Seq::<char>::empty(),
    decreases s.len(),
{
    if s.len() > 0 {
        assert(is_space(s[s.len() - 1]));
        assert forall|i: int| 0 <= i < s.drop_last().len() implies is_space(
            #[trigger] s.drop_last()[i],
        ) by {
            assert(s.drop_last()[i] == s[i]);
        }
        lemma_reading_of_spaces(s.drop_last());
    }
}

/// A text that is read as nothing is white space.
pub proof fn lemma_reading_of_nothing(s: Seq<char>)
    requires
        reading(s).len() == 0,
    ensures
        all_space(s),
    decreases s.len(),
{
    if s.len() > 0 {
        lemma_reading_of_nothing(s.drop_last());
        assert forall|i: int| 0 <= i < s.len() implies is_space(#[trigger] s[i]) by {
            if i < s.len() - 1 {
                assert(s.drop_last()[i] == s[i]);
            }
        }
    }
}

/// Two texts with white space between them are read one after the other.
pub proof fn lemma_reading_apart(a: Seq<char>, gap: Seq<char>, b: Seq<char>)
    requires
        gap.len() > 0,
        all_space(gap),
    ensures
        reading(a + gap + b) == then_read(reading(a), reading(b)),
    decreases gap.len() + b.len(),
{
    let t = a + gap + b;
    if b.len() == 0 {
        assert(is_space(gap[gap.len() - 1]));
        assert(t.last() == gap.last());
        if gap.len() == 1 {
            assert(t.drop_last() =~= a);
        } else {
            let less = gap.drop_last();
            assert forall|i: int| 0 <= i < less.len() implies is_space(#[trigger] less[i]) by {
                assert(less[i] == gap[i]);
            }
            assert(t.drop_last() =~= a + less + b);
            lemma_reading_apart(a, less, b);
        }
    } else {
        let less = b.drop_last();
        lemma_reading_apart(a, gap, less);
        assert(t.drop_last() =~= a + gap + less);
        assert(t.last() == b.last());
        let before = reading(t.drop_last());
        let ra = reading(a);
        let rl = reading(less);
        if !is_space(b.last()) {
            if less.len() == 0 {
                assert(t[t.len() - 2] == gap.last());
                assert(is_space(gap[gap.len() - 1]));
                assert(reading(b) =~= seq![b.last()]);
                assert(reading(t) =~= then_read(ra, reading(b)));
            } else {
                assert(t[t.len() - 2] == less.last());
                assert(b[b.len() - 2] == less.last());
                if rl.len() == 0 {
                    lemma_reading_of_nothing(less);
                    assert(is_space(less[less.len() - 1]));
                }
                assert(reading(t) =~= then_read(ra, reading(b)));
            }
        }
    }
}

proof fn lemma_reading_trim_start(s: Seq<char>)
    ensures
        reading(trim_start(s)) == reading(s),
    decreases s.len(),
{
    if s.len() > 0 && is_space(s[0]) {
        lemma_reading_trim_start(s.skip(1));
        let none = Seq::<char>::empty();
        let w = seq![s[0]];
        assert(s =~= none + w + s.skip(1));
        lemma_reading_apart(none, w, s.skip(1));
    }
}

proof fn lemma_reading_trim_end(s: Seq<char>)
    ensures
        reading(trim_end(s)) == reading(s),
    decreases s.len(),
{
    if s.len() > 0 && is_space(s.last()) {
        lemma_reading_trim_end(s.drop_last());
    }
}

pub proof fn lemma_reading_trim(s: Seq<char>)
    ensures
        reading(trim(s)) == reading(s),
{
    lemma_reading_trim_start(s);
    lemma_reading_trim_end(trim_start(s));
}

/// White space for white space makes no difference.
pub proof fn lemma_reading_swap(s: Seq<char>, from: char, to: char)
    requires
        is_space(from),
        is_space(to),
    ensures
        reading(swap_char(s, from, to)) == reading(s),
        ink(swap_char(s, from, to)) == ink(s),
    decreases s.len(),
{
    let t = swap_char(s, from, to);
    if s.len() == 0 {
        assert(t =~= s);
    } else {
        lemma_reading_swap(s.drop_last(), from, to);
        assert(t.drop_last() =~= swap_char(s.drop_last(), from, to));
        if s.len() > 1 {
            assert(is_space(t[t.len() - 2]) == is_space(s[s.len() - 2]));
        }
    }
}

proof fn lemma_reading_replace_from(hay: Seq<char>, pat: Seq<char>, with: Seq<char>, from: int)
    requires
        pat.len() > 0,
        with.len() > 0,
        all_space(pat),
        all_space(with),
        0 <= from <= hay.len(),
    ensures
        reading(replace_from(hay, pat, with, from)) == reading(hay.skip(from)),
        ink(replace_from(hay, pat, with, from)) == ink(hay.skip(from)),
    decreases hay.len() - from,
{
    lemma_find_from(hay, pat, from);
    let out = replace_from(hay, pat, with, from);
    let rest = hay.skip(from);
    match crate::text::find_from(hay, pat, from) {
        Some(i) => {
            let next = (i + pat.len()) as int;
            lemma_reading_replace_from(hay, pat, with, next);
            let a = hay.subrange(from, i);
            let tail = replace_from(hay, pat, with, next);
            assert(matches_at(hay, pat, i));
            assert(hay.subrange(i, next) == pat);
            assert(rest =~= a + pat + hay.skip(next)) by {
                assert(rest =~= a + hay.subrange(i, next) + hay.skip(next));
            }
            assert(out == a + with + tail);
            lemma_reading_apart(a, pat, hay.skip(next));
            lemma_reading_apart(a, with, tail);
            lemma_ink_add(a + pat, hay.skip(next));
            lemma_ink_add(a, pat);
            lemma_ink_add(a + with, tail);
            lemma_ink_add(a, with);
            lemma_ink_len(pat);
            lemma_ink_len(with);
            assert(ink(a) + ink(pat) =~= ink(a) + ink(with));
        },
        None => {
            assert(out =~= rest);
        },
    }
}

/// Replacing white space by white space makes no difference.
pub proof fn lemma_reading_replace(hay: Seq<char>, pat: Seq<char>, with: Seq<char>)
    requires
        pat.len() > 0,
        with.len() > 0,
        all_space(pat),
        all_space(with),
    ensures
        reading(replace_all(hay, pat, with)) == reading(hay),
        ink(replace_all(hay, pat, with)) == ink(hay),
{
    lemma_reading_replace_from(hay, pat, with, 0);
    assert(hay.skip(0) =~= hay);
}

/// `part` stands in `whole`.
pub open spec fn holds(whole: Seq<char>, part: Seq<char>) -> bool {
    exists|k: int| #[trigger] matches_at(whole, part, k)
}

pub proof fn lemma_holds(a: Seq<char>, part: Seq<char>, b: Seq<char>)
    ensures
        holds(a + part + b, part),
{
    let all = a + part + b;
    let k = a.len() as int;
    assert(all.subrange(k, k + part.len()) =~= part);
    assert(matches_at(all, part, k));
}

/// What stands in a text stands in every text that the text stands in.
pub proof fn lemma_holds_through(whole: Seq<char>, mid: Seq<char>, part: Seq<char>)
    requires
        holds(whole, mid),
        holds(mid, part),
    ensures
        holds(whole, part),
{
    let i = choose|k: int| #[trigger] matches_at(whole, mid, k);
    let j = choose|k: int| #[trigger] matches_at(mid, part, k);
    assert(whole.subrange(i + j, i + j + part.len()) =~= part) by {
        assert forall|x: int| 0 <= x < part.len() implies whole[i + j + x] == part[x] by {
            assert(whole.subrange(i, i + mid.len())[j + x] == mid[j + x]);
            assert(mid.subrange(j, j + part.len())[x] == part[x]);
        }
    }
    assert(matches_at(whole, part, i + j));
}

/// Every part of a list stands in the list when it is joined.
pub proof fn lemma_join_holds(parts: Seq<Seq<char>>, sep: Seq<char>, i: int)
    requires
        0 <= i < parts.len(),
    ensures
        holds(crate::text::join(parts, sep), parts[i]),
    decreases parts.len(),
{
    let all = crate::text::join(parts, sep);
    let none = Seq::<char>::empty();
    if parts.len() == 1 {
        assert(all =~= none + parts[i] + none);
        lemma_holds(none, parts[i], none);
    } else {
        let less = parts.drop_last();
        let front = crate::text::join(less, sep);
        if i == parts.len() - 1 {
            assert(all =~= front + sep + parts[i] + none);
            lemma_holds(front + sep, parts[i], none);
        } else {
            assert(less[i] == parts[i]);
            lemma_join_holds(less, sep, i);
            assert(all =~= none + front + (sep + parts.last()));
            lemma_holds(none, front, sep + parts.last());
            lemma_holds_through(all, front, parts[i]);
        }
    }
}

/// A text is read by its words: each is whole, none is empty, and with one space between each
/// two they are the reading of the text.
pub proof fn law_a_text_is_read_by_its_words(s: Seq<char>)
    ensures
        crate::text::join(crate::text::words(s), " "@) == reading(s),
        forall|i: int|
            0 <= i < crate::text::words(s).len() ==> is_word(#[trigger] crate::text::words(s)[i]),
{
    lemma_words(s, 0);
    assert(s.skip(0) =~= s);
}

/// One character at least, and no white space.
pub open spec fn is_word(w: Seq<char>) -> bool {
    w.len() > 0 && forall|i: int| 0 <= i < w.len() ==> !is_space(#[trigger] w[i])
}

proof fn lemma_reading_of_word(w: Seq<char>)
    requires
        forall|i: int| 0 <= i < w.len() ==> !is_space(#[trigger] w[i]),
    ensures
        reading(w) == w,
    decreases w.len(),
{
    if w.len() > 0 {
        let less = w.drop_last();
        assert forall|i: int| 0 <= i < less.len() implies !is_space(#[trigger] less[i]) by {
            assert(less[i] == w[i]);
        }
        lemma_reading_of_word(less);
        assert(!is_space(w[w.len() - 1]));
        if w.len() > 1 {
            assert(!is_space(w[w.len() - 2]));
        }
        assert(less.push(w.last()) =~= w);
    }
}

proof fn lemma_word_end(s: Seq<char>, from: int)
    requires
        0 <= from <= s.len(),
    ensures
        ({
            let e = crate::text::word_end(s, from);
            &&& from <= e <= s.len()
            &&& forall|i: int| from <= i < e ==> !is_space(#[trigger] s[i])
            &&& e < s.len() ==> is_space(s[e])
        }),
    decreases s.len() - from,
{
    if from < s.len() && !is_space(s[from]) {
        lemma_word_end(s, from + 1);
    }
}

proof fn lemma_words(s: Seq<char>, from: int)
    requires
        0 <= from <= s.len(),
    ensures
        ({
            let w = crate::text::words_from(s, from);
            &&& crate::text::join(w, " "@) == reading(s.skip(from))
            &&& w.len() > 0 ==> reading(s.skip(from)).len() > 0
            &&& forall|i: int| 0 <= i < w.len() ==> is_word(#[trigger] w[i])
        }),
    decreases s.len() - from,
{
    reveal_strlit(" ");
    let none = Seq::<char>::empty();
    let all = s.skip(from);
    if from >= s.len() {
        assert(all =~= none);
    } else if is_space(s[from]) {
        lemma_words(s, from + 1);
        let gap = seq![s[from]];
        assert(all =~= none + gap + s.skip(from + 1));
        lemma_reading_apart(none, gap, s.skip(from + 1));
        assert(reading(none) =~= none);
    } else {
        let e = crate::text::word_end(s, from);
        lemma_word_end(s, from);
        let w = s.subrange(from, e);
        assert(e > from);
        assert forall|i: int| 0 <= i < w.len() implies !is_space(#[trigger] w[i]) by {
            assert(w[i] == s[from + i]);
        }
        lemma_reading_of_word(w);
        lemma_words(s, e);
        let rest = crate::text::words_from(s, e);
        let list = seq![w] + rest;
        assert(crate::text::words_from(s, from) == list);
        if e == s.len() {
            assert(all =~= w);
            assert(rest.len() == 0);
            assert(list =~= seq![w]);
        } else {
            let gap = seq![s[e]];
            assert(all =~= w + gap + s.skip(e + 1));
            lemma_reading_apart(w, gap, s.skip(e + 1));
            assert(s.skip(e) =~= none + gap + s.skip(e + 1));
            lemma_reading_apart(none, gap, s.skip(e + 1));
            assert(reading(none) =~= none);
            assert(reading(s.skip(e + 1)) == reading(s.skip(e)));
            if rest.len() == 0 {
                assert(list =~= seq![w]);
                assert(crate::text::join(rest, " "@) =~= none);
            } else {
                crate::text::lemma_join_first(w, rest, " "@);
                assert(w.push(' ') + reading(s.skip(e)) =~= w + " "@ + reading(s.skip(e)));
            }
        }
    }
}

} // verus!
