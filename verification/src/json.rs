//! JSON values as the rest of the library reads and writes them.

use std::collections::BTreeMap;

use serde_json::value::RawValue;
use serde_json::{from_str, Value};
use vstd::prelude::*;

use crate::text::{
    all_digits, digits_value, part, read_digits, signed_decimal, signed_text, str_eq, to_chars,
};

verus! {

/// A JSON value. A number keeps its text; the fields of a record are ordered by name when
/// the value was read from a text.
#[derive(Debug)]
pub enum Json {
    Null,
    Bool(bool),
    Number(String),
    Text(String),
    List(Vec<Json>),
    Record(Vec<(String, Json)>),
}

/// The mathematical value of a `Json`.
pub enum JsonView {
    Null,
    Bool(bool),
    Number(Seq<char>),
    Text(Seq<char>),
    List(Seq<JsonView>),
    Record(Seq<(Seq<char>, JsonView)>),
}

impl Json {
    pub open spec fn view(self) -> JsonView
        decreases self,
    {
        match self {
            Json::Null => JsonView::Null,
            Json::Bool(b) => JsonView::Bool(b),
            Json::Number(n) => JsonView::Number(n@),
            Json::Text(s) => JsonView::Text(s@),
            Json::List(v) => JsonView::List(list_view(v@)),
            Json::Record(f) => JsonView::Record(record_view(f@)),
        }
    }
}

pub open spec fn list_view(v: Seq<Json>) -> Seq<JsonView>
    decreases v,
{
    if v.len() == 0 {
        Seq::empty()
    } else {
        list_view(v.drop_last()).push(v.last().view())
    }
}

pub open spec fn record_view(v: Seq<(String, Json)>) -> Seq<(Seq<char>, JsonView)>
    decreases v,
{
    if v.len() == 0 {
        Seq::empty()
    } else {
        record_view(v.drop_last()).push((v.last().0@, v.last().1.view()))
    }
}

pub proof fn lemma_list_view(v: Seq<Json>)
    ensures
        list_view(v).len() == v.len(),
        forall|i: int| 0 <= i < v.len() ==> (#[trigger] list_view(v)[i]) == v[i].view(),
    decreases v.len(),
{
    if v.len() > 0 {
        lemma_list_view(v.drop_last());
    }
}

pub proof fn lemma_record_view(v: Seq<(String, Json)>)
    ensures
        record_view(v).len() == v.len(),
        forall|i: int|
            0 <= i < v.len() ==> (#[trigger] record_view(v)[i]) == (v[i].0@, v[i].1.view()),
    decreases v.len(),
{
    if v.len() > 0 {
        lemma_record_view(v.drop_last());
    }
}

// ---------------------------------------------------------------------------
// Reading
// ---------------------------------------------------------------------------

/// The outermost layer of a JSON text, with the texts of what it holds.
pub enum JsonLayer {
    Null,
    Bool(bool),
    Number(String),
    Text(String),
    List(Vec<String>),
    Record(Vec<(String, String)>),
}

pub enum LayerView {
    Null,
    Bool(bool),
    Number(Seq<char>),
    Text(Seq<char>),
    List(Seq<Seq<char>>),
    Record(Seq<(Seq<char>, Seq<char>)>),
}

impl JsonLayer {
    pub open spec fn view(self) -> LayerView {
        match self {
            JsonLayer::Null => LayerView::Null,
            JsonLayer::Bool(b) => LayerView::Bool(b),
            JsonLayer::Number(n) => LayerView::Number(n@),
            JsonLayer::Text(s) => LayerView::Text(s@),
            JsonLayer::List(v) => LayerView::List(Seq::new(v@.len(), |i: int| v@[i]@)),
            JsonLayer::Record(f) => LayerView::Record(
                Seq::new(f@.len(), |i: int| (f@[i].0@, f@[i].1@)),
            ),
        }
    }
}

/// What `serde_json::from_str` reads as the outermost layer of a text; `None` where the
/// text is not one JSON value.
pub uninterp spec fn json_layer(text: Seq<char>) -> Option<LayerView>;

/// What a layer holds is written with fewer characters than the whole.
pub open spec fn holds_less(layer: LayerView, n: nat) -> bool {
    match layer {
        LayerView::List(v) => forall|i: int| 0 <= i < v.len() ==> (#[trigger] v[i]).len() < n,
        LayerView::Record(f) => forall|i: int| 0 <= i < f.len() ==> (#[trigger] f[i]).1.len() < n,
        _ => true,
    }
}

/// Calls `serde_json::from_str` with `Value` as its target, and for a list or a record once
/// more with `RawValue` as the target of the items, which `RawValue` hands out as parts of
/// the text. A `Number` is rendered with its `Display`. The result is named by `json_layer`;
/// beyond that, each item's text is a proper part of the whole and so is shorter.
#[verifier::external_body]
fn read_layer(text: &str) -> (r: Option<JsonLayer>)
    ensures
        match r {
            Some(l) => json_layer(text@) == Some(l.view()) && holds_less(l.view(), text@.len()),
            None => json_layer(text@) is None,
        },
{
    Some(match from_str::<Value>(text).ok()? {
        Value::Null => JsonLayer::Null,
        Value::Bool(b) => JsonLayer::Bool(b),
        Value::Number(n) => JsonLayer::Number(n.to_string()),
        Value::String(s) => JsonLayer::Text(s),
        Value::Array(_) => JsonLayer::List(
            from_str::<Vec<&RawValue>>(text).ok()?
                .into_iter().map(|v| v.get().to_string()).collect()),
        Value::Object(_) => JsonLayer::Record(
            from_str::<BTreeMap<String, &RawValue>>(text).ok()?
                .into_iter().map(|(k, v)| (k, v.get().to_string())).collect()),
    })
}

/// The JSON value that a text writes, layer by layer.
pub open spec fn parsed(text: Seq<char>) -> Option<JsonView>
    decreases text.len(), 1int, 0int,
{
    match json_layer(text) {
        None => None,
        Some(LayerView::Null) => Some(JsonView::Null),
        Some(LayerView::Bool(b)) => Some(JsonView::Bool(b)),
        Some(LayerView::Number(n)) => Some(JsonView::Number(n)),
        Some(LayerView::Text(s)) => Some(JsonView::Text(s)),
        Some(LayerView::List(v)) => match parsed_list(v, text.len()) {
            Some(items) => Some(JsonView::List(items)),
            None => None,
        },
        Some(LayerView::Record(f)) => match parsed_record(f, text.len()) {
            Some(fields) => Some(JsonView::Record(fields)),
            None => None,
        },
    }
}

pub open spec fn parsed_list(v: Seq<Seq<char>>, below: nat) -> Option<Seq<JsonView>>
    decreases below, 0int, v.len(),
{
    if v.len() == 0 {
        Some(Seq::empty())
    } else if v.last().len() >= below {
        None
    } else {
        match (parsed_list(v.drop_last(), below), parsed(v.last())) {
            (Some(items), Some(item)) => Some(items.push(item)),
            _ => None,
        }
    }
}

pub open spec fn parsed_record(f: Seq<(Seq<char>, Seq<char>)>, below: nat) -> Option<
    Seq<(Seq<char>, JsonView)>,
>
    decreases below, 0int, f.len(),
{
    if f.len() == 0 {
        Some(Seq::empty())
    } else if f.last().1.len() >= below {
        None
    } else {
        match (parsed_record(f.drop_last(), below), parsed(f.last().1)) {
            (Some(fields), Some(value)) => Some(fields.push((f.last().0, value))),
            _ => None,
        }
    }
}

/// A part of a list that cannot be read leaves the list unread.
proof fn lemma_parsed_list_prefix(v: Seq<Seq<char>>, below: nat, n: int)
    requires
        0 <= n <= v.len(),
        parsed_list(v.take(n), below) is None,
    ensures
        parsed_list(v, below) is None,
    decreases v.len() - n,
{
    if n < v.len() {
        assert(v.take(n + 1).drop_last() =~= v.take(n));
        lemma_parsed_list_prefix(v, below, n + 1);
    } else {
        assert(v.take(n) =~= v);
    }
}

proof fn lemma_parsed_record_prefix(f: Seq<(Seq<char>, Seq<char>)>, below: nat, n: int)
    requires
        0 <= n <= f.len(),
        parsed_record(f.take(n), below) is None,
    ensures
        parsed_record(f, below) is None,
    decreases f.len() - n,
{
    if n < f.len() {
        assert(f.take(n + 1).drop_last() =~= f.take(n));
        lemma_parsed_record_prefix(f, below, n + 1);
    } else {
        assert(f.take(n) =~= f);
    }
}

impl Json {
    /// Reads a JSON text; `None` where it is not one JSON value.
    pub fn parse(text: &str) -> (r: Option<Json>)
        ensures
            match r {
                Some(j) => parsed(text@) == Some(j.view()),
                None => parsed(text@) is None,
            },
        decreases text@.len(), 1int,
    {
        let n: Ghost<nat> = Ghost(text@.len());
        match read_layer(text) {
            None => None,
            Some(JsonLayer::Null) => Some(Json::Null),
            Some(JsonLayer::Bool(b)) => Some(Json::Bool(b)),
            Some(JsonLayer::Number(n)) => Some(Json::Number(n)),
            Some(JsonLayer::Text(s)) => Some(Json::Text(s)),
            Some(JsonLayer::List(v)) => {
                let ghost texts = Seq::new(v@.len(), |i: int| v@[i]@);
                let mut items: Vec<Json> = Vec::new();
                let mut i: usize = 0;
                assert(texts.take(0) =~= Seq::<Seq<char>>::empty());
                while i < v.len()
                    invariant
                        i <= v.len(),
                        n@ == text@.len(),
                        texts == Seq::new(v@.len(), |i: int| v@[i]@),
                        json_layer(text@) == Some(LayerView::List(texts)),
                        holds_less(LayerView::List(texts), n@),
                        parsed_list(texts.take(i as int), n@) == Some(list_view(items@)),
                    decreases v.len() - i,
                {
                    assert(texts[i as int].len() < n@);
                    assert(texts.take(i + 1).drop_last() =~= texts.take(i as int));
                    match Json::parse(v[i].as_str()) {
                        Some(item) => {
                            let ghost before = items@;
                            items.push(item);
                            assert(items@.drop_last() =~= before);
                        },
                        None => {
                            proof {
                                lemma_parsed_list_prefix(texts, n@, i + 1);
                            }
                            return None;
                        },
                    }
                    i = i + 1;
                }
                assert(texts.take(i as int) =~= texts);
                Some(Json::List(items))
            },
            Some(JsonLayer::Record(f)) => {
                let ghost texts = Seq::new(f@.len(), |i: int| (f@[i].0@, f@[i].1@));
                let mut fields: Vec<(String, Json)> = Vec::new();
                let mut i: usize = 0;
                assert(texts.take(0) =~= Seq::<(Seq<char>, Seq<char>)>::empty());
                while i < f.len()
                    invariant
                        i <= f.len(),
                        n@ == text@.len(),
                        texts == Seq::new(f@.len(), |i: int| (f@[i].0@, f@[i].1@)),
                        json_layer(text@) == Some(LayerView::Record(texts)),
                        holds_less(LayerView::Record(texts), n@),
                        parsed_record(texts.take(i as int), n@) == Some(record_view(fields@)),
                    decreases f.len() - i,
                {
                    assert(texts[i as int].1.len() < n@);
                    assert(texts.take(i + 1).drop_last() =~= texts.take(i as int));
                    match Json::parse(f[i].1.as_str()) {
                        Some(value) => {
                            let ghost before = fields@;
                            fields.push((f[i].0.clone(), value));
                            assert(fields@.drop_last() =~= before);
                        },
                        None => {
                            proof {
                                lemma_parsed_record_prefix(texts, n@, i + 1);
                            }
                            return None;
                        },
                    }
                    i = i + 1;
                }
                assert(texts.take(i as int) =~= texts);
                Some(Json::Record(fields))
            },
        }
    }
}

// ---------------------------------------------------------------------------
// Looking inside
// ---------------------------------------------------------------------------

/// The value of the last field of that name.
pub open spec fn field_in(f: Seq<(Seq<char>, JsonView)>, key: Seq<char>) -> Option<JsonView>
    decreases f.len(),
{
    if f.len() == 0 {
        None
    } else if f.last().0 == key {
        Some(f.last().1)
    } else {
        field_in(f.drop_last(), key)
    }
}

/// The field of a record; `None` for what is not a record or has no such field.
pub open spec fn field(v: JsonView, key: Seq<char>) -> Option<JsonView> {
    match v {
        JsonView::Record(f) => field_in(f, key),
        _ => None,
    }
}

pub open spec fn text_of(v: JsonView) -> Option<Seq<char>> {
    match v {
        JsonView::Text(s) => Some(s),
        _ => None,
    }
}

/// The text in a field of a record.
pub open spec fn field_text(v: JsonView, key: Seq<char>) -> Option<Seq<char>> {
    match field(v, key) {
        Some(JsonView::Text(s)) => Some(s),
        _ => None,
    }
}

/// The items in a field of a record.
pub open spec fn field_list(v: JsonView, key: Seq<char>) -> Option<Seq<JsonView>> {
    match field(v, key) {
        Some(JsonView::List(items)) => Some(items),
        _ => None,
    }
}

pub open spec fn text_or(t: Option<Seq<char>>, default: Seq<char>) -> Seq<char> {
    match t {
        Some(s) => s,
        None => default,
    }
}

impl Json {
    pub fn get(&self, key: &str) -> (r: Option<&Json>)
        ensures
            match r {
                Some(j) => field(self.view(), key@) == Some(j.view()),
                None => field(self.view(), key@) is None,
            },
    {
        match self {
            Json::Record(f) => {
                let mut i: usize = f.len();
                let ghost all = record_view(f@);
                proof {
                    lemma_record_view(f@);
                    assert(all.take(all.len() as int) =~= all);
                }
                while i > 0
                    invariant
                        i <= f.len(),
                        self.view() == JsonView::Record(all),
                        all.len() == f@.len(),
                        forall|k: int| 0 <= k < f@.len() ==> #[trigger] all[k] == (f@[k].0@, f@[k].1.view()),
                        field_in(all, key@) == field_in(all.take(i as int), key@),
                    decreases i,
                {
                    assert(all.take(i as int).drop_last() =~= all.take(i - 1));
                    assert(all.take(i as int).last() == all[i - 1]);
                    if str_eq(f[i - 1].0.as_str(), key) {
                        return Some(&f[i - 1].1);
                    }
                    i = i - 1;
                }
                None
            },
            _ => None,
        }
    }

    pub fn as_text(&self) -> (r: Option<&str>)
        ensures
            match r {
                Some(s) => self.view() == JsonView::Text(s@),
                None => !(self.view() is Text),
            },
    {
        match self {
            Json::Text(s) => Some(s.as_str()),
            _ => None,
        }
    }

    pub fn as_list(&self) -> (r: Option<&Vec<Json>>)
        ensures
            match r {
                Some(v) => self.view() == JsonView::List(list_view(v@)),
                None => !(self.view() is List),
            },
    {
        match self {
            Json::List(v) => Some(v),
            _ => None,
        }
    }

    pub fn get_text(&self, key: &str) -> (r: Option<&str>)
        ensures
            match r {
                Some(s) => field_text(self.view(), key@) == Some(s@),
                None => field_text(self.view(), key@) is None,
            },
    {
        match self.get(key) {
            Some(v) => v.as_text(),
            None => None,
        }
    }

    pub fn get_list(&self, key: &str) -> (r: Option<&Vec<Json>>)
        ensures
            match r {
                Some(v) => field_list(self.view(), key@) == Some(list_view(v@)),
                None => field_list(self.view(), key@) is None,
            },
    {
        match self.get(key) {
            Some(v) => v.as_list(),
            None => None,
        }
    }

    /// The text in a field, or the empty text.
    pub fn get_text_or_empty(&self, key: &str) -> (r: String)
        ensures
            r@ == text_or(field_text(self.view(), key@), Seq::empty()),
    {
        match self.get_text(key) {
            Some(s) => s.to_owned(),
            None => {
                let s = String::new();
                assert(s@ =~= Seq::<char>::empty());
                s
            },
        }
    }

    /// A copy with the same value.
    pub fn copy(&self) -> (r: Json)
        ensures
            r.view() == self.view(),
        decreases self,
    {
        match self {
            Json::Null => Json::Null,
            Json::Bool(b) => Json::Bool(*b),
            Json::Number(n) => Json::Number(n.clone()),
            Json::Text(s) => Json::Text(s.clone()),
            Json::List(v) => Json::List(copy_list(v)),
            Json::Record(f) => {
                let mut out: Vec<(String, Json)> = Vec::new();
                let mut i: usize = 0;
                assert(f@.take(0) =~= Seq::<(String, Json)>::empty());
                while i < f.len()
                    invariant
                        i <= f.len(),
                        self == Json::Record(*f),
                        record_view(out@) == record_view(f@.take(i as int)),
                    decreases f.len() - i,
                {
                    let ghost before = out@;
                    proof {
                        assert(decreases_to!(self => self->Record_0));
                        assert(decreases_to!(f => f@));
                        assert(decreases_to!(f@ => f@[i as int]));
                        assert(decreases_to!(f@[i as int] => f@[i as int].1));
                    }
                    out.push((f[i].0.clone(), f[i].1.copy()));
                    assert(out@.drop_last() =~= before);
                    assert(f@.take(i + 1).drop_last() =~= f@.take(i as int));
                    i = i + 1;
                }
                assert(f@.take(i as int) =~= f@);
                Json::Record(out)
            },
        }
    }
}

pub fn copy_list(v: &Vec<Json>) -> (r: Vec<Json>)
    ensures
        list_view(r@) == list_view(v@),
    decreases v,
{
    let mut out: Vec<Json> = Vec::new();
    let mut i: usize = 0;
    assert(v@.take(0) =~= Seq::<Json>::empty());
    while i < v.len()
        invariant
            i <= v.len(),
            list_view(out@) == list_view(v@.take(i as int)),
        decreases v.len() - i,
    {
        let ghost before = out@;
        proof {
            assert(decreases_to!(v => v@));
            assert(decreases_to!(v@ => v@[i as int]));
        }
        out.push(v[i].copy());
        assert(out@.drop_last() =~= before);
        assert(v@.take(i + 1).drop_last() =~= v@.take(i as int));
        i = i + 1;
    }
    assert(v@.take(i as int) =~= v@);
    out
}

// ---------------------------------------------------------------------------
// Writing
// ---------------------------------------------------------------------------

pub open spec fn hex_digit(n: int) -> char {
    if n < 10 {
        crate::text::digit_char(n as nat)
    } else if n == 10 {
        'a'
    } else if n == 11 {
        'b'
    } else if n == 12 {
        'c'
    } else if n == 13 {
        'd'
    } else if n == 14 {
        'e'
    } else {
        'f'
    }
}

/// A character as it stands between the quotes of a JSON text.
pub open spec fn escaped_char(c: char) -> Seq<char> {
    if c == '"' {
        seq!['\\', '"']
    } else if c == '\\' {
        seq!['\\', '\\']
    } else if c == '\u{8}' {
        seq!['\\', 'b']
    } else if c == '\u{9}' {
        seq!['\\', 't']
    } else if c == '\u{a}' {
        seq!['\\', 'n']
    } else if c == '\u{c}' {
        seq!['\\', 'f']
    } else if c == '\u{d}' {
        seq!['\\', 'r']
    } else if (c as u32) < 0x20 {
        seq!['\\', 'u', '0', '0', hex_digit((c as u32) as int / 16), hex_digit((c as u32) as int % 16)]
    } else {
        seq![c]
    }
}

pub open spec fn escaped(s: Seq<char>) -> Seq<char>
    decreases s.len(),
{
    if s.len() == 0 {
        Seq::empty()
    } else {
        escaped(s.drop_last()) + escaped_char(s.last())
    }
}

/// A text as a JSON string, with its quotes.
pub open spec fn quoted(s: Seq<char>) -> Seq<char> {
    seq!['"'] + escaped(s) + seq!['"']
}

/// The compact JSON text of a value.
pub open spec fn rendered(v: JsonView) -> Seq<char>
    decreases v,
{
    match v {
        JsonView::Null => seq!['n', 'u', 'l', 'l'],
        JsonView::Bool(b) => if b {
            seq!['t', 'r', 'u', 'e']
        } else {
            seq!['f', 'a', 'l', 's', 'e']
        },
        JsonView::Number(n) => n,
        JsonView::Text(s) => quoted(s),
        JsonView::List(items) => seq!['['] + rendered_items(items) + seq![']'],
        JsonView::Record(fields) => seq!['{'] + rendered_fields(fields) + seq!['}'],
    }
}

pub open spec fn rendered_items(v: Seq<JsonView>) -> Seq<char>
    decreases v,
{
    if v.len() == 0 {
        Seq::empty()
    } else if v.len() == 1 {
        rendered(v.last())
    } else {
        rendered_items(v.drop_last()) + seq![','] + rendered(v.last())
    }
}

pub open spec fn rendered_fields(f: Seq<(Seq<char>, JsonView)>) -> Seq<char>
    decreases f,
{
    if f.len() == 0 {
        Seq::empty()
    } else if f.len() == 1 {
        quoted(f.last().0) + seq![':'] + rendered(f.last().1)
    } else {
        rendered_fields(f.drop_last()) + seq![','] + (quoted(f.last().0) + seq![':'] + rendered(
            f.last().1,
        ))
    }
}

pub fn hex_of(n: u8) -> (r: char)
    requires
        n < 16,
    ensures
        r == hex_digit(n as int),
{
    if n < 10 {
        crate::text::digit_of(n as u64)
    } else if n == 10 {
        'a'
    } else if n == 11 {
        'b'
    } else if n == 12 {
        'c'
    } else if n == 13 {
        'd'
    } else if n == 14 {
        'e'
    } else {
        'f'
    }
}

fn push_escaped(out: &mut String, c: char)
    ensures
        final(out)@ == old(out)@ + escaped_char(c),
{
    let ghost before = out@;
    if c == '"' || c == '\\' {
        out.push('\\');
        out.push(c);
    } else if c == '\u{8}' {
        out.push('\\');
        out.push('b');
    } else if c == '\u{9}' {
        out.push('\\');
        out.push('t');
    } else if c == '\u{a}' {
        out.push('\\');
        out.push('n');
    } else if c == '\u{c}' {
        out.push('\\');
        out.push('f');
    } else if c == '\u{d}' {
        out.push('\\');
        out.push('r');
    } else if (c as u32) < 0x20 {
        let n: u8 = c as u8;
        out.push('\\');
        out.push('u');
        out.push('0');
        out.push('0');
        out.push(hex_of(n / 16));
        out.push(hex_of(n % 16));
    } else {
        out.push(c);
    }
    assert(out@ =~= before + escaped_char(c));
}

/// A text as a JSON string, with its quotes and escapes.
pub fn quote(s: &str) -> (r: String)
    ensures
        r@ == quoted(s@),
{
    let c = to_chars(s);
    let mut out = String::new();
    out.push('"');
    let mut i: usize = 0;
    assert(out@ =~= seq!['"'] + escaped(c@.take(0)));
    while i < c.len()
        invariant
            i <= c.len(),
            out@ == seq!['"'] + escaped(c@.take(i as int)),
        decreases c.len() - i,
    {
        assert(c@.take(i + 1).drop_last() =~= c@.take(i as int));
        push_escaped(&mut out, c[i]);
        i = i + 1;
        assert(out@ =~= seq!['"'] + escaped(c@.take(i as int)));
    }
    assert(c@.take(i as int) =~= c@);
    out.push('"');
    assert(out@ =~= quoted(s@));
    out
}

impl Json {
    /// The compact JSON text of the value.
    pub fn render(&self) -> (r: String)
        ensures
            r@ == rendered(self.view()),
        decreases self,
    {
        match self {
            Json::Null => {
                let s = "null".to_owned();
                proof {
                    reveal_strlit("null");
                }
                assert(s@ =~= rendered(JsonView::Null));
                s
            },
            Json::Bool(b) => {
                proof {
                    reveal_strlit("true");
                    reveal_strlit("false");
                }
                let s = if *b {
                    "true".to_owned()
                } else {
                    "false".to_owned()
                };
                assert(s@ =~= rendered(JsonView::Bool(*b)));
                s
            },
            Json::Number(n) => n.clone(),
            Json::Text(s) => quote(s.as_str()),
            Json::List(v) => {
                let ghost all = list_view(v@);
                let mut out = String::new();
                out.push('[');
                let mut i: usize = 0;
                proof {
                    lemma_list_view(v@);
                }
                assert(out@ =~= seq!['['] + rendered_items(all.take(0)));
                while i < v.len()
                    invariant
                        i <= v.len(),
                        self == Json::List(*v),
                        all == list_view(v@),
                        all.len() == v@.len(),
                        forall|k: int| 0 <= k < v@.len() ==> #[trigger] all[k] == v@[k].view(),
                        out@ == seq!['['] + rendered_items(all.take(i as int)),
                    decreases v.len() - i,
                {
                    assert(all.take(i + 1).drop_last() =~= all.take(i as int));
                    assert(all.take(i + 1).last() == all[i as int]);
                    if i > 0 {
                        out.push(',');
                    }
                    proof {
                        assert(decreases_to!(self => self->List_0));
                        assert(decreases_to!(v => v@));
                        assert(decreases_to!(v@ => v@[i as int]));
                    }
                    out.append(v[i].render().as_str());
                    i = i + 1;
                    assert(out@ =~= seq!['['] + rendered_items(all.take(i as int)));
                }
                assert(all.take(i as int) =~= all);
                out.push(']');
                assert(out@ =~= rendered(self.view()));
                out
            },
            Json::Record(f) => {
                let ghost all = record_view(f@);
                let mut out = String::new();
                out.push('{');
                let mut i: usize = 0;
                proof {
                    lemma_record_view(f@);
                }
                assert(out@ =~= seq!['{'] + rendered_fields(all.take(0)));
                while i < f.len()
                    invariant
                        i <= f.len(),
                        self == Json::Record(*f),
                        all == record_view(f@),
                        all.len() == f@.len(),
                        forall|k: int| 0 <= k < f@.len() ==> #[trigger] all[k] == (f@[k].0@, f@[k].1.view()),
                        out@ == seq!['{'] + rendered_fields(all.take(i as int)),
                    decreases f.len() - i,
                {
                    assert(all.take(i + 1).drop_last() =~= all.take(i as int));
                    assert(all.take(i + 1).last() == all[i as int]);
                    if i > 0 {
                        out.push(',');
                    }
                    out.append(quote(f[i].0.as_str()).as_str());
                    out.push(':');
                    proof {
                        assert(decreases_to!(self => self->Record_0));
                        assert(decreases_to!(f => f@));
                        assert(decreases_to!(f@ => f@[i as int]));
                        assert(decreases_to!(f@[i as int] => f@[i as int].1));
                    }
                    out.append(f[i].1.render().as_str());
                    i = i + 1;
                    assert(out@ =~= seq!['{'] + rendered_fields(all.take(i as int)));
                }
                assert(all.take(i as int) =~= all);
                out.push('}');
                assert(out@ =~= rendered(self.view()));
                out
            },
        }
    }
}

// ---------------------------------------------------------------------------
// Building JSON
// ---------------------------------------------------------------------------

pub open spec fn txt(s: Seq<char>) -> JsonView {
    JsonView::Text(s)
}

pub open spec fn rec1(k: Seq<char>, v: JsonView) -> JsonView {
    JsonView::Record(seq![(k, v)])
}

pub open spec fn rec2(k1: Seq<char>, v1: JsonView, k2: Seq<char>, v2: JsonView) -> JsonView {
    JsonView::Record(seq![(k1, v1), (k2, v2)])
}

pub open spec fn rec3(
    k1: Seq<char>,
    v1: JsonView,
    k2: Seq<char>,
    v2: JsonView,
    k3: Seq<char>,
    v3: JsonView,
) -> JsonView {
    JsonView::Record(seq![(k1, v1), (k2, v2), (k3, v3)])
}

pub fn text_json(s: &str) -> (r: Json)
    ensures
        r.view() == txt(s@),
{
    Json::Text(s.to_owned())
}

pub fn record1(k: &str, v: Json) -> (r: Json)
    ensures
        r.view() == rec1(k@, v.view()),
{
    let ghost vv = v.view();
    let mut f: Vec<(String, Json)> = Vec::new();
    f.push((k.to_owned(), v));
    proof {
        lemma_record_view(f@);
    }
    assert(record_view(f@) =~= seq![(k@, vv)]);
    Json::Record(f)
}

pub fn record2(k1: &str, v1: Json, k2: &str, v2: Json) -> (r: Json)
    ensures
        r.view() == rec2(k1@, v1.view(), k2@, v2.view()),
{
    let ghost (w1, w2) = (v1.view(), v2.view());
    let mut f: Vec<(String, Json)> = Vec::new();
    f.push((k1.to_owned(), v1));
    f.push((k2.to_owned(), v2));
    proof {
        lemma_record_view(f@);
    }
    assert(record_view(f@) =~= seq![(k1@, w1), (k2@, w2)]);
    Json::Record(f)
}

pub fn record3(k1: &str, v1: Json, k2: &str, v2: Json, k3: &str, v3: Json) -> (r: Json)
    ensures
        r.view() == rec3(k1@, v1.view(), k2@, v2.view(), k3@, v3.view()),
{
    let ghost (w1, w2, w3) = (v1.view(), v2.view(), v3.view());
    let mut f: Vec<(String, Json)> = Vec::new();
    f.push((k1.to_owned(), v1));
    f.push((k2.to_owned(), v2));
    f.push((k3.to_owned(), v3));
    proof {
        lemma_record_view(f@);
    }
    assert(record_view(f@) =~= seq![(k1@, w1), (k2@, w2), (k3@, w3)]);
    Json::Record(f)
}

pub fn list1(v: Json) -> (r: Json)
    ensures
        r.view() == JsonView::List(seq![v.view()]),
{
    let ghost w = v.view();
    let mut l: Vec<Json> = Vec::new();
    l.push(v);
    proof {
        lemma_list_view(l@);
    }
    assert(list_view(l@) =~= seq![w]);
    Json::List(l)
}

pub open spec fn rec4(
    k1: Seq<char>,
    v1: JsonView,
    k2: Seq<char>,
    v2: JsonView,
    k3: Seq<char>,
    v3: JsonView,
    k4: Seq<char>,
    v4: JsonView,
) -> JsonView {
    JsonView::Record(seq![(k1, v1), (k2, v2), (k3, v3), (k4, v4)])
}

pub fn record4(
    k1: &str,
    v1: Json,
    k2: &str,
    v2: Json,
    k3: &str,
    v3: Json,
    k4: &str,
    v4: Json,
) -> (r: Json)
    ensures
        r.view() == rec4(k1@, v1.view(), k2@, v2.view(), k3@, v3.view(), k4@, v4.view()),
{
    let ghost (w1, w2, w3, w4) = (v1.view(), v2.view(), v3.view(), v4.view());
    let mut f: Vec<(String, Json)> = Vec::new();
    f.push((k1.to_owned(), v1));
    f.push((k2.to_owned(), v2));
    f.push((k3.to_owned(), v3));
    f.push((k4.to_owned(), v4));
    proof {
        lemma_record_view(f@);
    }
    assert(record_view(f@) =~= seq![(k1@, w1), (k2@, w2), (k3@, w3), (k4@, w4)]);
    Json::Record(f)
}

pub open spec fn empty_record_view() -> JsonView {
    JsonView::Record(Seq::empty())
}

pub fn empty_record() -> (r: Json)
    ensures
        r.view() == empty_record_view(),
{
    let f: Vec<(String, Json)> = Vec::new();
    assert(record_view(f@) =~= Seq::<(Seq<char>, JsonView)>::empty());
    Json::Record(f)
}

pub open spec fn int_view(n: int) -> JsonView {
    JsonView::Number(signed_decimal(n))
}

pub fn int_json(n: i64) -> (r: Json)
    ensures
        r.view() == int_view(n as int),
{
    Json::Number(signed_text(n))
}

// ---------------------------------------------------------------------------
// Whole numbers
// ---------------------------------------------------------------------------

/// The number that is written with digits alone, after a `-` where it is negative.
pub open spec fn whole(s: Seq<char>) -> Option<int> {
    if s.len() > 0 && s[0] == '-' {
        if all_digits(s.skip(1)) {
            Some(-digits_value(s.skip(1)))
        } else {
            None
        }
    } else if all_digits(s) {
        Some(digits_value(s) as int)
    } else {
        None
    }
}

/// A value that is a whole number.
pub open spec fn int_of(v: JsonView) -> Option<int> {
    match v {
        JsonView::Number(s) => whole(s),
        _ => None,
    }
}

/// The whole number in a field of a record.
pub open spec fn field_int(v: JsonView, key: Seq<char>) -> Option<int> {
    match field(v, key) {
        Some(JsonView::Number(s)) => whole(s),
        _ => None,
    }
}

pub open spec fn in_u64(n: Option<int>) -> Option<int> {
    match n {
        Some(k) if 0 <= k <= u64::MAX => Some(k),
        _ => None,
    }
}

pub open spec fn in_i64(n: Option<int>) -> Option<int> {
    match n {
        Some(k) if i64::MIN <= k <= i64::MAX => Some(k),
        _ => None,
    }
}

impl Json {
    /// A whole number that fits.
    pub fn as_u64(&self) -> (r: Option<u64>)
        ensures
            match r {
                Some(n) => in_u64(int_of(self.view())) == Some(n as int),
                None => in_u64(int_of(self.view())) is None,
            },
    {
        match self {
            Json::Number(s) => {
                let c = to_chars(s.as_str());
                if c.len() > 0 && c[0] == '-' {
                    let digits = part(c.as_slice(), 1, c.len());
                    assert(digits@ =~= s@.skip(1));
                    match read_digits(digits) {
                        Some(n) => if n == 0 {
                            Some(0)
                        } else {
                            None
                        },
                        None => None,
                    }
                } else {
                    read_digits(c.as_slice())
                }
            },
            _ => None,
        }
    }

    pub fn as_i64(&self) -> (r: Option<i64>)
        ensures
            match r {
                Some(n) => in_i64(int_of(self.view())) == Some(n as int),
                None => in_i64(int_of(self.view())) is None,
            },
    {
        match self {
            Json::Number(s) => {
                let c = to_chars(s.as_str());
                if c.len() > 0 && c[0] == '-' {
                    let digits = part(c.as_slice(), 1, c.len());
                    assert(digits@ =~= s@.skip(1));
                    match read_digits(digits) {
                        Some(n) => if n <= 9223372036854775807 {
                            Some(-(n as i64))
                        } else if n == 9223372036854775808 {
                            Some(i64::MIN)
                        } else {
                            None
                        },
                        None => None,
                    }
                } else {
                    match read_digits(c.as_slice()) {
                        Some(n) => if n <= 9223372036854775807 {
                            Some(n as i64)
                        } else {
                            None
                        },
                        None => None,
                    }
                }
            },
            _ => None,
        }
    }

    pub fn get_u64(&self, key: &str) -> (r: Option<u64>)
        ensures
            match r {
                Some(n) => in_u64(field_int(self.view(), key@)) == Some(n as int),
                None => in_u64(field_int(self.view(), key@)) is None,
            },
    {
        match self.get(key) {
            Some(v) => v.as_u64(),
            None => None,
        }
    }

    pub fn get_i64(&self, key: &str) -> (r: Option<i64>)
        ensures
            match r {
                Some(n) => in_i64(field_int(self.view(), key@)) == Some(n as int),
                None => in_i64(field_int(self.view(), key@)) is None,
            },
    {
        match self.get(key) {
            Some(v) => v.as_i64(),
            None => None,
        }
    }
}

/// The text that stands between the quotes of a JSON text.
pub open spec fn unescaped(s: Seq<char>) -> Seq<char>
    decreases s.len(),
{
    if s.len() == 0 {
        Seq::empty()
    } else if s[0] != '\\' || s.len() == 1 {
        seq![s[0]] + unescaped(s.skip(1))
    } else if s[1] == 'u' && s.len() >= 6 {
        seq![((hex_value(s[4]) * 16 + hex_value(s[5])) as u32) as char] + unescaped(s.skip(6))
    } else {
        seq![
            if s[1] == 'b' {
                '\u{8}'
            } else if s[1] == 't' {
                '\u{9}'
            } else if s[1] == 'n' {
                '\u{a}'
            } else if s[1] == 'f' {
                '\u{c}'
            } else if s[1] == 'r' {
                '\u{d}'
            } else {
                s[1]
            },
        ] + unescaped(s.skip(2))
    }
}

pub open spec fn hex_value(c: char) -> int {
    if crate::text::is_digit(c) {
        c as int - '0' as int
    } else {
        c as int - 'a' as int + 10
    }
}

proof fn lemma_escaped_first(c: char, t: Seq<char>)
    ensures
        escaped(seq![c] + t) == escaped_char(c) + escaped(t),
    decreases t.len(),
{
    let s = seq![c] + t;
    if t.len() == 0 {
        assert(s.drop_last() =~= Seq::<char>::empty());
        assert(escaped(s.drop_last()) =~= Seq::<char>::empty());
        assert(escaped(s) =~= escaped_char(c) + escaped(t));
    } else {
        lemma_escaped_first(c, t.drop_last());
        assert(s.drop_last() =~= seq![c] + t.drop_last());
        assert(escaped(s) =~= escaped_char(c) + escaped(t));
    }
}

proof fn lemma_unescaped_char(c: char, rest: Seq<char>)
    ensures
        unescaped(escaped_char(c) + rest) == seq![c] + unescaped(rest),
{
    let e = escaped_char(c);
    let s = e + rest;
    assert(s.skip(e.len() as int) =~= rest);
    if c != '"' && c != '\\' && c != '\u{8}' && c != '\u{9}' && c != '\u{a}' && c != '\u{c}' && c
        != '\u{d}' && (c as u32) < 0x20 {
        assert(e.len() == 6);
        assert(s[4] == hex_digit((c as u32) as int / 16));
        assert(s[5] == hex_digit((c as u32) as int % 16));
        assert(hex_value(s[4]) == (c as u32) as int / 16);
        assert(hex_value(s[5]) == (c as u32) as int % 16);
        assert(hex_value(s[4]) * 16 + hex_value(s[5]) == (c as u32) as int);
    }
}

/// A text that is quoted reads back as it was, whatever characters it holds.
pub proof fn law_a_quoted_text_reads_back(s: Seq<char>)
    ensures
        quoted(s).len() >= 2,
        quoted(s)[0] == '"',
        quoted(s).last() == '"',
        unescaped(quoted(s).subrange(1, quoted(s).len() - 1)) == s,
{
    lemma_unescaped(s);
    assert(quoted(s).subrange(1, quoted(s).len() - 1) =~= escaped(s));
}

proof fn lemma_unescaped(s: Seq<char>)
    ensures
        unescaped(escaped(s)) == s,
    decreases s.len(),
{
    if s.len() > 0 {
        let t = s.skip(1);
        assert(s =~= seq![s[0]] + t);
        lemma_unescaped(t);
        lemma_escaped_first(s[0], t);
        lemma_unescaped_char(s[0], escaped(t));
    } else {
        assert(unescaped(escaped(s)) =~= s);
    }
}

/// Of a list no item is left out when it is written, and of a record no field.
pub proof fn law_all_is_written(items: Seq<JsonView>, fields: Seq<(Seq<char>, JsonView)>)
    ensures
        rendered_items(items) == crate::text::join(
            Seq::new(items.len(), |i: int| rendered(items[i])),
            seq![','],
        ),
        rendered_fields(fields) == crate::text::join(
            Seq::new(
                fields.len(),
                |i: int| quoted(fields[i].0) + seq![':'] + rendered(fields[i].1),
            ),
            seq![','],
        ),
    decreases items.len() + fields.len(),
{
    let a = Seq::new(items.len(), |i: int| rendered(items[i]));
    let b = Seq::new(
        fields.len(),
        |i: int| quoted(fields[i].0) + seq![':'] + rendered(fields[i].1),
    );
    if items.len() > 0 {
        law_all_is_written(items.drop_last(), fields);
        assert(a.drop_last() =~= Seq::new(
            items.drop_last().len(),
            |i: int| rendered(items.drop_last()[i]),
        ));
    } else if fields.len() > 0 {
        law_all_is_written(items, fields.drop_last());
        assert(b.drop_last() =~= Seq::new(
            fields.drop_last().len(),
            |i: int|
                quoted(fields.drop_last()[i].0) + seq![':'] + rendered(fields.drop_last()[i].1),
        ));
    }
}

/// The value of a field is that of the last field of the name; without one there is none.
pub proof fn law_the_last_field_counts(f: Seq<(Seq<char>, JsonView)>, key: Seq<char>, i: int)
    requires
        0 <= i <= f.len(),
        forall|j: int| i <= j < f.len() ==> (#[trigger] f[j]).0 != key,
    ensures
        i == 0 ==> field(JsonView::Record(f), key) is None,
        i > 0 && f[i - 1].0 == key ==> field(JsonView::Record(f), key) == Some(f[i - 1].1),
    decreases f.len(),
{
    if i < f.len() {
        let less = f.drop_last();
        assert(f[f.len() - 1].0 != key);
        assert forall|j: int| i <= j < less.len() implies (#[trigger] less[j]).0 != key by {
            assert(less[j] == f[j]);
        }
        law_the_last_field_counts(less, key, i);
        if i > 0 {
            assert(less[i - 1] == f[i - 1]);
        }
    }
}

/// A list that is read has every item at its place, and a record every field under its name.
pub proof fn law_nothing_is_lost_in_reading(text: Seq<char>)
    ensures
        match (json_layer(text), parsed(text)) {
            (Some(LayerView::List(v)), Some(JsonView::List(items))) => items.len() == v.len() && (
            forall|i: int| 0 <= i < v.len() ==> parsed(v[i]) == Some(#[trigger] items[i])),
            (Some(LayerView::Record(f)), Some(JsonView::Record(fields))) => fields.len() == f.len()
                && (forall|i: int|
                0 <= i < f.len() ==> (#[trigger] fields[i]).0 == f[i].0 && parsed(f[i].1) == Some(
                    fields[i].1,
                )),
            (Some(LayerView::List(_)), Some(_)) => false,
            (Some(LayerView::Record(_)), Some(_)) => false,
            _ => true,
        },
{
    match json_layer(text) {
        Some(LayerView::List(v)) => {
            if parsed(text) is Some {
                lemma_list_read(v, text.len());
            }
        },
        Some(LayerView::Record(f)) => {
            if parsed(text) is Some {
                lemma_record_read(f, text.len());
            }
        },
        _ => {},
    }
}

proof fn lemma_list_read(v: Seq<Seq<char>>, below: nat)
    requires
        parsed_list(v, below) is Some,
    ensures
        ({
            let items = parsed_list(v, below)->Some_0;
            &&& items.len() == v.len()
            &&& forall|i: int| 0 <= i < v.len() ==> parsed(v[i]) == Some(#[trigger] items[i])
        }),
    decreases v.len(),
{
    if v.len() > 0 {
        let less = v.drop_last();
        lemma_list_read(less, below);
        let before = parsed_list(less, below)->Some_0;
        let items = parsed_list(v, below)->Some_0;
        assert forall|i: int| 0 <= i < v.len() implies parsed(v[i]) == Some(#[trigger] items[i]) by {
            if i < less.len() {
                assert(items[i] == before[i]);
                assert(less[i] == v[i]);
            }
        }
    }
}

proof fn lemma_record_read(f: Seq<(Seq<char>, Seq<char>)>, below: nat)
    requires
        parsed_record(f, below) is Some,
    ensures
        ({
            let fields = parsed_record(f, below)->Some_0;
            &&& fields.len() == f.len()
            &&& forall|i: int|
                0 <= i < f.len() ==> (#[trigger] fields[i]).0 == f[i].0 && parsed(f[i].1) == Some(
                    fields[i].1,
                )
        }),
    decreases f.len(),
{
    if f.len() > 0 {
        let less = f.drop_last();
        lemma_record_read(less, below);
        let before = parsed_record(less, below)->Some_0;
        let fields = parsed_record(f, below)->Some_0;
        assert forall|i: int| 0 <= i < f.len() implies (#[trigger] fields[i]).0 == f[i].0 && parsed(
            f[i].1,
        ) == Some(fields[i].1) by {
            if i < less.len() {
                assert(fields[i] == before[i]);
                assert(less[i] == f[i]);
            }
        }
    }
}

} // verus!
