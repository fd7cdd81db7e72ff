//! A server that keeps models in memory: where its native interface is, and how a model is let
//! go.

use vstd::prelude::*;

use crate::json::{int_json, int_view, rec2, record2, text_json, txt, Json};
use crate::text::{
    cat2, cat3, ends_with, part, str_ends_with, str_trim, str_trim_end_of, to_chars, to_text, trim,
    trim_end_of,
};

verus! {

/// The root of a server behind its address: without the prefix `/v1` at its end.
pub open spec fn native_base_spec(base_url: Seq<char>) -> Seq<char> {
    let b = trim_end_of(trim(base_url), '/', '/');
    if ends_with(b, "/v1"@) {
        b.take(b.len() - "/v1"@.len())
    } else {
        b
    }
}

pub fn native_base(base_url: &str) -> (r: String)
    ensures
        r@ == native_base_spec(base_url@),
{
    proof {
        reveal_strlit("/v1");
    }
    let b = str_trim_end_of(str_trim(base_url).as_str(), '/', '/');
    if str_ends_with(b.as_str(), "/v1") {
        let c = to_chars(b.as_str());
        let n: usize = c.len();
        let p = part(c.as_slice(), 0, n - 3);
        assert(p@ =~= b@.take(b@.len() - 3));
        to_text(p)
    } else {
        b
    }
}

/// A model that a server holds in memory.
#[derive(Debug)]
pub struct LoadedModel {
    pub name: String,
    /// What it takes in all.
    pub size: u64,
    /// What of that is on the graphics card.
    pub size_vram: u64,
    pub expires_at: Option<String>,
    pub parameter_size: Option<String>,
    pub quantization_level: Option<String>,
}

/// What a server tells of how a model was made.
#[derive(Debug)]
pub struct ModelDetails {
    pub parameter_size: Option<String>,
    pub quantization_level: Option<String>,
}

/// An entry in the list of a server.
#[derive(Debug)]
pub struct ListedModel {
    pub name: String,
    pub size: u64,
    pub size_vram: u64,
    pub expires_at: Option<String>,
    pub details: Option<ModelDetails>,
}

/// A model with what is known of its making beside it.
pub open spec fn loaded_as(e: ListedModel) -> LoadedModel {
    LoadedModel {
        name: e.name,
        size: e.size,
        size_vram: e.size_vram,
        expires_at: e.expires_at,
        parameter_size: match e.details {
            Some(d) => d.parameter_size,
            None => None,
        },
        quantization_level: match e.details {
            Some(d) => d.quantization_level,
            None => None,
        },
    }
}

/// The models that a server holds, from its list.
pub fn loaded(entries: Vec<ListedModel>) -> (r: Vec<LoadedModel>)
    ensures
        r@ == Seq::new(entries@.len(), |i: int| loaded_as(entries@[i])),
{
    let ghost all = entries@;
    let mut out: Vec<LoadedModel> = Vec::new();
    for e in listed: entries
        invariant
            listed.seq() == all,
            out@ == Seq::new(listed.index() as nat, |i: int| loaded_as(all[i])),
    {
        let (parameter_size, quantization_level) = match e.details {
            Some(d) => (d.parameter_size, d.quantization_level),
            None => (None, None),
        };
        out.push(
            LoadedModel {
                name: e.name,
                size: e.size,
                size_vram: e.size_vram,
                expires_at: e.expires_at,
                parameter_size,
                quantization_level,
            },
        );
    }
    out
}

/// Where a server lists the models that it holds.
pub fn loaded_url(base_url: &str) -> (r: String)
    ensures
        r@ == native_base_spec(base_url@) + "/api/ps"@,
{
    cat2(native_base(base_url).as_str(), "/api/ps")
}

/// Where a server is asked to let a model go.
pub fn unload_url(base_url: &str) -> (r: String)
    ensures
        r@ == native_base_spec(base_url@) + "/api/generate"@,
{
    cat2(native_base(base_url).as_str(), "/api/generate")
}

/// The request that lets a model go at once.
pub fn unload_body(model: &str) -> (r: Json)
    ensures
        r.view() == rec2("keep_alive"@, int_view(0), "model"@, txt(model@)),
{
    record2("keep_alive", int_json(0), "model", text_json(model))
}

/// The refusal of a server.
pub fn unload_refused(model: &str) -> (r: String)
    ensures
        r@ == "déchargement de "@ + model@ + " refusé"@,
{
    cat3("déchargement de ", model, " refusé")
}

/// The server's own address is the one before `/v1`, however the address that was given ends.
pub proof fn law_the_server_is_found_before_v1(base: Seq<char>)
    requires
        base.len() > 0,
        !crate::text::is_space(base[0]),
        !crate::text::is_space(base.last()),
        base.last() != '/',
        !ends_with(base, "/v1"@),
    ensures
        native_base_spec(base) == base,
        native_base_spec(base + "/v1"@) == base,
        native_base_spec(base + "/v1/"@) == base,
{
    reveal_strlit("/v1");
    reveal_strlit("/v1/");
    let s = base + "/v1"@;
    let t = base + "/v1/"@;
    let n = base.len() as int;
    assert(crate::text::trim_start(base) == base);
    assert(trim(base) == base);
    assert(trim_end_of(base, '/', '/') == base);
    assert(s[0] == base[0] && t[0] == base[0]);
    assert(s.last() == '1' && t.last() == '/');
    assert(crate::text::trim_start(s) == s);
    assert(trim(s) == s);
    assert(trim_end_of(s, '/', '/') == s);
    assert(s.subrange(n, n + 3) =~= "/v1"@);
    assert(s.take(n) =~= base);
    assert(crate::text::trim_start(t) == t);
    assert(trim(t) == t);
    assert(t.drop_last() =~= s);
    assert(trim_end_of(t, '/', '/') == s);
}

} // verus!
