use vstd::prelude::*;

use crate::addr::dec_str;
use crate::addr::dec_string;
use crate::error::Error;
use crate::error::ErrorSource;

verus! {

// ---------------------------------------------------------------------------
// Structured documents
//
// A document is held as plain values of the library's own; only the parse
// from raw text is delegated to an outside crate, behind trusted items.
// ---------------------------------------------------------------------------

/// A structured document. A number keeps its numeral's text; only `Text`
/// leaves can be extracted as candidate address text.
#[derive(Debug, PartialEq, Eq)]
pub enum JsonValue {
    Null,
    Bool(bool),
    Number(String),
    Text(String),
    Array(Vec<JsonValue>),
    Object(Vec<(String, JsonValue)>),
}

/// The path of a member inside the value at `path`.
pub open spec fn path_join(path: Seq<char>, key: Seq<char>) -> Seq<char> {
    if path.len() == 0 {
        key
    } else {
        path + seq!['.'] + key
    }
}

/// The path of an array element inside the value at `path`.
pub open spec fn array_path(path: Seq<char>, i: int) -> Seq<char> {
    path + seq!['['] + dec_str(i) + seq![']']
}

/// The leaves of a document, each under its accumulated path, in document
/// order. Objects and arrays contribute no entry of their own.
pub open spec fn flat_of(v: JsonValue, path: Seq<char>) -> Seq<(Seq<char>, JsonValue)>
    decreases v, 0int, 0int,
{
    match v {
        JsonValue::Object(fields) => flat_obj(fields@, path, 0),
        JsonValue::Array(elems) => flat_arr(elems@, path, 0),
        _ => seq![(path, v)],
    }
}

pub open spec fn flat_obj(fs: Seq<(String, JsonValue)>, path: Seq<char>, i: int) -> Seq<
    (Seq<char>, JsonValue),
>
    decreases fs, 1int, fs.len() - i,
{
    if 0 <= i < fs.len() {
        flat_of(fs[i].1, path_join(path, fs[i].0@)) + flat_obj(fs, path, i + 1)
    } else {
        seq![]
    }
}

pub open spec fn flat_arr(es: Seq<JsonValue>, path: Seq<char>, i: int) -> Seq<
    (Seq<char>, JsonValue),
>
    decreases es, 1int, es.len() - i,
{
    if 0 <= i < es.len() {
        flat_of(es[i], array_path(path, i)) + flat_arr(es, path, i + 1)
    } else {
        seq![]
    }
}

/// The flattened entries as the specification sees them.
pub open spec fn entries_view(es: Seq<(String, JsonValue)>) -> Seq<(Seq<char>, JsonValue)> {
    es.map(|i: int, e: (String, JsonValue)| (e.0@, e.1))
}

/// The first entry under `path`, when it is a text leaf.
pub open spec fn lookup_text(es: Seq<(Seq<char>, JsonValue)>, path: Seq<char>) -> Option<Seq<char>>
    decreases es.len(),
{
    if es.len() == 0 {
        None
    } else if es[0].0 == path {
        match es[0].1 {
            JsonValue::Text(t) => Some(t@),
            _ => None,
        }
    } else {
        lookup_text(es.drop_first(), path)
    }
}

// ---------------------------------------------------------------------------
// Trusted view of the outside parser
// ---------------------------------------------------------------------------

#[verifier::external_type_specification]
#[verifier::external_body]
pub struct ExValue(serde_json::Value);

/// The document a raw value stands for.
pub uninterp spec fn json_model(v: serde_json::Value) -> JsonValue;

/// What a text parses to, when it parses at all.
pub uninterp spec fn json_doc(s: Seq<char>) -> Option<JsonValue>;

/// Relies on serde_json::from_str::<Value>: whether a text parses, and what
/// document comes out, depend on the text alone.
#[verifier::external_body]
fn json_from_str(s: &str) -> (r: Result<serde_json::Value, String>)
    ensures
        match r {
            Ok(v) => json_doc(s@) == Some(json_model(v)),
            Err(_) => json_doc(s@) is None,
        },
{
    match serde_json::from_str::<serde_json::Value>(s) {
        Ok(v) => Ok(v),
        Err(e) => Err(e.to_string()),
    }
}

/// Relies on the variants of serde_json::Value: each converts to the
/// matching variant of the library's own document type, one for one.
#[verifier::external_body]
fn from_value(v: serde_json::Value) -> (r: JsonValue)
    ensures
        r == json_model(v),
{
    match v {
        serde_json::Value::Null => JsonValue::Null,
        serde_json::Value::Bool(b) => JsonValue::Bool(b),
        serde_json::Value::Number(n) => JsonValue::Number(n.to_string()),
        serde_json::Value::String(t) => JsonValue::Text(t),
        serde_json::Value::Array(a) => JsonValue::Array(a.into_iter().map(from_value).collect()),
        serde_json::Value::Object(m) => JsonValue::Object(
            m.into_iter().map(|(k, x)| (k, from_value(x))).collect(),
        ),
    }
}

/// Parses raw text into a document of the library's own.
pub fn parse_document(s: &str) -> (r: Result<JsonValue, Error>)
    ensures
        match r {
            Ok(d) => json_doc(s@) == Some(d),
            Err(e) => json_doc(s@) is None && e.source == ErrorSource::Json,
        },
{
    match json_from_str(s) {
        Ok(v) => Ok(from_value(v)),
        Err(msg) => {
            let mut m = "parse_json: Failed to parse JSON - ".to_owned();
            m.append(msg.as_str());
            Err(Error::new(m, ErrorSource::Json))
        },
    }
}

// ---------------------------------------------------------------------------
// Flattening
// ---------------------------------------------------------------------------

/// Rebuilds a leaf value; objects and arrays never reach this.
fn copy_leaf(v: &JsonValue) -> (r: JsonValue)
    requires
        !(v is Object),
        !(v is Array),
    ensures
        r == *v,
{
    match v {
        JsonValue::Null => JsonValue::Null,
        JsonValue::Bool(b) => JsonValue::Bool(*b),
        JsonValue::Number(s) => JsonValue::Number(s.clone()),
        JsonValue::Text(s) => JsonValue::Text(s.clone()),
        _ => {
            proof {
                assert(false);
            }
            JsonValue::Null
        },
    }
}

fn flatten_rec(v: &JsonValue, path: &str, out: &mut Vec<(String, JsonValue)>)
    ensures
        entries_view(final(out)@) == entries_view(old(out)@) + flat_of(*v, path@),
    decreases *v,
{
    let ghost start = entries_view(out@);
    match v {
        JsonValue::Object(fields) => {
            let ghost fs0 = fields@;
            proof {
                assert(flat_of(*v, path@) == flat_obj(fs0, path@, 0));
            }
            let mut idx: usize = 0;
            while idx < fields.len()
                invariant
                    0 <= idx <= fields@.len(),
                    fields@ == fs0,
                    v is Object,
                    v->Object_0@ == fs0,
                    entries_view(out@) + flat_obj(fs0, path@, idx as int) == start + flat_obj(
                        fs0,
                        path@,
                        0,
                    ),
                decreases fields@.len() - idx,
            {
                let kv = &fields[idx];
                let p: String = if path.is_empty() {
                    kv.0.clone()
                } else {
                    let mut p = path.to_owned();
                    p.append(".");
                    p.append(kv.0.as_str());
                    p
                };
                proof {
                    reveal_strlit(".");
                    assert("."@ =~= seq!['.']);
                    assert(p@ == path_join(path@, kv.0@));
                    assert(decreases_to!(fs0 => fs0[idx as int]));
                    assert(decreases_to!(fs0[idx as int] => fs0[idx as int].1));
                    assert(decreases_to!(*v => kv.1));
                }
                flatten_rec(&kv.1, p.as_str(), out);
                proof {
                    assert(flat_obj(fs0, path@, idx as int) == flat_of(
                        fs0[idx as int].1,
                        path_join(path@, fs0[idx as int].0@),
                    ) + flat_obj(fs0, path@, idx + 1));
                    assert(entries_view(out@) + flat_obj(fs0, path@, idx + 1) =~= start
                        + flat_obj(fs0, path@, 0));
                }
                idx = idx + 1;
            }
            proof {
                assert(flat_obj(fs0, path@, idx as int) =~= Seq::<(Seq<char>, JsonValue)>::empty());
                assert(entries_view(out@) =~= start + flat_of(*v, path@));
            }
        },
        JsonValue::Array(elems) => {
            let ghost es0 = elems@;
            proof {
                assert(flat_of(*v, path@) == flat_arr(es0, path@, 0));
            }
            let mut idx: usize = 0;
            while idx < elems.len()
                invariant
                    0 <= idx <= elems@.len(),
                    elems@ == es0,
                    v is Array,
                    v->Array_0@ == es0,
                    entries_view(out@) + flat_arr(es0, path@, idx as int) == start + flat_arr(
                        es0,
                        path@,
                        0,
                    ),
                decreases elems@.len() - idx,
            {
                let e = &elems[idx];
                let mut p = path.to_owned();
                p.append("[");
                p.append(dec_string(idx).as_str());
                p.append("]");
                proof {
                    reveal_strlit("[");
                    reveal_strlit("]");
                    assert("["@ =~= seq!['[']);
                    assert("]"@ =~= seq![']']);
                    assert(p@ == array_path(path@, idx as int));
                    assert(decreases_to!(es0 => es0[idx as int]));
                    assert(decreases_to!(*v => *e));
                }
                flatten_rec(e, p.as_str(), out);
                proof {
                    assert(flat_arr(es0, path@, idx as int) == flat_of(
                        es0[idx as int],
                        array_path(path@, idx as int),
                    ) + flat_arr(es0, path@, idx + 1));
                    assert(entries_view(out@) + flat_arr(es0, path@, idx + 1) =~= start
                        + flat_arr(es0, path@, 0));
                }
                idx = idx + 1;
            }
            proof {
                assert(flat_arr(es0, path@, idx as int) =~= Seq::<(Seq<char>, JsonValue)>::empty());
                assert(entries_view(out@) =~= start + flat_of(*v, path@));
            }
        },
        other => {
            let leaf = copy_leaf(other);
            out.push((path.to_owned(), leaf));
            proof {
                assert(entries_view(out@) =~= start + flat_of(*v, path@));
            }
        },
    }
}

/// Flattens a document into its leaf entries, each under its path.
pub fn flatten(value: &JsonValue) -> (r: Vec<(String, JsonValue)>)
    ensures
        entries_view(r@) == flat_of(*value, Seq::<char>::empty()),
{
    let mut out: Vec<(String, JsonValue)> = Vec::new();
    let empty = "";
    proof {
        reveal_strlit("");
        assert(""@ =~= Seq::<char>::empty());
        assert(entries_view(out@) =~= Seq::<(Seq<char>, JsonValue)>::empty());
    }
    flatten_rec(value, empty, &mut out);
    proof {
        assert(entries_view(out@) =~= flat_of(*value, Seq::<char>::empty()));
    }
    out
}

/// Looks a path up among flattened entries; only a text leaf counts.
fn lookup(entries: &Vec<(String, JsonValue)>, path: &str) -> (r: Option<String>)
    ensures
        match r {
            Some(t) => lookup_text(entries_view(entries@), path@) == Some(t@),
            None => lookup_text(entries_view(entries@), path@) is None,
        },
{
    let ghost es = entries_view(entries@);
    proof {
        assert(es.subrange(0, es.len() as int) =~= es);
    }
    let want = path.to_owned();
    let mut i: usize = 0;
    while i < entries.len()
        invariant
            0 <= i <= entries@.len(),
            es == entries_view(entries@),
            want@ == path@,
            lookup_text(es, path@) == lookup_text(
                es.subrange(i as int, es.len() as int),
                path@,
            ),
        decreases entries@.len() - i,
    {
        let e = &entries[i];
        proof {
            let suf = es.subrange(i as int, es.len() as int);
            assert(suf[0] == es[i as int]);
            assert(es[i as int] == (e.0@, e.1));
            assert(suf.drop_first() =~= es.subrange((i + 1) as int, es.len() as int));
        }
        if e.0 == want {
            match &e.1 {
                JsonValue::Text(t) => {
                    return Some(t.clone());
                },
                _ => {
                    return None;
                },
            }
        }
        i = i + 1;
    }
    proof {
        assert(es.subrange(i as int, es.len() as int) =~= Seq::<(Seq<char>, JsonValue)>::empty());
    }
    None
}

/// Parses raw text as a structured document and extracts the text leaf at
/// `path` from its flattened form; a non-text leaf, or no leaf at all,
/// means the field was not found.
pub fn parse_json(s: &str, path: &str) -> (r: Result<String, Error>)
    ensures
        ({
            let doc = json_doc(s@);
            match r {
                Ok(t) => doc is Some && lookup_text(flat_of(doc->0, Seq::<char>::empty()), path@)
                    == Some(t@),
                Err(e) => (doc is None && e.source == ErrorSource::Json) || (doc is Some
                    && lookup_text(flat_of(doc->0, Seq::<char>::empty()), path@) is None
                    && e.source == ErrorSource::General),
            }
        }),
{
    let doc = match parse_document(s) {
        Ok(d) => d,
        Err(e) => {
            return Err(e);
        },
    };
    let entries = flatten(&doc);
    match lookup(&entries, path) {
        Some(t) => Ok(t),
        None => Err(
            Error::new("parse_json: field not found in document".to_owned(), ErrorSource::General),
        ),
    }
}

} // verus!
