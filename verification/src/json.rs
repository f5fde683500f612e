//! Documents for scripts, as `serde_json` values.

use vstd::prelude::*;
use crate::text::texts;

verus! {

/// `serde_json::Value`. What it holds is told by [`held`].
#[verifier::external_type_specification]
#[verifier::external_body]
pub struct ExValue(serde_json::Value);

/// `serde_json::Map`, the fields of an object. What it holds is told by
/// [`fields_of`].
#[verifier::external_type_specification]
#[verifier::external_body]
#[verifier::reject_recursive_types(K)]
#[verifier::reject_recursive_types(V)]
pub struct ExFields<K, V>(serde_json::Map<K, V>);

/// What a document holds.
#[verifier::ext_equal]
pub enum Json {
    Null,
    Bool(bool),
    /// A number, by its text.
    Number(Seq<char>),
    Text(Seq<char>),
    List(Seq<Json>),
    Object(Map<Seq<char>, Json>),
}

/// What a `serde_json::Value` holds.
pub uninterp spec fn held(v: serde_json::Value) -> Json;

/// The fields in a `serde_json::Map`, by their names.
pub uninterp spec fn fields_of(m: serde_json::Map<String, serde_json::Value>) -> Map<
    Seq<char>,
    Json,
>;

/// What `serde_json::to_string` writes for a document.
pub uninterp spec fn compact_text(j: Json) -> Seq<char>;

/// What `serde_json::to_string_pretty` writes for a document.
pub uninterp spec fn pretty_text(j: Json) -> Seq<char>;

/// What the documents in a list hold.
pub open spec fn held_all(v: Seq<serde_json::Value>) -> Seq<Json> {
    v.map_values(|x: serde_json::Value| held(x))
}

/// What the fields in a list hold.
pub open spec fn held_fields(v: Seq<(String, serde_json::Value)>) -> Seq<(Seq<char>, Json)> {
    v.map_values(|f: (String, serde_json::Value)| (f.0@, held(f.1)))
}

/// The fields by their names; of two fields with the same name the last counts.
pub open spec fn field_map(fields: Seq<(Seq<char>, Json)>) -> Map<Seq<char>, Json>
    decreases fields.len(),
{
    if fields.len() == 0 {
        Map::empty()
    } else {
        field_map(fields.drop_last()).insert(fields.last().0, fields.last().1)
    }
}

/// The object with these fields.
pub open spec fn record(fields: Seq<(Seq<char>, Json)>) -> Json {
    Json::Object(field_map(fields))
}

/// `serde_json::Value::Null`.
#[verifier::external_body]
pub(crate) fn null() -> (v: serde_json::Value)
    ensures
        held(v) == Json::Null,
{
    serde_json::Value::Null
}

/// `serde_json::Value::Bool`: the document is that boolean.
#[verifier::external_body]
pub(crate) fn boolean(b: bool) -> (v: serde_json::Value)
    ensures
        held(v) == Json::Bool(b),
{
    serde_json::Value::Bool(b)
}

/// `serde_json::Value::String`: the document is that text.
#[verifier::external_body]
pub(crate) fn string(s: &str) -> (v: serde_json::Value)
    ensures
        held(v) == Json::Text(s@),
{
    serde_json::Value::String(s.to_string())
}

/// `serde_json::Value::Array`: the document is the list of those documents.
#[verifier::external_body]
pub(crate) fn array(items: Vec<serde_json::Value>) -> (v: serde_json::Value)
    ensures
        held(v) == Json::List(held_all(items@)),
{
    serde_json::Value::Array(items)
}

/// `serde_json::Map::new`: there are no fields.
#[verifier::external_body]
fn no_fields() -> (m: serde_json::Map<String, serde_json::Value>)
    ensures
        fields_of(m).dom() == Set::<Seq<char>>::empty(),
{
    serde_json::Map::new()
}

/// `serde_json::Map::insert`: the field is there with this value, whether or not
/// there was one of that name, and the others stay.
#[verifier::external_body]
fn insert_field(
    m: &mut serde_json::Map<String, serde_json::Value>,
    name: String,
    v: serde_json::Value,
)
    ensures
        fields_of(*final(m)) == fields_of(*old(m)).insert(name@, held(v)),
{
    m.insert(name, v);
}

/// `serde_json::Value::Object`: the document is the object with those fields.
#[verifier::external_body]
fn from_fields(m: serde_json::Map<String, serde_json::Value>) -> (v: serde_json::Value)
    ensures
        held(v) == Json::Object(fields_of(m)),
{
    serde_json::Value::Object(m)
}

/// The object with these fields: a later field replaces an earlier one of the same
/// name.
pub(crate) fn object(fields: Vec<(String, serde_json::Value)>) -> (v: serde_json::Value)
    ensures
        held(v) == record(held_fields(fields@)),
{
    let ghost all = held_fields(fields@);
    let mut rest = fields;
    let mut m = no_fields();
    proof {
        assert(all.take(0) =~= Seq::empty());
        assert(all.skip(0) =~= all);
        assert(fields_of(m) =~= field_map(all.take(0)));
    }
    while rest.len() > 0
        invariant
            rest@.len() <= all.len(),
            held_fields(rest@) == all.skip(all.len() - rest@.len()),
            fields_of(m) == field_map(all.take(all.len() - rest@.len())),
        decreases rest@.len(),
    {
        let ghost n = all.len() - rest@.len();
        let ghost before = rest@;
        let (name, v) = rest.remove(0);
        proof {
            assert(held_fields(before)[0] == all[n]);
            assert(all.take(n + 1).drop_last() =~= all.take(n));
            assert(held_fields(rest@) =~= held_fields(before).skip(1));
            assert(all.skip(n).skip(1) =~= all.skip(n + 1));
        }
        insert_field(&mut m, name, v);
    }
    proof {
        assert(all.take(all.len() as int) =~= all);
    }
    from_fields(m)
}

/// `serde_json::to_string` of a value, which cannot fail: the result is a
/// function of what the document holds.
#[verifier::external_body]
pub(crate) fn compact(v: &serde_json::Value) -> (out: String)
    ensures
        out@ == compact_text(held(*v)),
{
    serde_json::to_string(v).unwrap_or_default()
}

/// `serde_json::to_string_pretty` of a value, which cannot fail: the result is a
/// function of what the document holds.
#[verifier::external_body]
pub(crate) fn pretty(v: &serde_json::Value) -> (out: String)
    ensures
        out@ == pretty_text(held(*v)),
{
    serde_json::to_string_pretty(v).unwrap_or_default()
}

/// A list of texts.
pub open spec fn text_list(v: Seq<Seq<char>>) -> Json {
    Json::List(v.map_values(|s: Seq<char>| Json::Text(s)))
}

/// A text, or nothing.
pub open spec fn text_or_null(o: Option<Seq<char>>) -> Json {
    match o {
        Some(s) => Json::Text(s),
        None => Json::Null,
    }
}

/// A list of texts.
pub fn strings(v: &Vec<String>) -> (out: serde_json::Value)
    ensures
        held(out) == text_list(texts(v@)),
{
    let ghost want = texts(v@).map_values(|s: Seq<char>| Json::Text(s));
    let mut items: Vec<serde_json::Value> = Vec::new();
    let mut i: usize = 0;
    while i < v.len()
        invariant
            i <= v@.len(),
            want == texts(v@).map_values(|s: Seq<char>| Json::Text(s)),
            held_all(items@) =~= want.take(i as int),
        decreases v.len() - i,
    {
        let ghost before = items@;
        items.push(string(v[i].as_str()));
        proof {
            assert(held_all(items@) =~= held_all(before).push(want[i as int]));
            assert(want.take(i + 1) =~= want.take(i as int).push(want[i as int]));
        }
        i = i + 1;
    }
    proof {
        assert(want.take(i as int) =~= want);
    }
    array(items)
}

/// A text, or nothing.
pub fn string_or_null(o: Option<&str>) -> (out: serde_json::Value)
    ensures
        held(out) == text_or_null(crate::resolution::opt_text(o)),
{
    match o {
        Some(s) => string(s),
        None => null(),
    }
}

/// Puts a field behind the others.
pub fn put(fields: &mut Vec<(String, serde_json::Value)>, key: &str, v: serde_json::Value)
    ensures
        held_fields(final(fields)@) == held_fields(old(fields)@).push((key@, held(v))),
{
    let ghost before = fields@;
    fields.push((crate::text::own(key), v));
    proof {
        assert(held_fields(fields@) =~= held_fields(before).push((key@, held(v))));
    }
}

/// A field of an object is there with the value that was put in last.
pub proof fn law_fields_are_kept(fields: Seq<(Seq<char>, Json)>, i: int)
    requires
        0 <= i < fields.len(),
        forall|j: int| i < j < fields.len() ==> (#[trigger] fields[j]).0 != fields[i].0,
    ensures
        field_map(fields).contains_pair(fields[i].0, fields[i].1),
    decreases fields.len(),
{
    let t = fields.drop_last();
    let l = fields.len() - 1;
    if i < l {
        assert(fields[l].0 != fields[i].0);
        assert(t[i] == fields[i]);
        assert forall|j: int| i < j < t.len() implies (#[trigger] t[j]).0 != t[i].0 by {
            assert(fields[j] == t[j]);
        }
        law_fields_are_kept(t, i);
    }
}

/// An object has no field that was not put into it.
pub proof fn law_fields_were_put_in(fields: Seq<(Seq<char>, Json)>, name: Seq<char>)
    requires
        field_map(fields).dom().contains(name),
    ensures
        exists|i: int| 0 <= i < fields.len() && (#[trigger] fields[i]).0 == name,
    decreases fields.len(),
{
    if fields.len() > 0 {
        let t = fields.drop_last();
        let l = fields.len() - 1;
        if fields[l].0 != name {
            law_fields_were_put_in(t, name);
            let i = choose|i: int| 0 <= i < t.len() && (#[trigger] t[i]).0 == name;
            assert(fields[i].0 == name);
        }
    }
}

/// The document is an object with this field.
pub open spec fn shows(j: Json, name: Seq<char>, v: Json) -> bool {
    j matches Json::Object(m) && m.contains_pair(name, v)
}

pub(crate) proof fn lemma_shows(fields: Seq<(Seq<char>, Json)>, i: int)
    requires
        0 <= i < fields.len(),
        forall|j: int| i < j < fields.len() ==> (#[trigger] fields[j]).0 != fields[i].0,
    ensures
        shows(record(fields), fields[i].0, fields[i].1),
{
    law_fields_are_kept(fields, i);
}

} // verus!
