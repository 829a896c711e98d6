//! The serde_json boundary: the finished document is loaded into a
//! `serde_json::Map` and pretty-printed by `serde_json::to_string_pretty`.
//! Only the calls into serde_json are trusted; `render` drives them and is
//! verified.
use vstd::prelude::*;

use crate::doc::{
    dv_view, entries_map, pairs_map, uniq_pairs, wf_entries, wf_value, ArrElem, DocValue,
};
use crate::model::{ArrItem, JsonVal};
use crate::parse::views;

verus! {

#[verifier::external_type_specification]
#[verifier::external_body]
pub struct ExValue(serde_json::Value);

#[verifier::external_type_specification]
#[verifier::external_body]
#[verifier::reject_recursive_types(K)]
#[verifier::reject_recursive_types(V)]
pub struct ExMap<K, V>(serde_json::Map<K, V>);

/// What a `serde_json::Map` document holds, as the model's map. Values are
/// only ever the strings, arrays and one-level objects that the wrappers
/// below put there.
pub uninterp spec fn map_model(m: serde_json::Map<String, serde_json::Value>) -> Map<
    Seq<char>,
    JsonVal,
>;

/// What `serde_json::to_string_pretty` returns for a document holding the
/// given contents. With its default map (a `BTreeMap`, ordered by key) the
/// output is a function of the contents alone.
pub uninterp spec fn json_pretty_of(doc: Map<Seq<char>, JsonVal>) -> Seq<char>;

/// The empty document.
pub open spec fn empty_doc() -> Map<Seq<char>, JsonVal> {
    Map::empty()
}

pub open spec fn str_items(ss: Seq<Seq<char>>) -> Seq<ArrItem> {
    ss.map_values(|s: Seq<char>| ArrItem::Str(s))
}

/// Relies on serde_json::Map::new: a fresh map holds nothing.
#[verifier::external_body]
fn new_map() -> (m: serde_json::Map<String, serde_json::Value>)
    ensures
        map_model(m) == empty_doc(),
{
    serde_json::Map::new()
}

/// Relies on serde_json::Map::insert: the value is stored under the key,
/// replacing any previous value there.
#[verifier::external_body]
fn ins_str(m: &mut serde_json::Map<String, serde_json::Value>, key: Vec<char>, value: Vec<char>)
    ensures
        map_model(*final(m)) == map_model(*old(m)).insert(key@, JsonVal::Str(value@)),
{
    m.insert(
        key.into_iter().collect(),
        serde_json::Value::String(value.into_iter().collect()),
    );
}

/// Relies on serde_json::Map::insert and serde_json::Value::Object: the
/// field pairs, whose keys are distinct, become an object stored under the
/// key.
#[verifier::external_body]
fn ins_obj(
    m: &mut serde_json::Map<String, serde_json::Value>,
    key: Vec<char>,
    fields: Vec<(Vec<char>, Vec<char>)>,
)
    requires
        uniq_pairs(fields@),
    ensures
        map_model(*final(m)) == map_model(*old(m)).insert(
            key@,
            JsonVal::Obj(pairs_map(fields@)),
        ),
{
    let inner: serde_json::Map<String, serde_json::Value> = fields.into_iter().map(
        |(fk, fv): (Vec<char>, Vec<char>)| (
            fk.into_iter().collect::<String>(),
            serde_json::Value::String(fv.into_iter().collect()),
        ),
    ).collect();
    m.insert(key.into_iter().collect(), serde_json::Value::Object(inner));
}

/// Relies on serde_json::Map::insert and serde_json::Value::Array: the
/// strings become an array stored under the key, in their given order.
#[verifier::external_body]
fn ins_str_arr(
    m: &mut serde_json::Map<String, serde_json::Value>,
    key: Vec<char>,
    items: Vec<Vec<char>>,
)
    ensures
        map_model(*final(m)) == map_model(*old(m)).insert(
            key@,
            JsonVal::Arr(str_items(views(items@))),
        ),
{
    let vals: Vec<serde_json::Value> = items.into_iter().map(
        |s: Vec<char>| serde_json::Value::String(s.into_iter().collect()),
    ).collect();
    m.insert(key.into_iter().collect(), serde_json::Value::Array(vals));
}

/// Relies on serde_json::Map::insert, serde_json::Value::Object and
/// serde_json::Value::Array: an object built from the distinct-keyed field
/// pairs, followed by the strings in order, become an array stored under the
/// key.
#[verifier::external_body]
fn ins_obj_str_arr(
    m: &mut serde_json::Map<String, serde_json::Value>,
    key: Vec<char>,
    first: Vec<(Vec<char>, Vec<char>)>,
    rest: Vec<Vec<char>>,
)
    requires
        uniq_pairs(first@),
    ensures
        map_model(*final(m)) == map_model(*old(m)).insert(
            key@,
            JsonVal::Arr(seq![ArrItem::Obj(pairs_map(first@))] + str_items(views(rest@))),
        ),
{
    let inner: serde_json::Map<String, serde_json::Value> = first.into_iter().map(
        |(fk, fv): (Vec<char>, Vec<char>)| (
            fk.into_iter().collect::<String>(),
            serde_json::Value::String(fv.into_iter().collect()),
        ),
    ).collect();
    let mut vals: Vec<serde_json::Value> = Vec::new();
    vals.push(serde_json::Value::Object(inner));
    vals.extend(
        rest.into_iter().map(|s: Vec<char>| serde_json::Value::String(s.into_iter().collect())),
    );
    m.insert(key.into_iter().collect(), serde_json::Value::Array(vals));
}

/// Relies on serde_json::to_string_pretty: the output is a pretty-printed
/// JSON rendering of the map, a function of its contents alone (the default
/// map is ordered by key), and an empty map prints as the two characters
/// `{}`. Serializing string-valued maps cannot fail, so the call never
/// panics.
#[verifier::external_body]
fn to_pretty(m: &serde_json::Map<String, serde_json::Value>) -> (r: String)
    ensures
        r@ == json_pretty_of(map_model(*m)),
        map_model(*m) == empty_doc() ==> r@ == "{}"@,
{
    serde_json::to_string_pretty(m).unwrap()
}

/// Serialize a finished document: load each entry into a `serde_json::Map`
/// and pretty-print it.
#[verifier::loop_isolation(false)]
pub fn render(entries: Vec<(Vec<char>, DocValue)>) -> (r: String)
    requires
        wf_entries(entries@),
    ensures
        r@ == json_pretty_of(entries_map(entries@)),
        entries_map(entries@) == empty_doc() ==> r@ == "{}"@,
{
    let ghost orig = entries@;
    let mut m = new_map();
    let mut rest = entries;
    let ghost mut done: int = 0;
    proof {
        assert(rest@ =~= orig.skip(0));
        assert(orig.take(0) =~= Seq::<(Vec<char>, DocValue)>::empty());
    }
    while rest.len() > 0
        invariant
            0 <= done <= orig.len(),
            rest@ == orig.skip(done),
            map_model(m) == entries_map(orig.take(done)),
        decreases rest@.len(),
    {
        let (k, v) = rest.remove(0);
        proof {
            assert(orig.skip(done)[0] == orig[done]);
            assert((k, v) == orig[done]);
            assert(orig.skip(done).remove(0) =~= orig.skip(done + 1));
            assert(orig.take(done + 1).drop_last() =~= orig.take(done));
            assert(orig.take(done + 1).last() == orig[done]);
            assert(entries_map(orig.take(done + 1)) == entries_map(orig.take(done)).insert(
                orig[done].0@,
                dv_view(orig[done].1),
            ));
            assert(wf_value(orig[done].1));
        }
        match v {
            DocValue::Str(s) => {
                ins_str(&mut m, k, s);
            },
            DocValue::Obj(ps) => {
                ins_obj(&mut m, k, ps);
            },
            DocValue::Arr(items) => {
                let ghost all_elems = items@;
                let mut items = items;
                let first = items.remove(0);
                let ghost rest_elems = items@;
                proof {
                    assert(rest_elems =~= all_elems.skip(1));
                    assert(first == all_elems[0]);
                }
                let mut strs: Vec<Vec<char>> = Vec::new();
                while items.len() > 0
                    invariant
                        strs@.len() + items@.len() == rest_elems.len(),
                        items@ == rest_elems.skip(strs@.len() as int),
                        forall|j: int|
                            0 <= j < strs@.len() ==> ArrItem::Str(#[trigger] strs@[j]@)
                                == crate::doc::ae_view(rest_elems[j]),
                    decreases items@.len(),
                {
                    let ghost k0 = strs@.len() as int;
                    let e = items.remove(0);
                    proof {
                        assert(rest_elems.skip(k0)[0] == rest_elems[k0]);
                        assert(e == rest_elems[k0]);
                        assert(rest_elems[k0] == all_elems[k0 + 1]);
                        assert(all_elems[k0 + 1] is Str);
                        assert(rest_elems.skip(k0).remove(0) =~= rest_elems.skip(k0 + 1));
                    }
                    match e {
                        ArrElem::Str(s) => {
                            strs.push(s);
                        },
                        ArrElem::Obj(_) => {
                            // Unreachable: in a well-formed array only the
                            // first element can be an object.
                            proof {
                                assert(false);
                            }
                            strs.push(Vec::new());
                        },
                    }
                }
                proof {
                    assert(strs@.len() == rest_elems.len());
                }
                match first {
                    ArrElem::Obj(ps) => {
                        proof {
                            assert(crate::doc::wf_elem(all_elems[0]));
                            assert(seq![ArrItem::Obj(pairs_map(ps@))] + str_items(views(strs@))
                                =~= all_elems.map_values(|e: ArrElem| crate::doc::ae_view(e)));
                        }
                        ins_obj_str_arr(&mut m, k, ps, strs);
                    },
                    ArrElem::Str(s) => {
                        let mut all: Vec<Vec<char>> = Vec::new();
                        all.push(s);
                        all.append(&mut strs);
                        proof {
                            assert(str_items(views(all@)) =~= all_elems.map_values(
                                |e: ArrElem| crate::doc::ae_view(e),
                            ));
                        }
                        ins_str_arr(&mut m, k, all);
                    },
                }
            },
        }
        proof {
            done = done + 1;
        }
    }
    proof {
        assert(orig.skip(done).len() == 0);
        assert(done == orig.len());
        assert(orig.take(done) =~= orig);
    }
    to_pretty(&m)
}

} // verus!
