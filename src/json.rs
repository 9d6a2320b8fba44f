use vstd::prelude::*;
use crate::document::{child_key, doc_view, node_at, Doc, Document};
use crate::resolve::{lemma_names_distinct_group, names_distinct};
use crate::error::ParserError;

verus! {

broadcast use vstd::std_specs::vec::group_vec_axioms;

/// A JSON value as read from a translation file; numbers keep their text.
#[derive(Debug, PartialEq, Eq)]
pub enum JsonValue {
    Null,
    Bool(bool),
    Number(String),
    String(String),
    Array(Vec<JsonValue>),
    Object(Vec<(String, JsonValue)>),
}

/// The value reached from `v` by descending into the object members at the
/// indices `p`, if there is one.
pub open spec fn json_at(v: JsonValue, p: Seq<int>) -> Option<JsonValue>
    decreases p.len(),
{
    if p.len() == 0 {
        Some(v)
    } else {
        match v {
            JsonValue::Object(es) => if 0 <= p[0] < es@.len() {
                json_at(es@[p[0]].1, p.drop_first())
            } else {
                None
            },
            _ => None,
        }
    }
}

/// The dotted key of the value that `p` reaches from `v`, when `v` stands at
/// the dotted key `key`.
pub open spec fn json_key_at(v: JsonValue, key: Seq<char>, p: Seq<int>) -> Seq<char>
    decreases p.len(),
{
    if p.len() == 0 {
        key
    } else {
        match v {
            JsonValue::Object(es) => if 0 <= p[0] < es@.len() {
                json_key_at(es@[p[0]].1, child_key(key, es@[p[0]].0@), p.drop_first())
            } else {
                key
            },
            _ => key,
        }
    }
}

/// Whether a translation file may hold `v` as a value: a string or an object.
pub open spec fn allowed(v: JsonValue) -> bool {
    v is String || v is Object
}

/// Whether `v` holds, at some depth, a value that is neither a string nor an
/// object, at the dotted key `k` when `v` stands at `key`, of the type named
/// `ty`.
pub open spec fn invalid_at(v: JsonValue, key: Seq<char>, k: Seq<char>, ty: Seq<char>) -> bool {
    exists|p: Seq<int>|
        #[trigger] json_at(v, p) is Some && !allowed(json_at(v, p)->0) && json_key_at(v, key, p) == k
            && kind_name(json_at(v, p)->0) == ty
}

/// Whether every value that `v` holds, `v` included, is a string or an
/// object.
pub open spec fn well_typed(v: JsonValue) -> bool {
    forall|p: Seq<int>| #[trigger] json_at(v, p) is Some ==> allowed(json_at(v, p)->0)
}

/// Whether every object that `v` holds, `v` included, has members with
/// pairwise distinct names.
pub open spec fn json_names_distinct(v: JsonValue) -> bool {
    forall|p: Seq<int>| #[trigger] json_at(v, p) is Some && json_at(v, p)->0 is Object ==> forall|i: int, j: int|
        0 <= i < j < json_at(v, p)->0->Object_0@.len() ==> json_at(v, p)->0->Object_0@[i].0@
            != json_at(v, p)->0->Object_0@[j].0@
}

proof fn lemma_json_names_member(es: Vec<(String, JsonValue)>, i: int)
    requires
        json_names_distinct(JsonValue::Object(es)),
        0 <= i < es@.len(),
    ensures
        json_names_distinct(es@[i].1),
        forall|a: int, b: int| 0 <= a < b < es@.len() ==> es@[a].0@ != es@[b].0@,
{
    let v = JsonValue::Object(es);
    assert(json_at(v, Seq::empty()) is Some);
    assert forall|q: Seq<int>| #[trigger] json_at(es@[i].1, q) is Some && json_at(es@[i].1, q)->0 is Object implies forall|a: int, b: int|
        0 <= a < b < json_at(es@[i].1, q)->0->Object_0@.len() ==> json_at(es@[i].1, q)->0->Object_0@[a].0@
            != json_at(es@[i].1, q)->0->Object_0@[b].0@ by {
        let p = seq![i] + q;
        assert(p.drop_first() =~= q);
        assert(json_at(v, p) == json_at(es@[i].1, q));
    }
}

/// The name of the JSON type of `v`.
pub open spec fn kind_name(v: JsonValue) -> Seq<char> {
    match v {
        JsonValue::Null => "null"@,
        JsonValue::Bool(_) => "boolean"@,
        JsonValue::Number(_) => "number"@,
        JsonValue::String(_) => "string"@,
        JsonValue::Array(_) => "array"@,
        JsonValue::Object(_) => "object"@,
    }
}

/// The document that a well-typed `v` stands for.
pub open spec fn json_doc(v: JsonValue) -> Doc
    decreases v,
{
    match v {
        JsonValue::Object(es) => Doc::Group(
            Seq::new(
                es@.len(),
                |i: int|
                    if 0 <= i < es@.len() {
                        (es@[i].0@, json_doc(es@[i].1))
                    } else {
                        (Seq::empty(), Doc::Leaf(Seq::empty()))
                    },
            ),
        ),
        JsonValue::String(s) => Doc::Leaf(s@),
        _ => Doc::Leaf(Seq::empty()),
    }
}

proof fn lemma_json_object(es: Vec<(String, JsonValue)>, key: Seq<char>)
    ensures
        well_typed(JsonValue::Object(es)) <==> forall|i: int| 0 <= i < es@.len() ==> #[trigger] well_typed(es@[i].1),
        forall|i: int, k: Seq<char>, ty: Seq<char>|
            0 <= i < es@.len() && #[trigger] invalid_at(es@[i].1, child_key(key, es@[i].0@), k, ty)
                ==> invalid_at(JsonValue::Object(es), key, k, ty),
{
    let v = JsonValue::Object(es);
    assert forall|i: int, k: Seq<char>, ty: Seq<char>|
        0 <= i < es@.len() && #[trigger] invalid_at(es@[i].1, child_key(key, es@[i].0@), k, ty)
            implies invalid_at(v, key, k, ty) by {
        let q = choose|q: Seq<int>|
            #[trigger] json_at(es@[i].1, q) is Some && !allowed(json_at(es@[i].1, q)->0)
                && json_key_at(es@[i].1, child_key(key, es@[i].0@), q) == k
                && kind_name(json_at(es@[i].1, q)->0) == ty;
        let p = seq![i] + q;
        assert(p.drop_first() =~= q);
        assert(json_at(v, p) == json_at(es@[i].1, q));
    }
    if well_typed(v) {
        assert forall|i: int| 0 <= i < es@.len() implies #[trigger] well_typed(es@[i].1) by {
            assert forall|q: Seq<int>| #[trigger] json_at(es@[i].1, q) is Some implies allowed(json_at(es@[i].1, q)->0) by {
                let p = seq![i] + q;
                assert(p.drop_first() =~= q);
                assert(json_at(v, p) == json_at(es@[i].1, q));
            }
        }
    }
    if forall|i: int| 0 <= i < es@.len() ==> #[trigger] well_typed(es@[i].1) {
        assert forall|p: Seq<int>| #[trigger] json_at(v, p) is Some implies allowed(json_at(v, p)->0) by {
            if p.len() > 0 {
                let i = p[0];
                assert(well_typed(es@[i].1));
                assert(json_at(es@[i].1, p.drop_first()) is Some);
            }
        }
    }
}

/// The name of the JSON type of `v`.
fn json_type_name(v: &JsonValue) -> (r: String)
    ensures
        r@ == kind_name(*v),
{
    let name = match v {
        JsonValue::Null => "null",
        JsonValue::Bool(_) => "boolean",
        JsonValue::Number(_) => "number",
        JsonValue::String(_) => "string",
        JsonValue::Array(_) => "array",
        JsonValue::Object(_) => "object",
    };
    proof {
        reveal_strlit("null");
        reveal_strlit("boolean");
        reveal_strlit("number");
        reveal_strlit("string");
        reveal_strlit("array");
        reveal_strlit("object");
    }
    name.to_string()
}

/// The document that `v`, standing at the dotted key `key`, holds; fails on
/// a value that is neither a string nor an object.
fn to_document(v: &JsonValue, key: &String) -> (r: Result<Document, ParserError>)
    ensures
        r is Ok <==> well_typed(*v),
        r is Ok ==> r->Ok_0@ == json_doc(*v),
        r is Ok && json_names_distinct(*v) ==> names_distinct(r->Ok_0@),
        r is Err ==> r->Err_0 is InvalidValueType && invalid_at(
            *v,
            key@,
            r->Err_0->InvalidValueType_key@,
            r->Err_0->InvalidValueType_value_type@,
        ),
    decreases *v,
{
    match v {
        JsonValue::String(s) => {
            proof {
                assert forall|p: Seq<int>| #[trigger] json_at(*v, p) is Some implies allowed(json_at(*v, p)->0) by {
                }
            }
            proof {
                assert forall|q: Seq<int>| #[trigger] node_at(Doc::Leaf(s@), q) is Some && node_at(Doc::Leaf(s@), q)->0 is Group implies crate::resolve::distinct_names(
                    node_at(Doc::Leaf(s@), q)->0->Group_0,
                ) by {
                }
            }
            Ok(Document::Leaf(s.clone()))
        },
        JsonValue::Object(es) => {
            let mut out: Vec<(String, Document)> = Vec::new();
            let mut i: usize = 0;
            while i < es.len()
                invariant
                    i <= es.len(),
                    *v == JsonValue::Object(*es),
                    out@.len() == i,
                    forall|j: int| 0 <= j < i ==> #[trigger] well_typed(es@[j].1),
                    json_names_distinct(*v) ==> forall|j: int| 0 <= j < i ==> #[trigger] names_distinct(doc_view(out@[j].1)),
                    forall|j: int|
                        0 <= j < i ==> out@[j].0@ == es@[j].0@ && #[trigger] doc_view(out@[j].1) == json_doc(
                            es@[j].1,
                        ),
                decreases es.len() - i,
            {
                proof {
                    assert(decreases_to!(es => es[i as int]));
                    assert(decreases_to!(es[i as int] => es[i as int].1));
                    assert(decreases_to!(*v => *es));
                }
                let sub_key = crate::document::make_child_key(key, &es[i].0);
                match to_document(&es[i].1, &sub_key) {
                    Ok(d) => {
                        let ghost before = out@;
                        out.push((es[i].0.clone(), d));
                        assert(out@[i as int] == (es@[i as int].0, d));
                        proof {
                            if json_names_distinct(*v) {
                                lemma_json_names_member(*es, i as int);
                                assert forall|j: int| 0 <= j < i + 1 implies #[trigger] names_distinct(doc_view(out@[j].1)) by {
                                    if j < i {
                                        assert(out@[j] == before[j]);
                                    }
                                }
                            }
                        }
                        assert forall|j: int| 0 <= j < i + 1 implies out@[j].0@ == es@[j].0@ && #[trigger] doc_view(out@[j].1) == json_doc(es@[j].1) by {
                            if j < i {
                                assert(out@[j] == before[j]);
                            }
                        }
                    },
                    Err(e) => {
                        proof {
                            lemma_json_object(*es, key@);
                            assert(invalid_at(es@[i as int].1, child_key(key@, es@[i as int].0@), e->InvalidValueType_key@, e->InvalidValueType_value_type@));
                            assert(!well_typed(*v)) by {
                                assert(!well_typed(es@[i as int].1));
                            }
                        }
                        return Err(e);
                    },
                }
                i = i + 1;
            }
            proof {
                lemma_json_object(*es, key@);
                let a = doc_view(Document::Group(out))->Group_0;
                let b = json_doc(*v)->Group_0;
                assert(a.len() == b.len());
                assert forall|j: int| 0 <= j < a.len() implies a[j] == b[j] by {
                    assert(a[j] == (out@[j].0@, doc_view(out@[j].1)));
                    assert(b[j] == (es@[j].0@, json_doc(es@[j].1)));
                }
                assert(a =~= b);
                if json_names_distinct(*v) {
                    if es@.len() > 0 {
                        lemma_json_names_member(*es, 0);
                    }
                    assert forall|x: int, y: int| 0 <= x < y < a.len() implies #[trigger] a[x].0 != #[trigger] a[y].0 by {
                        assert(a[x] == (out@[x].0@, doc_view(out@[x].1)));
                        assert(a[y] == (out@[y].0@, doc_view(out@[y].1)));
                        assert(json_at(*v, Seq::empty()) is Some);
                    }
                    assert forall|x: int| 0 <= x < a.len() implies #[trigger] names_distinct(a[x].1) by {
                        assert(a[x] == (out@[x].0@, doc_view(out@[x].1)));
                    }
                    lemma_names_distinct_group(a);
                    assert(doc_view(Document::Group(out)) == Doc::Group(a));
                }
            }
            Ok(Document::Group(out))
        },
        _ => {
            let value_type = json_type_name(v);
            proof {
                assert(json_at(*v, Seq::empty()) is Some);
                assert(!well_typed(*v));
            }
            Err(ParserError::InvalidValueType { key: key.clone(), value_type })
        },
    }
}

/// The translation document that the JSON value `value` holds. Fails when
/// the root is not an object, or when some value is neither a string nor an
/// object; the error then names such a value by its dotted key and type.
pub fn parse_document(value: &JsonValue) -> (r: Result<Document, ParserError>)
    ensures
        r is Ok <==> (value is Object && well_typed(*value)),
        r is Ok ==> r->Ok_0@ == json_doc(*value),
        r is Ok && json_names_distinct(*value) ==> names_distinct(r->Ok_0@),
        r is Err && value is Object ==> r->Err_0 is InvalidValueType && invalid_at(
            *value,
            Seq::empty(),
            r->Err_0->InvalidValueType_key@,
            r->Err_0->InvalidValueType_value_type@,
        ),
        r is Err && !(value is Object) ==> r->Err_0 is RootNotAGroup,
{
    match value {
        JsonValue::Object(_) => to_document(value, &String::new()),
        _ => Err(ParserError::RootNotAGroup),
    }
}

/// The JSON value that writes out the document `d`: strings for translation
/// strings, objects for groups, members in the order of the children.
/// Reading it back with `parse_document` gives `d` again.
pub fn to_json_value(d: &Document) -> (r: JsonValue)
    ensures
        well_typed(r),
        json_doc(r) == d@,
        d is Group <==> r is Object,
    decreases d@,
{
    match d {
        Document::Leaf(s) => {
            let r = JsonValue::String(s.clone());
            assert forall|p: Seq<int>| #[trigger] json_at(r, p) is Some implies allowed(json_at(r, p)->0) by {
            }
            r
        },
        Document::Group(es) => {
            let ghost g = doc_view(Document::Group(*es))->Group_0;
            let mut out: Vec<(String, JsonValue)> = Vec::new();
            let mut i: usize = 0;
            while i < es.len()
                invariant
                    i <= es.len(),
                    *d == Document::Group(*es),
                    g == doc_view(Document::Group(*es))->Group_0,
                    out@.len() == i,
                    forall|j: int| 0 <= j < i ==> #[trigger] well_typed(out@[j].1),
                    forall|j: int|
                        0 <= j < i ==> out@[j].0@ == es@[j].0@ && #[trigger] json_doc(out@[j].1) == doc_view(
                            es@[j].1,
                        ),
                decreases es.len() - i,
            {
                proof {
                    assert(g[i as int] == (es@[i as int].0@, doc_view(es@[i as int].1)));
                    assert(decreases_to!(g => g[i as int]));
                    assert(decreases_to!(doc_view(Document::Group(*es)) => g));
                    assert(decreases_to!(g[i as int] => g[i as int].1));
                }
                let v = to_json_value(&es[i].1);
                let ghost before = out@;
                out.push((es[i].0.clone(), v));
                assert forall|j: int| 0 <= j < i + 1 implies #[trigger] well_typed(out@[j].1) by {
                    if j < i {
                        assert(out@[j] == before[j]);
                    }
                }
                assert forall|j: int| 0 <= j < i + 1 implies out@[j].0@ == es@[j].0@ && #[trigger] json_doc(out@[j].1) == doc_view(es@[j].1) by {
                    if j < i {
                        assert(out@[j] == before[j]);
                    }
                }
                i = i + 1;
            }
            let r = JsonValue::Object(out);
            proof {
                lemma_json_object(out, Seq::empty());
                let a = json_doc(r)->Group_0;
                assert(a.len() == g.len());
                assert forall|j: int| 0 <= j < a.len() implies a[j] == g[j] by {
                    assert(a[j] == (out@[j].0@, json_doc(out@[j].1)));
                    assert(g[j] == (es@[j].0@, doc_view(es@[j].1)));
                }
                assert(a =~= g);
            }
            r
        },
    }
}

} // verus!
