//! JSON documents, and how they stand for values.
use vstd::prelude::*;

use crate::ir;
use crate::ir::{Body, Value};
#[allow(unused_imports)]
use crate::ir::{BodyV, ValV};
use crate::number;
use crate::number::{Form, Numeral};
#[allow(unused_imports)]
use crate::number::{FormV, NumeralV};
use crate::ordmap;
use crate::ordmap::OrdMap;
use crate::text;

verus! {

/// A JSON document. A number is an integer or a double, as bits; the members of an object are in
/// ascending order of their names.
#[derive(Debug, PartialEq)]
pub enum Json {
    Null,
    Bool(bool),
    Int(i128),
    Float(u64),
    Str(String),
    Arr(Vec<Json>),
    Obj(OrdMap<String, Json>),
}

#[verifier::ext_equal]
pub enum JsonV {
    Null,
    Bool(bool),
    Int(i128),
    Float(u64),
    Str(Seq<char>),
    Arr(Seq<JsonV>),
    Obj(Seq<(Seq<char>, JsonV)>),
}

/// The members of an object.
pub type MembersV = Seq<(Seq<char>, JsonV)>;

pub open spec fn json_view(j: Json) -> JsonV
    decreases j,
{
    match j {
        Json::Null => JsonV::Null,
        Json::Bool(b) => JsonV::Bool(b),
        Json::Int(n) => JsonV::Int(n),
        Json::Float(x) => JsonV::Float(x),
        Json::Str(s) => JsonV::Str(s@),
        Json::Arr(a) => JsonV::Arr(
            Seq::new(
                a@.len(),
                |i: int|
                    if 0 <= i < a@.len() {
                        json_view(a@[i])
                    } else {
                        arbitrary()
                    },
            ),
        ),
        Json::Obj(o) => JsonV::Obj(
            Seq::new(
                o.entries@.len(),
                |i: int|
                    if 0 <= i < o.entries@.len() {
                        (o.entries@[i].0@, json_view(o.entries@[i].1))
                    } else {
                        arbitrary()
                    },
            ),
        ),
    }
}

impl View for Json {
    type V = JsonV;

    open spec fn view(&self) -> JsonV {
        json_view(*self)
    }
}

/// The view of an array is the sequence of the views.
pub proof fn lemma_arr_view(a: Vec<Json>)
    ensures
        json_view(Json::Arr(a)) == JsonV::Arr(ordmap::views(a@)),
{
    assert(json_view(Json::Arr(a))->Arr_0 =~= ordmap::views(a@));
}

/// The view of an object is the view of its map.
pub proof fn lemma_obj_view(o: OrdMap<String, Json>)
    ensures
        json_view(Json::Obj(o)) == JsonV::Obj(o@),
{
    assert(json_view(Json::Obj(o))->Obj_0 =~= o@);
}

// ---------------------------------------------------------------------------------------------
// From JSON
// ---------------------------------------------------------------------------------------------
/// The value that a document stands for. An integer that does not fit becomes a double; an array
/// stays an array.
pub open spec fn json_value(g: spec_fn(NumeralV) -> FormV, j: JsonV) -> ValV
    decreases j,
{
    match j {
        JsonV::Null => ValV::Null,
        JsonV::Bool(b) => ValV::Bool(b),
        JsonV::Int(n) => if i64::MIN <= n <= i64::MAX {
            ValV::Int(n as i64)
        } else {
            ValV::Float(g(NumeralV::Wide(n)).double)
        },
        JsonV::Float(x) => ValV::Float(x),
        JsonV::Str(s) => ValV::Str(s),
        JsonV::Arr(a) => ValV::Arr(
            Seq::new(
                a.len(),
                |i: int|
                    if 0 <= i < a.len() {
                        json_value(g, a[i])
                    } else {
                        arbitrary()
                    },
            ),
        ),
        JsonV::Obj(o) => ValV::Doc(
            Seq::new(
                o.len(),
                |i: int|
                    if 0 <= i < o.len() {
                        (o[i].0, json_value(g, o[i].1))
                    } else {
                        arbitrary()
                    },
            ),
        ),
    }
}

/// The document that the members of an object stand for.
pub open spec fn members_body(g: spec_fn(NumeralV) -> FormV, o: MembersV) -> BodyV {
    Seq::new(o.len(), |i: int| (o[i].0, json_value(g, o[i].1)))
}

proof fn lemma_json_value(g: spec_fn(NumeralV) -> FormV, j: JsonV)
    ensures
        j matches JsonV::Arr(a) ==> json_value(g, j) == ValV::Arr(
            Seq::new(a.len(), |i: int| json_value(g, a[i])),
        ),
        j matches JsonV::Obj(o) ==> json_value(g, j) == ValV::Doc(members_body(g, o)),
{
    match j {
        JsonV::Arr(a) => {
            assert(json_value(g, j)->Arr_0 =~= Seq::new(a.len(), |i: int| json_value(g, a[i])));
        },
        JsonV::Obj(o) => {
            assert(json_value(g, j)->Doc_0 =~= members_body(g, o));
        },
        _ => {},
    }
}

/// The value that a document stands for. `forms` gives the floating-point form of a number.
pub fn json_to_value<N: Fn(Numeral) -> Form>(j: &Json, forms: &N) -> (r: Value)
    requires
        number::takes_numerals(*forms),
    ensures
        forall|g: spec_fn(NumeralV) -> FormV| #[trigger]
            number::forms_by(*forms, g) ==> r@ == json_value(g, j@),
    decreases *j,
{
    match j {
        Json::Null => Value::Null,
        Json::Bool(b) => Value::Bool(*b),
        Json::Int(n) => if i64::MIN as i128 <= *n && *n <= i64::MAX as i128 {
            Value::Int(*n as i64)
        } else {
            let form = forms(Numeral::Wide(*n));
            Value::Float(form.double)
        },
        Json::Float(x) => Value::Float(*x),
        Json::Str(s) => Value::Str(text::owned(s.as_str())),
        Json::Arr(a) => {
            let ghost av = j@->Arr_0;
            let mut out: Vec<Value> = Vec::new();
            let mut i: usize = 0;
            while i < a.len()
                invariant
                    number::takes_numerals(*forms),
                    i <= a.len(),
                    *j == Json::Arr(*a),
                    j@ == JsonV::Arr(av),
                    av.len() == a.len(),
                    out.len() == i,
                    forall|g: spec_fn(NumeralV) -> FormV, k: int|
                        #![trigger number::forms_by(*forms, g), out@[k]]
                        number::forms_by(*forms, g) && 0 <= k < i ==> out@[k]@ == json_value(
                            g,
                            av[k],
                        ),
                decreases a.len() - i,
            {
                assert(decreases_to!(*j => j->Arr_0@[i as int]));
                assert(av[i as int] == a@[i as int]@);
                out.push(json_to_value(&a[i], forms));
                i = i + 1;
            }
            proof {
                ir::lemma_arr_view(out);
                assert forall|g: spec_fn(NumeralV) -> FormV| #[trigger]
                    number::forms_by(*forms, g) implies ValV::Arr(ordmap::views(out@)) == json_value(
                    g,
                    j@,
                ) by {
                    lemma_json_value(g, j@);
                    assert(ordmap::views(out@) =~= Seq::new(
                        av.len(),
                        |i: int| json_value(g, av[i]),
                    ));
                }
            }
            Value::Arr(out)
        },
        Json::Obj(o) => {
            let ghost ov = j@->Obj_0;
            let mut out: Vec<(String, Value)> = Vec::new();
            let mut i: usize = 0;
            while i < o.entries.len()
                invariant
                    number::takes_numerals(*forms),
                    i <= o.entries.len(),
                    *j == Json::Obj(*o),
                    j@ == JsonV::Obj(ov),
                    ov.len() == o.entries.len(),
                    out.len() == i,
                    forall|g: spec_fn(NumeralV) -> FormV, k: int|
                        #![trigger number::forms_by(*forms, g), out@[k]]
                        number::forms_by(*forms, g) && 0 <= k < i ==> out@[k].0@ == ov[k].0
                            && out@[k].1@ == json_value(g, ov[k].1),
                decreases o.entries.len() - i,
            {
                assert(decreases_to!(*j => j->Obj_0.entries@[i as int].1));
                assert(ov[i as int] == (o.entries@[i as int].0@, o.entries@[i as int].1@));
                let v = json_to_value(&o.entries[i].1, forms);
                out.push((text::owned(o.entries[i].0.as_str()), v));
                i = i + 1;
            }
            let d = OrdMap { entries: out };
            proof {
                ir::lemma_doc_view(d);
                assert forall|g: spec_fn(NumeralV) -> FormV| #[trigger]
                    number::forms_by(*forms, g) implies ValV::Doc(d@) == json_value(g, j@) by {
                    lemma_json_value(g, j@);
                    assert(d@ =~= members_body(g, ov));
                }
            }
            Value::Doc(d)
        },
    }
}

/// The document that an object stands for, or `None` where it is no object.
pub open spec fn json_body(g: spec_fn(NumeralV) -> FormV, j: JsonV) -> Option<BodyV> {
    match j {
        JsonV::Obj(o) => Some(members_body(g, o)),
        _ => None,
    }
}

/// The document that an object stands for, or `None` where it is no object.
pub fn json_to_body<N: Fn(Numeral) -> Form>(j: &Json, forms: &N) -> (r: Option<Body>)
    requires
        number::takes_numerals(*forms),
    ensures
        forall|g: spec_fn(NumeralV) -> FormV| #[trigger]
            number::forms_by(*forms, g) ==> ordmap::opt_view(r) == json_body(g, j@),
        r is Some == j@ is Obj,
{
    match j {
        Json::Obj(o) => {
            let ghost ov = o@;
            let mut out: Vec<(String, Value)> = Vec::new();
            let mut i: usize = 0;
            while i < o.entries.len()
                invariant
                    number::takes_numerals(*forms),
                    i <= o.entries.len(),
                    ov == o@,
                    out.len() == i,
                    forall|g: spec_fn(NumeralV) -> FormV, k: int|
                        #![trigger number::forms_by(*forms, g), out@[k]]
                        number::forms_by(*forms, g) && 0 <= k < i ==> out@[k].0@ == ov[k].0
                            && out@[k].1@ == json_value(g, ov[k].1),
                decreases o.entries.len() - i,
            {
                assert(ov[i as int] == (o.entries@[i as int].0@, o.entries@[i as int].1@));
                let v = json_to_value(&o.entries[i].1, forms);
                out.push((text::owned(o.entries[i].0.as_str()), v));
                i = i + 1;
            }
            let d = OrdMap { entries: out };
            proof {
                lemma_obj_view(*o);
                assert forall|g: spec_fn(NumeralV) -> FormV| #[trigger]
                    number::forms_by(*forms, g) implies d@ == members_body(g, ov) by {
                    assert(d@ =~= members_body(g, ov));
                }
            }
            Some(d)
        },
        _ => None,
    }
}

/// The single of a number, or `None` where the document is no number.
pub open spec fn json_single(g: spec_fn(NumeralV) -> FormV, j: JsonV) -> Option<u32> {
    match j {
        JsonV::Int(n) => Some(g(NumeralV::Wide(n)).single),
        JsonV::Float(x) => Some(g(NumeralV::Double(x)).single),
        _ => None,
    }
}

/// The single of a number, or `None` where the document is no number.
pub fn json_to_single<N: Fn(Numeral) -> Form>(j: &Json, forms: &N) -> (r: Option<u32>)
    requires
        number::takes_numerals(*forms),
    ensures
        forall|g: spec_fn(NumeralV) -> FormV| #[trigger]
            number::forms_by(*forms, g) ==> r == json_single(g, j@),
        r is Some == (j@ is Int || j@ is Float),
{
    match j {
        Json::Int(n) => {
            let form = forms(Numeral::Wide(*n));
            Some(form.single)
        },
        Json::Float(x) => {
            let form = forms(Numeral::Double(*x));
            Some(form.single)
        },
        _ => None,
    }
}

/// The member of an object, or `None` where there is none or no object.
pub open spec fn member(j: JsonV, name: Seq<char>) -> Option<JsonV> {
    match j {
        JsonV::Obj(o) => ordmap::lookup::<String, JsonV>(o, name),
        _ => None,
    }
}

/// The member of an object, or `None` where there is none or no object.
pub fn get_member<'a>(j: &'a Json, name: &str) -> (r: Option<&'a Json>)
    ensures
        match r {
            Some(m) => member(j@, name@) == Some(m@),
            None => member(j@, name@) is None,
        },
{
    match j {
        Json::Obj(o) => {
            proof {
                lemma_obj_view(*o);
            }
            o.get(&text::owned(name))
        },
        _ => None,
    }
}

// ---------------------------------------------------------------------------------------------
// To JSON
// ---------------------------------------------------------------------------------------------
/// A single as a number; `null` where it is infinite or NaN.
pub open spec fn single_json(g: spec_fn(NumeralV) -> FormV, x: u32) -> JsonV {
    if number::single_is_finite(x) {
        JsonV::Float(g(NumeralV::Single(x)).double)
    } else {
        JsonV::Null
    }
}

/// A value as a document. What JSON has no number for is `null`; a reference is a string.
pub open spec fn value_json(g: spec_fn(NumeralV) -> FormV, v: ValV) -> JsonV
    decreases v,
{
    match v {
        ValV::Null => JsonV::Null,
        ValV::Bool(b) => JsonV::Bool(b),
        ValV::Int(n) => JsonV::Int(n as i128),
        ValV::Float(x) => if number::double_is_finite(x) {
            JsonV::Float(x)
        } else {
            JsonV::Null
        },
        ValV::Str(s) => JsonV::Str(s),
        ValV::Doc(d) => JsonV::Obj(
            Seq::new(
                d.len(),
                |i: int|
                    if 0 <= i < d.len() {
                        (d[i].0, value_json(g, d[i].1))
                    } else {
                        arbitrary()
                    },
            ),
        ),
        ValV::Arr(a) => JsonV::Arr(
            Seq::new(
                a.len(),
                |i: int|
                    if 0 <= i < a.len() {
                        value_json(g, a[i])
                    } else {
                        arbitrary()
                    },
            ),
        ),
        ValV::Vector(x) => JsonV::Arr(Seq::new(x.len(), |i: int| single_json(g, x[i]))),
        ValV::Ref(r) => JsonV::Str(ir::rid_text(r)),
    }
}

/// A document body as an object.
pub open spec fn body_json(g: spec_fn(NumeralV) -> FormV, body: BodyV) -> MembersV {
    Seq::new(body.len(), |i: int| (body[i].0, value_json(g, body[i].1)))
}

proof fn lemma_value_json(g: spec_fn(NumeralV) -> FormV, v: ValV)
    ensures
        v matches ValV::Arr(a) ==> value_json(g, v) == JsonV::Arr(
            Seq::new(a.len(), |i: int| value_json(g, a[i])),
        ),
        v matches ValV::Doc(d) ==> value_json(g, v) == JsonV::Obj(body_json(g, d)),
{
    match v {
        ValV::Arr(a) => {
            assert(value_json(g, v)->Arr_0 =~= Seq::new(a.len(), |i: int| value_json(g, a[i])));
        },
        ValV::Doc(d) => {
            assert(value_json(g, v)->Obj_0 =~= body_json(g, d));
        },
        _ => {},
    }
}

/// A single as a number; `null` where it is infinite or NaN.
pub fn single_to_json<N: Fn(Numeral) -> Form>(x: u32, forms: &N) -> (r: Json)
    requires
        number::takes_numerals(*forms),
    ensures
        forall|g: spec_fn(NumeralV) -> FormV| #[trigger]
            number::forms_by(*forms, g) ==> r@ == single_json(g, x),
{
    if number::single_finite(x) {
        let form = forms(Numeral::Single(x));
        Json::Float(form.double)
    } else {
        Json::Null
    }
}

/// A value as a document. `forms` gives the floating-point form of a number.
pub fn scalar_to_json<N: Fn(Numeral) -> Form>(v: &Value, forms: &N) -> (r: Json)
    requires
        number::takes_numerals(*forms),
    ensures
        forall|g: spec_fn(NumeralV) -> FormV| #[trigger]
            number::forms_by(*forms, g) ==> r@ == value_json(g, v@),
    decreases *v,
{
    match v {
        Value::Null => Json::Null,
        Value::Bool(b) => Json::Bool(*b),
        Value::Int(n) => Json::Int(*n as i128),
        Value::Float(x) => if number::double_finite(*x) {
            Json::Float(*x)
        } else {
            Json::Null
        },
        Value::Str(s) => Json::Str(text::owned(s.as_str())),
        Value::Doc(d) => {
            let ghost dv = v@->Doc_0;
            let mut out: Vec<(String, Json)> = Vec::new();
            let mut i: usize = 0;
            while i < d.entries.len()
                invariant
                    number::takes_numerals(*forms),
                    i <= d.entries.len(),
                    *v == Value::Doc(*d),
                    v@ == ValV::Doc(dv),
                    dv.len() == d.entries.len(),
                    out.len() == i,
                    forall|g: spec_fn(NumeralV) -> FormV, k: int|
                        #![trigger number::forms_by(*forms, g), out@[k]]
                        number::forms_by(*forms, g) && 0 <= k < i ==> out@[k].0@ == dv[k].0
                            && out@[k].1@ == value_json(g, dv[k].1),
                decreases d.entries.len() - i,
            {
                assert(decreases_to!(*v => v->Doc_0.entries@[i as int].1));
                assert(dv[i as int] == (d.entries@[i as int].0@, d.entries@[i as int].1@));
                let j = scalar_to_json(&d.entries[i].1, forms);
                out.push((text::owned(d.entries[i].0.as_str()), j));
                i = i + 1;
            }
            let o = OrdMap { entries: out };
            proof {
                lemma_obj_view(o);
                assert forall|g: spec_fn(NumeralV) -> FormV| #[trigger]
                    number::forms_by(*forms, g) implies JsonV::Obj(o@) == value_json(g, v@) by {
                    lemma_value_json(g, v@);
                    assert(o@ =~= body_json(g, dv));
                }
            }
            Json::Obj(o)
        },
        Value::Arr(a) => {
            let ghost av = v@->Arr_0;
            let mut out: Vec<Json> = Vec::new();
            let mut i: usize = 0;
            while i < a.len()
                invariant
                    number::takes_numerals(*forms),
                    i <= a.len(),
                    *v == Value::Arr(*a),
                    v@ == ValV::Arr(av),
                    av.len() == a.len(),
                    out.len() == i,
                    forall|g: spec_fn(NumeralV) -> FormV, k: int|
                        #![trigger number::forms_by(*forms, g), out@[k]]
                        number::forms_by(*forms, g) && 0 <= k < i ==> out@[k]@ == value_json(
                            g,
                            av[k],
                        ),
                decreases a.len() - i,
            {
                assert(decreases_to!(*v => v->Arr_0@[i as int]));
                assert(av[i as int] == a@[i as int]@);
                out.push(scalar_to_json(&a[i], forms));
                i = i + 1;
            }
            proof {
                lemma_arr_view(out);
                assert forall|g: spec_fn(NumeralV) -> FormV| #[trigger]
                    number::forms_by(*forms, g) implies JsonV::Arr(ordmap::views(out@))
                    == value_json(g, v@) by {
                    lemma_value_json(g, v@);
                    assert(ordmap::views(out@) =~= Seq::new(
                        av.len(),
                        |i: int| value_json(g, av[i]),
                    ));
                }
            }
            Json::Arr(out)
        },
        Value::Vector(x) => {
            let mut out: Vec<Json> = Vec::new();
            let mut i: usize = 0;
            while i < x.len()
                invariant
                    number::takes_numerals(*forms),
                    i <= x.len(),
                    out.len() == i,
                    forall|g: spec_fn(NumeralV) -> FormV, k: int|
                        #![trigger number::forms_by(*forms, g), out@[k]]
                        number::forms_by(*forms, g) && 0 <= k < i ==> out@[k]@ == single_json(
                            g,
                            x@[k],
                        ),
                decreases x.len() - i,
            {
                out.push(single_to_json(x[i], forms));
                i = i + 1;
            }
            proof {
                lemma_arr_view(out);
                assert forall|g: spec_fn(NumeralV) -> FormV| #[trigger]
                    number::forms_by(*forms, g) implies JsonV::Arr(ordmap::views(out@))
                    == value_json(g, v@) by {
                    assert(ordmap::views(out@) =~= Seq::new(
                        x@.len(),
                        |i: int| single_json(g, x@[i]),
                    ));
                }
            }
            Json::Arr(out)
        },
        Value::Ref(r) => Json::Str(r.to_text()),
    }
}

/// A document body as an object.
pub fn value_to_json<N: Fn(Numeral) -> Form>(body: &Body, forms: &N) -> (r: Json)
    requires
        number::takes_numerals(*forms),
    ensures
        forall|g: spec_fn(NumeralV) -> FormV| #[trigger]
            number::forms_by(*forms, g) ==> r@ == JsonV::Obj(body_json(g, body@)),
{
    let ghost bv = body@;
    let mut out: Vec<(String, Json)> = Vec::new();
    let mut i: usize = 0;
    while i < body.entries.len()
        invariant
            number::takes_numerals(*forms),
            i <= body.entries.len(),
            bv == body@,
            out.len() == i,
            forall|g: spec_fn(NumeralV) -> FormV, k: int|
                #![trigger number::forms_by(*forms, g), out@[k]]
                number::forms_by(*forms, g) && 0 <= k < i ==> out@[k].0@ == bv[k].0 && out@[k].1@
                    == value_json(g, bv[k].1),
        decreases body.entries.len() - i,
    {
        assert(bv[i as int] == (body.entries@[i as int].0@, body.entries@[i as int].1@));
        let j = scalar_to_json(&body.entries[i].1, forms);
        out.push((text::owned(body.entries[i].0.as_str()), j));
        i = i + 1;
    }
    let o = OrdMap { entries: out };
    proof {
        lemma_obj_view(o);
        assert forall|g: spec_fn(NumeralV) -> FormV| #[trigger]
            number::forms_by(*forms, g) implies o@ == body_json(g, bv) by {
            assert(o@ =~= body_json(g, bv));
        }
    }
    Json::Obj(o)
}

// ---------------------------------------------------------------------------------------------
// Laws
// ---------------------------------------------------------------------------------------------
/// Every integer of the document fits 64 bits, and every double is finite.
pub open spec fn plain_json(j: JsonV) -> bool
    decreases j,
{
    match j {
        JsonV::Int(n) => i64::MIN <= n <= i64::MAX,
        JsonV::Float(x) => number::double_is_finite(x),
        JsonV::Arr(a) => forall|i: int| 0 <= i < a.len() ==> plain_json(#[trigger] a[i]),
        JsonV::Obj(o) => forall|i: int| 0 <= i < o.len() ==> plain_json((#[trigger] o[i]).1),
        _ => true,
    }
}

/// A document that is stored and read back is the same document.
pub proof fn law_json_reads_back(g: spec_fn(NumeralV) -> FormV, j: JsonV)
    requires
        plain_json(j),
    ensures
        value_json(g, json_value(g, j)) == j,
    decreases j,
{
    lemma_json_value(g, j);
    lemma_value_json(g, json_value(g, j));
    match j {
        JsonV::Arr(a) => {
            let b = value_json(g, json_value(g, j))->Arr_0;
            assert forall|i: int| 0 <= i < a.len() implies b[i] == a[i] by {
                assert(plain_json(a[i]));
                assert(decreases_to!(j => j->Arr_0[i]));
                law_json_reads_back(g, a[i]);
            }
            assert(b =~= a);
        },
        JsonV::Obj(o) => {
            let b = value_json(g, json_value(g, j))->Obj_0;
            assert forall|i: int| 0 <= i < o.len() implies b[i] == o[i] by {
                assert(plain_json(o[i].1));
                assert(decreases_to!(j => j->Obj_0[i].1));
                law_json_reads_back(g, o[i].1);
            }
            assert(b =~= o);
        },
        _ => {},
    }
}

/// What a document stands for, kind by kind: an integer that fits 64 bits is an integer, a wider one a
/// double; an array keeps its elements in their order, an object its members under their names.
pub proof fn law_what_json_stands_for(g: spec_fn(NumeralV) -> FormV, j: JsonV, i: int)
    ensures
        j is Null ==> json_value(g, j) is Null,
        j is Bool ==> json_value(g, j) == ValV::Bool(j->Bool_0),
        j is Str ==> json_value(g, j) == ValV::Str(j->Str_0),
        j is Float ==> json_value(g, j) == ValV::Float(j->Float_0),
        j is Int && i64::MIN <= j->Int_0 <= i64::MAX ==> json_value(g, j) == ValV::Int(
            j->Int_0 as i64,
        ),
        j is Int && !(i64::MIN <= j->Int_0 <= i64::MAX) ==> json_value(g, j) == ValV::Float(
            g(NumeralV::Wide(j->Int_0)).double,
        ),
        j is Arr ==> json_value(g, j) is Arr && json_value(g, j)->Arr_0.len() == j->Arr_0.len() && (0
            <= i < j->Arr_0.len() ==> json_value(g, j)->Arr_0[i] == json_value(g, j->Arr_0[i])),
        j is Obj ==> json_value(g, j) is Doc && json_value(g, j)->Doc_0.len() == j->Obj_0.len() && (0
            <= i < j->Obj_0.len() ==> json_value(g, j)->Doc_0[i].0 == j->Obj_0[i].0
            && json_value(g, j)->Doc_0[i].1 == json_value(g, j->Obj_0[i].1)),
        j is Obj ==> json_body(g, j) == Some(json_value(g, j)->Doc_0),
        !(j is Obj) ==> json_body(g, j) is None,
{
    lemma_json_value(g, j);
}

/// What a value is as a document, kind by kind: numbers that JSON has not are `null`, a vector is an
/// array of its components, a reference a string.
pub proof fn law_values_as_json(g: spec_fn(NumeralV) -> FormV, v: ValV, i: int)
    ensures
        v is Null ==> value_json(g, v) is Null,
        v is Bool ==> value_json(g, v) == JsonV::Bool(v->Bool_0),
        v is Int ==> value_json(g, v) is Int && value_json(g, v)->Int_0 == v->Int_0,
        v is Str ==> value_json(g, v) == JsonV::Str(v->Str_0),
        v is Ref ==> value_json(g, v) == JsonV::Str(ir::rid_text(v->Ref_0)),
        v is Float && (v->Float_0 < 0x7ff0_0000_0000_0000 || 0x8000_0000_0000_0000 <= v->Float_0
            < 0xfff0_0000_0000_0000) ==> value_json(g, v) == JsonV::Float(v->Float_0),
        v is Float && !(v->Float_0 < 0x7ff0_0000_0000_0000 || 0x8000_0000_0000_0000 <= v->Float_0
            < 0xfff0_0000_0000_0000) ==> value_json(g, v) is Null,
        v is Vector ==> value_json(g, v) is Arr && value_json(g, v)->Arr_0.len() == v->Vector_0.len()
            && (0 <= i < v->Vector_0.len() ==> value_json(g, v)->Arr_0[i] == single_json(
            g,
            v->Vector_0[i],
        )),
        v is Arr ==> value_json(g, v) is Arr && value_json(g, v)->Arr_0.len() == v->Arr_0.len() && (0
            <= i < v->Arr_0.len() ==> value_json(g, v)->Arr_0[i] == value_json(g, v->Arr_0[i])),
        v is Doc ==> value_json(g, v) is Obj && value_json(g, v)->Obj_0.len() == v->Doc_0.len() && (0
            <= i < v->Doc_0.len() ==> value_json(g, v)->Obj_0[i].0 == v->Doc_0[i].0
            && value_json(g, v)->Obj_0[i].1 == value_json(g, v->Doc_0[i].1)),
        v is Doc ==> value_json(g, v) == JsonV::Obj(body_json(g, v->Doc_0)),
{
    lemma_value_json(g, v);
}

/// A single as a document: its value as a double, `null` where it is infinite or NaN.
pub proof fn law_singles_as_json(g: spec_fn(NumeralV) -> FormV, x: u32)
    ensures
        x < 0x7f80_0000 || 0x8000_0000 <= x < 0xff80_0000 ==> single_json(g, x) == JsonV::Float(
            g(NumeralV::Single(x)).double,
        ),
        !(x < 0x7f80_0000 || 0x8000_0000 <= x < 0xff80_0000) ==> single_json(g, x) is Null,
{
}

} // verus!
