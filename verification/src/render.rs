//! Values, rows and results in writing, as the command line and the line protocol show them.
//!
//! Output depends on nothing but the data. How a floating-point number is written is a function of
//! the caller.
use vstd::prelude::*;

use crate::engine::{QueryKind, QueryResult};
#[allow(unused_imports)]
use crate::engine::{KindV, ResV};
use crate::ir;
use crate::ir::{Body, MatchDirection, MatchPath, RecordId, Value};
#[allow(unused_imports)]
use crate::ir::{BodyV, PathV, RidV, SelV, StepV, ValV};
use crate::ordmap;
use crate::select::ScoredRecord;
#[allow(unused_imports)]
use crate::select::RowV;
use crate::text;

verus! {

/// A floating-point number to write.
#[derive(Debug, Clone, Copy, PartialEq, Eq)]
pub enum Shown {
    /// A double, as short as it reads back.
    Double(u64),
    /// A single, as short as it reads back.
    Single(u32),
    /// A single with four decimal places.
    Fixed(u32),
    /// A single as short as it reads back, with a decimal point.
    Pointed(u32),
}

/// A function that says how each number is written.
pub type Showing = spec_fn(Shown) -> Seq<char>;

/// `f` writes numbers as `sh` says.
pub open spec fn shows_by<S: Fn(Shown) -> String>(f: S, sh: Showing) -> bool {
    forall|x: Shown, r: String| #[trigger] call_ensures(f, (x,), r) ==> r@ == sh(x)
}

/// `f` takes any number.
pub open spec fn takes_shown<S: Fn(Shown) -> String>(f: S) -> bool {
    forall|x: Shown| call_requires(f, (x,))
}

/// A string literal: the text in double quotes, with escapes, as the `Debug` form of `str` has it.
pub uninterp spec fn quoted_text(s: Seq<char>) -> Seq<char>;

/// The `Debug` form of a `str`, as `format!` writes it. It depends on the text alone.
#[verifier::external_body]
fn quoted(s: &str) -> (r: String)
    ensures
        r@ == quoted_text(s@),
{
    format!("{s:?}")
}

// ---------------------------------------------------------------------------------------------
// Values
// ---------------------------------------------------------------------------------------------
/// Parts in braces, separated by commas.
pub open spec fn braced(parts: Seq<Seq<char>>) -> Seq<char> {
    if parts.len() == 0 {
        "{}"@
    } else {
        "{"@ + text::joined(parts, ", "@) + "}"@
    }
}

/// How many of `n` elements are shown where at most `most` are.
pub open spec fn shown(n: nat, most: nat) -> nat {
    if n < most {
        n
    } else {
        most
    }
}

/// The first four components of a vector, and dots if there are more.
pub open spec fn vector_text(sh: Showing, v: Seq<u32>) -> Seq<char> {
    text::joined(Seq::new(shown(v.len(), 4), |i: int| sh(Shown::Single(v[i]))), ", "@) + if v.len()
        > 4 {
        ", ..."@
    } else {
        ""@
    }
}

/// What is shown of a document, its fields, and of an array, its first three elements.
pub open spec fn value_parts(sh: Showing, v: ValV) -> Seq<Seq<char>>
    decreases v, 0int,
{
    match v {
        ValV::Doc(d) => Seq::new(
            d.len(),
            |i: int|
                if 0 <= i < d.len() {
                    d[i].0 + "="@ + value_text(sh, d[i].1)
                } else {
                    arbitrary()
                },
        ),
        ValV::Arr(a) => Seq::new(
            shown(a.len(), 3),
            |i: int|
                if 0 <= i < a.len() {
                    value_text(sh, a[i])
                } else {
                    arbitrary()
                },
        ),
        _ => Seq::empty(),
    }
}

/// A value in writing: strings in quotes, of an array the first three elements, of a vector the first
/// four components.
pub open spec fn value_text(sh: Showing, v: ValV) -> Seq<char>
    decreases v, 1int,
{
    match v {
        ValV::Null => "null"@,
        ValV::Bool(b) => if b {
            "true"@
        } else {
            "false"@
        },
        ValV::Int(n) => text::int_text(n as int),
        ValV::Float(x) => sh(Shown::Double(x)),
        ValV::Str(s) => quoted_text(s),
        ValV::Doc(_) => braced(value_parts(sh, v)),
        ValV::Arr(_) => "["@ + text::joined(value_parts(sh, v), ", "@) + "]"@,
        ValV::Vector(x) => "["@ + vector_text(sh, x) + "]"@,
        ValV::Ref(r) => ir::rid_text(r),
    }
}

/// One field of a document in writing.
pub open spec fn field_text(sh: Showing, field: (Seq<char>, ValV)) -> Seq<char> {
    field.0 + "="@ + value_text(sh, field.1)
}

/// The fields of a document in writing, in the order of their names.
pub open spec fn fields_text(sh: Showing, body: BodyV) -> Seq<char> {
    braced(Seq::new(body.len(), |i: int| field_text(sh, body[i])))
}

proof fn lemma_value_parts(sh: Showing, v: ValV)
    ensures
        v matches ValV::Doc(d) ==> value_parts(sh, v) == Seq::new(
            d.len(),
            |i: int| field_text(sh, d[i]),
        ),
        v matches ValV::Arr(a) ==> value_parts(sh, v) == Seq::new(
            shown(a.len(), 3),
            |i: int| value_text(sh, a[i]),
        ),
{
    match v {
        ValV::Doc(d) => {
            assert(value_parts(sh, v) =~= Seq::new(d.len(), |i: int| field_text(sh, d[i])));
        },
        ValV::Arr(a) => {
            assert(value_parts(sh, v) =~= Seq::new(
                shown(a.len(), 3),
                |i: int| value_text(sh, a[i]),
            ));
        },
        _ => {},
    }
}

fn brace(parts: &Vec<String>) -> (r: String)
    ensures
        r@ == braced(ordmap::views(parts@)),
{
    if parts.len() == 0 {
        return text::owned("{}");
    }
    let list = text::join(parts, ", ");
    assert(Seq::new(parts@.len(), |i: int| parts@[i]@) =~= ordmap::views(parts@));
    text::join3("{", list.as_str(), "}")
}

/// The first four components of a vector, and dots if there are more.
pub fn slice4<S: Fn(Shown) -> String>(v: &Vec<u32>, show: &S) -> (r: String)
    requires
        takes_shown(*show),
    ensures
        forall|sh: Showing| #[trigger] shows_by(*show, sh) ==> r@ == vector_text(sh, v@),
{
    let n: usize = if v.len() < 4 {
        v.len()
    } else {
        4
    };
    let mut parts: Vec<String> = Vec::new();
    let mut i: usize = 0;
    while i < n
        invariant
            takes_shown(*show),
            i <= n <= v.len(),
            parts.len() == i,
            forall|sh: Showing, j: int|
                #![trigger shows_by(*show, sh), parts@[j]]
                shows_by(*show, sh) && 0 <= j < i ==> parts@[j]@ == sh(Shown::Single(v@[j])),
        decreases n - i,
    {
        parts.push(show(Shown::Single(v[i])));
        i = i + 1;
    }
    let list = text::join(&parts, ", ");
    proof {
        assert forall|sh: Showing| #[trigger] shows_by(*show, sh) implies Seq::new(
            parts@.len(),
            |i: int| parts@[i]@,
        ) == Seq::new(shown(v@.len(), 4), |i: int| sh(Shown::Single(v@[i]))) by {
            assert forall|j: int| 0 <= j < n implies (#[trigger] parts@[j])@ == sh(
                Shown::Single(v@[j]),
            ) by {}
            assert(Seq::new(parts@.len(), |i: int| parts@[i]@) =~= Seq::new(
                shown(v@.len(), 4),
                |i: int| sh(Shown::Single(v@[i])),
            ));
        }
    }
    text::join2(
        list.as_str(),
        if v.len() > 4 {
            ", ..."
        } else {
            ""
        },
    )
}

/// A value in writing.
pub fn short_value<S: Fn(Shown) -> String>(v: &Value, show: &S) -> (r: String)
    requires
        takes_shown(*show),
    ensures
        forall|sh: Showing| #[trigger] shows_by(*show, sh) ==> r@ == value_text(sh, v@),
    decreases *v,
{
    match v {
        Value::Null => text::owned("null"),
        Value::Bool(b) => if *b {
            text::owned("true")
        } else {
            text::owned("false")
        },
        Value::Int(n) => text::i64_text(*n),
        Value::Float(x) => show(Shown::Double(*x)),
        Value::Str(s) => quoted(s.as_str()),
        Value::Doc(d) => {
            let ghost dv = v@->Doc_0;
            let mut parts: Vec<String> = Vec::new();
            let mut i: usize = 0;
            while i < d.entries.len()
                invariant
                    takes_shown(*show),
                    i <= d.entries.len(),
                    *v == Value::Doc(*d),
                    v@ == ValV::Doc(dv),
                    dv.len() == d.entries.len(),
                    parts.len() == i,
                    forall|sh: Showing, j: int|
                        #![trigger shows_by(*show, sh), parts@[j]]
                        shows_by(*show, sh) && 0 <= j < i ==> parts@[j]@ == field_text(
                            sh,
                            dv[j],
                        ),
                decreases d.entries.len() - i,
            {
                assert(decreases_to!(*v => v->Doc_0.entries@[i as int].1));
                assert(dv[i as int] == (d.entries@[i as int].0@, d.entries@[i as int].1@));
                let value = short_value(&d.entries[i].1, show);
                parts.push(text::join3(d.entries[i].0.as_str(), "=", value.as_str()));
                i = i + 1;
            }
            proof {
                assert forall|sh: Showing| #[trigger] shows_by(*show, sh) implies braced(
                    ordmap::views(parts@),
                ) == value_text(sh, v@) by {
                    lemma_value_parts(sh, v@);
                    assert(ordmap::views(parts@) =~= Seq::new(
                        dv.len(),
                        |i: int| field_text(sh, dv[i]),
                    ));
                }
            }
            brace(&parts)
        },
        Value::Arr(a) => {
            let ghost av = v@->Arr_0;
            let n: usize = if a.len() < 3 {
                a.len()
            } else {
                3
            };
            let mut parts: Vec<String> = Vec::new();
            let mut i: usize = 0;
            while i < n
                invariant
                    takes_shown(*show),
                    i <= n <= a.len(),
                    *v == Value::Arr(*a),
                    v@ == ValV::Arr(av),
                    av.len() == a.len(),
                    parts.len() == i,
                    forall|sh: Showing, j: int|
                        #![trigger shows_by(*show, sh), parts@[j]]
                        shows_by(*show, sh) && 0 <= j < i ==> parts@[j]@ == value_text(
                            sh,
                            av[j],
                        ),
                decreases n - i,
            {
                assert(decreases_to!(*v => v->Arr_0@[i as int]));
                assert(av[i as int] == a@[i as int]@);
                parts.push(short_value(&a[i], show));
                i = i + 1;
            }
            let list = text::join(&parts, ", ");
            proof {
                assert forall|sh: Showing| #[trigger] shows_by(*show, sh) implies "["@ + list@
                    + "]"@ == value_text(sh, v@) by {
                    lemma_value_parts(sh, v@);
                    assert(Seq::new(parts@.len(), |i: int| parts@[i]@) =~= Seq::new(
                        shown(av.len(), 3),
                        |i: int| value_text(sh, av[i]),
                    ));
                }
            }
            text::join3("[", list.as_str(), "]")
        },
        Value::Vector(x) => {
            let list = slice4(x, show);
            text::join3("[", list.as_str(), "]")
        },
        Value::Ref(rid) => rid.to_text(),
    }
}

/// The fields of a document in writing, in the order of their names.
pub fn format_fields<S: Fn(Shown) -> String>(body: &Body, show: &S) -> (r: String)
    requires
        takes_shown(*show),
    ensures
        forall|sh: Showing| #[trigger] shows_by(*show, sh) ==> r@ == fields_text(sh, body@),
{
    let ghost bv = body@;
    let mut parts: Vec<String> = Vec::new();
    let mut i: usize = 0;
    while i < body.entries.len()
        invariant
            takes_shown(*show),
            i <= body.entries.len(),
            bv == body@,
            parts.len() == i,
            forall|sh: Showing, j: int|
                #![trigger shows_by(*show, sh), parts@[j]]
                shows_by(*show, sh) && 0 <= j < i ==> parts@[j]@ == field_text(sh, bv[j]),
        decreases body.entries.len() - i,
    {
        assert(bv[i as int] == (body.entries@[i as int].0@, body.entries@[i as int].1@));
        let value = short_value(&body.entries[i].1, show);
        parts.push(text::join3(body.entries[i].0.as_str(), "=", value.as_str()));
        i = i + 1;
    }
    proof {
        assert forall|sh: Showing| #[trigger] shows_by(*show, sh) implies braced(
            ordmap::views(parts@),
        ) == fields_text(sh, body@) by {
            assert(ordmap::views(parts@) =~= Seq::new(bv.len(), |i: int| field_text(sh, bv[i])));
        }
    }
    brace(&parts)
}

// ---------------------------------------------------------------------------------------------
// Results
// ---------------------------------------------------------------------------------------------
/// One step of a path in writing: the direction and the edge name.
pub open spec fn hop_text(s: StepV) -> Seq<char> {
    (match s.direction {
        MatchDirection::Out => "->:"@,
        MatchDirection::In => "<-:"@,
    }) + s.name
}

/// A walked path in writing: where it starts, and its steps.
pub open spec fn path_text(p: PathV) -> Seq<char> {
    ir::rid_text(p.start) + " "@ + text::joined(
        Seq::new(p.steps.len(), |i: int| hop_text(p.steps[i])),
        " "@,
    )
}

/// What a result is of: the table that was selected from, or the path that was walked.
pub open spec fn label_text(k: KindV) -> Seq<char> {
    match k {
        KindV::Select(sel) => "SELECT "@ + sel.table,
        KindV::Match(p) => "MATCH "@ + path_text(p),
        KindV::Closure(p) => "CLOSURE "@ + path_text(p),
    }
}

fn format_path(p: &MatchPath) -> (r: String)
    ensures
        r@ == path_text(p@),
{
    let ghost pv = p@;
    let mut hops: Vec<String> = Vec::new();
    let mut i: usize = 0;
    while i < p.steps.len()
        invariant
            i <= p.steps.len(),
            pv == p@,
            hops.len() == i,
            forall|j: int| 0 <= j < i ==> (#[trigger] hops@[j])@ == hop_text(pv.steps[j]),
        decreases p.steps.len() - i,
    {
        assert(pv.steps[i as int] == p.steps@[i as int]@);
        let arrow = match p.steps[i].direction {
            MatchDirection::Out => "->:",
            MatchDirection::In => "<-:",
        };
        hops.push(text::join2(arrow, p.steps[i].name.as_str()));
        i = i + 1;
    }
    let start = p.start.to_text();
    let list = text::join(&hops, " ");
    assert(Seq::new(hops@.len(), |i: int| hops@[i]@) =~= Seq::new(
        pv.steps.len(),
        |i: int| hop_text(pv.steps[i]),
    ));
    text::join3(start.as_str(), " ", list.as_str())
}

/// What a result is of.
pub fn format_label(k: &QueryKind) -> (r: String)
    ensures
        r@ == label_text(k@),
{
    match k {
        QueryKind::Select(sel) => text::join2("SELECT ", sel.table.as_str()),
        QueryKind::Match(p) => {
            let path = format_path(p);
            text::join2("MATCH ", path.as_str())
        },
        QueryKind::Closure(p) => {
            let path = format_path(p);
            text::join2("CLOSURE ", path.as_str())
        },
    }
}

/// One row in writing: the id, the score and the fields, with `gap` between them.
pub open spec fn row_text(sh: Showing, gap: Seq<char>, row: RowV) -> Seq<char> {
    ir::rid_text(row.record.id) + gap + "score="@ + sh(Shown::Fixed(row.score)) + gap + fields_text(
        sh,
        row.record.body,
    )
}

/// One row in writing.
pub fn format_row<S: Fn(Shown) -> String>(row: &ScoredRecord, gap: &str, show: &S) -> (r: String)
    requires
        takes_shown(*show),
    ensures
        forall|sh: Showing| #[trigger] shows_by(*show, sh) ==> r@ == row_text(sh, gap@, row@),
{
    let id = row.record.id.to_text();
    let score = show(Shown::Fixed(row.score));
    let fields = format_fields(&row.record.body, show);
    let mut r = text::join4(id.as_str(), gap, "score=", score.as_str());
    r.append(gap);
    r.append(fields.as_str());
    r
}

/// The rows in writing, one part each.
pub open spec fn row_texts(sh: Showing, gap: Seq<char>, rows: Seq<RowV>) -> Seq<Seq<char>> {
    Seq::new(rows.len(), |i: int| row_text(sh, gap, rows[i]))
}

/// The rows in writing, one part each.
pub fn format_rows<S: Fn(Shown) -> String>(rows: &Vec<ScoredRecord>, gap: &str, show: &S) -> (r: Vec<
    String,
>)
    requires
        takes_shown(*show),
    ensures
        forall|sh: Showing| #[trigger]
            shows_by(*show, sh) ==> ordmap::views(r@) == row_texts(
                sh,
                gap@,
                ordmap::views(rows@),
            ),
{
    let ghost rv = ordmap::views(rows@);
    let mut out: Vec<String> = Vec::new();
    let mut i: usize = 0;
    while i < rows.len()
        invariant
            takes_shown(*show),
            i <= rows.len(),
            rv == ordmap::views(rows@),
            out.len() == i,
            forall|sh: Showing, j: int|
                #![trigger shows_by(*show, sh), out@[j]]
                shows_by(*show, sh) && 0 <= j < i ==> out@[j]@ == row_text(sh, gap@, rv[j]),
        decreases rows.len() - i,
    {
        assert(rv[i as int] == rows@[i as int]@);
        out.push(format_row(&rows[i], gap, show));
        i = i + 1;
    }
    proof {
        assert forall|sh: Showing| #[trigger] shows_by(*show, sh) implies ordmap::views(out@)
            == row_texts(sh, gap@, rv) by {
            assert(ordmap::views(out@) =~= row_texts(sh, gap@, rv));
        }
    }
    out
}

// ---------------------------------------------------------------------------------------------
// Laws: what is written
// ---------------------------------------------------------------------------------------------
proof fn lemma_joined(a: Seq<char>, b: Seq<char>, c: Seq<char>, sep: Seq<char>)
    ensures
        text::joined(seq![a], sep) == a,
        text::joined(seq![a, b], sep) == a + sep + b,
        text::joined(seq![a, b, c], sep) == a + sep + b + sep + c,
{
    assert(text::joined(seq![a], sep) == a);
    assert(seq![a, b].drop_last() =~= seq![a]);
    assert(text::joined(seq![a, b], sep) == a + sep + b);
    assert(seq![a, b, c].drop_last() =~= seq![a, b]);
}

/// What a result is said to be of: the table that was selected from; where a walk started, and the
/// steps that it took, `->:` for one along the edges and `<-:` for one against them.
pub proof fn law_labels(sel: SelV, start: RidV, a: StepV, b: StepV)
    requires
        a.direction == MatchDirection::Out,
        b.direction == MatchDirection::In,
    ensures
        label_text(KindV::Select(sel)) == "SELECT "@ + sel.table,
        label_text(KindV::Match(PathV { start, steps: seq![a] })) == "MATCH "@ + (ir::rid_text(start)
            + " "@ + ("->:"@ + a.name)),
        label_text(KindV::Match(PathV { start, steps: seq![a, b] })) == "MATCH "@ + (ir::rid_text(
            start,
        ) + " "@ + ("->:"@ + a.name + " "@ + ("<-:"@ + b.name))),
        label_text(KindV::Closure(PathV { start, steps: seq![b] })) == "CLOSURE "@ + (ir::rid_text(
            start,
        ) + " "@ + ("<-:"@ + b.name)),
        label_text(KindV::Closure(PathV { start, steps: seq![a, b] })) == "CLOSURE "@ + (ir::rid_text(
            start,
        ) + " "@ + ("->:"@ + a.name + " "@ + ("<-:"@ + b.name))),
{
    let (x, y) = ("->:"@ + a.name, "<-:"@ + b.name);
    lemma_joined(x, y, y, " "@);
    lemma_joined(y, y, y, " "@);
    let one = PathV { start, steps: seq![a] };
    let two = PathV { start, steps: seq![a, b] };
    let back = PathV { start, steps: seq![b] };
    assert(Seq::new(one.steps.len(), |i: int| hop_text(one.steps[i])) =~= seq![x]);
    assert(Seq::new(two.steps.len(), |i: int| hop_text(two.steps[i])) =~= seq![x, y]);
    assert(Seq::new(back.steps.len(), |i: int| hop_text(back.steps[i])) =~= seq![y]);
}

/// Fields in writing: in braces, each as its name, an equals sign and its value, in their order, with a
/// comma between them.
pub proof fn law_fields_in_writing(
    sh: Showing,
    a: Seq<char>,
    x: ValV,
    b: Seq<char>,
    y: ValV,
)
    ensures
        fields_text(sh, Seq::empty()) == "{}"@,
        fields_text(sh, seq![(a, x)]) == "{"@ + (a + "="@ + value_text(sh, x)) + "}"@,
        fields_text(sh, seq![(a, x), (b, y)]) == "{"@ + (a + "="@ + value_text(sh, x) + ", "@ + (b
            + "="@ + value_text(sh, y))) + "}"@,
{
    let (p, q) = (a + "="@ + value_text(sh, x), b + "="@ + value_text(sh, y));
    lemma_joined(p, q, q, ", "@);
    let one: BodyV = seq![(a, x)];
    let two: BodyV = seq![(a, x), (b, y)];
    assert(Seq::new(one.len(), |i: int| field_text(sh, one[i])) =~= seq![p]);
    assert(Seq::new(two.len(), |i: int| field_text(sh, two[i])) =~= seq![p, q]);
}

/// Values in writing: the words `null`, `true` and `false`, an integer in decimal, a string in quotes, a
/// reference by its id; of an array the first three elements in brackets, with a comma between them; of
/// a vector the first four components, and dots where there are more.
pub proof fn law_values_in_writing(
    sh: Showing,
    n: i64,
    s: Seq<char>,
    r: RidV,
    a: ValV,
    b: ValV,
    rest: Seq<ValV>,
    v: Seq<u32>,
)
    ensures
        value_text(sh, ValV::Null) == "null"@,
        value_text(sh, ValV::Bool(true)) == "true"@,
        value_text(sh, ValV::Bool(false)) == "false"@,
        value_text(sh, ValV::Int(n)) == text::int_text(n as int),
        value_text(sh, ValV::Str(s)) == quoted_text(s),
        value_text(sh, ValV::Ref(r)) == ir::rid_text(r),
        value_text(sh, ValV::Arr(seq![a, b])) == "["@ + (value_text(sh, a) + ", "@ + value_text(sh, b))
            + "]"@,
        value_text(sh, ValV::Arr(seq![a, b, a] + rest)) == "["@ + (value_text(sh, a) + ", "@
            + value_text(sh, b) + ", "@ + value_text(sh, a)) + "]"@,
        v.len() == 2 ==> value_text(sh, ValV::Vector(v)) == "["@ + (sh(Shown::Single(v[0])) + ", "@ + sh(
            Shown::Single(v[1]),
        )) + "]"@,
        v.len() > 4 ==> value_text(sh, ValV::Vector(v)) == value_text(sh, ValV::Vector(v.take(5))),
{
    let (x, y) = (value_text(sh, a), value_text(sh, b));
    lemma_joined(x, y, x, ", "@);
    lemma_value_parts(sh, ValV::Arr(seq![a, b]));
    lemma_value_parts(sh, ValV::Arr(seq![a, b, a] + rest));
    assert(value_parts(sh, ValV::Arr(seq![a, b])) =~= seq![x, y]);
    assert(value_parts(sh, ValV::Arr(seq![a, b, a] + rest)) =~= seq![x, y, x]);
    reveal_strlit("");
    if v.len() == 2 {
        let (p, q) = (sh(Shown::Single(v[0])), sh(Shown::Single(v[1])));
        lemma_joined(p, q, q, ", "@);
        assert(Seq::new(shown(v.len(), 4), |i: int| sh(Shown::Single(v[i]))) =~= seq![p, q]);
        assert(vector_text(sh, v) =~= p + ", "@ + q);
    }
    if v.len() > 4 {
        let w = v.take(5);
        assert(Seq::new(shown(v.len(), 4), |i: int| sh(Shown::Single(v[i]))) =~= Seq::new(
            shown(w.len(), 4),
            |i: int| sh(Shown::Single(w[i])),
        ));
    }
}

} // verus!
