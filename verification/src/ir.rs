//! The shared data types: record ids, values, records, edges, the store, and the statements of a
//! plan. Each has a view, the mathematical value that contracts speak of.
use vstd::prelude::*;

use crate::number;
use crate::ordmap;
use crate::ordmap::{opt_dup, vec_dup, Dup, Key, OrdMap};
use crate::text;

verus! {

// ---------------------------------------------------------------------------------------------
// Record ids
// ---------------------------------------------------------------------------------------------
/// The part of a record id after the colon: a number or a name.
#[derive(Debug, PartialEq, Eq, PartialOrd, Ord, Hash)]
pub enum Id {
    Num(u64),
    Str(String),
}

/// A record identifier `table:id`.
#[derive(Debug, PartialEq, Eq, PartialOrd, Ord, Hash)]
pub struct RecordId {
    pub table: String,
    pub id: Id,
}

#[verifier::ext_equal]
pub enum IdV {
    Num(u64),
    Str(Seq<char>),
}

#[verifier::ext_equal]
pub struct RidV {
    pub table: Seq<char>,
    pub id: IdV,
}

impl View for Id {
    type V = IdV;

    open spec fn view(&self) -> IdV {
        match *self {
            Id::Num(n) => IdV::Num(n),
            Id::Str(s) => IdV::Str(s@),
        }
    }
}

impl View for RecordId {
    type V = RidV;

    open spec fn view(&self) -> RidV {
        RidV { table: self.table@, id: self.id@ }
    }
}

/// Numbers come before names; numbers ascend, names are ordered as text.
pub open spec fn id_lt(a: IdV, b: IdV) -> bool {
    match a {
        IdV::Num(m) => match b {
            IdV::Num(n) => m < n,
            IdV::Str(_) => true,
        },
        IdV::Str(s) => match b {
            IdV::Num(_) => false,
            IdV::Str(t) => text::text_lt(s, t),
        },
    }
}

/// The order of record ids: by table, then by id.
pub open spec fn rid_lt(a: RidV, b: RidV) -> bool {
    text::text_lt(a.table, b.table) || (a.table == b.table && id_lt(a.id, b.id))
}

impl Key for RecordId {
    open spec fn key_lt(a: RidV, b: RidV) -> bool {
        rid_lt(a, b)
    }

    proof fn key_lt_irreflexive(a: RidV) {
        text::lemma_text_lt_irreflexive(a.table);
        if let IdV::Str(s) = a.id {
            text::lemma_text_lt_irreflexive(s);
        }
    }

    proof fn key_lt_transitive(a: RidV, b: RidV, c: RidV) {
        if text::text_lt(a.table, b.table) && text::text_lt(b.table, c.table) {
            text::lemma_text_lt_transitive(a.table, b.table, c.table);
        }
        if let IdV::Str(s) = a.id {
            if let IdV::Str(t) = b.id {
                if let IdV::Str(u) = c.id {
                    if text::text_lt(s, t) && text::text_lt(t, u) {
                        text::lemma_text_lt_transitive(s, t, u);
                    }
                }
            }
        }
    }

    proof fn key_lt_total(a: RidV, b: RidV) {
        text::lemma_text_lt_total(a.table, b.table);
        if let IdV::Str(s) = a.id {
            if let IdV::Str(t) = b.id {
                text::lemma_text_lt_total(s, t);
            }
        }
    }

    fn before(&self, other: &Self) -> (r: bool) {
        if text::text_same(self.table.as_str(), other.table.as_str()) {
            proof {
                text::lemma_text_lt_irreflexive(self.table@);
            }
            match &self.id {
                Id::Num(m) => match &other.id {
                    Id::Num(n) => *m < *n,
                    Id::Str(_) => true,
                },
                Id::Str(s) => match &other.id {
                    Id::Num(_) => false,
                    Id::Str(t) => text::text_before(s.as_str(), t.as_str()),
                },
            }
        } else {
            text::text_before(self.table.as_str(), other.table.as_str())
        }
    }

    fn same(&self, other: &Self) -> (r: bool) {
        match &self.id {
            Id::Num(m) => match &other.id {
                Id::Num(n) => *m == *n && text::text_same(
                    self.table.as_str(),
                    other.table.as_str(),
                ),
                Id::Str(_) => false,
            },
            Id::Str(s) => match &other.id {
                Id::Num(_) => false,
                Id::Str(t) => text::text_same(s.as_str(), t.as_str()) && text::text_same(
                    self.table.as_str(),
                    other.table.as_str(),
                ),
            },
        }
    }

}

impl Dup for RecordId {
    fn dup(&self) -> (r: Self) {
        RecordId { table: text::owned(self.table.as_str()), id: self.id.clone() }
    }
}

impl Clone for Id {
    fn clone(&self) -> (r: Self)
        ensures
            r@ == self@,
    {
        match self {
            Id::Num(n) => Id::Num(*n),
            Id::Str(s) => Id::Str(text::owned(s.as_str())),
        }
    }
}

impl Clone for RecordId {
    fn clone(&self) -> (r: Self)
        ensures
            r@ == self@,
    {
        self.dup()
    }
}

/// From position `i` on, the first position of `c` in `s`, or the length of `s`.
pub open spec fn index_from(s: Seq<char>, c: char, i: int) -> int
    decreases s.len() - i,
{
    if 0 <= i < s.len() && s[i] != c {
        index_from(s, c, i + 1)
    } else {
        i
    }
}

/// The id that a text spells: a number where it reads as one, a name otherwise.
pub open spec fn read_id(s: Seq<char>) -> IdV {
    match text::parse_u64(s) {
        Some(n) => IdV::Num(n),
        None => IdV::Str(s),
    }
}

/// The record id that `s` spells: two non-empty parts around its first colon.
pub open spec fn parse_rid(s: Seq<char>) -> Option<RidV> {
    let c = index_from(s, ':', 0);
    if 0 < c && c + 1 < s.len() {
        Some(RidV { table: s.take(c), id: read_id(s.skip(c + 1)) })
    } else {
        None
    }
}

/// How an id is written.
pub open spec fn id_text(id: IdV) -> Seq<char> {
    match id {
        IdV::Num(n) => text::dec_text(n as nat),
        IdV::Str(s) => s,
    }
}

/// How a record id is written: `table:id`.
pub open spec fn rid_text(r: RidV) -> Seq<char> {
    r.table + seq![':'] + id_text(r.id)
}

impl RecordId {
    /// The id `table:id`.
    pub fn new(table: String, id: Id) -> (r: Self)
        ensures
            r@ == (RidV { table: table@, id: id@ }),
    {
        RecordId { table, id }
    }

    /// Reads `"table:id"`: two non-empty parts around the first colon, the id a number where it
    /// reads as an unsigned 64-bit one.
    pub fn parse(s: &str) -> (r: Option<Self>)
        ensures
            ordmap::opt_view(r) == parse_rid(s@),
    {
        let v = text::chars_of(s);
        let mut c: usize = 0;
        while c < v.len() && v[c] != ':'
            invariant
                c <= v.len(),
                index_from(v@, ':', 0) == index_from(v@, ':', c as int),
            decreases v.len() - c,
        {
            c = c + 1;
        }
        if c == 0 || c >= v.len() || c + 1 == v.len() {
            return None;
        }
        let table = text::text_of(&v, 0, c);
        assert(v@.subrange(0, c as int) =~= v@.take(c as int));
        let id = match text::read_u64(&v, c + 1) {
            Some(n) => Id::Num(n),
            None => {
                assert(v@.subrange(c + 1, v.len() as int) =~= v@.skip(c + 1));
                Id::Str(text::text_of(&v, c + 1, v.len()))
            },
        };
        Some(RecordId { table, id })
    }

    /// The written form `table:id`.
    pub fn to_text(&self) -> (r: String)
        ensures
            r@ == rid_text(self@),
    {
        let id = match &self.id {
            Id::Num(n) => text::u64_text(*n),
            Id::Str(s) => text::owned(s.as_str()),
        };
        let mut r = text::owned(self.table.as_str());
        r.push(':');
        r.append(id.as_str());
        assert(r@ =~= rid_text(self@));
        r
    }
}

/// A record id that its written form leads back to: the table is neither empty nor holds a colon,
/// and a name is neither empty nor reads as a number.
pub open spec fn plain_rid(r: RidV) -> bool {
    &&& r.table.len() > 0
    &&& !r.table.contains(':')
    &&& match r.id {
        IdV::Num(_) => true,
        IdV::Str(s) => s.len() > 0 && text::parse_u64(s) is None,
    }
}

proof fn lemma_index_from(s: Seq<char>, c: char, i: int, p: int)
    requires
        0 <= i <= p < s.len(),
        forall|j: int| i <= j < p ==> s[j] != c,
        s[p] == c,
    ensures
        index_from(s, c, i) == p,
    decreases p - i,
{
    if i < p {
        assert(s[i] != c);
        lemma_index_from(s, c, i + 1, p);
    }
}

proof fn lemma_index_found(s: Seq<char>, c: char, i: int)
    requires
        0 <= i <= s.len(),
    ensures
        i <= index_from(s, c, i) <= s.len(),
        index_from(s, c, i) < s.len() ==> s[index_from(s, c, i)] == c,
        forall|j: int| i <= j < index_from(s, c, i) ==> s[j] != c,
    decreases s.len() - i,
{
    if i < s.len() && s[i] != c {
        lemma_index_found(s, c, i + 1);
    }
}

/// Reading the written form of a record id gives the record id back.
pub proof fn law_record_id_text_then_parse(r: RidV)
    requires
        plain_rid(r),
    ensures
        parse_rid(rid_text(r)) == Some(r),
{
    let s = rid_text(r);
    let c = r.table.len() as int;
    if let IdV::Num(n) = r.id {
        text::lemma_dec_text_value(n as nat);
        let d = text::dec_text(n as nat);
        assert(text::is_digit(d[0]));
    }
    assert forall|j: int| 0 <= j < c implies s[j] != ':' by {
        assert(s[j] == r.table[j]);
        assert(r.table.contains(r.table[j]));
    }
    assert(s[c] == ':');
    lemma_index_from(s, ':', 0, c);
    assert(s.take(c) =~= r.table);
    assert(s.skip(c + 1) =~= id_text(r.id));
}

/// Writing a record id that was read gives back the text, where a number in it was written the
/// plain way.
pub proof fn law_record_id_parse_then_text(s: Seq<char>)
    requires
        parse_rid(s) matches Some(r) && (r.id matches IdV::Num(n) ==> s.skip(
            index_from(s, ':', 0) + 1,
        ) == text::dec_text(n as nat)),
    ensures
        rid_text(parse_rid(s)->0) == s,
{
    let c = index_from(s, ':', 0);
    lemma_index_found(s, ':', 0);
    assert(s =~= s.take(c) + seq![':'] + s.skip(c + 1));
}

// ---------------------------------------------------------------------------------------------
// Values
// ---------------------------------------------------------------------------------------------
/// A typed value inside a document. `Float` is a double and `Vector` holds singles, as bits.
#[derive(Debug, PartialEq)]
pub enum Value {
    Null,
    Bool(bool),
    Int(i64),
    Float(u64),
    Str(String),
    /// A nested document.
    Doc(OrdMap<String, Value>),
    /// An ordered array.
    Arr(Vec<Value>),
    /// An embedded vector, supplied by the client.
    Vector(Vec<u32>),
    /// A reference to another record.
    Ref(RecordId),
}

#[verifier::ext_equal]
pub enum ValV {
    Null,
    Bool(bool),
    Int(i64),
    Float(u64),
    Str(Seq<char>),
    Doc(Seq<(Seq<char>, ValV)>),
    Arr(Seq<ValV>),
    Vector(Seq<u32>),
    Ref(RidV),
}

/// A document: its fields in ascending order of their names.
pub type Body = OrdMap<String, Value>;

/// The model of a document.
pub type BodyV = Seq<(Seq<char>, ValV)>;

pub open spec fn value_view(v: Value) -> ValV
    decreases v,
{
    match v {
        Value::Null => ValV::Null,
        Value::Bool(b) => ValV::Bool(b),
        Value::Int(n) => ValV::Int(n),
        Value::Float(f) => ValV::Float(f),
        Value::Str(s) => ValV::Str(s@),
        Value::Doc(d) => ValV::Doc(
            Seq::new(
                d.entries@.len(),
                |i: int|
                    if 0 <= i < d.entries@.len() {
                        (d.entries@[i].0@, value_view(d.entries@[i].1))
                    } else {
                        arbitrary()
                    },
            ),
        ),
        Value::Arr(a) => ValV::Arr(
            Seq::new(
                a@.len(),
                |i: int|
                    if 0 <= i < a@.len() {
                        value_view(a@[i])
                    } else {
                        arbitrary()
                    },
            ),
        ),
        Value::Vector(x) => ValV::Vector(x@),
        Value::Ref(r) => ValV::Ref(r@),
    }
}

impl View for Value {
    type V = ValV;

    open spec fn view(&self) -> ValV {
        value_view(*self)
    }
}

/// Equality of values: structural, with floating-point numbers compared by value.
pub open spec fn value_eq(a: ValV, b: ValV) -> bool
    decreases a,
{
    match (a, b) {
        (ValV::Null, ValV::Null) => true,
        (ValV::Bool(x), ValV::Bool(y)) => x == y,
        (ValV::Int(x), ValV::Int(y)) => x == y,
        (ValV::Float(x), ValV::Float(y)) => number::double_eq(x, y),
        (ValV::Str(x), ValV::Str(y)) => x == y,
        (ValV::Doc(x), ValV::Doc(y)) => x.len() == y.len() && forall|i: int|
            0 <= i < x.len() ==> (#[trigger] x[i]).0 == y[i].0 && value_eq(x[i].1, y[i].1),
        (ValV::Arr(x), ValV::Arr(y)) => x.len() == y.len() && forall|i: int|
            0 <= i < x.len() ==> value_eq(#[trigger] x[i], y[i]),
        (ValV::Vector(x), ValV::Vector(y)) => x.len() == y.len() && forall|i: int|
            0 <= i < x.len() ==> number::single_eq(#[trigger] x[i], y[i]),
        (ValV::Ref(x), ValV::Ref(y)) => x == y,
        _ => false,
    }
}

fn singles_same(x: &Vec<u32>, y: &Vec<u32>) -> (r: bool)
    ensures
        r == value_eq(ValV::Vector(x@), ValV::Vector(y@)),
{
    if x.len() != y.len() {
        return false;
    }
    let mut i: usize = 0;
    while i < x.len()
        invariant
            x.len() == y.len(),
            i <= x.len(),
            forall|j: int| 0 <= j < i ==> number::single_eq(#[trigger] x@[j], y@[j]),
        decreases x.len() - i,
    {
        if !number::single_same(x[i], y[i]) {
            assert(!number::single_eq(x@[i as int], y@[i as int]));
            return false;
        }
        i = i + 1;
    }
    true
}

/// An equal copy of a vector of singles.
pub fn singles_dup(v: &Vec<u32>) -> (r: Vec<u32>)
    ensures
        r@ == v@,
{
    let mut out: Vec<u32> = Vec::new();
    let mut i: usize = 0;
    while i < v.len()
        invariant
            i <= v.len(),
            out@ == v@.take(i as int),
        decreases v.len() - i,
    {
        out.push(v[i]);
        i = i + 1;
    }
    out
}

impl Value {
    /// An equal copy.
    pub fn dup(&self) -> (r: Self)
        ensures
            r@ == self@,
        decreases *self,
    {
        match self {
            Value::Null => Value::Null,
            Value::Bool(b) => Value::Bool(*b),
            Value::Int(n) => Value::Int(*n),
            Value::Float(f) => Value::Float(*f),
            Value::Str(s) => Value::Str(text::owned(s.as_str())),
            Value::Doc(d) => {
                let mut out: Vec<(String, Value)> = Vec::new();
                let mut i: usize = 0;
                while i < d.entries.len()
                    invariant
                        i <= d.entries.len(),
                        *self == Value::Doc(*d),
                        out.len() == i,
                        forall|j: int|
                            0 <= j < i ==> (#[trigger] out@[j]).0@ == d.entries@[j].0@
                                && value_view(out@[j].1) == value_view(d.entries@[j].1),
                    decreases d.entries.len() - i,
                {
                    let k = text::owned(d.entries[i].0.as_str());
                    assert(decreases_to!(*self => self->Doc_0.entries@[i as int].1));
                    let v = d.entries[i].1.dup();
                    out.push((k, v));
                    i = i + 1;
                }
                let r = Value::Doc(OrdMap { entries: out });
                assert(*self == Value::Doc(*d));
                assert(value_view(r)->Doc_0 =~= value_view(*self)->Doc_0);
                r
            },
            Value::Arr(a) => {
                let mut out: Vec<Value> = Vec::new();
                let mut i: usize = 0;
                while i < a.len()
                    invariant
                        i <= a.len(),
                        *self == Value::Arr(*a),
                        out.len() == i,
                        forall|j: int|
                            0 <= j < i ==> value_view(#[trigger] out@[j]) == value_view(a@[j]),
                    decreases a.len() - i,
                {
                    assert(decreases_to!(*self => self->Arr_0@[i as int]));
                    let v = a[i].dup();
                    out.push(v);
                    i = i + 1;
                }
                let r = Value::Arr(out);
                assert(*self == Value::Arr(*a));
                assert(value_view(r)->Arr_0 =~= value_view(*self)->Arr_0);
                r
            },
            Value::Vector(x) => Value::Vector(singles_dup(x)),
            Value::Ref(r) => Value::Ref(r.dup()),
        }
    }

    /// Whether two values are equal.
    pub fn equals(&self, other: &Self) -> (r: bool)
        ensures
            r == value_eq(self@, other@),
        decreases *self,
    {
        match (self, other) {
            (Value::Null, Value::Null) => true,
            (Value::Bool(x), Value::Bool(y)) => *x == *y,
            (Value::Int(x), Value::Int(y)) => *x == *y,
            (Value::Float(x), Value::Float(y)) => number::double_same(*x, *y),
            (Value::Str(x), Value::Str(y)) => text::text_same(x.as_str(), y.as_str()),
            (Value::Doc(x), Value::Doc(y)) => {
                let ghost xs = self@->Doc_0;
                let ghost ys = other@->Doc_0;
                if x.entries.len() != y.entries.len() {
                    return false;
                }
                let mut i: usize = 0;
                while i < x.entries.len()
                    invariant
                        i <= x.entries.len(),
                        x.entries.len() == y.entries.len(),
                        *self == Value::Doc(*x),
                        *other == Value::Doc(*y),
                        self@ == ValV::Doc(xs),
                        other@ == ValV::Doc(ys),
                        xs.len() == x.entries.len(),
                        ys.len() == xs.len(),
                        forall|j: int|
                            0 <= j < i ==> (#[trigger] xs[j]).0 == ys[j].0 && value_eq(
                                xs[j].1,
                                ys[j].1,
                            ),
                    decreases x.entries.len() - i,
                {
                    let named = text::text_same(
                        x.entries[i].0.as_str(),
                        y.entries[i].0.as_str(),
                    );
                    assert(xs[i as int].0 == x.entries@[i as int].0@);
                    assert(ys[i as int].0 == y.entries@[i as int].0@);
                    if !named {
                        return false;
                    }
                    let equal = x.entries[i].1.equals(&y.entries[i].1);
                    if !equal {
                        assert(!value_eq(xs[i as int].1, ys[i as int].1));
                        return false;
                    }
                    i = i + 1;
                }
                true
            },
            (Value::Arr(x), Value::Arr(y)) => {
                let ghost xs = self@->Arr_0;
                let ghost ys = other@->Arr_0;
                if x.len() != y.len() {
                    return false;
                }
                let mut i: usize = 0;
                while i < x.len()
                    invariant
                        i <= x.len(),
                        x.len() == y.len(),
                        *self == Value::Arr(*x),
                        *other == Value::Arr(*y),
                        self@ == ValV::Arr(xs),
                        other@ == ValV::Arr(ys),
                        xs.len() == x.len(),
                        ys.len() == xs.len(),
                        forall|j: int| 0 <= j < i ==> value_eq(#[trigger] xs[j], ys[j]),
                    decreases x.len() - i,
                {
                    let equal = x[i].equals(&y[i]);
                    if !equal {
                        assert(!value_eq(xs[i as int], ys[i as int]));
                        return false;
                    }
                    i = i + 1;
                }
                true
            },
            (Value::Vector(x), Value::Vector(y)) => singles_same(x, y),
            (Value::Ref(x), Value::Ref(y)) => x.same(y),
            _ => false,
        }
    }
}

impl Clone for Value {
    fn clone(&self) -> (r: Self)
        ensures
            r@ == self@,
    {
        self.dup()
    }
}

/// The view of a document value is the view of its map.
pub proof fn lemma_doc_view(d: OrdMap<String, Value>)
    ensures
        value_view(Value::Doc(d)) == ValV::Doc(d@),
{
    assert(value_view(Value::Doc(d))->Doc_0 =~= d@);
}

/// The view of an array value is the sequence of the views.
pub proof fn lemma_arr_view(a: Vec<Value>)
    ensures
        value_view(Value::Arr(a)) == ValV::Arr(ordmap::views(a@)),
{
    assert(value_view(Value::Arr(a))->Arr_0 =~= ordmap::views(a@));
}

/// An equal copy of a document.
pub fn body_dup(d: &Body) -> (r: Body)
    ensures
        r@ == d@,
{
    let mut out: Vec<(String, Value)> = Vec::new();
    let mut i: usize = 0;
    while i < d.entries.len()
        invariant
            i <= d.entries.len(),
            out.len() == i,
            forall|j: int|
                0 <= j < i ==> (#[trigger] out@[j]).0@ == d.entries@[j].0@ && out@[j].1@
                    == d.entries@[j].1@,
        decreases d.entries.len() - i,
    {
        let k = text::owned(d.entries[i].0.as_str());
        let v = d.entries[i].1.dup();
        out.push((k, v));
        i = i + 1;
    }
    let r = OrdMap { entries: out };
    assert(r@ =~= d@);
    r
}

// ---------------------------------------------------------------------------------------------
// Records, edges and the store
// ---------------------------------------------------------------------------------------------
/// A fixed-dimension vector column, as in `VECTOR<f32, 384>`.
#[derive(Debug, Clone, Copy, PartialEq, Eq)]
pub struct VectorSpec {
    pub dim: usize,
}

/// A named, directed relation `(from) -[:name {props}]-> (to)`.
#[derive(Debug, PartialEq)]
pub struct RelationEdge {
    pub from: RecordId,
    pub name: String,
    pub to: RecordId,
    /// When the edge was made, in the engine's time units.
    pub created_at: i64,
    /// An optional weight or confidence, a single.
    pub weight: Option<u32>,
    pub props: Body,
}

/// A record: its id, its document and an optional embedding of singles.
#[derive(Debug, PartialEq)]
pub struct Record {
    pub id: RecordId,
    pub body: Body,
    pub embedding: Option<Vec<u32>>,
    /// When the record was made, in the engine's time units.
    pub created_at: i64,
}

/// The whole database: records by id, edges in the order they were made, and the declared
/// embedding dimension of each table that has one.
#[derive(Debug, PartialEq)]
pub struct Store {
    pub records: OrdMap<RecordId, Record>,
    pub edges: Vec<RelationEdge>,
    pub vector_dims: OrdMap<String, usize>,
}

#[verifier::ext_equal]
pub struct EdgeV {
    pub from: RidV,
    pub name: Seq<char>,
    pub to: RidV,
    pub created_at: i64,
    pub weight: Option<u32>,
    pub props: BodyV,
}

#[verifier::ext_equal]
pub struct RecV {
    pub id: RidV,
    pub body: BodyV,
    pub embedding: Option<Seq<u32>>,
    pub created_at: i64,
}

#[verifier::ext_equal]
pub struct StoreV {
    pub records: Seq<(RidV, RecV)>,
    pub edges: Seq<EdgeV>,
    pub vector_dims: Seq<(Seq<char>, usize)>,
}

impl View for RelationEdge {
    type V = EdgeV;

    open spec fn view(&self) -> EdgeV {
        EdgeV {
            from: self.from@,
            name: self.name@,
            to: self.to@,
            created_at: self.created_at,
            weight: self.weight,
            props: self.props@,
        }
    }
}

impl View for Record {
    type V = RecV;

    open spec fn view(&self) -> RecV {
        RecV {
            id: self.id@,
            body: self.body@,
            embedding: ordmap::opt_view(self.embedding),
            created_at: self.created_at,
        }
    }
}

impl View for Store {
    type V = StoreV;

    open spec fn view(&self) -> StoreV {
        StoreV {
            records: self.records@,
            edges: ordmap::views(self.edges@),
            vector_dims: self.vector_dims@,
        }
    }
}

impl Dup for RelationEdge {
    fn dup(&self) -> (r: Self) {
        RelationEdge {
            from: self.from.dup(),
            name: text::owned(self.name.as_str()),
            to: self.to.dup(),
            created_at: self.created_at,
            weight: self.weight,
            props: body_dup(&self.props),
        }
    }
}

/// An equal copy of an optional embedding.
pub fn embedding_dup(e: &Option<Vec<u32>>) -> (r: Option<Vec<u32>>)
    ensures
        ordmap::opt_view(r) == ordmap::opt_view(*e),
{
    match e {
        Some(v) => Some(singles_dup(v)),
        None => None,
    }
}

impl Dup for Record {
    fn dup(&self) -> (r: Self) {
        Record {
            id: self.id.dup(),
            body: body_dup(&self.body),
            embedding: embedding_dup(&self.embedding),
            created_at: self.created_at,
        }
    }
}

impl Dup for Store {
    fn dup(&self) -> (r: Self) {
        Store {
            records: self.records.dup(),
            edges: vec_dup(&self.edges),
            vector_dims: self.vector_dims.dup(),
        }
    }
}

impl Clone for RelationEdge {
    fn clone(&self) -> (r: Self)
        ensures
            r@ == self@,
    {
        self.dup()
    }
}

impl Clone for Record {
    fn clone(&self) -> (r: Self)
        ensures
            r@ == self@,
    {
        self.dup()
    }
}

impl Clone for Store {
    fn clone(&self) -> (r: Self)
        ensures
            r@ == self@,
    {
        self.dup()
    }
}

/// The store that holds nothing.
pub open spec fn empty_store() -> StoreV {
    StoreV { records: Seq::empty(), edges: Seq::empty(), vector_dims: Seq::empty() }
}

/// Records and dimensions are in ascending key order, and each record stands under its own id.
pub open spec fn store_wf(s: StoreV) -> bool {
    &&& ordmap::ascending::<RecordId, RecV>(s.records)
    &&& ordmap::ascending::<String, usize>(s.vector_dims)
    &&& forall|i: int| 0 <= i < s.records.len() ==> (#[trigger] s.records[i]).1.id == s.records[i].0
}

/// `s` with `rec` under its id.
pub open spec fn with_record(s: StoreV, rec: RecV) -> StoreV {
    StoreV { records: ordmap::put::<RecordId, RecV>(s.records, rec.id, rec), ..s }
}

impl Default for Store {
    fn default() -> (r: Self)
        ensures
            r@ == empty_store(),
    {
        let r = Store { records: OrdMap::new(), edges: Vec::new(), vector_dims: OrdMap::new() };
        assert(ordmap::views(r.edges@) =~= Seq::<EdgeV>::empty());
        r
    }
}

impl Store {
    /// Stores `rec` under its id, in place of any record with that id.
    pub fn insert(&mut self, rec: Record)
        ensures
            final(self)@ == with_record(old(self)@, rec@),
    {
        let id = rec.id.dup();
        self.records.insert(id, rec);
    }
}

/// A record that was inserted is read back under its id.
pub proof fn law_insert_then_read(s: StoreV, rec: RecV)
    ensures
        ordmap::lookup::<RecordId, RecV>(with_record(s, rec).records, rec.id) == Some(rec),
{
    ordmap::lemma_put_lookup_same::<RecordId, RecV>(s.records, rec.id, rec);
}

/// Inserting a record leaves the records under all other ids as they were.
pub proof fn law_insert_keeps_others(s: StoreV, rec: RecV, other: RidV)
    requires
        store_wf(s),
        other != rec.id,
    ensures
        ordmap::lookup::<RecordId, RecV>(with_record(s, rec).records, other) == ordmap::lookup::<
            RecordId,
            RecV,
        >(s.records, other),
{
    ordmap::lemma_put_lookup_other::<RecordId, RecV>(s.records, rec.id, rec, other);
}

/// Inserting the same record twice is inserting it once.
pub proof fn law_insert_is_idempotent(s: StoreV, rec: RecV)
    ensures
        with_record(with_record(s, rec), rec) == with_record(s, rec),
{
    let once = with_record(s, rec);
    ordmap::lemma_put_lookup_same::<RecordId, RecV>(s.records, rec.id, rec);
    let p = ordmap::slot::<RecordId, RecV>(once.records, rec.id, 0);
    assert(once.records[p] == (rec.id, rec));
    assert(with_record(once, rec).records =~= once.records);
}

/// A later record under an id replaces the earlier one, whatever the earlier one was.
pub proof fn law_insert_overwrites(s: StoreV, a: RecV, b: RecV)
    requires
        a.id == b.id,
    ensures
        with_record(with_record(s, a), b) == with_record(s, b),
{
    let id = a.id;
    let once = with_record(s, a);
    let p = ordmap::slot::<RecordId, RecV>(s.records, id, 0);
    ordmap::lemma_slot::<RecordId, RecV>(s.records, id, 0);
    RecordId::key_lt_irreflexive(id);
    assert forall|j: int| 0 <= j < p implies RecordId::key_lt(#[trigger] once.records[j].0, id) by {
        assert(once.records[j] == s.records[j]);
    }
    ordmap::lemma_slot_is::<RecordId, RecV>(once.records, id, 0, p);
    assert(with_record(once, b).records =~= with_record(s, b).records);
}

// ---------------------------------------------------------------------------------------------
// Statements
// ---------------------------------------------------------------------------------------------
/// One statement of a plan.
#[derive(Debug, PartialEq)]
pub enum Statement {
    /// Declares a table and, if given, the dimension of its embeddings.
    CreateTable { table: String, vector_dim: Option<usize> },
    /// Inserts a record, or replaces the one with its id.
    Insert(Record),
    /// Adds an edge.
    Relate(RelationEdge),
    /// Selects records of one table.
    Select(Select),
    /// Walks a path of edges from one record.
    Match(MatchPath),
    /// Collects what a path of edges reaches from one record, over any number of hops.
    Closure(MatchPath),
    /// Deletes a record and every edge at it.
    Forget { id: RecordId },
}

/// A sequence of statements, executed as one transaction.
pub type Plan = Vec<Statement>;

/// A selection: a table, with an optional nearest-neighbour clause, filter, order and row limit.
#[derive(Debug, PartialEq)]
pub struct Select {
    pub table: String,
    pub knn: Option<Knn>,
    pub filter: Option<Filter>,
    pub order: Option<Order>,
    pub limit: Option<usize>,
    /// The logical timestamp of an `AS OF` clause; carried, not interpreted.
    pub as_of: Option<i64>,
}

/// `vector::similarity(embedding, query) AND k = k`.
#[derive(Debug, PartialEq)]
pub struct Knn {
    pub query: Vec<u32>,
    pub k: usize,
}

/// A condition on rows, or on the properties of an edge.
#[derive(Debug, PartialEq)]
pub enum Filter {
    /// `field = value`.
    FieldEquals { field: String, value: Value },
    /// `embedding IS NOT NULL`.
    HasEmbedding,
    /// `::bm25(field, "query") [AND k = k]`: scores every row, and keeps at most `k` of them.
    Bm25 { field: String, query: String, k: Option<usize> },
}

/// What an `ORDER BY` orders by, descending; equal rows ascend by record id.
#[derive(Debug, Clone, Copy, PartialEq, Eq, Structural)]
pub enum Order {
    /// Cosine similarity to the query vector.
    Similarity,
    /// A blend of similarity and vote score.
    Salience,
    /// The smoothed mean of the vote weights.
    Score,
    /// Up-votes minus down-votes.
    Votes,
    /// Votes that fade with age.
    Feedback,
    /// `created_at`.
    Recency,
}

/// The direction in which a step follows an edge.
#[derive(Debug, Clone, Copy, PartialEq, Eq, Structural)]
pub enum MatchDirection {
    Out,
    In,
}

/// One step of a path: edges of one name in one direction, with an optional condition on their
/// properties.
#[derive(Debug, PartialEq)]
pub struct MatchStep {
    pub direction: MatchDirection,
    pub name: String,
    pub edge_props: Option<Filter>,
}

/// A path: where it starts and the steps it takes.
#[derive(Debug, PartialEq)]
pub struct MatchPath {
    pub start: RecordId,
    pub steps: Vec<MatchStep>,
}

/// The votes on a record: how many up, how many down, and the difference.
#[derive(Debug, Clone, Copy, PartialEq, Eq)]
pub struct VoteCounts {
    pub up: u64,
    pub down: u64,
    pub net: i64,
}

#[verifier::ext_equal]
pub enum StmtV {
    CreateTable { table: Seq<char>, vector_dim: Option<usize> },
    Insert(RecV),
    Relate(EdgeV),
    Select(SelV),
    Match(PathV),
    Closure(PathV),
    Forget { id: RidV },
}

#[verifier::ext_equal]
pub struct SelV {
    pub table: Seq<char>,
    pub knn: Option<KnnV>,
    pub filter: Option<FilV>,
    pub order: Option<Order>,
    pub limit: Option<usize>,
    pub as_of: Option<i64>,
}

#[verifier::ext_equal]
pub struct KnnV {
    pub query: Seq<u32>,
    pub k: usize,
}

#[verifier::ext_equal]
pub enum FilV {
    FieldEquals { field: Seq<char>, value: ValV },
    HasEmbedding,
    Bm25 { field: Seq<char>, query: Seq<char>, k: Option<usize> },
}

#[verifier::ext_equal]
pub struct StepV {
    pub direction: MatchDirection,
    pub name: Seq<char>,
    pub edge_props: Option<FilV>,
}

#[verifier::ext_equal]
pub struct PathV {
    pub start: RidV,
    pub steps: Seq<StepV>,
}

impl View for Knn {
    type V = KnnV;

    open spec fn view(&self) -> KnnV {
        KnnV { query: self.query@, k: self.k }
    }
}

impl View for Filter {
    type V = FilV;

    open spec fn view(&self) -> FilV {
        match *self {
            Filter::FieldEquals { field, value } => FilV::FieldEquals {
                field: field@,
                value: value@,
            },
            Filter::HasEmbedding => FilV::HasEmbedding,
            Filter::Bm25 { field, query, k } => FilV::Bm25 { field: field@, query: query@, k },
        }
    }
}

impl View for Select {
    type V = SelV;

    open spec fn view(&self) -> SelV {
        SelV {
            table: self.table@,
            knn: ordmap::opt_view(self.knn),
            filter: ordmap::opt_view(self.filter),
            order: self.order,
            limit: self.limit,
            as_of: self.as_of,
        }
    }
}

impl View for MatchStep {
    type V = StepV;

    open spec fn view(&self) -> StepV {
        StepV {
            direction: self.direction,
            name: self.name@,
            edge_props: ordmap::opt_view(self.edge_props),
        }
    }
}

impl View for MatchPath {
    type V = PathV;

    open spec fn view(&self) -> PathV {
        PathV { start: self.start@, steps: ordmap::views(self.steps@) }
    }
}

impl View for Statement {
    type V = StmtV;

    open spec fn view(&self) -> StmtV {
        match *self {
            Statement::CreateTable { table, vector_dim } => StmtV::CreateTable {
                table: table@,
                vector_dim,
            },
            Statement::Insert(rec) => StmtV::Insert(rec@),
            Statement::Relate(edge) => StmtV::Relate(edge@),
            Statement::Select(sel) => StmtV::Select(sel@),
            Statement::Match(path) => StmtV::Match(path@),
            Statement::Closure(path) => StmtV::Closure(path@),
            Statement::Forget { id } => StmtV::Forget { id: id@ },
        }
    }
}

impl Dup for Knn {
    fn dup(&self) -> (r: Self) {
        Knn { query: singles_dup(&self.query), k: self.k }
    }
}

impl Dup for Filter {
    fn dup(&self) -> (r: Self) {
        match self {
            Filter::FieldEquals { field, value } => Filter::FieldEquals {
                field: text::owned(field.as_str()),
                value: value.dup(),
            },
            Filter::HasEmbedding => Filter::HasEmbedding,
            Filter::Bm25 { field, query, k } => Filter::Bm25 {
                field: text::owned(field.as_str()),
                query: text::owned(query.as_str()),
                k: *k,
            },
        }
    }
}

impl Dup for Select {
    fn dup(&self) -> (r: Self) {
        Select {
            table: text::owned(self.table.as_str()),
            knn: opt_dup(&self.knn),
            filter: opt_dup(&self.filter),
            order: self.order,
            limit: self.limit,
            as_of: self.as_of,
        }
    }
}

impl Dup for MatchStep {
    fn dup(&self) -> (r: Self) {
        MatchStep {
            direction: self.direction,
            name: text::owned(self.name.as_str()),
            edge_props: opt_dup(&self.edge_props),
        }
    }
}

impl Dup for MatchPath {
    fn dup(&self) -> (r: Self) {
        MatchPath { start: self.start.dup(), steps: vec_dup(&self.steps) }
    }
}

impl Dup for Statement {
    fn dup(&self) -> (r: Self) {
        match self {
            Statement::CreateTable { table, vector_dim } => Statement::CreateTable {
                table: text::owned(table.as_str()),
                vector_dim: *vector_dim,
            },
            Statement::Insert(rec) => Statement::Insert(rec.dup()),
            Statement::Relate(edge) => Statement::Relate(edge.dup()),
            Statement::Select(sel) => Statement::Select(sel.dup()),
            Statement::Match(path) => Statement::Match(path.dup()),
            Statement::Closure(path) => Statement::Closure(path.dup()),
            Statement::Forget { id } => Statement::Forget { id: id.dup() },
        }
    }
}

impl Clone for Knn {
    fn clone(&self) -> (r: Self)
        ensures
            r@ == self@,
    {
        self.dup()
    }
}

impl Clone for Filter {
    fn clone(&self) -> (r: Self)
        ensures
            r@ == self@,
    {
        self.dup()
    }
}

impl Clone for Select {
    fn clone(&self) -> (r: Self)
        ensures
            r@ == self@,
    {
        self.dup()
    }
}

impl Clone for MatchStep {
    fn clone(&self) -> (r: Self)
        ensures
            r@ == self@,
    {
        self.dup()
    }
}

impl Clone for MatchPath {
    fn clone(&self) -> (r: Self)
        ensures
            r@ == self@,
    {
        self.dup()
    }
}

impl Clone for Statement {
    fn clone(&self) -> (r: Self)
        ensures
            r@ == self@,
    {
        self.dup()
    }
}

impl Default for Select {
    fn default() -> (r: Self)
        ensures
            r.table@ == Seq::<char>::empty(),
            r.knn is None,
            r.filter is None,
            r.order is None,
            r.limit is None,
            r.as_of is None,
    {
        Select {
            table: String::new(),
            knn: None,
            filter: None,
            order: None,
            limit: None,
            as_of: None,
        }
    }
}

/// Record ids are ordered by their tables first; in one table numbers come before names, numbers
/// ascend, and names are ordered as text.
pub proof fn law_record_ids_in_order(s: Seq<char>, t: Seq<char>, x: IdV, y: IdV, m: u64, n: u64, a: Seq<char>, b: Seq<char>)
    ensures
        text::text_lt(s, t) ==> rid_lt(RidV { table: s, id: x }, RidV { table: t, id: y }),
        rid_lt(RidV { table: s, id: x }, RidV { table: t, id: y }) ==> s == t || text::text_lt(s, t),
        rid_lt(RidV { table: s, id: IdV::Num(m) }, RidV { table: s, id: IdV::Num(n) }) <==> m < n,
        rid_lt(RidV { table: s, id: IdV::Num(m) }, RidV { table: s, id: IdV::Str(a) }),
        !rid_lt(RidV { table: s, id: IdV::Str(a) }, RidV { table: s, id: IdV::Num(m) }),
        rid_lt(RidV { table: s, id: IdV::Str(a) }, RidV { table: s, id: IdV::Str(b) })
            <==> text::text_lt(a, b),
{
    text::lemma_text_lt_irreflexive(s);
}

/// When two values are equal: they are of one kind, and hold the same; numbers of different kinds are
/// never equal. A float equals one of the same value, so both zeros are equal and no NaN equals
/// anything; lists, vectors and documents are equal entry by entry.
pub proof fn law_equal_values(a: ValV, b: ValV)
    ensures
        value_eq(a, b) ==> (a is Null <==> b is Null) && (a is Bool <==> b is Bool) && (a is Int <==> b is Int)
            && (a is Float <==> b is Float) && (a is Str <==> b is Str) && (a is Doc <==> b is Doc) && (
        a is Arr <==> b is Arr) && (a is Vector <==> b is Vector) && (a is Ref <==> b is Ref),
        a is Null && b is Null ==> value_eq(a, b),
        a is Bool && b is Bool ==> (value_eq(a, b) <==> a->Bool_0 == b->Bool_0),
        a is Int && b is Int ==> (value_eq(a, b) <==> a->Int_0 == b->Int_0),
        a is Str && b is Str ==> (value_eq(a, b) <==> a->Str_0 == b->Str_0),
        a is Ref && b is Ref ==> (value_eq(a, b) <==> a->Ref_0 == b->Ref_0),
        a is Float && b is Float ==> (value_eq(a, b) <==> number::double_eq(a->Float_0, b->Float_0)),
        a is Vector && b is Vector ==> (value_eq(a, b) <==> a->Vector_0.len() == b->Vector_0.len()
            && forall|i: int|
            0 <= i < a->Vector_0.len() ==> number::single_eq(#[trigger] a->Vector_0[i], b->Vector_0[i])),
        a is Arr && b is Arr ==> (value_eq(a, b) <==> a->Arr_0.len() == b->Arr_0.len() && forall|i: int|
            0 <= i < a->Arr_0.len() ==> value_eq(#[trigger] a->Arr_0[i], b->Arr_0[i])),
        a is Doc && b is Doc ==> (value_eq(a, b) <==> a->Doc_0.len() == b->Doc_0.len() && forall|i: int|
            0 <= i < a->Doc_0.len() ==> (#[trigger] a->Doc_0[i]).0 == b->Doc_0[i].0 && value_eq(
                a->Doc_0[i].1,
                b->Doc_0[i].1,
            )),
{
}

/// A text is read as a record id exactly if it has a colon with something on both sides; the first
/// colon ends the table, and what follows is a number where it reads as one, else a name.
pub proof fn law_record_id_is_split_at_the_first_colon(s: Seq<char>, c: int)
    requires
        0 <= c < s.len(),
        s[c] == ':',
        forall|k: int| 0 <= k < c ==> s[k] != ':',
    ensures
        parse_rid(s) is Some <==> 0 < c && c + 1 < s.len(),
        parse_rid(s) matches Some(r) ==> r.table == s.take(c) && r.id == (match text::parse_u64(
            s.skip(c + 1),
        ) {
            Some(n) => IdV::Num(n),
            None => IdV::Str(s.skip(c + 1)),
        }),
{
    lemma_index_from(s, ':', 0, c);
}

/// A text without a colon is no record id.
pub proof fn law_record_id_needs_a_colon(s: Seq<char>)
    requires
        !s.contains(':'),
    ensures
        parse_rid(s) is None,
{
    lemma_no_index(s, ':', 0);
}

proof fn lemma_no_index(s: Seq<char>, c: char, i: int)
    requires
        0 <= i <= s.len(),
        !s.contains(c),
    ensures
        index_from(s, c, i) == s.len(),
    decreases s.len() - i,
{
    if i < s.len() {
        assert(s[i] != c) by {
            if s[i] == c {
                assert(s.contains(c));
            }
        }
        lemma_no_index(s, c, i + 1);
    }
}

} // verus!
