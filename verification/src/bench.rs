//! The synthetic data of the benchmark: the same records for the same number of rows, every time.
use vstd::prelude::*;

use crate::ir::{
    Body, Id, MatchDirection, MatchPath, MatchStep, Record, RecordId, RelationEdge, Statement, Value,
};
#[allow(unused_imports)]
use crate::ir::{BodyV, EdgeV, IdV, PathV, RecV, RidV, StepV, StmtV, ValV};
use crate::ordmap;
use crate::ordmap::OrdMap;
use crate::text;

verus! {

/// The number of components of an embedding.
pub const DIM: usize = 8;

/// Where the generator starts.
pub const SEED: u64 = 42;

// ---------------------------------------------------------------------------------------------
// The generator
// ---------------------------------------------------------------------------------------------
/// The next state of the generator.
pub open spec fn stirred(x: u64) -> u64 {
    let a = x ^ (x << 13u64);
    let b = a ^ (a >> 7u64);
    b ^ (b << 17u64)
}

/// The number drawn in a state: its product with a constant, modulo 2^64.
pub open spec fn drawn(x: u64) -> u64 {
    ((x * 0x2545_F491_4F6C_DD1D) % 0x1_0000_0000_0000_0000) as u64
}

/// The state behind `n` draws.
pub open spec fn state_after(seed: u64, n: int) -> u64
    decreases n,
{
    if n <= 0 {
        seed
    } else {
        stirred(state_after(seed, n - 1))
    }
}

/// Draw number `n`, from 1 on.
pub open spec fn draw(seed: u64, n: int) -> u64 {
    drawn(state_after(seed, n))
}

/// Draws a number, xorshift64*.
pub fn xorshift(state: &mut u64) -> (r: u64)
    ensures
        *final(state) == stirred(*old(state)),
        r == drawn(*final(state)),
{
    let mut x: u64 = *state;
    x = x ^ (x << 13u64);
    x = x ^ (x >> 7u64);
    x = x ^ (x << 17u64);
    *state = x;
    x.wrapping_mul(0x2545_F491_4F6C_DD1D)
}

// ---------------------------------------------------------------------------------------------
// The corpus
// ---------------------------------------------------------------------------------------------
/// `f` gives the single nearest to each number of thousandths, as `m` says.
pub open spec fn thousandths_by<T: Fn(u32) -> u32>(f: T, m: spec_fn(u32) -> u32) -> bool {
    forall|n: u32, x: u32| #[trigger] call_ensures(f, (n,), x) ==> x == m(n)
}

/// `f` takes any number below 1000.
pub open spec fn takes_thousandths<T: Fn(u32) -> u32>(f: T) -> bool {
    forall|n: u32| n < 1000 ==> call_requires(f, (n,))
}

/// The words of the corpus.
pub open spec fn vocabulary(i: int) -> Seq<char> {
    if i == 0 {
        "alpha"@
    } else if i == 1 {
        "beta"@
    } else if i == 2 {
        "gamma"@
    } else if i == 3 {
        "delta"@
    } else if i == 4 {
        "rust"@
    } else if i == 5 {
        "query"@
    } else if i == 6 {
        "memory"@
    } else {
        "graph"@
    }
}

fn word(i: u64) -> (r: &'static str)
    ensures
        r@ == vocabulary(i as int),
{
    if i == 0 {
        "alpha"
    } else if i == 1 {
        "beta"
    } else if i == 2 {
        "gamma"
    } else if i == 3 {
        "delta"
    } else if i == 4 {
        "rust"
    } else if i == 5 {
        "query"
    } else if i == 6 {
        "memory"
    } else {
        "graph"
    }
}

/// The vector of the draws behind the first `from`, in thousandths.
pub open spec fn drawn_vector(m: spec_fn(u32) -> u32, from: int) -> Seq<u32> {
    Seq::new(DIM as nat, |j: int| m((draw(SEED, from + j + 1) % 1000) as u32))
}

/// A body with two fields.
pub open spec fn two_fields(a: Seq<char>, x: ValV, b: Seq<char>, y: ValV) -> BodyV {
    ordmap::put::<String, ValV>(ordmap::put::<String, ValV>(Seq::empty(), a, x), b, y)
}

/// Record `i` of the corpus. Each takes ten draws: eight for its embedding and two for its words.
pub open spec fn corpus_record(m: spec_fn(u32) -> u32, i: int) -> RecV {
    let words = vocabulary((draw(SEED, 10 * i + 9) % 8) as int) + " "@ + vocabulary(
        (draw(SEED, 10 * i + 10) % 8) as int,
    );
    RecV {
        id: RidV { table: "doc"@, id: IdV::Num(i as u64) },
        body: two_fields(
            "text"@,
            ValV::Str(words),
            "group"@,
            ValV::Int((i % 10) as i64),
        ),
        embedding: Some(drawn_vector(m, 10 * i)),
        created_at: i as i64,
    }
}

fn draw_vector<T: Fn(u32) -> u32>(state: &mut u64, thousandths: &T, Ghost(from): Ghost<int>) -> (r: Vec<
    u32,
>)
    requires
        takes_thousandths(*thousandths),
        0 <= from,
        *old(state) == state_after(SEED, from),
    ensures
        *final(state) == state_after(SEED, from + DIM),
        forall|m: spec_fn(u32) -> u32| #[trigger]
            thousandths_by(*thousandths, m) ==> r@ == drawn_vector(m, from),
{
    let mut v: Vec<u32> = Vec::new();
    while v.len() < DIM
        invariant
            takes_thousandths(*thousandths),
            0 <= from,
            v.len() <= DIM,
            *state == state_after(SEED, from + v.len()),
            forall|m: spec_fn(u32) -> u32, j: int|
                #![trigger thousandths_by(*thousandths, m), v@[j]]
                thousandths_by(*thousandths, m) && 0 <= j < v.len() ==> v@[j] == m(
                    (draw(SEED, from + j + 1) % 1000) as u32,
                ),
        decreases DIM - v.len(),
    {
        let n = (xorshift(state) % 1000) as u32;
        v.push(thousandths(n));
    }
    proof {
        assert forall|m: spec_fn(u32) -> u32| #[trigger]
            thousandths_by(*thousandths, m) implies v@ == drawn_vector(m, from) by {
            assert(v@ =~= drawn_vector(m, from));
        }
    }
    v
}

/// The first `rows` records of the corpus. `thousandths` gives the single of a number of thousandths.
pub fn corpus<T: Fn(u32) -> u32>(rows: usize, thousandths: &T) -> (r: Vec<Record>)
    requires
        takes_thousandths(*thousandths),
        rows <= i64::MAX,
    ensures
        forall|m: spec_fn(u32) -> u32| #[trigger]
            thousandths_by(*thousandths, m) ==> ordmap::views(r@) == Seq::new(
                rows as nat,
                |i: int| corpus_record(m, i),
            ),
{
    let mut state: u64 = SEED;
    let mut out: Vec<Record> = Vec::new();
    let mut i: usize = 0;
    while i < rows
        invariant
            takes_thousandths(*thousandths),
            i <= rows <= i64::MAX,
            out.len() == i,
            state == state_after(SEED, 10 * i),
            forall|m: spec_fn(u32) -> u32, k: int|
                #![trigger thousandths_by(*thousandths, m), out@[k]]
                thousandths_by(*thousandths, m) && 0 <= k < i ==> out@[k]@ == corpus_record(m, k),
        decreases rows - i,
    {
        let ghost from: int = 10 * i;
        let v = draw_vector(&mut state, thousandths, Ghost(from));
        let w1 = word(xorshift(&mut state) % 8);
        assert(state == state_after(SEED, from + 9));
        let w2 = word(xorshift(&mut state) % 8);
        assert(state == state_after(SEED, from + 10));
        let mut body: Body = OrdMap::new();
        body.insert(text::owned("text"), Value::Str(text::join3(w1, " ", w2)));
        body.insert(text::owned("group"), Value::Int((i % 10) as i64));
        out.push(
            Record {
                id: RecordId::new(text::owned("doc"), Id::Num(i as u64)),
                body,
                embedding: Some(v),
                created_at: i as i64,
            },
        );
        i = i + 1;
    }
    proof {
        assert forall|m: spec_fn(u32) -> u32| #[trigger]
            thousandths_by(*thousandths, m) implies ordmap::views(out@) == Seq::new(
            rows as nat,
            |i: int| corpus_record(m, i),
        ) by {
            assert(ordmap::views(out@) =~= Seq::new(rows as nat, |i: int| corpus_record(m, i)));
        }
    }
    out
}

/// The query vector: the first draws.
pub fn query_vector<T: Fn(u32) -> u32>(thousandths: &T) -> (r: Vec<u32>)
    requires
        takes_thousandths(*thousandths),
    ensures
        forall|m: spec_fn(u32) -> u32| #[trigger]
            thousandths_by(*thousandths, m) ==> r@ == drawn_vector(m, 0),
{
    let mut state: u64 = SEED;
    draw_vector(&mut state, thousandths, Ghost(0int))
}

// ---------------------------------------------------------------------------------------------
// The chain
// ---------------------------------------------------------------------------------------------
/// The id of context record `i`.
pub open spec fn context_id(i: int) -> RidV {
    RidV { table: "context"@, id: IdV::Num(i as u64) }
}

/// The insertion of context record `i`.
pub open spec fn context_insertion(i: int) -> StmtV {
    StmtV::Insert(
        RecV {
            id: context_id(i),
            body: two_fields(
                "role"@,
                ValV::Str("assistant"@),
                "text"@,
                ValV::Str("step "@ + text::dec_text(i as nat)),
            ),
            embedding: None,
            created_at: i as i64,
        },
    )
}

/// The edge from context record `i` to the next.
pub open spec fn context_link(i: int) -> StmtV {
    StmtV::Relate(
        EdgeV {
            from: context_id(i),
            name: "follows_from"@,
            to: context_id(i + 1),
            created_at: i as i64,
            weight: None,
            props: Seq::empty(),
        },
    )
}

/// The plan that makes a chain of `rows` context records: the records, from 1 on, and then an edge
/// from each to the next.
pub open spec fn chain(rows: nat) -> Seq<StmtV> {
    Seq::new(rows, |k: int| context_insertion(k + 1)) + Seq::new(
        if rows == 0 {
            0
        } else {
            (rows - 1) as nat
        },
        |k: int| context_link(k + 1),
    )
}

fn context(i: usize) -> (r: RecordId)
    ensures
        r@ == context_id(i as int),
{
    RecordId::new(text::owned("context"), Id::Num(i as u64))
}

/// The plan that makes a chain of `rows` context records.
pub fn chain_statements(rows: usize) -> (r: Vec<Statement>)
    requires
        rows <= i64::MAX,
    ensures
        ordmap::views(r@) == chain(rows as nat),
{
    let mut plan: Vec<Statement> = Vec::new();
    let mut i: usize = 0;
    while i < rows
        invariant
            i <= rows <= i64::MAX,
            plan.len() == i,
            forall|k: int| 0 <= k < i ==> (#[trigger] plan@[k])@ == context_insertion(k + 1),
        decreases rows - i,
    {
        let n: usize = i + 1;
        let number = text::usize_text(n);
        let mut body: Body = OrdMap::new();
        body.insert(text::owned("role"), Value::Str(text::owned("assistant")));
        body.insert(text::owned("text"), Value::Str(text::join2("step ", number.as_str())));
        plan.push(
            Statement::Insert(
                Record { id: context(n), body, embedding: None, created_at: n as i64 },
            ),
        );
        i = n;
    }
    let mut i: usize = 1;
    while i < rows
        invariant
            1 <= i,
            rows <= i64::MAX,
            rows == 0 ==> i == 1,
            rows > 0 ==> i <= rows,
            plan.len() == rows + (i - 1),
            forall|k: int| 0 <= k < rows ==> (#[trigger] plan@[k])@ == context_insertion(k + 1),
            forall|k: int|
                rows <= k < plan.len() ==> (#[trigger] plan@[k])@ == context_link(k - rows + 1),
        decreases rows - i,
    {
        plan.push(
            Statement::Relate(
                RelationEdge {
                    from: context(i),
                    name: text::owned("follows_from"),
                    to: context(i + 1),
                    created_at: i as i64,
                    weight: None,
                    props: OrdMap::new(),
                },
            ),
        );
        i = i + 1;
    }
    assert(ordmap::views(plan@) =~= chain(rows as nat));
    plan
}

/// The walk from context record 1 along the whole chain.
pub open spec fn chain_walk() -> StmtV {
    StmtV::Closure(
        PathV {
            start: context_id(1),
            steps: seq![
                StepV {
                    direction: MatchDirection::Out,
                    name: "follows_from"@,
                    edge_props: None,
                },
            ],
        },
    )
}

/// The walk from context record 1 along the whole chain.
pub fn closure_stmt() -> (r: Statement)
    ensures
        r@ == chain_walk(),
{
    let mut steps: Vec<MatchStep> = Vec::new();
    steps.push(
        MatchStep {
            direction: MatchDirection::Out,
            name: text::owned("follows_from"),
            edge_props: None,
        },
    );
    assert(ordmap::views(steps@) =~= chain_walk()->Closure_0.steps);
    Statement::Closure(MatchPath { start: context(1), steps })
}

/// A chain of `rows` records is made by inserting the records `context:1` and on, each with its number
/// for its time, and then relating each to the next along `follows_from`; the walk starts at the first
/// and goes along that name.
pub proof fn law_chain_links_neighbours(rows: nat, k: int)
    requires
        0 < rows <= i64::MAX,
        0 <= k,
    ensures
        chain(0).len() == 0,
        chain(rows).len() == 2 * rows - 1,
        k < rows ==> chain(rows)[k] is Insert && chain(rows)[k]->Insert_0.id == (RidV {
            table: "context"@,
            id: IdV::Num((k + 1) as u64),
        }) && chain(rows)[k]->Insert_0.created_at == k + 1 && chain(rows)[k]->Insert_0.embedding is None,
        rows <= k < 2 * rows - 1 ==> chain(rows)[k] is Relate && chain(rows)[k]->Relate_0.from == (RidV {
            table: "context"@,
            id: IdV::Num((k - rows + 1) as u64),
        }) && chain(rows)[k]->Relate_0.to == (RidV {
            table: "context"@,
            id: IdV::Num((k - rows + 2) as u64),
        }) && chain(rows)[k]->Relate_0.name == "follows_from"@,
        chain_walk() is Closure,
        chain_walk()->Closure_0.start == (RidV { table: "context"@, id: IdV::Num(1) }),
        chain_walk()->Closure_0.steps.len() == 1,
        chain_walk()->Closure_0.steps[0].name == "follows_from"@,
        chain_walk()->Closure_0.steps[0].direction == MatchDirection::Out,
        chain_walk()->Closure_0.steps[0].edge_props is None,
{
}

/// Record `i` of the corpus: `doc:i`, in group `i` modulo 10, with an embedding of eight components, each
/// a draw in thousandths, and with a text of two words of the vocabulary.
pub proof fn law_corpus_records(m: spec_fn(u32) -> u32, i: int, j: int)
    requires
        0 <= i <= i64::MAX,
        0 <= j < 8,
    ensures
        ({
            let rec = corpus_record(m, i);
            &&& rec.id == (RidV { table: "doc"@, id: IdV::Num(i as u64) })
            &&& rec.created_at == i
            &&& ordmap::lookup::<String, ValV>(rec.body, "group"@) == Some(
                ValV::Int((i % 10) as i64),
            )
            &&& ordmap::lookup::<String, ValV>(rec.body, "text"@) is Some
            &&& ordmap::lookup::<String, ValV>(rec.body, "text"@)->0 is Str
            &&& rec.embedding is Some && rec.embedding->0.len() == 8
            &&& rec.embedding->0[j] == m((draw(42, 10 * i + j + 1) % 1000) as u32)
        }),
{
    reveal_strlit("text");
    reveal_strlit("group");
    assert("text"@.len() == 4 && "group"@.len() == 5);
    let empty = Seq::<(Seq<char>, ValV)>::empty();
    let words = vocabulary((draw(SEED, 10 * i + 9) % 8) as int) + " "@ + vocabulary(
        (draw(SEED, 10 * i + 10) % 8) as int,
    );
    let x = ValV::Str(words);
    let y = ValV::Int((i % 10) as i64);
    let one = ordmap::put::<String, ValV>(empty, "text"@, x);
    ordmap::lemma_put_ascending::<String, ValV>(empty, "text"@, x);
    ordmap::lemma_put_lookup_same::<String, ValV>(empty, "text"@, x);
    ordmap::lemma_put_lookup_same::<String, ValV>(one, "group"@, y);
    ordmap::lemma_put_lookup_other::<String, ValV>(one, "group"@, y, "text"@);
}

} // verus!
