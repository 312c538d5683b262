//! Retrieval quality against the relevance edges of a store.
use nqlite::bm25::Bm25Terms;
use nqlite::database::Database;
use nqlite::engine::{QueryKind, QueryResult};
use nqlite::error::Error;
use nqlite::harness::{
    precision_at_k, recall_at_k, relevant_set, Fraction, IdSet, RELEVANT_EDGE,
};
use nqlite::ir::{
    Body, Id, Knn, Order, Plan, Record, RecordId, RelationEdge, Select, Statement, Store, Value,
};
use nqlite::number::{Form, Numeral};
use nqlite::ordmap::OrdMap;
use nqlite::parser::NqlError;
use nqlite::score::ScoreTask;

fn forms(n: Numeral) -> Form {
    let (double, single) = match &n {
        Numeral::Int(i) => (*i as f64, *i as f32),
        Numeral::Decimal(s) => {
            let x: f64 = s.parse().expect("a decimal numeral");
            (x, x as f32)
        }
        Numeral::Wide(i) => (*i as f64, *i as f64 as f32),
        Numeral::Double(b) => (f64::from_bits(*b), f64::from_bits(*b) as f32),
        Numeral::Single(b) => (f32::from_bits(*b) as f64, f32::from_bits(*b)),
    };
    Form { double: double.to_bits(), single: single.to_bits(), shown: format!("{double}") }
}

fn floats(bits: &[u32]) -> Vec<f32> {
    bits.iter().map(|b| f32::from_bits(*b)).collect()
}

fn cosine_similarity(a: &[f32], b: &[f32]) -> f32 {
    let (mut dot, mut na, mut nb) = (0.0f32, 0.0f32, 0.0f32);
    for (x, y) in a.iter().zip(b) {
        dot += x * y;
        na += x * x;
        nb += y * y;
    }
    if na == 0.0 || nb == 0.0 {
        return 0.0;
    }
    dot / (na.sqrt() * nb.sqrt())
}

fn relevance(t: &Bm25Terms) -> f32 {
    let (k1, b) = (1.2f32, 0.75f32);
    let n = t.n_docs as f32;
    let avg = t.total_tokens as f32 / t.n_docs.max(1) as f32;
    let mut sum = 0.0f32;
    for (tf, df) in &t.terms {
        let (f, df) = (*tf as f32, (*df).max(1) as f32);
        let idf = (1.0 + (n - df + 0.5) / (df + 0.5)).ln();
        let norm = 1.0 - b + b * (t.doc_len as f32 / avg);
        sum += idf * (f * (k1 + 1.0)) / (f + k1 * norm);
    }
    sum
}

fn mean(weights: &[u32]) -> f32 {
    (floats(weights).iter().sum::<f32>() + 1.0) / (weights.len() as f32 + 2.0)
}

fn score(task: ScoreTask) -> u32 {
    let x: f32 = match task {
        ScoreTask::Similarity { embedding, query } => {
            cosine_similarity(&floats(&embedding), &floats(&query))
        }
        ScoreTask::Relevance(t) => relevance(&t),
        ScoreTask::Count(n) => n as f32,
        ScoreTask::Mean { weights } => mean(&weights),
        ScoreTask::Normalized { weights } => mean(&weights).clamp(0.0, 1.0),
        ScoreTask::Salience { similarity, weights } => {
            0.7 * f32::from_bits(similarity) + 0.3 * mean(&weights).clamp(0.0, 1.0)
        }
        ScoreTask::Feedback { votes } => {
            votes.iter().map(|(sign, age)| *sign as f32 * (1.0 / (1.0 + *age as f32))).sum()
        }
        ScoreTask::Fusion { lexical, vector } => {
            1.0 / (60.0 + lexical as f32) + 1.0 / (60.0 + vector as f32)
        }
    };
    x.to_bits()
}

/// A result with its scores as floats.
#[derive(Debug, PartialEq)]
struct Found {
    kind: QueryKind,
    rows: Vec<Row>,
}

#[derive(Debug, PartialEq)]
struct Row {
    record: Record,
    score: f32,
}

#[derive(Debug, Default)]
struct Db(Database);

impl Db {
    fn execute(&mut self, plan: &[Statement]) -> Result<Vec<Found>, Error> {
        let results = self.0.execute(&plan.to_vec(), &score)?;
        Ok(results.into_iter().map(found).collect())
    }

    fn store(&self) -> &Store {
        self.0.store()
    }
}

fn found(res: QueryResult) -> Found {
    let rows = res
        .rows
        .into_iter()
        .map(|r| Row { score: f32::from_bits(r.score), record: r.record })
        .collect();
    Found { kind: res.kind, rows }
}

fn singles(xs: &[f32]) -> Vec<u32> {
    xs.iter().map(|x| x.to_bits()).collect()
}

fn body<const N: usize>(fields: [(String, Value); N]) -> Body {
    let mut out = OrdMap::new();
    for (k, v) in fields {
        out.insert(k, v);
    }
    out
}

fn parse(input: &str) -> Result<Plan, NqlError> {
    nqlite::parser::parse(input, &forms)
}

fn rid(s: &str) -> RecordId {
    RecordId::parse(s).unwrap()
}

fn set<const N: usize>(ids: [&str; N]) -> IdSet {
    let mut out = OrdMap::new();
    for id in ids {
        out.insert(rid(id), ());
    }
    out
}

fn ratio(f: Fraction) -> f64 {
    f.num as f64 / f.den as f64
}

fn store_with_relevance(edges: &[(&str, &str)]) -> Store {
    let mut s = Store::default();
    for (from, to) in edges {
        s.edges.push(RelationEdge {
            from: rid(from),
            name: RELEVANT_EDGE.into(),
            to: rid(to),
            created_at: 0,
            weight: Some(1.0f32.to_bits()),
            props: OrdMap::new(),
        });
    }
    s
}

#[test]
fn relevant_set_reads_outgoing_relevance_edges() {
    let s = store_with_relevance(&[("q:1", "d:1"), ("q:1", "d:2"), ("q:2", "d:3")]);
    let got: Vec<String> = relevant_set(&s, &rid("q:1"))
        .entries
        .iter()
        .map(|(r, _)| r.to_text())
        .collect();
    assert_eq!(got, ["d:1", "d:2"]);
    assert!(relevant_set(&s, &rid("q:404")).is_empty());
}

#[test]
fn recall_and_precision_are_pure_arithmetic() {
    let relevant = set(["d:1", "d:2", "d:3"]);
    let retrieved = vec![rid("d:1"), rid("d:9"), rid("d:2")];

    // recall@2: top-2 = [d:1, d:9] → 1 hit / 3 relevant = 1/3
    assert!((ratio(recall_at_k(&retrieved, &relevant, 2)) - 1.0 / 3.0).abs() < 1e-9);
    // precision@2: 1 hit in top-2 = 0.5
    assert!((ratio(precision_at_k(&retrieved, &relevant, 2)) - 0.5).abs() < 1e-9);
    // recall@3: top-3 = [d:1, d:9, d:2] → 2 hits / 3 = 2/3 ; precision@3 = 2/3
    assert!((ratio(recall_at_k(&retrieved, &relevant, 3)) - 2.0 / 3.0).abs() < 1e-9);
    assert!((ratio(precision_at_k(&retrieved, &relevant, 3)) - 2.0 / 3.0).abs() < 1e-9);
    // K = 0: recall 0, precision 0
    assert_eq!(ratio(recall_at_k(&retrieved, &relevant, 0)), 0.0);
    assert_eq!(ratio(precision_at_k(&retrieved, &relevant, 0)), 0.0);
    // Empty relevant set: recall is trivially perfect.
    assert_eq!(ratio(recall_at_k(&retrieved, &set([]), 5)), 1.0);
}

#[test]
fn harness_rejects_stale_relevance_edges() {
    // An edge pointing at a forgotten record still counts as ground truth
    // (the harness reads edges, not records) — retrieval just cannot hit it.
    let s = store_with_relevance(&[("q:1", "d:gone")]);
    let relevant = relevant_set(&s, &rid("q:1"));
    assert!(relevant.contains_key(&rid("d:gone")));
    // And recall against an empty retrieval is 0.0 (not 1.0 — there IS a
    // relevant doc, it is just unreachable).
    assert!((ratio(recall_at_k(&vec![], &relevant, 5)) - 0.0).abs() < 1e-9);
}

// Guard: Id import stays used by this module's test surface.
#[test]
fn id_import_guard() {
    let _ = Id::Num(1);
    let _ = Value::Null;
}

/// Deterministic synthetic corpus: 12 docs in 3 topic clusters (alpha, beta,
/// gamma). Ground truth: each topic's query is relevant to its 4 docs.
fn build_corpus(db: &mut Db) {
    // topic, id, embedding (one-hot-ish, deterministic), text
    let docs: &[(&str, u64, [f32; 6], &str)] = &[
        ("alpha", 1, [1.0, 0.0, 0.0, 0.1, 0.0, 0.0], "alpha one"),
        ("alpha", 2, [0.9, 0.1, 0.0, 0.0, 0.0, 0.0], "alpha two"),
        ("alpha", 3, [0.8, 0.2, 0.0, 0.0, 0.0, 0.0], "alpha three"),
        ("alpha", 4, [0.95, 0.05, 0.0, 0.0, 0.0, 0.0], "alpha four"),
        ("beta", 5, [0.0, 0.0, 1.0, 0.0, 0.1, 0.0], "beta one"),
        ("beta", 6, [0.0, 0.0, 0.9, 0.0, 0.0, 0.0], "beta two"),
        ("beta", 7, [0.0, 0.0, 0.8, 0.0, 0.0, 0.0], "beta three"),
        ("beta", 8, [0.0, 0.0, 0.95, 0.0, 0.0, 0.0], "beta four"),
        ("gamma", 9, [0.0, 0.0, 0.0, 0.0, 1.0, 0.0], "gamma one"),
        ("gamma", 10, [0.0, 0.0, 0.0, 0.0, 0.9, 0.0], "gamma two"),
        ("gamma", 11, [0.0, 0.0, 0.0, 0.0, 0.8, 0.0], "gamma three"),
        ("gamma", 12, [0.0, 0.0, 0.0, 0.0, 0.95, 0.0], "gamma four"),
    ];

    let mut plan = vec![Statement::CreateTable {
        table: "doc".into(),
        vector_dim: Some(6),
    }];
    for (topic, id, emb, text) in docs {
        plan.push(Statement::Insert(Record {
            id: RecordId::parse(&format!("doc:{id}")).unwrap(),
            body: body([
                ("topic".into(), Value::Str((*topic).into())),
                ("text".into(), Value::Str((*text).into())),
            ]),
            embedding: Some(singles(emb)),
            created_at: 0,
        }));
    }
    // Ground truth: `(query:<topic>) -> :relevant -> (doc:<n>)` for each topic.
    for (i, (topic, _, _, _)) in docs.iter().enumerate() {
        if i % 4 == 0 {
            // one query record per topic cluster (ids 1, 5, 9 carry the edges)
            for n in 1..=4 {
                let doc_id = ((i / 4) * 4 + n) as u64;
                plan.push(Statement::Relate(RelationEdge {
                    from: RecordId::parse(&format!("query:{topic}")).unwrap(),
                    name: "relevant".into(),
                    to: RecordId::parse(&format!("doc:{doc_id}")).unwrap(),
                    created_at: 0,
                    weight: Some(1.0f32.to_bits()),
                    props: OrdMap::new(),
                }));
            }
        }
    }
    db.execute(&plan).expect("corpus plan executes");
}

fn run_knn(db: &mut Db, query: [f32; 6], k: usize) -> Vec<RecordId> {
    let sel = Select {
        table: "doc".into(),
        knn: Some(Knn {
            query: singles(&query),
            k,
        }),
        filter: None,
        order: Some(Order::Similarity),
        limit: None,
        as_of: None,
    };
    let res = db
        .execute(&[Statement::Select(sel)])
        .expect("kNN executes");
    res[0].rows.iter().map(|r| r.record.id.clone()).collect()
}

fn run_bm25(db: &mut Db, term: &str, k: usize) -> Vec<RecordId> {
    let plan = parse(&format!(
        "SELECT * FROM doc WHERE ::bm25(text, \"{term}\") AND k = {k}"
    ))
    .expect("bm25 parses");
    let res = db.execute(&plan).expect("bm25 executes");
    res[0].rows.iter().map(|r| r.record.id.clone()).collect()
}

#[test]
fn knn_recall_floor_holds_on_synthetic_corpus() {
    let mut db = Db::default();
    build_corpus(&mut db);

    // For each topic, kNN with the topic's prototype vector must retrieve the
    // 4 relevant docs within the top-K (recall@4 >= 1.0, precision@4 >= 0.8).
    for (topic, vec) in [
        ("alpha", [1.0, 0.0, 0.0, 0.0, 0.0, 0.0]),
        ("beta", [0.0, 0.0, 1.0, 0.0, 0.0, 0.0]),
        ("gamma", [0.0, 0.0, 0.0, 0.0, 1.0, 0.0]),
    ] {
        let query = RecordId::parse(&format!("query:{topic}")).unwrap();
        // Copy ground truth out first so `db` can be borrowed mutably below.
        let relevant = relevant_set(db.store(), &query);
        assert_eq!(relevant.len(), 4, "{topic} has 4 relevant docs");

        let retrieved = run_knn(&mut db, vec, 4);
        let rec = ratio(recall_at_k(&retrieved, &relevant, 4));
        let prec = ratio(precision_at_k(&retrieved, &relevant, 4));
        assert!(
            (rec - 1.0).abs() < 1e-9,
            "{topic} recall@4 = {rec} — kNN regression?"
        );
        assert!(
            prec >= 0.8,
            "{topic} precision@4 = {prec} — kNN regression?"
        );
    }
}

#[test]
fn bm25_recall_floor_holds_on_synthetic_corpus() {
    let mut db = Db::default();
    build_corpus(&mut db);

    // BM25 on the shared token "alpha" must surface the alpha docs first.
    let relevant =
        relevant_set(db.store(), &RecordId::parse("query:alpha").unwrap());
    let retrieved = run_bm25(&mut db, "alpha", 4);
    let rec = ratio(recall_at_k(&retrieved, &relevant, 4));
    let prec = ratio(precision_at_k(&retrieved, &relevant, 4));
    assert!(rec >= 0.75, "alpha recall@4 = {rec} — BM25 regression?");
    assert!(
        prec >= 0.75,
        "alpha precision@4 = {prec} — BM25 regression?"
    );
}

#[test]
fn harness_works_over_nql_edges() {
    // Ground truth written through the nql grammar (RELATE ... :relevant)
    // must be read back by the harness: the no-colon convention matches.
    let mut db = Db::default();
    db.execute(
        &parse(
            "CREATE TABLE doc;
             INSERT INTO doc:1 { \"t\": \"a\" };
             INSERT INTO doc:2 { \"t\": \"b\" };
             RELATE (query:q1) -> :relevant -> (doc:1) SET weight = 1.0;",
        )
        .unwrap(),
    )
    .unwrap();
    let relevant = relevant_set(db.store(), &RecordId::parse("query:q1").unwrap());
    let ids: Vec<String> = relevant.entries.iter().map(|(r, _)| r.to_text()).collect();
    assert_eq!(ids, ["doc:1"]);
}

#[test]
fn results_carry_query_kind_for_disambiguation() {
    // The regression harness relies on QueryKind to pick the right result
    // shape; guard that SELECT results are identifiable.
    let mut db = Db::default();
    build_corpus(&mut db);
    let sel = Select {
        table: "doc".into(),
        knn: None,
        filter: None,
        order: None,
        limit: Some(1),
        as_of: None,
    };
    let res = db
        .execute(&[Statement::Select(sel)])
        .expect("select executes");
    assert!(matches!(res[0].kind, QueryKind::Select(_)));
}

#[test]
fn quality_is_a_fraction_between_zero_and_one() {
    let relevant = set(["d:1", "d:2"]);
    let retrieved = vec![rid("d:1"), rid("d:3"), rid("d:2")];
    for k in 1..6 {
        let (p, r) = (precision_at_k(&retrieved, &relevant, k), recall_at_k(&retrieved, &relevant, k));
        assert!(p.num <= p.den && r.num <= r.den);
        assert_eq!(p.den, k);
    }
    assert_eq!(recall_at_k(&retrieved, &relevant, 9), Fraction { num: 2, den: 2 });
    assert_eq!(precision_at_k(&retrieved, &relevant, 9), Fraction { num: 2, den: 9 });
    let both = store_with_relevance(&[("q:1", "d:2"), ("q:1", "d:1"), ("q:1", "d:2")]);
    assert_eq!(relevant_set(&both, &rid("q:1")).len(), 2);
}
