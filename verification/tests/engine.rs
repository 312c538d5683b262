//! The engine: statements and plans on a store, scores, votes and lexical ranking.
use nqlite::bm25::Bm25Terms;
use nqlite::database::Database;
use nqlite::engine::{execute_statement, QueryKind, QueryResult};
use nqlite::error::Error;
use nqlite::ir::{
    Body, Filter, Id, Knn, MatchDirection, MatchPath, MatchStep, Order, Plan, Record, RecordId,
    RelationEdge, Select, Statement, Store, Value,
};
use nqlite::ordmap::OrdMap;
use nqlite::score::ScoreTask;
use nqlite::storage::StorageError;
use nqlite::votes::{feedback_toward, vote_counts};

fn floats(bits: &[u32]) -> Vec<f32> {
    bits.iter().map(|b| f32::from_bits(*b)).collect()
}

fn cosine_similarity(a: &[f32], b: &[f32]) -> f32 {
    let (mut dot, mut na, mut nb) = (0.0f32, 0.0f32, 0.0f32);
    for (x, y) in a.iter().zip(b) {
        dot += x * y;
        na += x * x;
        nb += y * y;
    }
    if na == 0.0 || nb == 0.0 {
        return 0.0;
    }
    dot / (na.sqrt() * nb.sqrt())
}

fn relevance(t: &Bm25Terms) -> f32 {
    let (k1, b) = (1.2f32, 0.75f32);
    let n = t.n_docs as f32;
    let avg = t.total_tokens as f32 / t.n_docs.max(1) as f32;
    let mut sum = 0.0f32;
    for (tf, df) in &t.terms {
        let (f, df) = (*tf as f32, (*df).max(1) as f32);
        let idf = (1.0 + (n - df + 0.5) / (df + 0.5)).ln();
        let norm = 1.0 - b + b * (t.doc_len as f32 / avg);
        sum += idf * (f * (k1 + 1.0)) / (f + k1 * norm);
    }
    sum
}

fn mean(weights: &[u32]) -> f32 {
    (floats(weights).iter().sum::<f32>() + 1.0) / (weights.len() as f32 + 2.0)
}

fn score(task: ScoreTask) -> u32 {
    let x: f32 = match task {
        ScoreTask::Similarity { embedding, query } => {
            cosine_similarity(&floats(&embedding), &floats(&query))
        }
        ScoreTask::Relevance(t) => relevance(&t),
        ScoreTask::Count(n) => n as f32,
        ScoreTask::Mean { weights } => mean(&weights),
        ScoreTask::Normalized { weights } => mean(&weights).clamp(0.0, 1.0),
        ScoreTask::Salience { similarity, weights } => {
            0.7 * f32::from_bits(similarity) + 0.3 * mean(&weights).clamp(0.0, 1.0)
        }
        ScoreTask::Feedback { votes } => {
            votes.iter().map(|(sign, age)| *sign as f32 * (1.0 / (1.0 + *age as f32))).sum()
        }
        ScoreTask::Fusion { lexical, vector } => {
            1.0 / (60.0 + lexical as f32) + 1.0 / (60.0 + vector as f32)
        }
    };
    x.to_bits()
}

/// A result with its scores as floats.
#[derive(Debug, PartialEq)]
struct Found {
    kind: QueryKind,
    rows: Vec<Row>,
}

#[derive(Debug, PartialEq)]
struct Row {
    record: Record,
    score: f32,
}

#[derive(Debug, Default)]
struct Db(Database);

impl Db {
    fn execute(&mut self, plan: &[Statement]) -> Result<Vec<Found>, Error> {
        let results = self.0.execute(&plan.to_vec(), &score)?;
        Ok(results.into_iter().map(found).collect())
    }

    fn store(&self) -> &Store {
        self.0.store()
    }
}

fn found(res: QueryResult) -> Found {
    let rows = res
        .rows
        .into_iter()
        .map(|r| Row { score: f32::from_bits(r.score), record: r.record })
        .collect();
    Found { kind: res.kind, rows }
}

fn singles(xs: &[f32]) -> Vec<u32> {
    xs.iter().map(|x| x.to_bits()).collect()
}

fn body<const N: usize>(fields: [(String, Value); N]) -> Body {
    let mut out = OrdMap::new();
    for (k, v) in fields {
        out.insert(k, v);
    }
    out
}

fn record(id: &str, body: Body, embedding: Option<Vec<f32>>) -> Record {
    Record {
        id: RecordId::parse(id).unwrap(),
        body,
        embedding: embedding.map(|v| singles(&v)),
        created_at: 0,
    }
}

fn num(n: i64) -> Value {
    Value::Int(n)
}

fn str_(s: &str) -> Value {
    Value::Str(s.to_string())
}

fn create(table: &str, dim: Option<usize>) -> Statement {
    Statement::CreateTable {
        table: table.to_string(),
        vector_dim: dim,
    }
}

fn select(table: &str) -> Select {
    Select {
        table: table.to_string(),
        ..Select::default()
    }
}

fn rid(s: &str) -> RecordId {
    RecordId::parse(s).unwrap()
}

fn feedback_score(store: &Store, id: &RecordId) -> f32 {
    f32::from_bits(score(ScoreTask::Feedback { votes: feedback_toward(store, id) }))
}

#[test]
fn create_insert_roundtrip() {
    let mut db = Db::default();
    db.execute(&[
        create("person", None),
        Statement::Insert(record(
            "person:1",
            body([("name".into(), str_("alice"))]),
            None,
        )),
    ])
    .unwrap();
    let st = db.store();
    assert!(st
        .records
        .contains_key(&RecordId::parse("person:1").unwrap()));
    assert_eq!(st.records.len(), 1);
    assert!(!st.vector_dims.contains_key(&"person".to_string()));
    // Re-declare with a dim, then without: entry is removed again.
    db.execute(&[create("person", Some(3))]).unwrap();
    assert_eq!(db.store().vector_dims.get(&"person".to_string()), Some(&3));
    db.execute(&[create("person", None)]).unwrap();
    assert!(!db.store().vector_dims.contains_key(&"person".to_string()));
}

#[test]
fn insert_dim_mismatch_is_error() {
    let mut db = Db::default();
    db.execute(&[create("vec", Some(3))]).unwrap();
    // Wrong length -> error.
    let err = db
        .execute(&[Statement::Insert(record(
            "vec:1",
            OrdMap::new(),
            Some(vec![1.0, 2.0]),
        ))])
        .unwrap_err();
    assert!(matches!(
        err,
        Error::EmbeddingDimMismatch {
            table,
            expected: 3,
            actual: 2
        } if table == "vec"
    ));
    // Right length -> ok.
    db.execute(&[Statement::Insert(record(
        "vec:1",
        OrdMap::new(),
        Some(vec![1.0, 2.0, 3.0]),
    ))])
    .unwrap();
    assert_eq!(db.store().records.len(), 1);
    // Missing embedding is allowed even with a declared dim.
    db.execute(&[Statement::Insert(record("vec:2", OrdMap::new(), None))])
        .unwrap();
    assert_eq!(db.store().records.len(), 2);
}

#[test]
fn select_filter_field_equals_and_has_embedding() {
    let mut db = Db::default();
    db.execute(&[
        create("person", Some(2)),
        Statement::Insert(record(
            "person:1",
            body([("name".into(), str_("alice")), ("age".into(), num(30))]),
            Some(vec![1.0, 0.0]),
        )),
        Statement::Insert(record(
            "person:2",
            body([("name".into(), str_("bob")), ("age".into(), num(40))]),
            None,
        )),
        Statement::Insert(record(
            "person:3",
            body([("name".into(), str_("carol")), ("age".into(), num(30))]),
            Some(vec![0.0, 1.0]),
        )),
    ])
    .unwrap();

    let res = db
        .execute(&[Statement::Select(Select {
            filter: Some(Filter::FieldEquals {
                field: "age".into(),
                value: num(30),
            }),
            ..select("person")
        })])
        .unwrap();
    let ids: Vec<_> = res[0]
        .rows
        .iter()
        .map(|r| r.record.id.to_text())
        .collect();
    assert_eq!(ids, ["person:1", "person:3"]); // BTree key order

    let res = db
        .execute(&[Statement::Select(Select {
            filter: Some(Filter::HasEmbedding),
            ..select("person")
        })])
        .unwrap();
    let ids: Vec<_> = res[0]
        .rows
        .iter()
        .map(|r| r.record.id.to_text())
        .collect();
    assert_eq!(ids, ["person:1", "person:3"]);
}

#[test]
fn knn_returns_nearest_by_cosine_with_k_limit() {
    let mut db = Db::default();
    db.execute(&[
        create("vec", Some(2)),
        Statement::Insert(record("vec:a", OrdMap::new(), Some(vec![1.0, 0.0]))),
        Statement::Insert(record("vec:b", OrdMap::new(), Some(vec![0.0, 1.0]))),
        Statement::Insert(record(
            "vec:c",
            OrdMap::new(),
            Some(vec![0.70710677, 0.70710677]),
        )),
    ])
    .unwrap();

    let res = db
        .execute(&[Statement::Select(Select {
            knn: Some(Knn {
                query: singles(&[1.0, 0.0]),
                k: 2,
            }),
            ..select("vec")
        })])
        .unwrap();
    let ids: Vec<_> = res[0]
        .rows
        .iter()
        .map(|r| r.record.id.to_text())
        .collect();
    assert_eq!(ids, ["vec:a", "vec:c"]);
    assert!(res[0].rows[0].score > res[0].rows[1].score);
    assert!((res[0].rows[0].score - 1.0).abs() < 1e-6);
}

#[test]
fn knn_without_embedding_scores_zero_and_orders_last() {
    let mut db = Db::default();
    db.execute(&[
        create("vec", Some(2)),
        Statement::Insert(record("vec:1", OrdMap::new(), Some(vec![1.0, 0.0]))),
        Statement::Insert(record("vec:2", OrdMap::new(), None)),
    ])
    .unwrap();
    let res = db
        .execute(&[Statement::Select(Select {
            knn: Some(Knn {
                query: singles(&[1.0, 0.0]),
                k: 10,
            }),
            ..select("vec")
        })])
        .unwrap();
    assert_eq!(res[0].rows[0].record.id.to_text(), "vec:1");
    assert_eq!(res[0].rows[1].record.id.to_text(), "vec:2");
    assert_eq!(res[0].rows[1].score, 0.0);
}

#[test]
fn forget_removes_record_and_incident_edges() {
    let mut db = Db::default();
    db.execute(&[
        create("person", None),
        create("note", None),
        Statement::Insert(record("person:1", OrdMap::new(), None)),
        Statement::Insert(record("person:2", OrdMap::new(), None)),
        Statement::Insert(record("note:1", OrdMap::new(), None)),
        Statement::Relate(RelationEdge {
            from: RecordId::parse("person:1").unwrap(),
            name: "wrote".into(),
            to: RecordId::parse("note:1").unwrap(),
            created_at: 1,
            weight: None,
            props: OrdMap::new(),
        }),
        Statement::Relate(RelationEdge {
            from: RecordId::parse("note:1").unwrap(),
            name: "mentions".into(),
            to: RecordId::parse("person:2").unwrap(),
            created_at: 2,
            weight: None,
            props: OrdMap::new(),
        }),
        // Edge not touching person:1 — must survive.
        Statement::Relate(RelationEdge {
            from: RecordId::parse("person:2").unwrap(),
            name: "knows".into(),
            to: RecordId::parse("note:1").unwrap(),
            created_at: 3,
            weight: None,
            props: OrdMap::new(),
        }),
    ])
    .unwrap();
    assert_eq!(db.store().edges.len(), 3);

    db.execute(&[Statement::Forget {
        id: RecordId::parse("person:1").unwrap(),
    }])
    .unwrap();

    assert!(!db
        .store()
        .records
        .contains_key(&RecordId::parse("person:1").unwrap()));
    // e2 (note:1 -> person:2) and e3 (person:2 -> note:1) survive: they
    // don't touch person:1.
    assert_eq!(db.store().edges.len(), 2);
    assert!(db
        .store()
        .edges
        .iter()
        .all(|e| e.from.to_text() != "person:1" && e.to.to_text() != "person:1"));
    // Forgetting a record on the `to` side also drops its edges.
    db.execute(&[Statement::Forget {
        id: RecordId::parse("note:1").unwrap(),
    }])
    .unwrap();
    assert!(db.store().edges.is_empty());
}

#[test]
fn score_operator_uses_laplace_smoothed_votes() {
    let mut db = Db::default();
    db.execute(&[
        create("post", None),
        Statement::Insert(record("post:1", OrdMap::new(), None)),
        Statement::Insert(record("post:2", OrdMap::new(), None)),
        Statement::Relate(RelationEdge {
            from: RecordId::parse("user:voter").unwrap(),
            name: "voted".into(),
            to: RecordId::parse("post:1").unwrap(),
            created_at: 1,
            weight: Some(1.0f32.to_bits()),
            props: OrdMap::new(),
        }),
        Statement::Relate(RelationEdge {
            from: RecordId::parse("user:voter").unwrap(),
            name: "voted".into(),
            to: RecordId::parse("post:2").unwrap(),
            created_at: 2,
            weight: Some(0.0f32.to_bits()),
            props: OrdMap::new(),
        }),
        // Non-`:voted` edges must not count.
        Statement::Relate(RelationEdge {
            from: RecordId::parse("user:voter").unwrap(),
            name: "mentioned".into(),
            to: RecordId::parse("post:1").unwrap(),
            created_at: 3,
            weight: Some(0.0f32.to_bits()),
            props: OrdMap::new(),
        }),
        // A vote on a *different* record must not count either.
        Statement::Relate(RelationEdge {
            from: RecordId::parse("user:voter").unwrap(),
            name: "voted".into(),
            to: RecordId::parse("post:1").unwrap(),
            created_at: 4,
            weight: Some(1.0f32.to_bits()),
            props: OrdMap::new(),
        }),
    ])
    .unwrap();

    // post:1 -> (1.0 + 1.0 + 1.0)/(2 + 2) = 0.75 ; post:2 -> (0.0 + 1.0)/(1 + 2) = 1/3.
    let res = db
        .execute(&[Statement::Select(Select {
            order: Some(Order::Score),
            ..select("post")
        })])
        .unwrap();
    let scores: Vec<_> = res[0].rows.iter().map(|r| r.score).collect();
    assert!((scores[0] - 0.75).abs() < 1e-6);
    assert!((scores[1] - 1.0 / 3.0).abs() < 1e-6);
    // Sorted by score desc, tie-break by id asc.
    let ids: Vec<_> = res[0]
        .rows
        .iter()
        .map(|r| r.record.id.to_text())
        .collect();
    assert_eq!(ids, ["post:1", "post:2"]);

    // Zero votes -> default 0.5.
    db.execute(&[Statement::Insert(record("post:3", OrdMap::new(), None))])
        .unwrap();
    let res = db
        .execute(&[Statement::Select(Select {
            order: Some(Order::Score),
            ..select("post")
        })])
        .unwrap();
    let post3 = res[0]
        .rows
        .iter()
        .find(|r| r.record.id.to_text() == "post:3")
        .unwrap();
    assert!((post3.score - 0.5).abs() < 1e-6);
}

#[test]
fn salience_blends_similarity_and_normalized_score() {
    let mut db = Db::default();
    db.execute(&[
        create("doc", Some(2)),
        Statement::Insert(record("doc:1", OrdMap::new(), Some(vec![1.0, 0.0]))),
        Statement::Relate(RelationEdge {
            from: RecordId::parse("user:v").unwrap(),
            name: "voted".into(),
            to: RecordId::parse("doc:1").unwrap(),
            created_at: 1,
            weight: Some(1.0f32.to_bits()),
            props: OrdMap::new(),
        }),
        // doc:2: no embedding, no votes -> sim 0, score 0.5.
        Statement::Insert(record("doc:2", OrdMap::new(), None)),
    ])
    .unwrap();
    let res = db
        .execute(&[Statement::Select(Select {
            knn: Some(Knn {
                query: singles(&[1.0, 0.0]),
                k: 10,
            }),
            order: Some(Order::Salience),
            ..select("doc")
        })])
        .unwrap();
    // doc:1 -> sim 1.0, one upvote -> score (1+1)/(1+2) = 2/3,
    // salience 0.7*1.0 + 0.3*2/3 = 0.9 ; doc:2 -> sim 0, score 0.5,
    // salience 0.3*0.5 = 0.15.
    let s1 = res[0].rows[0].score;
    let s2 = res[0].rows[1].score;
    assert!((s1 - 0.9).abs() < 1e-5);
    assert!((s2 - 0.15).abs() < 1e-5);
    assert_eq!(res[0].rows[0].record.id.to_text(), "doc:1");
}

#[test]
fn recency_orders_by_created_at_descending() {
    let mut db = Db::default();
    let mut old = record("msg:old", OrdMap::new(), None);
    old.created_at = 1;
    let mut mid = record("msg:mid", OrdMap::new(), None);
    mid.created_at = 2;
    let mut new = record("msg:new", OrdMap::new(), None);
    new.created_at = 3;
    db.execute(&[
        create("msg", None),
        Statement::Insert(mid),
        Statement::Insert(new),
        Statement::Insert(old),
    ])
    .unwrap();
    let res = db
        .execute(&[Statement::Select(Select {
            order: Some(Order::Recency),
            ..select("msg")
        })])
        .unwrap();
    let ids: Vec<_> = res[0]
        .rows
        .iter()
        .map(|r| r.record.id.to_text())
        .collect();
    assert_eq!(ids, ["msg:new", "msg:mid", "msg:old"]);
}

#[test]
fn same_plan_on_equal_stores_yields_equal_results() {
    let plan: Plan = vec![
        create("doc", Some(2)),
        Statement::Insert(record(
            "doc:1",
            body([("tag".into(), str_("a")), ("n".into(), num(1))]),
            Some(vec![1.0, 0.0]),
        )),
        Statement::Insert(record(
            "doc:2",
            body([("tag".into(), str_("a")), ("n".into(), num(2))]),
            Some(vec![0.0, 1.0]),
        )),
        Statement::Insert(record(
            "doc:3",
            body([("tag".into(), str_("b"))]),
            Some(vec![0.70710677, 0.70710677]),
        )),
        Statement::Relate(RelationEdge {
            from: RecordId::parse("u:v").unwrap(),
            name: "voted".into(),
            to: RecordId::parse("doc:1").unwrap(),
            created_at: 1,
            weight: Some(1.0f32.to_bits()),
            props: OrdMap::new(),
        }),
        Statement::Select(Select {
            knn: Some(Knn {
                query: singles(&[1.0, 0.0]),
                k: 2,
            }),
            filter: Some(Filter::FieldEquals {
                field: "tag".into(),
                value: str_("a"),
            }),
            order: Some(Order::Salience),
            ..select("doc")
        }),
    ];

    let run = || {
        let mut db = Db::default();
        db.execute(&plan).unwrap()
    };

    let a = run();
    let b = run();
    assert_eq!(format!("{a:?}"), format!("{b:?}"));
    assert_eq!(a, b);
}

#[test]
fn multi_select_plan_returns_one_result_per_select() {
    let mut db = Db::default();
    db.execute(&[
        create("t", None),
        Statement::Insert(record("t:1", OrdMap::new(), None)),
        Statement::Insert(record("t:2", OrdMap::new(), None)),
    ])
    .unwrap();
    let results = db
        .execute(&[
            Statement::Select(select("t")),
            Statement::Insert(record("t:3", OrdMap::new(), None)),
            Statement::Select(select("t")),
        ])
        .unwrap();
    assert_eq!(results.len(), 2);
    assert_eq!(results[0].rows.len(), 2);
    assert_eq!(results[1].rows.len(), 3); // sees the insert in the same plan
}
// -- MATCH traversal ---------------------------------------------------

fn relate(from: &str, name: &str, to: &str, weight: Option<f32>) -> Statement {
    Statement::Relate(RelationEdge {
        from: RecordId::parse(from).unwrap(),
        name: name.into(),
        to: RecordId::parse(to).unwrap(),
        created_at: 0,
        weight: weight.map(f32::to_bits),
        props: OrdMap::new(),
    })
}

fn match_path(start: &str, steps: &[(MatchDirection, &str)]) -> Statement {
    Statement::Match(MatchPath {
        start: RecordId::parse(start).unwrap(),
        steps: steps
            .iter()
            .map(|(direction, name)| MatchStep {
                direction: *direction,
                name: (*name).into(),
                edge_props: None,
            })
            .collect(),
    })
}

#[test]
fn match_outgoing_returns_reached_records_in_edge_order() {
    let mut db = Db::default();
    db.execute(&[
        create("person", None),
        create("note", None),
        Statement::Insert(record("person:1", OrdMap::new(), None)),
        Statement::Insert(record("note:1", OrdMap::new(), None)),
        Statement::Insert(record("note:2", OrdMap::new(), None)),
        Statement::Insert(record("note:3", OrdMap::new(), None)),
        relate("person:1", "mentions", "note:2", Some(0.5)),
        relate("person:1", "mentions", "note:1", Some(0.9)),
        relate("person:1", "mentions", "note:3", None),
    ])
    .unwrap();

    let res = db
        .execute(&[match_path("person:1", &[(MatchDirection::Out, "mentions")])])
        .unwrap();
    assert!(matches!(res[0].kind, QueryKind::Match(_)));
    // Edge-append order, deduped; scores are the first edge's weight.
    let rows: Vec<(String, f32)> = res[0]
        .rows
        .iter()
        .map(|r| (r.record.id.to_text(), r.score))
        .collect();
    assert_eq!(
        rows,
        vec![
            ("note:2".to_string(), 0.5),
            ("note:1".to_string(), 0.9),
            ("note:3".to_string(), 0.0),
        ]
    );
}

#[test]
fn match_incoming_returns_predecessors() {
    let mut db = Db::default();
    db.execute(&[
        create("person", None),
        create("note", None),
        Statement::Insert(record("person:1", OrdMap::new(), None)),
        Statement::Insert(record("person:2", OrdMap::new(), None)),
        Statement::Insert(record("note:9", OrdMap::new(), None)),
        relate("person:1", "mentions", "note:9", Some(0.3)),
        relate("person:2", "mentions", "note:9", Some(0.7)),
    ])
    .unwrap();

    let res = db
        .execute(&[match_path("note:9", &[(MatchDirection::In, "mentions")])])
        .unwrap();
    let ids: Vec<String> = res[0]
        .rows
        .iter()
        .map(|r| r.record.id.to_text())
        .collect();
    assert_eq!(ids, vec!["person:1", "person:2"]);
}

#[test]
fn match_multi_hop_walks_path() {
    let mut db = Db::default();
    db.execute(&[
        create("person", None),
        create("team", None),
        Statement::Insert(record("alice:1", OrdMap::new(), None)),
        Statement::Insert(record("bob:2", OrdMap::new(), None)),
        Statement::Insert(record("team:1", OrdMap::new(), None)),
        relate("alice:1", "knows", "bob:2", Some(1.0)),
        relate("bob:2", "works_with", "team:1", Some(0.4)),
    ])
    .unwrap();

    let res = db
        .execute(&[match_path(
            "alice:1",
            &[
                (MatchDirection::Out, "knows"),
                (MatchDirection::Out, "works_with"),
            ],
        )])
        .unwrap();
    let rows: Vec<(String, f32)> = res[0]
        .rows
        .iter()
        .map(|r| (r.record.id.to_text(), r.score))
        .collect();
    // Only the final frontier is returned (path semantics).
    assert_eq!(rows, vec![("team:1".to_string(), 0.4)]);
}

#[test]
fn match_unknown_start_or_dangling_edge_is_empty() {
    let mut db = Db::default();
    db.execute(&[
        create("person", None),
        create("note", None),
        Statement::Insert(record("person:1", OrdMap::new(), None)),
        // Dangling edge: note:99 was never inserted.
        relate("person:1", "mentions", "note:99", None),
    ])
    .unwrap();

    // Unknown start record: empty, not an error.
    let res = db
        .execute(&[match_path(
            "person:404",
            &[(MatchDirection::Out, "mentions")],
        )])
        .unwrap();
    assert!(res[0].rows.is_empty());

    // Start exists but every edge is dangling: empty.
    let res = db
        .execute(&[match_path("person:1", &[(MatchDirection::Out, "mentions")])])
        .unwrap();
    assert!(res[0].rows.is_empty());
}

#[test]
fn match_wrong_edge_name_yields_empty() {
    let mut db = Db::default();
    db.execute(&[
        create("person", None),
        create("note", None),
        Statement::Insert(record("person:1", OrdMap::new(), None)),
        Statement::Insert(record("note:1", OrdMap::new(), None)),
        relate("person:1", "mentions", "note:1", None),
    ])
    .unwrap();

    let res = db
        .execute(&[match_path("person:1", &[(MatchDirection::Out, "likes")])])
        .unwrap();
    assert!(res[0].rows.is_empty());
}

#[test]
fn match_dedupes_repeated_targets() {
    let mut db = Db::default();
    db.execute(&[
        create("person", None),
        create("note", None),
        Statement::Insert(record("person:1", OrdMap::new(), None)),
        Statement::Insert(record("note:1", OrdMap::new(), None)),
        relate("person:1", "mentions", "note:1", Some(0.2)),
        relate("person:1", "mentions", "note:1", Some(0.8)),
    ])
    .unwrap();

    let res = db
        .execute(&[match_path("person:1", &[(MatchDirection::Out, "mentions")])])
        .unwrap();
    let rows: Vec<(String, f32)> = res[0]
        .rows
        .iter()
        .map(|r| (r.record.id.to_text(), r.score))
        .collect();
    // Deduped, first edge's weight wins.
    assert_eq!(rows, vec![("note:1".to_string(), 0.2)]);
}

// -- CLOSURE + edge-property filters ------------------------------------

fn closure_path(start: &str, steps: &[(MatchDirection, &str)]) -> Statement {
    Statement::Closure(MatchPath {
        start: RecordId::parse(start).unwrap(),
        steps: steps
            .iter()
            .map(|(direction, name)| MatchStep {
                direction: *direction,
                name: (*name).into(),
                edge_props: None,
            })
            .collect(),
    })
}

fn relate_with_props(
    from: &str,
    name: &str,
    to: &str,
    props: Body,
) -> Statement {
    Statement::Relate(RelationEdge {
        from: RecordId::parse(from).unwrap(),
        name: name.into(),
        to: RecordId::parse(to).unwrap(),
        created_at: 0,
        weight: None,
        props,
    })
}

fn match_path_with_props(
    start: &str,
    steps: &[(MatchDirection, &str, Option<Filter>)],
) -> Statement {
    Statement::Match(MatchPath {
        start: RecordId::parse(start).unwrap(),
        steps: steps
            .iter()
            .map(|(direction, name, edge_props)| MatchStep {
                direction: *direction,
                name: (*name).into(),
                edge_props: edge_props.clone(),
            })
            .collect(),
    })
}

#[test]
fn closure_reaches_transitive_neighborhood() {
    let mut db = Db::default();
    db.execute(&[
        create("person", None),
        create("note", None),
        Statement::Insert(record("person:1", OrdMap::new(), None)),
        Statement::Insert(record("person:2", OrdMap::new(), None)),
        Statement::Insert(record("person:3", OrdMap::new(), None)),
        Statement::Insert(record("note:9", OrdMap::new(), None)),
        relate("person:1", "knows", "person:2", None),
        relate("person:2", "knows", "person:3", None),
        relate("person:3", "knows", "person:1", None), // cycle
        relate("person:1", "mentions", "note:9", None),
    ])
    .unwrap();

    let res = db
        .execute(&[closure_path("person:1", &[(MatchDirection::Out, "knows")])])
        .unwrap();
    assert!(matches!(res[0].kind, QueryKind::Closure(_)));
    // BFS first-visit: start (depth 0), person:2 (1), person:3 (2). The
    // cycle back to person:1 is deduped; the :mentions edge is excluded.
    let rows: Vec<(String, f32)> = res[0]
        .rows
        .iter()
        .map(|r| (r.record.id.to_text(), r.score))
        .collect();
    assert_eq!(
        rows,
        vec![
            ("person:1".to_string(), 0.0),
            ("person:2".to_string(), 1.0),
            ("person:3".to_string(), 2.0),
        ]
    );
}

#[test]
fn closure_unknown_start_is_empty() {
    let mut db = Db::default();
    db.execute(&[
        create("person", None),
        Statement::Insert(record("person:1", OrdMap::new(), None)),
    ])
    .unwrap();
    let res = db
        .execute(&[closure_path(
            "person:404",
            &[(MatchDirection::Out, "knows")],
        )])
        .unwrap();
    assert!(res[0].rows.is_empty());
}

#[test]
fn match_edge_props_filter_restricts_traversal() {
    let mut db = Db::default();
    db.execute(&[
        create("person", None),
        create("note", None),
        Statement::Insert(record("person:1", OrdMap::new(), None)),
        Statement::Insert(record("note:1", OrdMap::new(), None)),
        Statement::Insert(record("note:2", OrdMap::new(), None)),
        relate_with_props(
            "person:1",
            "mentions",
            "note:1",
            body([("confidence".into(), Value::Float(0.9f64.to_bits()))]),
        ),
        relate_with_props(
            "person:1",
            "mentions",
            "note:2",
            body([("confidence".into(), Value::Float(0.4f64.to_bits()))]),
        ),
    ])
    .unwrap();

    let filter = Filter::FieldEquals {
        field: "confidence".into(),
        value: Value::Float(0.9f64.to_bits()),
    };
    let res = db
        .execute(&[match_path_with_props(
            "person:1",
            &[(MatchDirection::Out, "mentions", Some(filter))],
        )])
        .unwrap();
    let ids: Vec<String> = res[0]
        .rows
        .iter()
        .map(|r| r.record.id.to_text())
        .collect();
    assert_eq!(
        ids,
        vec!["note:1"],
        "only the high-confidence edge is traversed"
    );
}

#[test]
fn closure_edge_props_filter_limits_fixpoint() {
    let mut db = Db::default();
    db.execute(&[
        create("person", None),
        Statement::Insert(record("person:1", OrdMap::new(), None)),
        Statement::Insert(record("person:2", OrdMap::new(), None)),
        Statement::Insert(record("person:3", OrdMap::new(), None)),
        relate_with_props(
            "person:1",
            "knows",
            "person:2",
            body([("trust".into(), Value::Bool(true))]),
        ),
        relate_with_props(
            "person:2",
            "knows",
            "person:3",
            body([("trust".into(), Value::Bool(false))]),
        ),
    ])
    .unwrap();

    let filter = Filter::FieldEquals {
        field: "trust".into(),
        value: Value::Bool(true),
    };
    let path = Statement::Closure(MatchPath {
        start: RecordId::parse("person:1").unwrap(),
        steps: vec![MatchStep {
            direction: MatchDirection::Out,
            name: "knows".into(),
            edge_props: Some(filter),
        }],
    });
    let res = db.execute(&[path]).unwrap();
    let ids: Vec<String> = res[0]
        .rows
        .iter()
        .map(|r| r.record.id.to_text())
        .collect();
    // Fixpoint stops at the untrusted edge: person:2 reached, person:3 not.
    assert_eq!(ids, vec!["person:1", "person:2"]);
}

fn vote(from: &str, to: &str, value: i64, weight: f32, created_at: i64) -> RelationEdge {
    RelationEdge {
        from: rid(from),
        name: "voted".into(),
        to: rid(to),
        created_at,
        weight: Some(weight.to_bits()),
        props: body([("value".into(), Value::Int(value))]),
    }
}

fn store_with_edges(edges: Vec<RelationEdge>) -> Store {
    Store {
        edges,
        ..Store::default()
    }
}

#[test]
fn vote_counts_aggregates_up_down_net() {
    let s = store_with_edges(vec![
        vote("agent:1", "doc:1", 1, 1.0, 0),
        vote("agent:2", "doc:1", 1, 1.0, 0),
        vote("agent:3", "doc:1", -1, 1.0, 0),
        vote("agent:4", "doc:2", 1, 1.0, 0), // different target: ignored
    ]);
    let c = vote_counts(&s, &rid("doc:1"));
    assert_eq!(c.up, 2);
    assert_eq!(c.down, 1);
    assert_eq!(c.net, 1);
}

#[test]
fn vote_counts_zero_when_no_votes() {
    let s = store_with_edges(vec![]);
    let c = vote_counts(&s, &rid("doc:1"));
    assert_eq!((c.up, c.down, c.net), (0, 0, 0));
}

#[test]
fn feedback_score_prefers_recent_positive() {
    // recent +1 edges outweigh old -1 edge
    let s = store_with_edges(vec![
        vote("agent:a", "doc:1", 1, 1.0, 100),
        vote("agent:b", "doc:1", 1, 1.0, 200),
        vote("agent:c", "doc:1", -1, 1.0, 0),
    ]);
    let recent = feedback_score(&s, &rid("doc:1"));
    let old = feedback_score(&s, &rid("doc:2")); // no votes
    assert!(
        recent > old,
        "recent positives should score higher than none"
    );
    assert!(recent > 0.0);
}

#[test]
fn feedback_score_deterministic() {
    let s = store_with_edges(vec![
        vote("agent:a", "doc:1", 1, 0.5, 10),
        vote("agent:b", "doc:1", -1, 0.9, 20),
    ]);
    let s2 = s.clone();
    assert_eq!(
        feedback_score(&s, &rid("doc:1")),
        feedback_score(&s2, &rid("doc:1"))
    );
}

#[test]
fn non_voted_edges_ignored() {
    let e = RelationEdge {
        name: "mentions".into(), // not a vote
        ..vote("agent:a", "doc:1", 1, 1.0, 0)
    };
    let s = store_with_edges(vec![e]);
    let c = vote_counts(&s, &rid("doc:1"));
    assert_eq!(c.net, 0);
}

#[test]
fn id_imports_work() {
    // guard: Id import stays usable (numeric id construction)
    let _ = Id::Num(1);
}

fn bm25_select(table: &str, field: &str, query: &str, k: Option<usize>) -> Statement {
    Statement::Select(Select {
        table: table.to_string(),
        filter: Some(Filter::Bm25 {
            field: field.to_string(),
            query: query.to_string(),
            k,
        }),
        ..Select::default()
    })
}

#[test]
fn bm25_ranks_term_dense_above_sparse_and_k_limits_rows() {
    let mut db = Db::default();
    db.execute(&[
        create("doc", None),
        Statement::Insert(record(
            "doc:dense",
            body([("text".into(), str_("rust rust rust rust rust"))]),
            None,
            )),
        Statement::Insert(record(
            "doc:sparse",
            body([("text".into(), str_("rust is a systems language"))]),
            None,
            )),
        Statement::Insert(record(
            "doc:other",
            body([("text".into(), str_("completely unrelated topic"))]),
            None,
            )),
    ])
    .unwrap();

    let res = db
        .execute(&[bm25_select("doc", "text", "rust", None)])
        .unwrap();
    let ids: Vec<_> = res[0]
        .rows
        .iter()
        .map(|r| r.record.id.to_text())
        .collect();
    assert_eq!(ids, ["doc:dense", "doc:sparse", "doc:other"]);
    assert!(res[0].rows[0].score > res[0].rows[1].score);
    assert!(res[0].rows[1].score > res[0].rows[2].score);
    assert_eq!(res[0].rows[2].score, 0.0); // no matching term

    // `k` caps the number of returned rows, densest first.
    let res = db
        .execute(&[bm25_select("doc", "text", "rust", Some(1))])
        .unwrap();
    assert_eq!(res[0].rows.len(), 1);
    assert_eq!(res[0].rows[0].record.id.to_text(), "doc:dense");
}

#[test]
fn bm25_returns_only_rows_of_the_selected_table() {
    let mut db = Db::default();
    db.execute(&[
        create("note", None),
        create("log", None),
        Statement::Insert(record(
            "note:1",
            body([("text".into(), str_("meeting notes about rust"))]),
            None,
            )),
        Statement::Insert(record(
            "log:1",
            body([("text".into(), str_("rust build log entry"))]),
            None,
            )),
        Statement::Insert(record(
            "log:2",
            body([("text".into(), str_("rust rust rust"))]),
            None,
            )),
    ])
    .unwrap();

    let res = db
        .execute(&[bm25_select("note", "text", "rust", None)])
        .unwrap();
    let ids: Vec<_> = res[0]
        .rows
        .iter()
        .map(|r| r.record.id.to_text())
        .collect();
    assert_eq!(ids, ["note:1"], "only `note` table rows are returned");
    assert!(res[0].rows[0].score > 0.0);

    let res = db
        .execute(&[bm25_select("log", "text", "rust", None)])
        .unwrap();
    let ids: Vec<_> = res[0]
        .rows
        .iter()
        .map(|r| r.record.id.to_text())
        .collect();
    assert_eq!(ids, ["log:2", "log:1"]);
}

#[test]
fn bm25_empty_query_returns_all_rows_with_zero_score() {
    let mut db = Db::default();
    db.execute(&[
        create("doc", None),
        Statement::Insert(record(
            "doc:1",
            body([("text".into(), str_("hello"))]),
            None,
            )),
        Statement::Insert(record(
            "doc:2",
            body([("text".into(), str_("world"))]),
            None,
            )),
    ])
    .unwrap();

    let res = db.execute(&[bm25_select("doc", "text", "", None)]).unwrap();
    let ids: Vec<_> = res[0]
        .rows
        .iter()
        .map(|r| r.record.id.to_text())
        .collect();
    // Empty query: every row is returned (BTree key order), all scored 0.
    assert_eq!(ids, ["doc:1", "doc:2"]);
    assert!(res[0].rows.iter().all(|r| r.score == 0.0));
}

#[test]
fn bm25_missing_or_non_str_field_scores_zero_and_orders_last() {
    let mut db = Db::default();
    db.execute(&[
        create("doc", None),
        Statement::Insert(record(
            "doc:hit",
            body([("text".into(), str_("needle in the haystack"))]),
            None,
            )),
        Statement::Insert(record(
            "doc:missing",
            body([("other".into(), str_("needle"))]),
            None,
            )),
        Statement::Insert(record(
            "doc:nonstr",
            body([("text".into(), Value::Int(7))]),
            None,
            )),
    ])
    .unwrap();

    let res = db
        .execute(&[bm25_select("doc", "text", "needle", None)])
        .unwrap();
    let ids: Vec<_> = res[0]
        .rows
        .iter()
        .map(|r| r.record.id.to_text())
        .collect();
    assert_eq!(ids, ["doc:hit", "doc:missing", "doc:nonstr"]);
    assert!(res[0].rows[0].score > 0.0);
    // Missing / non-Str field records are returned (Bm25 never prunes)
    // but score 0.0 and therefore sort below the hit.
    assert_eq!(res[0].rows[1].score, 0.0);
    assert_eq!(res[0].rows[2].score, 0.0);
}

#[test]
fn bm25_same_plan_on_equal_stores_yields_equal_results() {
    let plan: Plan = vec![
        create("doc", None),
        Statement::Insert(record(
            "doc:1",
            body([("text".into(), str_("the quick brown fox jumps"))]),
            None,
            )),
        Statement::Insert(record(
            "doc:2",
            body([("text".into(), str_("lazy dog fox"))]),
            None,
            )),
        Statement::Insert(record(
            "doc:3",
            body([("text".into(), str_("nothing to see here"))]),
            None,
            )),
        bm25_select("doc", "text", "fox dog", None),
    ];

    let run = || {
        let mut db = Db::default();
        db.execute(&plan).unwrap()
    };

    let a = run();
    let b = run();
    assert_eq!(a, b);
    assert_eq!(format!("{a:?}"), format!("{b:?}"));
    // Sanity: ranking is non-trivial and stable across runs.
    let scores: Vec<f32> = a[0].rows.iter().map(|r| r.score).collect();
    assert_eq!(
        scores,
        b[0].rows.iter().map(|r| r.score).collect::<Vec<_>>()
    );
    assert!(scores.windows(2).all(|w| w[0] >= w[1]));
}

#[test]
fn bm25_combines_with_limit_and_order_stays_score_first() {
    let mut db = Db::default();
    db.execute(&[
        create("doc", None),
        Statement::Insert(record(
            "doc:1",
            body([("text".into(), str_("alpha alpha alpha"))]),
            None,
            )),
        Statement::Insert(record(
            "doc:2",
            body([("text".into(), str_("alpha alpha"))]),
            None,
            )),
    ])
    .unwrap();

    // Explicit LIMIT 1 + Bm25: score ordering wins, then the cap applies.
    let mut sel = match bm25_select("doc", "text", "alpha", None) {
        Statement::Select(s) => s,
        _ => unreachable!(),
    };
    sel.limit = Some(1);
    let res = db.execute(&[Statement::Select(sel)]).unwrap();
    assert_eq!(res[0].rows.len(), 1);
    assert_eq!(res[0].rows[0].record.id.to_text(), "doc:1");
}

#[test]
fn a_failing_plan_changes_nothing() {
    let mut db = Db::default();
    db.execute(&[create("v", Some(2)), Statement::Insert(record("v:1", OrdMap::new(), None))])
        .unwrap();
    let before = db.store().clone();
    let err = db
        .execute(&[
            Statement::Insert(record("v:2", OrdMap::new(), Some(vec![1.0, 0.0]))),
            relate("v:1", "e", "v:2", None),
            Statement::Insert(record("v:3", OrdMap::new(), Some(vec![1.0]))),
            Statement::Forget { id: rid("v:1") },
        ])
        .unwrap_err();
    assert_eq!(
        err.to_text(),
        "embedding dimension mismatch for table `v`: declared dim 2, got 1"
    );
    assert_eq!(db.store(), &before);
}

#[test]
fn plans_compose() {
    let a = vec![create("t", None), Statement::Insert(record("t:1", OrdMap::new(), None))];
    let b = vec![relate("t:1", "e", "t:1", Some(0.5)), Statement::Select(select("t"))];
    let mut one = Db::default();
    let first = one.execute(&a).unwrap();
    let second = one.execute(&b).unwrap();
    let mut both = Db::default();
    let whole = both.execute(&[a, b].concat()).unwrap();
    assert_eq!(one.store(), both.store());
    assert_eq!(first.len() + second.len(), whole.len());
    assert_eq!(second, whole);
}

#[test]
fn forgetting_twice_is_forgetting_once() {
    let mut store = Store::default();
    for stmt in [
        Statement::Insert(record("t:1", OrdMap::new(), None)),
        Statement::Insert(record("t:2", OrdMap::new(), None)),
        relate("t:1", "e", "t:2", None),
        relate("t:2", "e", "t:2", None),
        Statement::Forget { id: rid("t:1") },
    ] {
        execute_statement(&mut store, &stmt, &score).unwrap();
    }
    assert_eq!((store.records.len(), store.edges.len()), (1, 1));
    let before = store.clone();
    execute_statement(&mut store, &Statement::Forget { id: rid("t:1") }, &score).unwrap();
    assert_eq!(store, before);
}

#[test]
fn the_nearest_are_kept_before_the_order_applies() {
    let mut db = Db::default();
    let mut far = record("t:far", OrdMap::new(), Some(vec![0.0, 1.0]));
    far.created_at = 9;
    let near = record("t:near", OrdMap::new(), Some(vec![1.0, 0.0]));
    db.execute(&[create("t", Some(2)), Statement::Insert(far), Statement::Insert(near)]).unwrap();
    let res = db
        .execute(&[Statement::Select(Select {
            knn: Some(Knn { query: singles(&[1.0, 0.0]), k: 1 }),
            order: Some(Order::Recency),
            ..select("t")
        })])
        .unwrap();
    assert_eq!(res[0].rows.len(), 1);
    assert_eq!(res[0].rows[0].record.id.to_text(), "t:near");
}

#[test]
fn hybrid_selection_fuses_both_rankings() {
    let mut db = Db::default();
    let doc = |id: &str, text: &str, v: [f32; 2]| {
        Statement::Insert(record(id, body([("text".into(), str_(text))]), Some(v.to_vec())))
    };
    db.execute(&[
        create("d", Some(2)),
        doc("d:1", "rust rust", [0.0, 1.0]),
        doc("d:2", "rust and more", [1.0, 0.0]),
        doc("d:3", "nothing", [0.9, 0.1]),
    ])
    .unwrap();
    let res = db
        .execute(&[Statement::Select(Select {
            knn: Some(Knn { query: singles(&[1.0, 0.0]), k: 3 }),
            filter: Some(Filter::Bm25 { field: "text".into(), query: "rust".into(), k: None }),
            ..select("d")
        })])
        .unwrap();
    let rows: Vec<(String, f32)> =
        res[0].rows.iter().map(|r| (r.record.id.to_text(), r.score)).collect();
    // Lexical ranks: d:1, d:2, d:3. Vector ranks: d:2, d:3, d:1.
    assert_eq!(
        rows,
        vec![
            ("d:2".to_string(), 1.0 / 62.0f32 + 1.0 / 61.0f32),
            ("d:1".to_string(), 1.0 / 61.0f32 + 1.0 / 63.0f32),
            ("d:3".to_string(), 1.0 / 63.0f32 + 1.0 / 62.0f32),
        ]
    );
}

#[test]
fn equal_scores_ascend_by_id() {
    let mut db = Db::default();
    db.execute(&[
        create("t", None),
        Statement::Insert(record("t:b", OrdMap::new(), None)),
        Statement::Insert(record("t:10", OrdMap::new(), None)),
        Statement::Insert(record("t:9", OrdMap::new(), None)),
    ])
    .unwrap();
    let res = db
        .execute(&[Statement::Select(Select { order: Some(Order::Votes), ..select("t") })])
        .unwrap();
    let ids: Vec<String> = res[0].rows.iter().map(|r| r.record.id.to_text()).collect();
    assert_eq!(ids, ["t:9", "t:10", "t:b"]);
}

#[test]
fn votes_and_feedback_are_exact() {
    let s = store_with_edges(vec![
        vote("a:1", "d:1", 1, 1.0, 4),
        vote("a:2", "d:1", -1, 1.0, 2),
        vote("a:3", "d:2", 1, 1.0, 5),
    ]);
    assert_eq!(feedback_toward(&s, &rid("d:1")), vec![(1, 1), (-1, 3)]);
    // 1 / (1 + 1) - 1 / (1 + 3)
    assert_eq!(feedback_score(&s, &rid("d:1")), 0.25);
}

#[test]
fn execution_errors_have_their_texts() {
    let text = |e: Error| e.to_text();
    assert_eq!(
        text(Error::Storage(StorageError::BadMagic)),
        "storage error: bad magic header"
    );
    assert_eq!(
        text(Error::MemoryWithoutContext { name: "m".into() }),
        "`MEMORY m` must run inside a plan to switch context"
    );
}

#[test]
fn closure_takes_the_fewest_hops() {
    let mut db = Db::default();
    db.execute(&[
        create("n", None),
        Statement::Insert(record("n:1", OrdMap::new(), None)),
        Statement::Insert(record("n:2", OrdMap::new(), None)),
        Statement::Insert(record("n:3", OrdMap::new(), None)),
        relate("n:1", "e", "n:2", None),
        relate("n:2", "e", "n:3", None),
        relate("n:1", "e", "n:3", None),
    ])
    .unwrap();
    let res = db.execute(&[closure_path("n:1", &[(MatchDirection::Out, "e")])]).unwrap();
    let rows: Vec<(String, f32)> =
        res[0].rows.iter().map(|r| (r.record.id.to_text(), r.score)).collect();
    assert_eq!(
        rows,
        vec![("n:1".to_string(), 0.0), ("n:2".to_string(), 1.0), ("n:3".to_string(), 1.0)]
    );
}
