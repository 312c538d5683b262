//! From text to results.
use nqlite::bm25::Bm25Terms;
use nqlite::database::Database;
use nqlite::engine::{QueryKind, QueryResult};
use nqlite::error::Error;
use nqlite::ir::{Plan, Record, Statement, Store, Value};
use nqlite::number::{Form, Numeral};
use nqlite::parser::NqlError;
use nqlite::score::ScoreTask;

fn forms(n: Numeral) -> Form {
    let (double, single) = match &n {
        Numeral::Int(i) => (*i as f64, *i as f32),
        Numeral::Decimal(s) => {
            let x: f64 = s.parse().expect("a decimal numeral");
            (x, x as f32)
        }
        Numeral::Wide(i) => (*i as f64, *i as f64 as f32),
        Numeral::Double(b) => (f64::from_bits(*b), f64::from_bits(*b) as f32),
        Numeral::Single(b) => (f32::from_bits(*b) as f64, f32::from_bits(*b)),
    };
    Form { double: double.to_bits(), single: single.to_bits(), shown: format!("{double}") }
}

fn floats(bits: &[u32]) -> Vec<f32> {
    bits.iter().map(|b| f32::from_bits(*b)).collect()
}

fn cosine_similarity(a: &[f32], b: &[f32]) -> f32 {
    let (mut dot, mut na, mut nb) = (0.0f32, 0.0f32, 0.0f32);
    for (x, y) in a.iter().zip(b) {
        dot += x * y;
        na += x * x;
        nb += y * y;
    }
    if na == 0.0 || nb == 0.0 {
        return 0.0;
    }
    dot / (na.sqrt() * nb.sqrt())
}

fn relevance(t: &Bm25Terms) -> f32 {
    let (k1, b) = (1.2f32, 0.75f32);
    let n = t.n_docs as f32;
    let avg = t.total_tokens as f32 / t.n_docs.max(1) as f32;
    let mut sum = 0.0f32;
    for (tf, df) in &t.terms {
        let (f, df) = (*tf as f32, (*df).max(1) as f32);
        let idf = (1.0 + (n - df + 0.5) / (df + 0.5)).ln();
        let norm = 1.0 - b + b * (t.doc_len as f32 / avg);
        sum += idf * (f * (k1 + 1.0)) / (f + k1 * norm);
    }
    sum
}

fn mean(weights: &[u32]) -> f32 {
    (floats(weights).iter().sum::<f32>() + 1.0) / (weights.len() as f32 + 2.0)
}

fn score(task: ScoreTask) -> u32 {
    let x: f32 = match task {
        ScoreTask::Similarity { embedding, query } => {
            cosine_similarity(&floats(&embedding), &floats(&query))
        }
        ScoreTask::Relevance(t) => relevance(&t),
        ScoreTask::Count(n) => n as f32,
        ScoreTask::Mean { weights } => mean(&weights),
        ScoreTask::Normalized { weights } => mean(&weights).clamp(0.0, 1.0),
        ScoreTask::Salience { similarity, weights } => {
            0.7 * f32::from_bits(similarity) + 0.3 * mean(&weights).clamp(0.0, 1.0)
        }
        ScoreTask::Feedback { votes } => {
            votes.iter().map(|(sign, age)| *sign as f32 * (1.0 / (1.0 + *age as f32))).sum()
        }
        ScoreTask::Fusion { lexical, vector } => {
            1.0 / (60.0 + lexical as f32) + 1.0 / (60.0 + vector as f32)
        }
    };
    x.to_bits()
}

/// A result with its scores as floats.
#[derive(Debug, PartialEq)]
struct Found {
    kind: QueryKind,
    rows: Vec<Row>,
}

#[derive(Debug, PartialEq)]
struct Row {
    record: Record,
    score: f32,
}

#[derive(Debug, Default)]
struct Db(Database);

impl Db {
    fn execute(&mut self, plan: &[Statement]) -> Result<Vec<Found>, Error> {
        let results = self.0.execute(&plan.to_vec(), &score)?;
        Ok(results.into_iter().map(found).collect())
    }

    fn store(&self) -> &Store {
        self.0.store()
    }
}

fn found(res: QueryResult) -> Found {
    let rows = res
        .rows
        .into_iter()
        .map(|r| Row { score: f32::from_bits(r.score), record: r.record })
        .collect();
    Found { kind: res.kind, rows }
}

fn parse(input: &str) -> Result<Plan, NqlError> {
    nqlite::parser::parse(input, &forms)
}

const SESSION: &str = r#"
    CREATE TABLE turn VECTOR<f32, 3>;
    INSERT INTO turn:1 { "text": "hello world" } EMBED [1.0, 0.0, 0.0];
    INSERT INTO turn:2 { "text": "goodbye world" } EMBED [0.9, 0.1, 0.0];
    INSERT INTO turn:3 { "text": "unrelated" } EMBED [0.0, 0.0, 1.0];
    SELECT * FROM turn
        WHERE vector::similarity(embedding, [1.0, 0.0, 0.0]) AND k = 2
        ORDER BY ::similarity;
"#;

#[test]
fn nql_to_engine_end_to_end() {
    let mut db = Db::default();
    let plan = parse(SESSION).expect("parse nql");
    let results = db.execute(&plan).expect("execute plan");

    assert_eq!(results.len(), 1, "one SELECT statement");
    let qr = &results[0];
    assert_eq!(qr.rows.len(), 2, "k=2");
    // nearest first: turn:1 (cosine 1.0) then turn:2 (cosine ~0.99)
    assert!(
        qr.rows[0].score >= qr.rows[1].score,
        "sorted desc by similarity"
    );
    let texts: Vec<String> = qr
        .rows
        .iter()
        .map(|r| match r.record.body.get(&"text".to_string()) {
            Some(Value::Str(s)) => s.clone(),
            _ => String::from("?"),
        })
        .collect();
    assert_eq!(texts, ["hello world", "goodbye world"]);
}

#[test]
fn nql_forget_and_relate_roundtrip() {
    let mut db = Db::default();
    let plan = parse(
        r#"
        CREATE TABLE note;
        INSERT INTO note:1 { "body": "alpha" };
        INSERT INTO note:2 { "body": "beta" };
        RELATE (note:1) -> :references -> (note:2) SET weight = 0.5;
        SELECT * FROM note;
        FORGET note:1;
        SELECT * FROM note;
        "#,
    )
    .expect("parse");
    let results = db.execute(&plan).expect("execute");
    assert_eq!(results.len(), 2);
    // after FORGET, only note:2 remains, and its incident edges are gone
    let after = &results[1];
    let ids: Vec<String> = after.rows.iter().map(|r| r.record.id.to_text()).collect();
    assert_eq!(ids, ["note:2"]);
    let store = db.store();
    assert!(
        store
            .edges
            .iter()
            .all(|e| e.from.to_text() != "note:1" && e.to.to_text() != "note:1"),
        "FORGET removes incident edges"
    );
}

#[test]
fn same_input_same_output_determinism() {
    let run = || {
        let mut db = Db::default();
        let plan = parse(SESSION).expect("parse");
        let results = db.execute(&plan).expect("execute");
        format!("{:?}", results)
    };
    assert_eq!(run(), run(), "identical runs produce identical results");
}

#[test]
fn nql_match_traversal_end_to_end() {
    let mut db = Db::default();
    let plan = parse(
        r#"
        CREATE TABLE turn;
        CREATE TABLE note;
        INSERT INTO turn:3 { "text": "the turn" };
        INSERT INTO note:1 { "body": "first" };
        INSERT INTO note:2 { "body": "second" };
        RELATE (turn:3) -> :mentions -> (note:1) SET weight = 0.9;
        RELATE (turn:3) -> :mentions -> (note:2) SET weight = 0.4;
        MATCH (turn:3) -> :mentions;
        MATCH (note:1) <- :mentions;
        "#,
    )
    .expect("parse");
    let results = db.execute(&plan).expect("execute");
    assert_eq!(results.len(), 2, "two MATCH statements");

    // Outgoing: both notes, in edge-append order, first edge's weight.
    let out = &results[0];
    let ids: Vec<String> = out.rows.iter().map(|r| r.record.id.to_text()).collect();
    assert_eq!(ids, ["note:1", "note:2"]);
    assert!((out.rows[0].score - 0.9).abs() < 1e-6);

    // Incoming: only note:1 points back at turn:3 via :mentions.
    let inc = &results[1];
    let ids: Vec<String> = inc.rows.iter().map(|r| r.record.id.to_text()).collect();
    assert_eq!(ids, ["turn:3"]);
}

#[test]
fn nql_votes_flow_into_score_order() {
    // Regression: `::score` must count `:voted` edges created through the nql
    // grammar. The parser strips the edge-name colon (`:voted` -> "voted"),
    // so score_of must match the same convention as ::votes/::feedback.
    let mut db = Db::default();
    let plan = parse(
        r#"
        CREATE TABLE turn;
        INSERT INTO turn:3 { "text": "hello" };
        RELATE (agent:main) -> :voted -> (turn:3) SET value = 1, weight = 0.9;
        SELECT * FROM turn ORDER BY ::score;
        "#,
    )
    .expect("parse");
    let results = db.execute(&plan).expect("execute");

    // Laplace-smoothed mean: (0.9 + 1) / (1 + 2) = 0.6333..., NOT the 0.5
    // no-vote baseline that a missed edge name would produce.
    let score = results[0].rows[0].score;
    assert!(
        (score - 19.0 / 30.0).abs() < 1e-6,
        "::score must reflect the vote, got {score}"
    );
}

#[test]
fn closure_depths_never_fall() {
    let mut db = Database::default();
    let results = db
        .execute(
            &parse(
                "INSERT INTO p:1 {}; INSERT INTO p:2 {}; INSERT INTO p:3 {}; INSERT INTO p:4 {};
                 INSERT INTO n:1 {}; INSERT INTO n:2 {};
                 RELATE (p:1) -> :e -> (p:2); RELATE (p:2) -> :e -> (p:3);
                 RELATE (p:3) -> :e -> (p:1); RELATE (p:1) -> :e -> (p:4);
                 RELATE (p:2) -> :f -> (n:1); RELATE (n:1) -> :f -> (n:2);
                 CLOSURE (p:1) -> :e -> :f",
            )
            .unwrap(),
            &score,
        )
        .unwrap();
    let rows: Vec<(String, f32)> = results[0]
        .rows
        .iter()
        .map(|r| (r.record.id.to_text(), f32::from_bits(r.score)))
        .collect();
    assert_eq!((rows[0].0.as_str(), rows[0].1), ("p:1", 0.0));
    assert_eq!(rows.len(), 6);
    assert!(rows.windows(2).all(|w| w[0].1 <= w[1].1), "{rows:?}");
    assert_eq!(rows[5].0, "n:2");
}
