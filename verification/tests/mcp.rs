//! The tools for agents.
use nqlite::bm25::Bm25Terms;
use nqlite::ir::{Id, RecordId, Statement, Value};
use nqlite::json::{json_to_value, scalar_to_json, Json};
use nqlite::mcp::{
    Called, CreateTableParams, ExecuteNqlParams, ForgetParams, InsertParams, MatchParams, NqlMcp,
    RelateParams, Reply, SelectParams,
};
use nqlite::number::{Form, Numeral};
use nqlite::ordmap::OrdMap;
use nqlite::score::ScoreTask;

fn forms(n: Numeral) -> Form {
    let (double, single) = match &n {
        Numeral::Int(i) => (*i as f64, *i as f32),
        Numeral::Decimal(s) => {
            let x: f64 = s.parse().expect("a decimal numeral");
            (x, x as f32)
        }
        Numeral::Wide(i) => (*i as f64, *i as f64 as f32),
        Numeral::Double(b) => (f64::from_bits(*b), f64::from_bits(*b) as f32),
        Numeral::Single(b) => (f32::from_bits(*b) as f64, f32::from_bits(*b)),
    };
    Form { double: double.to_bits(), single: single.to_bits(), shown: format!("{double}") }
}

fn floats(bits: &[u32]) -> Vec<f32> {
    bits.iter().map(|b| f32::from_bits(*b)).collect()
}

fn cosine_similarity(a: &[f32], b: &[f32]) -> f32 {
    let (mut dot, mut na, mut nb) = (0.0f32, 0.0f32, 0.0f32);
    for (x, y) in a.iter().zip(b) {
        dot += x * y;
        na += x * x;
        nb += y * y;
    }
    if na == 0.0 || nb == 0.0 {
        return 0.0;
    }
    dot / (na.sqrt() * nb.sqrt())
}

fn relevance(t: &Bm25Terms) -> f32 {
    let (k1, b) = (1.2f32, 0.75f32);
    let n = t.n_docs as f32;
    let avg = t.total_tokens as f32 / t.n_docs.max(1) as f32;
    let mut sum = 0.0f32;
    for (tf, df) in &t.terms {
        let (f, df) = (*tf as f32, (*df).max(1) as f32);
        let idf = (1.0 + (n - df + 0.5) / (df + 0.5)).ln();
        let norm = 1.0 - b + b * (t.doc_len as f32 / avg);
        sum += idf * (f * (k1 + 1.0)) / (f + k1 * norm);
    }
    sum
}

fn mean(weights: &[u32]) -> f32 {
    (floats(weights).iter().sum::<f32>() + 1.0) / (weights.len() as f32 + 2.0)
}

fn score(task: ScoreTask) -> u32 {
    let x: f32 = match task {
        ScoreTask::Similarity { embedding, query } => {
            cosine_similarity(&floats(&embedding), &floats(&query))
        }
        ScoreTask::Relevance(t) => relevance(&t),
        ScoreTask::Count(n) => n as f32,
        ScoreTask::Mean { weights } => mean(&weights),
        ScoreTask::Normalized { weights } => mean(&weights).clamp(0.0, 1.0),
        ScoreTask::Salience { similarity, weights } => {
            0.7 * f32::from_bits(similarity) + 0.3 * mean(&weights).clamp(0.0, 1.0)
        }
        ScoreTask::Feedback { votes } => {
            votes.iter().map(|(sign, age)| *sign as f32 * (1.0 / (1.0 + *age as f32))).sum()
        }
        ScoreTask::Fusion { lexical, vector } => {
            1.0 / (60.0 + lexical as f32) + 1.0 / (60.0 + vector as f32)
        }
    };
    x.to_bits()
}

fn text(s: &str) -> Json {
    Json::Str(s.to_string())
}

fn number(x: f64) -> Json {
    Json::Float(x.to_bits())
}

fn object<const N: usize>(members: [(&str, Json); N]) -> Json {
    let mut out = OrdMap::new();
    for (k, v) in members {
        out.insert(k.to_string(), v);
    }
    Json::Obj(out)
}

/// A document as `serde_json` has it.
fn serde(j: &Json) -> serde_json::Value {
    match j {
        Json::Null => serde_json::Value::Null,
        Json::Bool(b) => serde_json::Value::Bool(*b),
        Json::Int(n) => serde_json::Value::Number((*n as i64).into()),
        Json::Float(x) => serde_json::Number::from_f64(f64::from_bits(*x)).unwrap().into(),
        Json::Str(s) => serde_json::Value::String(s.clone()),
        Json::Arr(a) => serde_json::Value::Array(a.iter().map(serde).collect()),
        Json::Obj(o) => {
            serde_json::Value::Object(o.entries.iter().map(|(k, v)| (k.clone(), serde(v))).collect())
        }
    }
}

/// A reply as the client sees it.
fn shown(called: Called) -> String {
    match called.reply {
        Reply::Text(s) => s,
        Reply::Doc(j) => serde_json::to_string_pretty(&serde(&j)).unwrap(),
    }
}

fn create(s: &mut NqlMcp, table: &str, vector_dim: Option<usize>) -> String {
    shown(s.create_table(&CreateTableParams { table: table.into(), vector_dim }, &forms, &score))
}

fn insert(s: &mut NqlMcp, id: &str, body: Json, embedding: Option<Json>) -> String {
    shown(s.insert_record(&InsertParams { id: id.into(), body, embedding }, &forms, &score))
}

fn relate(s: &mut NqlMcp, from: &str, name: &str, to: &str, weight: Option<f32>) -> String {
    let p = RelateParams {
        from: from.into(),
        name: name.into(),
        to: to.into(),
        weight: weight.map(f32::to_bits),
        props: None,
    };
    shown(s.relate(&p, &forms, &score))
}

fn execute(s: &mut NqlMcp, program: &str) -> String {
    shown(s.execute_nql(&ExecuteNqlParams { program: program.into() }, &forms, &score))
}

fn select_from(table: &str) -> SelectParams {
    SelectParams {
        table: table.into(),
        field: None,
        value: None,
        query: None,
        k: None,
        order_by: None,
        limit: None,
    }
}

fn steps(direction: &str, name: &str) -> Json {
    Json::Arr(vec![object([("direction", text(direction)), ("name", text(name))])])
}

fn test_service() -> NqlMcp {
    let mut s = NqlMcp::new();
    // Set up a small store through the tools themselves.
    create(&mut s, "turn", Some(2));
    insert(
        &mut s,
        "turn:1",
        object([("text", text("hello world"))]),
        Some(Json::Arr(vec![number(1.0), number(0.0)])),
    );
    insert(
        &mut s,
        "turn:2",
        object([("text", text("goodbye world"))]),
        Some(Json::Arr(vec![number(0.9), number(0.1)])),
    );
    s
}

#[test]
fn execute_nql_returns_json_rows() {
    let mut s = test_service();
    let out = execute(&mut s, "SELECT * FROM turn ORDER BY ::similarity");
    assert!(out.contains("\"turn:1\""), "nearest first: {out}");
    assert!(out.contains("\"turn:2\""));
    assert!(!out.contains("ERR"), "no error: {out}");
}

#[test]
fn select_tool_ranks_by_similarity() {
    let mut s = test_service();
    let p = SelectParams {
        query: Some(Json::Arr(vec![number(1.0), number(0.0)])),
        k: Some(1),
        ..select_from("turn")
    };
    let out = shown(s.select(&p, &forms, &score));
    assert!(out.contains("\"turn:1\""), "top-1 is turn:1: {out}");
    assert!(!out.contains("\"turn:2\""), "k=1 caps: {out}");
}

#[test]
fn relate_and_match_work_through_tools() {
    let mut s = NqlMcp::new();
    create(&mut s, "note", None);
    insert(&mut s, "note:1", object([("body", text("alpha"))]), None);
    insert(&mut s, "note:2", object([("body", text("beta"))]), None);
    relate(&mut s, "note:1", "references", "note:2", Some(0.5));
    let p = MatchParams { start: "note:1".into(), steps: steps("out", "references") };
    let out = shown(s.match_path(&p, &forms, &score));
    assert!(out.contains("\"note:2\""), "match returns target: {out}");
    assert!(!out.contains("ERR"), "no error: {out}");
}

#[test]
fn error_returns_err_not_panic() {
    let mut s = NqlMcp::new();
    let out = execute(&mut s, "THIS IS NOT NQL");
    assert!(out.starts_with("ERR"), "parse errors surface: {out}");
}

#[test]
fn closure_tool_reaches_transitive_neighborhood() {
    let mut s = NqlMcp::new();
    create(&mut s, "person", None);
    for id in ["1", "2", "3"] {
        insert(&mut s, &format!("person:{id}"), object([("n", text(id))]), None);
    }
    relate(&mut s, "person:1", "knows", "person:2", None);
    relate(&mut s, "person:2", "knows", "person:3", None);
    let p = MatchParams { start: "person:1".into(), steps: steps("out", "knows") };
    let out = shown(s.closure(&p, &forms, &score));
    // Closure: person:1 (depth 0), person:2 (1), person:3 (2).
    assert!(out.contains("\"person:1\""), "{out}");
    assert!(out.contains("\"person:2\""), "{out}");
    assert!(out.contains("\"person:3\""), "{out}");
    assert!(!out.contains("ERR"), "no error: {out}");
}

#[test]
fn replies_are_exact() {
    let mut s = NqlMcp::default();
    assert_eq!(create(&mut s, "n", None), "OK");
    assert_eq!(insert(&mut s, "n:1", object([("b", Json::Int(2)), ("a", Json::Null)]), None), "OK");
    assert_eq!(relate(&mut s, "n:1", "::self", "n:1", Some(0.5)), "OK");
    let rows = |score: f64| {
        let row = object([
            ("id", text("n:1")),
            ("score", number(score)),
            ("body", object([("a", Json::Null), ("b", Json::Int(2))])),
        ]);
        Json::Arr(vec![row])
    };
    let called = s.select(&select_from("n"), &forms, &score);
    assert_eq!(called.reply, Reply::Doc(object([("rows", rows(0.0))])));
    let p = ExecuteNqlParams { program: "MATCH (n:1) -> :self; CREATE TABLE m".into() };
    let called = s.execute_nql(&p, &forms, &score);
    let result = object([("kind", text("MATCH n:1")), ("rows", rows(0.0))]);
    assert_eq!(called.reply, Reply::Doc(Json::Arr(vec![result])));
    assert!(called.log.is_empty(), "nothing is logged in memory");
    assert_eq!(shown(s.forget(&ForgetParams { id: "n:1".into() }, &forms, &score)), "OK");
    let called = s.select(&select_from("n"), &forms, &score);
    assert_eq!(called.reply, Reply::Doc(object([("rows", Json::Arr(vec![]))])));
}

#[test]
fn select_parameters_filter_order_and_limit() {
    let mut s = NqlMcp::new();
    for (id, group) in [("d:1", 1), ("d:2", 2), ("d:3", 1)] {
        insert(&mut s, id, object([("group", Json::Int(group))]), None);
    }
    let p = SelectParams {
        field: Some("group".into()),
        value: Some(Json::Int(1)),
        order_by: Some("RECENCY".into()),
        limit: Some(1),
        ..select_from("d")
    };
    let out = shown(s.select(&p, &forms, &score));
    assert!(out.contains("d:1") && !out.contains("d:2") && !out.contains("d:3"), "{out}");
    // A query without k asks for ten; k = 0 asks for one.
    let query = Some(Json::Arr(vec![Json::Int(1)]));
    let p = SelectParams { query, k: Some(0), ..select_from("d") };
    let Reply::Doc(Json::Obj(o)) = s.select(&p, &forms, &score).reply else {
        panic!("expected rows");
    };
    let Some(Json::Arr(rows)) = o.get(&"rows".to_string()) else {
        panic!("expected an array");
    };
    assert_eq!(rows.len(), 1);
}

#[test]
fn each_refusal_names_its_parameter() {
    let mut s = NqlMcp::new();
    let empty = || object([]);
    assert_eq!(
        insert(&mut s, "nocolon", empty(), None),
        "ERR invalid record id `nocolon` (expected table:id)"
    );
    assert_eq!(insert(&mut s, "t:1", Json::Null, None), "ERR body must be a JSON object");
    assert_eq!(
        insert(&mut s, "t:1", empty(), Some(text("x"))),
        "ERR embedding must be a JSON array of numbers"
    );
    assert_eq!(
        insert(&mut s, "t:1", empty(), Some(Json::Arr(vec![Json::Int(1), Json::Null]))),
        "ERR embedding entries must be numbers"
    );
    let p = SelectParams { order_by: Some("Random".into()), ..select_from("t") };
    assert_eq!(shown(s.select(&p, &forms, &score)), "ERR unknown ORDER BY `random`");
    let mut walk = |steps: Json| {
        shown(s.match_path(&MatchParams { start: "t:1".into(), steps }, &forms, &score))
    };
    assert_eq!(walk(Json::Null), "ERR steps must be a JSON array");
    assert_eq!(walk(Json::Arr(vec![])), "ERR steps must contain at least one hop");
    assert_eq!(walk(Json::Arr(vec![Json::Null])), "ERR step missing `direction`");
    assert_eq!(walk(steps("up", "e")), "ERR direction must be \"out\" or \"in\", got `up`");
    assert_eq!(
        walk(Json::Arr(vec![object([("direction", text("in"))])])),
        "ERR step missing `name`"
    );
    let step = |w: Json| {
        let step = object([("direction", text("in")), ("name", text("e")), ("where", w)]);
        Json::Arr(vec![step])
    };
    assert_eq!(walk(step(object([]))), "ERR where missing `field`");
    assert_eq!(walk(step(object([("field", text("f"))]))), "ERR where missing `value`");
    create(&mut s, "v", Some(2));
    assert_eq!(
        insert(&mut s, "v:1", object([]), Some(Json::Arr(vec![Json::Int(1)]))),
        "ERR embedding dimension mismatch for table `v`: declared dim 2, got 1"
    );
}

#[test]
fn steps_may_have_conditions() {
    let mut s = NqlMcp::new();
    for id in ["n:1", "n:2", "n:3"] {
        insert(&mut s, id, object([]), None);
    }
    for (to, sure) in [("n:2", true), ("n:3", false)] {
        let p = RelateParams {
            from: "n:1".into(),
            name: "e".into(),
            to: to.into(),
            weight: None,
            props: Some(object([("sure", Json::Bool(sure))])),
        };
        s.relate(&p, &forms, &score);
    }
    let condition = object([("field", text("sure")), ("value", Json::Bool(true))]);
    let step = object([("direction", text("out")), ("name", text(":e")), ("where", condition)]);
    let p = MatchParams { start: "n:1".into(), steps: Json::Arr(vec![step]) };
    let out = shown(s.match_path(&p, &forms, &score));
    assert!(out.contains("n:2") && !out.contains("n:3"), "{out}");
}

#[test]
fn json_reads_back() {
    let doc = object([
        ("null", Json::Null),
        ("bool", Json::Bool(true)),
        ("int", Json::Int(i64::MIN as i128)),
        ("float", number(0.1)),
        ("text", text("x")),
        ("list", Json::Arr(vec![Json::Int(1), object([("y", text("z"))])])),
    ]);
    assert_eq!(scalar_to_json(&json_to_value(&doc, &forms), &forms), doc);
}

#[test]
fn json_numbers_and_values_convert() {
    let big = Json::Int(u64::MAX as i128);
    assert_eq!(json_to_value(&big, &forms), Value::Float((u64::MAX as f64).to_bits()));
    let v = Value::Vector(vec![0.1f32.to_bits(), f32::NAN.to_bits()]);
    assert_eq!(scalar_to_json(&v, &forms), Json::Arr(vec![number(0.1f32 as f64), Json::Null]));
    let infinite = Value::Float(f64::INFINITY.to_bits());
    assert_eq!(scalar_to_json(&infinite, &forms), Json::Null);
    let reference = Value::Ref(RecordId::new("t".into(), Id::Num(1)));
    assert_eq!(scalar_to_json(&reference, &forms), text("t:1"));
}

#[test]
fn tool_statements_are_not_analyzed() {
    // A record goes into a table that nothing declared.
    let mut s = NqlMcp::new();
    assert_eq!(insert(&mut s, "free:1", object([]), None), "OK");
    let p = ExecuteNqlParams { program: "SELECT * FROM free".into() };
    assert!(matches!(s.execute_nql(&p, &forms, &score).reply, Reply::Doc(_)));
    assert_eq!(s.db.to_log(&vec![Statement::Forget { id: RecordId::new("free".into(), Id::Num(1)) }]), vec![]);
}
