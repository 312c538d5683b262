//! The line protocol.
use nqlite::bm25::Bm25Terms;
use nqlite::number::{Form, Numeral};
use nqlite::render::Shown;
use nqlite::score::ScoreTask;
use nqlite::server::Server;

fn forms(n: Numeral) -> Form {
    let (double, single) = match &n {
        Numeral::Int(i) => (*i as f64, *i as f32),
        Numeral::Decimal(s) => {
            let x: f64 = s.parse().expect("a decimal numeral");
            (x, x as f32)
        }
        Numeral::Wide(i) => (*i as f64, *i as f64 as f32),
        Numeral::Double(b) => (f64::from_bits(*b), f64::from_bits(*b) as f32),
        Numeral::Single(b) => (f32::from_bits(*b) as f64, f32::from_bits(*b)),
    };
    Form { double: double.to_bits(), single: single.to_bits(), shown: format!("{double}") }
}

fn floats(bits: &[u32]) -> Vec<f32> {
    bits.iter().map(|b| f32::from_bits(*b)).collect()
}

fn cosine_similarity(a: &[f32], b: &[f32]) -> f32 {
    let (mut dot, mut na, mut nb) = (0.0f32, 0.0f32, 0.0f32);
    for (x, y) in a.iter().zip(b) {
        dot += x * y;
        na += x * x;
        nb += y * y;
    }
    if na == 0.0 || nb == 0.0 {
        return 0.0;
    }
    dot / (na.sqrt() * nb.sqrt())
}

fn relevance(t: &Bm25Terms) -> f32 {
    let (k1, b) = (1.2f32, 0.75f32);
    let n = t.n_docs as f32;
    let avg = t.total_tokens as f32 / t.n_docs.max(1) as f32;
    let mut sum = 0.0f32;
    for (tf, df) in &t.terms {
        let (f, df) = (*tf as f32, (*df).max(1) as f32);
        let idf = (1.0 + (n - df + 0.5) / (df + 0.5)).ln();
        let norm = 1.0 - b + b * (t.doc_len as f32 / avg);
        sum += idf * (f * (k1 + 1.0)) / (f + k1 * norm);
    }
    sum
}

fn mean(weights: &[u32]) -> f32 {
    (floats(weights).iter().sum::<f32>() + 1.0) / (weights.len() as f32 + 2.0)
}

fn score(task: ScoreTask) -> u32 {
    let x: f32 = match task {
        ScoreTask::Similarity { embedding, query } => {
            cosine_similarity(&floats(&embedding), &floats(&query))
        }
        ScoreTask::Relevance(t) => relevance(&t),
        ScoreTask::Count(n) => n as f32,
        ScoreTask::Mean { weights } => mean(&weights),
        ScoreTask::Normalized { weights } => mean(&weights).clamp(0.0, 1.0),
        ScoreTask::Salience { similarity, weights } => {
            0.7 * f32::from_bits(similarity) + 0.3 * mean(&weights).clamp(0.0, 1.0)
        }
        ScoreTask::Feedback { votes } => {
            votes.iter().map(|(sign, age)| *sign as f32 * (1.0 / (1.0 + *age as f32))).sum()
        }
        ScoreTask::Fusion { lexical, vector } => {
            1.0 / (60.0 + lexical as f32) + 1.0 / (60.0 + vector as f32)
        }
    };
    x.to_bits()
}

fn show(x: Shown) -> String {
    match x {
        Shown::Double(b) => format!("{}", f64::from_bits(b)),
        Shown::Single(b) => format!("{}", f32::from_bits(b)),
        Shown::Fixed(b) => format!("{:.4}", f32::from_bits(b)),
        Shown::Pointed(b) => format!("{:?}", f32::from_bits(b)),
    }
}

fn line(server: &mut Server, input: &str) -> String {
    server.handle_line(input, &forms, &score, &show)
}

#[test]
fn insert_then_select_session_across_lines() {
    let mut s = Server::new();
    assert_eq!(
        line(&mut s, "CREATE TABLE t VECTOR<f32, 2>"),
        "OK",
        "create table"
    );
    assert_eq!(
        line(&mut s, r#"INSERT INTO t:1 { name: "a" } EMBED [1.0, 0.0]"#),
        "OK",
        "insert 1"
    );
    assert_eq!(
        line(&mut s, r#"INSERT INTO t:2 { name: "b" } EMBED [0.9, 0.1]"#),
        "OK",
        "insert 2"
    );
    let out = line(
        &mut s,
        "SELECT * FROM t WHERE vector::similarity(embedding, [1.0, 0.0]) AND k = 2",
    );
    // kNN without ORDER BY is enriched to ORDER BY ::similarity; nearest
    // record (t:1) must sort first, scores at 4dp, then OK.
    assert!(
        out.starts_with("SELECT t (2 rows): t:1 score=1.0000"),
        "nearest first with 4dp score, got: {out}"
    );
    assert!(
        out.contains("t:2 score=0.99"),
        "second row present with 4dp score, got: {out}"
    );
    assert!(out.ends_with("\nOK"), "final OK terminator, got: {out}");
}

#[test]
fn error_line_returns_err_and_session_survives() {
    let mut s = Server::new();
    let err = line(&mut s, "THIS IS NOT NQL");
    assert!(err.starts_with("ERR "), "parse error reported, got: {err}");
    assert!(!err.contains('\n'), "single-line ERR response");

    // SELECT before any CREATE TABLE fails analysis, not execution.
    let err2 = line(&mut s, "SELECT * FROM nowhere");
    assert!(
        err2.starts_with("ERR "),
        "analysis error reported, got: {err2}"
    );

    // The shared database still works afterwards.
    line(&mut s, "CREATE TABLE t");
    assert_eq!(line(&mut s, "INSERT INTO t:1 {}"), "OK");
    let out = line(&mut s, "SELECT * FROM t");
    assert!(out.contains("t:1"), "session survived errors, got: {out}");
}

#[test]
fn multi_statement_line_returns_per_select_lines() {
    let mut s = Server::new();
    line(&mut s, "CREATE TABLE a");
    line(&mut s, "CREATE TABLE b");
    line(&mut s, "INSERT INTO a:1 {}");
    line(&mut s, "INSERT INTO b:2 {}");
    let out = line(&mut s, "SELECT * FROM a; SELECT * FROM b;");
    let lines: Vec<&str> = out.lines().collect();
    assert_eq!(lines.len(), 3, "two SELECT lines + OK, got: {out}");
    assert!(lines[0].starts_with("SELECT a (1 rows): a:1"));
    assert!(lines[1].starts_with("SELECT b (1 rows): b:2"));
    assert_eq!(lines[2], "OK");
}

#[test]
fn empty_and_whitespace_lines_are_noops() {
    let mut s = Server::new();
    assert_eq!(line(&mut s, ""), "OK");
    assert_eq!(line(&mut s, "   \t  "), "OK");
    assert_eq!(line(&mut s, "\n"), "OK");
}

#[test]
fn cross_line_vector_dim_contract_is_enforced() {
    let mut s = Server::new();
    line(&mut s, "CREATE TABLE v VECTOR<f32, 2>");
    let err = line(&mut s, "INSERT INTO v:1 {} EMBED [1.0, 0.0, 0.0]");
    assert!(
        err.starts_with("ERR "),
        "dimension mismatch rejected, got: {err}"
    );
}

#[test]
fn forget_and_relate_across_lines() {
    let mut s = Server::new();
    line(&mut s, "CREATE TABLE n");
    line(&mut s, "INSERT INTO n:1 {}");
    line(&mut s, "INSERT INTO n:2 {}");
    line(&mut s, "RELATE (n:1) -> :refs -> (n:2) SET weight = 0.7");
    line(&mut s, "FORGET n:2");
    let out = line(&mut s, "SELECT * FROM n");
    assert!(
        out.contains("SELECT n (1 rows): n:1"),
        "only n:1 remains, got: {out}"
    );
}

#[test]
fn a_refused_line_changes_nothing() {
    let mut s = Server::new();
    line(&mut s, "CREATE TABLE v VECTOR<f32, 2>");
    let before = format!("{s:?}");
    for bad in [
        "INSERT INTO v:1 {} EMBED [1.0]",
        "INSERT INTO v:1 {}; INSERT INTO w:1 {}",
        "CREATE TABLE x; SELECT * FROM y",
        "SELECT * FROM v ORDER BY ::similarity",
        "SELECT",
    ] {
        assert!(line(&mut s, bad).starts_with("ERR "), "{bad}");
        assert_eq!(format!("{s:?}"), before, "{bad}");
    }
}

#[test]
fn documented_session_is_answered_to_the_letter() {
    let mut s = Server::default();
    assert_eq!(line(&mut s, "CREATE TABLE person VECTOR<f32, 2>"), "OK");
    assert_eq!(line(&mut s, r#"INSERT INTO person:1 { name: "alice" } EMBED [1.0, 0.0]"#), "OK");
    assert_eq!(line(&mut s, r#"INSERT INTO person:2 { name: "bob" } EMBED [0.9, 0.1]"#), "OK");
    assert_eq!(
        line(
            &mut s,
            "SELECT * FROM person WHERE vector::similarity(embedding, [1.0, 0.0]) AND k = 2"
        ),
        "SELECT person (2 rows): person:1 score=1.0000 {name=\"alice\"}; person:2 score=0.9939 {name=\"bob\"}\nOK"
    );
    assert_eq!(
        line(&mut s, "SELECT * FROM person"),
        "SELECT person (2 rows): person:1 score=0.0000 {name=\"alice\"}; person:2 score=0.0000 {name=\"bob\"}\nOK"
    );
}

#[test]
fn walks_are_answered_with_their_paths() {
    let mut s = Server::new();
    line(&mut s, "CREATE TABLE n; INSERT INTO n:1 {}; INSERT INTO n:2 { deep: { a: [1, \"x\", true, 4] } }");
    line(&mut s, "RELATE (n:1) -> :refs -> (n:2) SET weight = 0.7");
    assert_eq!(
        line(&mut s, "MATCH (n:1) -> :refs"),
        "MATCH n:1 ->:refs (1 rows): n:2 score=0.7000 {deep={a=[1, \"x\", true]}}\nOK"
    );
    assert_eq!(
        line(&mut s, "CLOSURE (n:2) <- :refs; MATCH (n:2) -> :refs <- :refs"),
        "CLOSURE n:2 <-:refs (2 rows): n:2 score=0.0000 {deep={a=[1, \"x\", true]}}; n:1 score=1.0000 {}\nMATCH n:2 ->:refs <-:refs (0 rows)\nOK"
    );
}

#[test]
fn values_are_shown_short() {
    let mut s = Server::new();
    line(&mut s, "CREATE TABLE t");
    line(&mut s, r#"INSERT INTO t:1 { a: null, b: false, c: 1.5, d: "q\"uote", e: [1, 2, 3, 4, 5], f: {} }"#);
    assert_eq!(
        line(&mut s, "  SELECT * FROM t  "),
        "SELECT t (1 rows): t:1 score=0.0000 {a=null, b=false, c=1.5, d=\"q\\\"uote\", e=[1, 2, 3, 4, ...], f={}}\nOK"
    );
}

#[test]
fn a_line_may_redeclare_a_table() {
    let mut s = Server::new();
    line(&mut s, "CREATE TABLE v VECTOR<f32, 2>");
    assert_eq!(line(&mut s, "CREATE TABLE v VECTOR<f32, 3>; INSERT INTO v:1 {} EMBED [1, 2, 3]"), "OK");
    assert!(line(&mut s, "INSERT INTO v:2 {} EMBED [1, 2]").starts_with("ERR "));
    assert_eq!(line(&mut s, "INSERT INTO v:2 {} EMBED [1, 2, 4]"), "OK");
    // On a line that declares the table itself, the declaration comes first.
    assert!(line(&mut s, "SELECT * FROM v; CREATE TABLE v").starts_with("ERR "));
}

#[test]
fn a_refusal_is_one_line() {
    let mut s = Server::new();
    let out = line(&mut s, r#"CREATE TABLE "a\nb""#);
    assert!(out.starts_with("ERR parse error at 1:14: expected table name"), "{out}");
    assert!(out.ends_with("found string `a\\nb`"), "{out}");
    assert!(!out.contains('\n'));
    let out = line(&mut s, r#"CREATE TABLE "a\r\nb""#);
    assert!(out.ends_with("found string `a\\r\\nb`"), "{out}");
    assert!(!out.contains('\n') && !out.contains('\r'));
    assert_eq!(line(&mut s, "CREATE TABLE t"), "OK");
}

#[test]
fn a_result_is_one_line() {
    let mut s = Server::new();
    line(&mut s, "CREATE TABLE t");
    assert_eq!(line(&mut s, r#"INSERT INTO t:1 { "a\nb": "c\nd", e: { "f\rg": 1 } }"#), "OK");
    assert_eq!(
        line(&mut s, "SELECT * FROM t"),
        "SELECT t (1 rows): t:1 score=0.0000 {a\\nb=\"c\\nd\", e={f\\rg=1}}\nOK"
    );
}
