//! The interactive session.
use nqlite::bm25::Bm25Terms;
use nqlite::cli::{display_id, read_command, Command, Session};
use nqlite::ir::RecordId;
use nqlite::number::{Form, Numeral};
use nqlite::render::Shown;
use nqlite::score::ScoreTask;

fn forms(n: Numeral) -> Form {
    let (double, single) = match &n {
        Numeral::Int(i) => (*i as f64, *i as f32),
        Numeral::Decimal(s) => {
            let x: f64 = s.parse().expect("a decimal numeral");
            (x, x as f32)
        }
        Numeral::Wide(i) => (*i as f64, *i as f64 as f32),
        Numeral::Double(b) => (f64::from_bits(*b), f64::from_bits(*b) as f32),
        Numeral::Single(b) => (f32::from_bits(*b) as f64, f32::from_bits(*b)),
    };
    Form { double: double.to_bits(), single: single.to_bits(), shown: format!("{double}") }
}

fn floats(bits: &[u32]) -> Vec<f32> {
    bits.iter().map(|b| f32::from_bits(*b)).collect()
}

fn cosine_similarity(a: &[f32], b: &[f32]) -> f32 {
    let (mut dot, mut na, mut nb) = (0.0f32, 0.0f32, 0.0f32);
    for (x, y) in a.iter().zip(b) {
        dot += x * y;
        na += x * x;
        nb += y * y;
    }
    if na == 0.0 || nb == 0.0 {
        return 0.0;
    }
    dot / (na.sqrt() * nb.sqrt())
}

fn relevance(t: &Bm25Terms) -> f32 {
    let (k1, b) = (1.2f32, 0.75f32);
    let n = t.n_docs as f32;
    let avg = t.total_tokens as f32 / t.n_docs.max(1) as f32;
    let mut sum = 0.0f32;
    for (tf, df) in &t.terms {
        let (f, df) = (*tf as f32, (*df).max(1) as f32);
        let idf = (1.0 + (n - df + 0.5) / (df + 0.5)).ln();
        let norm = 1.0 - b + b * (t.doc_len as f32 / avg);
        sum += idf * (f * (k1 + 1.0)) / (f + k1 * norm);
    }
    sum
}

fn mean(weights: &[u32]) -> f32 {
    (floats(weights).iter().sum::<f32>() + 1.0) / (weights.len() as f32 + 2.0)
}

fn score(task: ScoreTask) -> u32 {
    let x: f32 = match task {
        ScoreTask::Similarity { embedding, query } => {
            cosine_similarity(&floats(&embedding), &floats(&query))
        }
        ScoreTask::Relevance(t) => relevance(&t),
        ScoreTask::Count(n) => n as f32,
        ScoreTask::Mean { weights } => mean(&weights),
        ScoreTask::Normalized { weights } => mean(&weights).clamp(0.0, 1.0),
        ScoreTask::Salience { similarity, weights } => {
            0.7 * f32::from_bits(similarity) + 0.3 * mean(&weights).clamp(0.0, 1.0)
        }
        ScoreTask::Feedback { votes } => {
            votes.iter().map(|(sign, age)| *sign as f32 * (1.0 / (1.0 + *age as f32))).sum()
        }
        ScoreTask::Fusion { lexical, vector } => {
            1.0 / (60.0 + lexical as f32) + 1.0 / (60.0 + vector as f32)
        }
    };
    x.to_bits()
}

fn show(x: Shown) -> String {
    match x {
        Shown::Double(b) => format!("{}", f64::from_bits(b)),
        Shown::Single(b) => format!("{}", f32::from_bits(b)),
        Shown::Fixed(b) => format!("{:.4}", f32::from_bits(b)),
        Shown::Pointed(b) => format!("{:?}", f32::from_bits(b)),
    }
}

/// Runs a fresh session over a string and returns everything it shows.
fn run_session_text(input: &str) -> String {
    let mut s = Session::new();
    s.run(input, &forms, &score, &show).unwrap().output
}

#[test]
fn session_insert_then_select() {
    let out = run_session_text(
        "CREATE TABLE t VECTOR<f32, 2>;
         INSERT INTO t:1 { \"name\": \"a\" } EMBED [1.0, 0.0];
         INSERT INTO t:2 { \"name\": \"b\" } EMBED [0.9, 0.1];
         SELECT * FROM t WHERE vector::similarity(embedding, [1.0, 0.0]) AND k = 1 ORDER BY ::similarity;",
    );
    assert!(out.contains("t:1"), "nearest is t:1, got:\n{out}");
    assert!(out.contains("name=\"a\""), "field present, got:\n{out}");
}

#[test]
fn parse_error_is_reported_not_panic() {
    let out = run_session_text("THIS IS NOT NQL");
    assert!(out.contains("error:"), "got:\n{out}");
}

#[test]
fn script_mode_with_forget_and_relate() {
    let out = run_session_text(
        "CREATE TABLE n;
         INSERT INTO n:1 { \"a\": 1 };
         INSERT INTO n:2 { \"a\": 2 };
         RELATE (n:1) -> :refs -> (n:2) SET weight = 0.7;
         FORGET n:2;
         SELECT * FROM n;",
    );
    assert!(
        out.contains("SELECT n (1"),
        "one row after forget, got:\n{out}"
    );
}

#[test]
fn results_and_store_are_shown_to_the_letter() {
    let mut s = Session::new();
    let ran = s
        .run(
            "CREATE TABLE t VECTOR<f32, 2>;
             INSERT INTO t:1 { name: \"a\" } EMBED [1.0, 0.5];
             INSERT INTO t:2 {};
             RELATE (t:1) -> :refs -> (t:2) SET weight = 0.7;
             RELATE (t:2) -> :refs -> (t:1);
             SELECT * FROM t;
             MATCH (t:1) -> :refs;",
            &forms,
            &score,
            &show,
        )
        .unwrap();
    assert_eq!(ran.count, 7);
    assert!(ran.log.is_empty(), "nothing is logged in memory");
    assert_eq!(
        ran.output,
        "SELECT t (2)\n  t:1  score=0.0000  {name=\"a\"}\n  t:2  score=0.0000  {}\nMATCH t:1 ->:refs (1)\n  t:2  score=0.7000  {}\n"
    );
    assert_eq!(
        s.dump_store(&show),
        "tables:\n  t  VECTOR<f32,2>\nrecords:\n  t:1  {name=\"a\"} emb=[1, 0.5]\n  t:2  {}\nedges:\n  t:1 -[:refs]-> t:2  w=Some(0.7)\n  t:2 -[:refs]-> t:1  w=None\n"
    );
    assert!(s.clear());
    assert_eq!(s.dump_store(&show), "tables:\nrecords:\nedges:\n");
}

#[test]
fn blank_unparsable_and_failing_inputs_run_nothing() {
    let mut s = Session::new();
    let ran = s.run("  \n", &forms, &score, &show).unwrap();
    assert_eq!((ran.output.as_str(), ran.count), ("", 0));
    let ran = s.run("CREATE", &forms, &score, &show).unwrap();
    assert!(ran.output.starts_with("error: parse error at 1:"), "{}", ran.output);
    assert_eq!(ran.count, 0);
    let err = s
        .run("CREATE TABLE v VECTOR<f32, 2>; INSERT INTO v:1 {} EMBED [1]", &forms, &score, &show)
        .unwrap_err();
    assert_eq!(err.to_text(), "embedding dimension mismatch for table `v`: declared dim 2, got 1");
    assert_eq!(s.dump_store(&show), "tables:\nrecords:\nedges:\n");
}

#[test]
fn the_prompt_reads_commands() {
    assert_eq!(read_command("  \t"), Command::Skip);
    assert_eq!(read_command(" :help "), Command::Help);
    assert_eq!(read_command(":quit"), Command::Quit);
    assert_eq!(read_command(":exit"), Command::Quit);
    assert_eq!(read_command(":clear"), Command::Clear);
    assert_eq!(read_command(":flush"), Command::Flush);
    assert_eq!(read_command(":store\n"), Command::Show);
    assert_eq!(read_command(" FORGET t:1 "), Command::Run("FORGET t:1".into()));
    assert_eq!(read_command(":Help"), Command::Run(":Help".into()));
}

#[test]
fn ids_are_displayed_as_written() {
    assert_eq!(display_id(&RecordId::parse("person:alice").unwrap()), "person:alice");
}

#[test]
fn a_persisted_session_is_not_cleared() {
    let decode = |_: Vec<u8>| -> Option<nqlite::ir::Statement> { None };
    let (db, _) = nqlite::database::Database::open("x.nql", Default::default(), &vec![], &decode);
    let mut s = Session { db };
    s.run("INSERT INTO t:1 { n: 1 }", &forms, &score, &show).unwrap();
    assert!(!s.clear());
    assert_eq!(s.dump_store(&show), "tables:\nrecords:\n  t:1  {n=1}\nedges:\n");
}

#[test]
fn a_field_name_is_written_as_it_is() {
    assert_eq!(
        run_session_text("INSERT INTO t:1 { \"a\\nb\": 1 }; SELECT * FROM t"),
        "SELECT t (1)\n  t:1  score=0.0000  {a\nb=1}\n"
    );
}
