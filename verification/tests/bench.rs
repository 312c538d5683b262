//! The benchmark data.
use nqlite::bench::{chain_statements, closure_stmt, corpus, query_vector, xorshift, DIM, SEED};
use nqlite::bm25::Bm25Terms;
use nqlite::database::Database;
use nqlite::ir::{Id, RecordId, Statement, Value};
use nqlite::score::ScoreTask;

fn floats(bits: &[u32]) -> Vec<f32> {
    bits.iter().map(|b| f32::from_bits(*b)).collect()
}

fn cosine_similarity(a: &[f32], b: &[f32]) -> f32 {
    let (mut dot, mut na, mut nb) = (0.0f32, 0.0f32, 0.0f32);
    for (x, y) in a.iter().zip(b) {
        dot += x * y;
        na += x * x;
        nb += y * y;
    }
    if na == 0.0 || nb == 0.0 {
        return 0.0;
    }
    dot / (na.sqrt() * nb.sqrt())
}

fn relevance(t: &Bm25Terms) -> f32 {
    let (k1, b) = (1.2f32, 0.75f32);
    let n = t.n_docs as f32;
    let avg = t.total_tokens as f32 / t.n_docs.max(1) as f32;
    let mut sum = 0.0f32;
    for (tf, df) in &t.terms {
        let (f, df) = (*tf as f32, (*df).max(1) as f32);
        let idf = (1.0 + (n - df + 0.5) / (df + 0.5)).ln();
        let norm = 1.0 - b + b * (t.doc_len as f32 / avg);
        sum += idf * (f * (k1 + 1.0)) / (f + k1 * norm);
    }
    sum
}

fn mean(weights: &[u32]) -> f32 {
    (floats(weights).iter().sum::<f32>() + 1.0) / (weights.len() as f32 + 2.0)
}

fn score(task: ScoreTask) -> u32 {
    let x: f32 = match task {
        ScoreTask::Similarity { embedding, query } => {
            cosine_similarity(&floats(&embedding), &floats(&query))
        }
        ScoreTask::Relevance(t) => relevance(&t),
        ScoreTask::Count(n) => n as f32,
        ScoreTask::Mean { weights } => mean(&weights),
        ScoreTask::Normalized { weights } => mean(&weights).clamp(0.0, 1.0),
        ScoreTask::Salience { similarity, weights } => {
            0.7 * f32::from_bits(similarity) + 0.3 * mean(&weights).clamp(0.0, 1.0)
        }
        ScoreTask::Feedback { votes } => {
            votes.iter().map(|(sign, age)| *sign as f32 * (1.0 / (1.0 + *age as f32))).sum()
        }
        ScoreTask::Fusion { lexical, vector } => {
            1.0 / (60.0 + lexical as f32) + 1.0 / (60.0 + vector as f32)
        }
    };
    x.to_bits()
}

fn thousandths(n: u32) -> u32 {
    (n as f32 / 1000.0).to_bits()
}

#[test]
fn corpus_is_deterministic_across_calls() {
    // Same seed, same records, same order.
    let a = corpus(64, &thousandths);
    let b = corpus(64, &thousandths);
    assert_eq!(a.len(), b.len());
    for (ra, rb) in a.iter().zip(b.iter()) {
        assert_eq!(ra.id, rb.id);
        assert_eq!(ra.body, rb.body);
        assert_eq!(ra.embedding, rb.embedding);
    }
}

#[test]
fn corpus_dim_and_vocab_match_harness_contract() {
    let docs = corpus(16, &thousandths);
    assert_eq!(DIM, 8);
    for d in &docs {
        assert_eq!(d.embedding.as_ref().unwrap().len(), DIM);
        if let Some(Value::Str(text)) = d.body.get(&"text".to_string()) {
            let words: Vec<&str> = text.split(' ').collect();
            assert_eq!(words.len(), 2, "two-word bodies: {text}");
        } else {
            panic!("missing text body");
        }
    }
}

#[test]
fn chain_corpus_closure_walks_every_record_once() {
    // CLOSURE from the head visits every record of the chain exactly once, in chain order.
    let rows = 64;
    let mut db = Database::default();
    db.execute(&chain_statements(rows), &score).expect("ingest");
    let res = db.execute(&vec![closure_stmt()], &score).expect("closure");
    // One result for the CLOSURE statement, with every chain record in first-visit order.
    assert_eq!(res.len(), 1);
    let visited = &res[0].rows;
    assert_eq!(visited.len(), rows, "closure visits every chain record");
    for (i, r) in visited.iter().enumerate() {
        assert_eq!(r.record.id, RecordId::new("context".into(), Id::Num((i + 1) as u64)));
    }
    // Determinism: a fresh database yields the identical result.
    let mut db2 = Database::default();
    db2.execute(&chain_statements(rows), &score).expect("ingest");
    let res2 = db2.execute(&vec![closure_stmt()], &score).expect("closure");
    assert_eq!(res, res2);
}

#[test]
fn the_generator_is_xorshift64_star() {
    let mut state = 1u64;
    assert_eq!(xorshift(&mut state), 0xbafa_cf62_4f01_c45d);
    assert_eq!(state, 0x4082_2041);
    let mut a = SEED;
    let mut b = SEED;
    assert_eq!(xorshift(&mut a), xorshift(&mut b));
    assert_eq!(a, b);
}

#[test]
fn the_query_is_the_first_embedding() {
    let first = corpus(1, &thousandths);
    assert_eq!(first[0].embedding, Some(query_vector(&thousandths)));
    assert_eq!(first[0].id, RecordId::new("doc".into(), Id::Num(0)));
    assert_eq!(corpus(12, &thousandths)[11].body.get(&"group".to_string()), Some(&Value::Int(1)));
}

#[test]
fn short_chains_have_few_edges() {
    assert!(chain_statements(0).is_empty());
    assert_eq!(chain_statements(1).len(), 1);
    let two = chain_statements(2);
    assert_eq!(two.len(), 3);
    assert!(matches!(&two[2], Statement::Relate(e) if e.from.to_text() == "context:1" && e.to.to_text() == "context:2"));
}
