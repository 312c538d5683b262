//! Lexical relevance: words, counts and scores.
use nqlite::bm25::{tokenize, Bm25Index, Bm25Terms};
use nqlite::ir::{Body, Id, Record, RecordId, Value};
use nqlite::ordmap::OrdMap;

fn relevance(t: &Bm25Terms) -> f32 {
    let (k1, b) = (1.2f32, 0.75f32);
    let n = t.n_docs as f32;
    let avg = t.total_tokens as f32 / t.n_docs.max(1) as f32;
    let mut sum = 0.0f32;
    for (tf, df) in &t.terms {
        let (f, df) = (*tf as f32, (*df).max(1) as f32);
        let idf = (1.0 + (n - df + 0.5) / (df + 0.5)).ln();
        let norm = 1.0 - b + b * (t.doc_len as f32 / avg);
        sum += idf * (f * (k1 + 1.0)) / (f + k1 * norm);
    }
    sum
}

fn score(idx: &Bm25Index, id: &RecordId, query: &Vec<String>) -> f32 {
    idx.score(id, query).map_or(0.0, |t| relevance(&t))
}

fn body<const N: usize>(fields: [(String, Value); N]) -> Body {
    let mut out = OrdMap::new();
    for (k, v) in fields {
        out.insert(k, v);
    }
    out
}

fn rec(id: &str, body: Body) -> Record {
    Record {
        id: RecordId::parse(id).unwrap(),
        body,
        embedding: None,
        created_at: 0,
    }
}

fn str_(s: &str) -> Value {
    Value::Str(s.to_string())
}

fn index_over(records: Vec<Record>) -> Bm25Index {
    Bm25Index::new("text", &records)
}

#[test]
fn tokenizer_is_deterministic_and_normalizes() {
    let a = tokenize("Hello, WORLD!  123  hello-world #tag");
    let b = tokenize("Hello, WORLD!  123  hello-world #tag");
    assert_eq!(a, b, "tokenize must be a pure function of its input");
    assert_eq!(a, ["hello", "world", "123", "hello", "world", "tag"]);
    // Unicode alphanumerics survive; symbols split.
    assert_eq!(tokenize("café-au-lait 42"), ["café", "au", "lait", "42"]);
    // Empty and separator-only input tokenize to nothing.
    assert!(tokenize("").is_empty());
    assert!(tokenize("  !!!  ,,, ").is_empty());
}

#[test]
fn bm25_ranks_term_dense_doc_above_sparse_doc() {
    let dense = rec(
        "doc:dense",
        body([("text".into(), str_("rust rust rust rust rust"))]),
        );
    let sparse = rec(
        "doc:sparse",
        body([("text".into(), str_("rust is a systems language"))]),
        );
    let idx = index_over(vec![dense, sparse]);
    let q = tokenize("rust");
    let dense_score = score(&idx, &RecordId::parse("doc:dense").unwrap(), &q);
    let sparse_score = score(&idx, &RecordId::parse("doc:sparse").unwrap(), &q);
    assert!(
        dense_score > sparse_score,
        "term-dense doc ({dense_score}) must outrank sparse doc ({sparse_score})"
    );
    assert!(dense_score > 0.0 && sparse_score > 0.0);
}

#[test]
fn bm25_absent_term_scores_zero_and_idf_never_negative() {
    let a = rec("doc:a", body([("text".into(), str_("alpha"))]));
    let b = rec("doc:b", body([("text".into(), str_("beta"))]));
    let idx = index_over(vec![a, b]);
    let q = tokenize("gamma");
    assert_eq!(score(&idx, &RecordId::parse("doc:a").unwrap(), &q), 0.0);
    assert_eq!(score(&idx, &RecordId::parse("doc:b").unwrap(), &q), 0.0);
    // Direct formula check: idf stays >= 0 even when a term is in every doc.
    let score = relevance(&Bm25Terms { terms: vec![(1, 2)], n_docs: 2, total_tokens: 2, doc_len: 1 });
    assert!(score >= 0.0, "idf must never make a score negative");
}

#[test]
fn empty_query_scores_zero() {
    let a = rec(
        "doc:a",
        body([("text".into(), str_("hello world"))]),
        );
    let b = rec("doc:b", body([("text".into(), str_("hello"))]));
    let idx = index_over(vec![a, b]);
    assert_eq!(score(&idx, &RecordId::parse("doc:a").unwrap(), &vec![]), 0.0);
    assert_eq!(score(&idx, &RecordId::parse("doc:b").unwrap(), &vec![]), 0.0);
}

#[test]
fn missing_or_non_str_field_scores_zero_and_is_unindexed() {
    let missing = rec(
        "doc:missing",
        body([("other".into(), str_("hello"))]),
        );
    let non_str = rec(
        "doc:nonstr",
        body([("text".into(), Value::Int(42))]),
        );
    let empty = rec("doc:empty", body([("text".into(), str_(""))]));
    let present = rec(
        "doc:present",
        body([("text".into(), str_("hello"))]),
        );
    let idx = index_over(vec![missing, non_str, empty, present]);
    // Only the two `Value::Str` records are indexed.
    assert_eq!(idx.len(), 2);
    for id in ["doc:missing", "doc:nonstr", "doc:empty"] {
        assert_eq!(
            score(&idx, &RecordId::parse(id).unwrap(), &tokenize("hello")),
            0.0,
            "{id} must score 0"
        );
    }
    assert!(score(&idx, &RecordId::parse("doc:present").unwrap(), &tokenize("hello")) > 0.0);
}

#[test]
fn index_build_and_scores_are_deterministic() {
    let records = vec![
        rec(
            "doc:1",
            body([("text".into(), str_("the quick brown fox"))]),
            ),
        rec(
            "doc:2",
            body([("text".into(), str_("lazy dog fox"))]),
            ),
    ];
    let a = index_over(records.clone());
    let b = index_over(records);
    assert_eq!(a, b);
    let q = tokenize("fox dog");
    for id in ["doc:1", "doc:2"] {
        let rid = RecordId::parse(id).unwrap();
        assert_eq!(score(&a, &rid, &q), score(&b, &rid, &q));
    }
    // Freshly built index over the same records scores identically too.
    let c = index_over(vec![
        rec(
            "doc:1",
            body([("text".into(), str_("the quick brown fox"))]),
            ),
        rec(
            "doc:2",
            body([("text".into(), str_("lazy dog fox"))]),
            ),
    ]);
    assert_eq!(a, c);
}

#[test]
fn id_numeric_variant_works_in_index() {
    // Guard: RecordId::Num keys participate in the index like any other.
    let r = Record {
        id: RecordId::new("doc".into(), Id::Num(7)),
        body: body([("text".into(), str_("unique needle"))]),
        embedding: None,
        created_at: 0,
    };
    let idx = index_over(vec![r]);
    let rid = RecordId::new("doc".into(), Id::Num(7));
    assert!(score(&idx, &rid, &tokenize("needle")) > 0.0);
}

#[test]
fn terms_are_counted_once_each() {
    let idx = index_over(vec![
        rec("d:1", body([("text".into(), str_("Rust, rust & more rust"))])),
        rec("d:2", body([("text".into(), str_("more"))])),
    ]);
    assert_eq!(idx.field(), "text");
    assert!(!idx.is_empty());
    let terms = idx.score(&RecordId::parse("d:1").unwrap(), &tokenize("MORE rust rust absent"));
    assert_eq!(
        terms,
        Some(Bm25Terms { terms: vec![(1, 2), (3, 1)], n_docs: 2, total_tokens: 5, doc_len: 4 })
    );
    assert_eq!(idx.score(&RecordId::parse("d:9").unwrap(), &tokenize("rust")), None);
}

#[test]
fn words_are_lowercase_beyond_ascii() {
    assert_eq!(tokenize("ÄPFEL Straße"), ["äpfel", "straße"]);
    assert_eq!(tokenize("x_y"), ["x", "y"]);
}

#[test]
fn relevance_is_the_okapi_formula() {
    let idx = index_over(vec![rec("d:1", body([("text".into(), str_("rust"))]))]);
    let one = score(&idx, &RecordId::parse("d:1").unwrap(), &tokenize("rust"));
    // ln(1 + 0.5 / 1.5) * 2.2 / 2.2
    assert!((one - (4.0f32 / 3.0).ln()).abs() < 1e-6);
    // With a text without words beside it the mean length is 1/2:
    // ln(1 + 1.5 / 1.5) * 2.2 / (1 + 1.2 * (0.25 + 0.75 * 2))
    let idx = index_over(vec![
        rec("d:1", body([("text".into(), str_("rust"))])),
        rec("d:2", body([("text".into(), str_(""))])),
    ]);
    let two = score(&idx, &RecordId::parse("d:1").unwrap(), &tokenize("rust"));
    assert!((two - 2.0f32.ln() * 2.2 / 3.1).abs() < 1e-6, "{two}");
}

#[test]
fn a_separator_splits_words() {
    for (a, b) in [("Hello big", "WORLD 1"), ("", "x"), ("x ", ""), ("é", "ß-7")] {
        for c in [' ', '-', '\n', '#'] {
            let mut want = tokenize(a);
            want.extend(tokenize(b));
            assert_eq!(tokenize(&format!("{a}{c}{b}")), want);
        }
    }
    assert_eq!(tokenize("ABC123"), ["abc123"]);
    assert!(tokenize("-- İ, ǅ; ß ﬁ ΑΣ 1 --").iter().all(|w| !w.is_empty()));
}

#[test]
fn the_index_does_not_depend_on_the_order_of_records() {
    let make = |order: &[usize]| {
        let all = [("d:1", "red fox"), ("d:2", "fox fox"), ("d:3", ""), ("d:4", "blue")];
        let mut recs: Vec<Record> =
            order.iter().map(|i| rec(all[*i].0, body([("text".into(), str_(all[*i].1))]))).collect();
        if order[0] > 1 {
            recs.insert(1, rec("d:9", body([("text".into(), Value::Int(1))])));
            recs.push(rec("d:8", body([])));
        }
        index_over(recs)
    };
    let want = make(&[0, 1, 2, 3]);
    for order in [[1, 0, 2, 3], [3, 2, 1, 0], [2, 0, 3, 1]] {
        assert_eq!(make(&order), want);
    }
}

#[test]
fn a_record_is_relevant_if_it_shares_a_word() {
    let idx = index_over(vec![
        rec("d:1", body([("text".into(), str_("red fox"))])),
        rec("d:2", body([("text".into(), str_("fox"))])),
    ]);
    let terms = |id: &str, q: &str| {
        idx.score(&RecordId::parse(id).unwrap(), &tokenize(q)).map_or(0, |t| t.terms.len())
    };
    assert_eq!((terms("d:1", "FOX"), terms("d:1", "red, fox"), terms("d:2", "red")), (1, 2, 0));
    assert_eq!((terms("d:2", "fox fox"), terms("d:3", "fox"), terms("d:1", "")), (1, 0, 0));
}

#[test]
fn the_counts_of_a_relevance_are_in_range() {
    let idx = index_over(vec![
        rec("d:1", body([("text".into(), str_("red fox red"))])),
        rec("d:2", body([("text".into(), str_("fox"))])),
        rec("d:3", body([("text".into(), str_(""))])),
    ]);
    for id in ["d:1", "d:2", "d:3"] {
        let Some(t) = idx.score(&RecordId::parse(id).unwrap(), &tokenize("fox red none")) else {
            assert_eq!(id, "d:3");
            continue;
        };
        assert!(1 <= t.doc_len && t.doc_len <= t.total_tokens && t.n_docs == 3);
        assert!(t.terms.iter().all(|(tf, df)| {
            (1..=t.doc_len).contains(tf) && (1..=t.n_docs).contains(df)
        }));
        assert!(relevance(&t) > 0.0);
    }
}
