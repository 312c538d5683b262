//! The language: what a program parses to, and how it fails.
use nqlite::ir::{
    Body, Filter, Id, Knn, MatchDirection, Order, Plan, RecordId, Select, Statement, Value,
};
use nqlite::number::{Form, Numeral};
use nqlite::ordmap::OrdMap;
use nqlite::parser::NqlError;

fn forms(n: Numeral) -> Form {
    let (double, single) = match &n {
        Numeral::Int(i) => (*i as f64, *i as f32),
        Numeral::Decimal(s) => {
            let x: f64 = s.parse().expect("a decimal numeral");
            (x, x as f32)
        }
        Numeral::Wide(i) => (*i as f64, *i as f64 as f32),
        Numeral::Double(b) => (f64::from_bits(*b), f64::from_bits(*b) as f32),
        Numeral::Single(b) => (f32::from_bits(*b) as f64, f32::from_bits(*b)),
    };
    Form { double: double.to_bits(), single: single.to_bits(), shown: format!("{double}") }
}

fn parse(input: &str) -> Result<Plan, NqlError> {
    nqlite::parser::parse(input, &forms)
}

fn parse_statement(input: &str) -> Result<Statement, NqlError> {
    nqlite::parser::parse_statement(input, &forms)
}

fn float(x: f64) -> Value {
    Value::Float(x.to_bits())
}

fn singles(xs: &[f32]) -> Vec<u32> {
    xs.iter().map(|x| x.to_bits()).collect()
}

fn field<'a>(body: &'a Body, name: &str) -> Option<&'a Value> {
    body.get(&name.to_string())
}

fn rid(s: &str) -> RecordId {
    RecordId::parse(s).expect("valid record id in test")
}

fn doc(entries: &[(&str, Value)]) -> Body {
    let mut body = OrdMap::new();
    for (k, v) in entries {
        body.insert(k.to_string(), v.clone());
    }
    body
}

#[test]
fn create_table_plain() {
    let plan = parse("CREATE TABLE person").unwrap();
    assert_eq!(
        plan,
        vec![Statement::CreateTable {
            table: "person".into(),
            vector_dim: None,
        }]
    );
}

#[test]
fn create_table_with_vector_dim() {
    let plan = parse("CREATE TABLE doc VECTOR<f32, 384>").unwrap();
    assert_eq!(
        plan,
        vec![Statement::CreateTable {
            table: "doc".into(),
            vector_dim: Some(384),
        }]
    );
}

#[test]
fn insert_with_body_and_embed() {
    let plan = parse(
        r#"INSERT INTO note:42 { "text": "hello\nworld", "count": 3, "pi": 3.5, "ok": true, "tags": ["a", "b"], "vec": [1.0, 2.0], "meta": {"x": 1} } EMBED [0.1, 0.2, 0.3]"#,
    )
    .unwrap();
    let Statement::Insert(rec) = &plan[0] else {
        panic!("expected Insert, got {:?}", plan[0]);
    };
    assert_eq!(rec.id, rid("note:42"));
    assert_eq!(rec.created_at, 0, "parser must not clock created_at");
    assert_eq!(
        rec.embedding,
        Some(singles(&[0.1, 0.2, 0.3])),
        "EMBED clause sets the record embedding"
    );
    assert_eq!(
        field(&rec.body, "text"),
        Some(&Value::Str("hello\nworld".into()))
    );
    assert_eq!(field(&rec.body, "count"), Some(&Value::Int(3)));
    assert_eq!(field(&rec.body, "pi"), Some(&float(3.5)));
    assert_eq!(field(&rec.body, "ok"), Some(&Value::Bool(true)));
    assert_eq!(
        field(&rec.body, "tags"),
        Some(&Value::Arr(vec![
            Value::Str("a".into()),
            Value::Str("b".into())
        ]))
    );
    assert_eq!(
        field(&rec.body, "vec"),
        Some(&Value::Vector(singles(&[1.0, 2.0]))),
        "all-numeric arrays collapse to Value::Vector"
    );
    assert_eq!(
        field(&rec.body, "meta"),
        Some(&Value::Doc(doc(&[("x", Value::Int(1))])))
    );
}

#[test]
fn insert_uses_string_id_and_bare_keys() {
    let plan = parse(r#"INSERT INTO person:alice { name: "Alice", age: 30 }"#).unwrap();
    let Statement::Insert(rec) = &plan[0] else {
        panic!("expected Insert");
    };
    assert_eq!(rec.id, rid("person:alice"));
    assert_eq!(rec.id.id, Id::Str("alice".into()));
    assert_eq!(field(&rec.body, "name"), Some(&Value::Str("Alice".into())));
    assert_eq!(field(&rec.body, "age"), Some(&Value::Int(30)));
    assert!(rec.embedding.is_none());
}

#[test]
fn relate_with_weight_and_props() {
    let plan = parse(
        r#"RELATE (person:1) -> :likes -> (note:42) SET weight = 0.9, confidence = 0.5, note = "seen""#,
    )
    .unwrap();
    let Statement::Relate(e) = &plan[0] else {
        panic!("expected Relate, got {:?}", plan[0]);
    };
    assert_eq!(e.from, rid("person:1"));
    assert_eq!(e.name, "likes");
    assert_eq!(e.to, rid("note:42"));
    assert_eq!(e.weight, Some(0.9f32.to_bits()));
    assert_eq!(e.created_at, 0);
    assert_eq!(
        e.props,
        doc(&[
            ("confidence", float(0.5)),
            ("note", Value::Str("seen".into())),
        ])
    );
}

#[test]
fn relate_without_set() {
    let plan = parse("RELATE (a:1) -> :mentions -> (b:2)").unwrap();
    let Statement::Relate(e) = &plan[0] else {
        panic!("expected Relate");
    };
    assert_eq!(e.name, "mentions");
    assert_eq!(e.weight, None);
    assert!(e.props.is_empty());
}

#[test]
fn match_outgoing_one_hop() {
    let plan = parse("MATCH (turn:3) -> :mentions").unwrap();
    let Statement::Match(p) = &plan[0] else {
        panic!("expected Match, got {:?}", plan[0]);
    };
    assert_eq!(p.start, rid("turn:3"));
    assert_eq!(p.steps.len(), 1);
    assert_eq!(p.steps[0].direction, MatchDirection::Out);
    assert_eq!(p.steps[0].name, "mentions");
}

#[test]
fn match_incoming_one_hop() {
    let plan = parse("MATCH (note:42) <- :mentions").unwrap();
    let Statement::Match(p) = &plan[0] else {
        panic!("expected Match, got {:?}", plan[0]);
    };
    assert_eq!(p.start, rid("note:42"));
    assert_eq!(p.steps.len(), 1);
    assert_eq!(p.steps[0].direction, MatchDirection::In);
    assert_eq!(p.steps[0].name, "mentions");
}

#[test]
fn match_multi_hop_path() {
    let plan = parse("MATCH (a:1) -> :knows -> :works_with <- :knows").unwrap();
    let Statement::Match(p) = &plan[0] else {
        panic!("expected Match, got {:?}", plan[0]);
    };
    assert_eq!(p.start, rid("a:1"));
    let dirs: Vec<MatchDirection> = p.steps.iter().map(|s| s.direction).collect();
    let names: Vec<&str> = p.steps.iter().map(|s| s.name.as_str()).collect();
    assert_eq!(
        dirs,
        vec![MatchDirection::Out, MatchDirection::Out, MatchDirection::In]
    );
    assert_eq!(names, vec!["knows", "works_with", "knows"]);
}

#[test]
fn match_requires_edge_step() {
    let err = parse("MATCH (a:1)").unwrap_err();
    assert!(
        err.to_text().contains("at least one edge step"),
        "got: {}", err.to_text()
    );
}

#[test]
fn match_is_case_insensitive_keyword() {
    let plan = parse("match (a:1) -> :likes").unwrap();
    assert!(matches!(&plan[0], Statement::Match(_)));
}

#[test]
fn closure_parses_same_path_grammar() {
    let plan = parse("CLOSURE (turn:3) -> :mentions").unwrap();
    let Statement::Closure(p) = &plan[0] else {
        panic!("expected Closure, got {:?}", plan[0]);
    };
    assert_eq!(p.start, rid("turn:3"));
    assert_eq!(p.steps.len(), 1);
    assert_eq!(p.steps[0].direction, MatchDirection::Out);
    assert_eq!(p.steps[0].name, "mentions");
    assert!(p.steps[0].edge_props.is_none());
}

#[test]
fn closure_requires_edge_step() {
    let err = parse("CLOSURE (a:1)").unwrap_err();
    assert!(
        err.to_text().contains("at least one edge step"),
        "got: {}", err.to_text()
    );
}

#[test]
fn match_step_edge_props_filter() {
    let plan = parse("MATCH (turn:3) -> :mentions WHERE confidence = 0.9").unwrap();
    let Statement::Match(p) = &plan[0] else {
        panic!("expected Match, got {:?}", plan[0]);
    };
    assert_eq!(
        p.steps[0].edge_props,
        Some(Filter::FieldEquals {
            field: "confidence".into(),
            value: float(0.9),
        })
    );
}

#[test]
fn match_multi_step_with_per_step_edge_props() {
    let plan = parse("MATCH (a:1) -> :knows WHERE weight = 1.0 -> :works_with WHERE weight = 0.5")
        .unwrap();
    let Statement::Match(p) = &plan[0] else {
        panic!("expected Match, got {:?}", plan[0]);
    };
    assert_eq!(p.steps.len(), 2);
    assert!(matches!(
        &p.steps[0].edge_props,
        Some(Filter::FieldEquals { field, .. }) if field == "weight"
    ));
    assert!(matches!(
        &p.steps[1].edge_props,
        Some(Filter::FieldEquals { field, .. }) if field == "weight"
    ));
}

#[test]
fn closure_is_case_insensitive_keyword() {
    let plan = parse("closure (a:1) -> :likes").unwrap();
    assert!(matches!(&plan[0], Statement::Closure(_)));
}

#[test]
fn select_knn_order_limit() {
    let plan = parse(
        "SELECT * FROM note WHERE vector::similarity(embedding, [0.5, -1.0, 2.5]) AND k = 5 ORDER BY ::similarity LIMIT 10",
    )
    .unwrap();
    let Statement::Select(s) = &plan[0] else {
        panic!("expected Select, got {:?}", plan[0]);
    };
    assert_eq!(
        s,
        &Select {
            table: "note".into(),
            knn: Some(Knn {
                query: singles(&[0.5, -1.0, 2.5]),
                k: 5,
            }),
            filter: None,
            as_of: None,
            order: Some(Order::Similarity),
            limit: Some(10),
        }
    );
}

#[test]
fn select_field_equals() {
    let plan = parse(r#"SELECT text FROM note WHERE status = "done""#).unwrap();
    let Statement::Select(s) = &plan[0] else {
        panic!("expected Select");
    };
    assert_eq!(s.table, "note");
    assert_eq!(
        s.filter,
        Some(Filter::FieldEquals {
            field: "status".into(),
            value: Value::Str("done".into()),
        })
    );
    assert!(s.knn.is_none());
    assert!(s.order.is_none());
    assert!(s.limit.is_none());
}

#[test]
fn select_embedding_is_not_null() {
    let plan = parse("SELECT * FROM doc WHERE embedding IS NOT NULL").unwrap();
    let Statement::Select(s) = &plan[0] else {
        panic!("expected Select");
    };
    assert_eq!(s.filter, Some(Filter::HasEmbedding));
}

#[test]
fn select_bm25_filter() {
    let plan = parse(r#"SELECT * FROM doc WHERE ::bm25(text, "acme corp")"#).unwrap();
    let Statement::Select(s) = &plan[0] else {
        panic!("expected Select");
    };
    assert_eq!(
        s.filter,
        Some(Filter::Bm25 {
            field: "text".into(),
            query: "acme corp".into(),
            k: None,
        })
    );
    assert!(s.knn.is_none());
}

#[test]
fn select_bm25_with_k_cap() {
    let plan = parse(r#"SELECT * FROM doc WHERE ::bm25(text, "acme") AND k = 5"#).unwrap();
    let Statement::Select(s) = &plan[0] else {
        panic!("expected Select");
    };
    assert_eq!(
        s.filter,
        Some(Filter::Bm25 {
            field: "text".into(),
            query: "acme".into(),
            k: Some(5),
        })
    );
}

#[test]
fn select_bm25_requires_string_query() {
    let err = parse("SELECT * FROM doc WHERE ::bm25(text, 42)").unwrap_err();
    assert!(err.to_text().contains("must be a string"), "got: {}", err.to_text());
}

#[test]
fn select_unknown_double_colon_operator_errors() {
    let err = parse("SELECT * FROM doc WHERE ::bogus(text, \"q\")").unwrap_err();
    assert!(err.to_text().contains("::bogus"), "got: {}", err.to_text());
}

#[test]
fn select_as_of_parses_timestamp() {
    let plan = parse("SELECT * FROM doc AS OF 42").unwrap();
    let Statement::Select(s) = &plan[0] else {
        panic!("expected Select");
    };
    assert_eq!(s.as_of, Some(42));
}

#[test]
fn select_as_of_is_case_insensitive() {
    let plan = parse("SELECT * FROM doc as of 7").unwrap();
    let Statement::Select(s) = &plan[0] else {
        panic!("expected Select");
    };
    assert_eq!(s.as_of, Some(7));
}

#[test]
fn select_without_as_of_has_none() {
    let plan = parse("SELECT * FROM doc LIMIT 3").unwrap();
    let Statement::Select(s) = &plan[0] else {
        panic!("expected Select");
    };
    assert_eq!(s.as_of, None);
}

#[test]
fn select_as_of_requires_integer() {
    let err = parse("SELECT * FROM doc AS OF foo").unwrap_err();
    assert!(err.to_text().contains("AS OF timestamp"), "got: {}", err.to_text());
}

#[test]
fn select_hybrid_bm25_then_knn() {
    // Hybrid retrieval: lexical + vector in one WHERE (bm25 first).
    let plan = parse(
        r#"SELECT * FROM doc WHERE ::bm25(text, "acme") AND vector::similarity(embedding, [0.5, -1.0, 2.5]) AND k = 5"#,
    )
    .unwrap();
    let Statement::Select(s) = &plan[0] else {
        panic!("expected Select");
    };
    assert_eq!(
        s.filter,
        Some(Filter::Bm25 {
            field: "text".into(),
            query: "acme".into(),
            k: None,
        })
    );
    assert_eq!(
        s.knn,
        Some(Knn {
            query: singles(&[0.5, -1.0, 2.5]),
            k: 5,
        })
    );
}

#[test]
fn select_hybrid_knn_then_bm25() {
    // Hybrid retrieval: vector first, then lexical.
    let plan = parse(
        r#"SELECT * FROM doc WHERE vector::similarity(embedding, [0.5, -1.0]) AND k = 3 AND ::bm25(text, "acme") AND k = 7"#,
    )
    .unwrap();
    let Statement::Select(s) = &plan[0] else {
        panic!("expected Select");
    };
    assert_eq!(
        s.knn,
        Some(Knn {
            query: singles(&[0.5, -1.0]),
            k: 3,
        })
    );
    assert_eq!(
        s.filter,
        Some(Filter::Bm25 {
            field: "text".into(),
            query: "acme".into(),
            k: Some(7),
        })
    );
}

#[test]
fn select_bm25_alone_keeps_no_knn() {
    // The bm25 `AND k = N` cap must NOT be misparsed as a knn clause.
    let plan = parse(r#"SELECT * FROM doc WHERE ::bm25(text, "acme") AND k = 5"#).unwrap();
    let Statement::Select(s) = &plan[0] else {
        panic!("expected Select");
    };
    assert!(
        s.knn.is_none(),
        "k cap belongs to bm25, got knn: {:?}",
        s.knn
    );
}

#[test]
fn select_hybrid_requires_bm25_after_knn_and() {
    let err = parse(
        r#"SELECT * FROM doc WHERE vector::similarity(embedding, [0.5]) AND k = 3 AND ::bogus(text, "q")"#,
    )
    .unwrap_err();
    assert!(err.to_text().contains("::bogus"), "got: {}", err.to_text());
}

#[test]
fn forget_record() {
    let plan = parse("FORGET person:42").unwrap();
    assert_eq!(
        plan,
        vec![Statement::Forget {
            id: rid("person:42")
        }]
    );
}

#[test]
fn keywords_are_case_insensitive() {
    let plan = parse(
        "cReAtE TaBlE doc VECTOR<F32, 128>\n\
         iNsErT iNtO doc:1 { title: \"hi\" } eMbEd [0.1]\n\
         rElAtE (doc:1) -> :refs -> (doc:2) SeT weight = 1\n\
         sElEcT * fRoM doc WhErE embedding iS nOt nUlL oRdEr By ::RECENCY LiMiT 3\n\
         fOrGeT doc:2",
    )
    .unwrap();
    assert_eq!(plan.len(), 5);
    assert!(matches!(
        plan[0],
        Statement::CreateTable {
            vector_dim: Some(128),
            ..
        }
    ));
    let Statement::Select(s) = &plan[3] else {
        panic!("expected Select at index 3");
    };
    assert_eq!(s.filter, Some(Filter::HasEmbedding));
    assert_eq!(s.order, Some(Order::Recency));
    assert_eq!(s.limit, Some(3));
}

#[test]
fn order_by_variants() {
    for (kw, expected) in [
        ("similarity", Order::Similarity),
        ("salience", Order::Salience),
        ("score", Order::Score),
        ("recency", Order::Recency),
    ] {
        let plan = parse(&format!("SELECT * FROM t ORDER BY ::{kw}")).unwrap();
        let Statement::Select(s) = &plan[0] else {
            panic!("expected Select");
        };
        assert_eq!(s.order, Some(expected), "ORDER BY {kw}");
    }
}

#[test]
fn empty_input_parses_to_empty_plan() {
    assert!(parse("").unwrap().is_empty());
    assert!(parse("   \n\t ").unwrap().is_empty());
}

#[test]
fn parse_statement_rejects_trailing_input() {
    let err = parse_statement("CREATE TABLE t SELECT * FROM t").unwrap_err();
    assert!(matches!(err, NqlError::Parse { .. }));
    assert!(err.to_text().contains("trailing"));
}

#[test]
fn error_unknown_statement_keyword() {
    let err = parse("DROP TABLE t").unwrap_err();
    assert!(err.to_text().contains("statement keyword"), "{}", err.to_text());
    assert!(err.line() >= 1 && err.col() >= 1);
}

#[test]
fn error_missing_table_after_create() {
    let err = parse("CREATE TABLE").unwrap_err();
    assert!(err.to_text().contains("table name"), "{}", err.to_text());
}

#[test]
fn error_missing_from_in_select() {
    let err = parse("SELECT * t").unwrap_err();
    assert!(err.to_text().contains("FROM"), "{}", err.to_text());
}

#[test]
fn error_bad_vector_dim() {
    // Zero dimension is rejected.
    let err = parse("CREATE TABLE t VECTOR<f32, 0>").unwrap_err();
    assert!(err.to_text().contains("dimension"), "{}", err.to_text());
    // Missing `>` is a syntax error, not a panic.
    let err = parse("CREATE TABLE t VECTOR<f32, 8").unwrap_err();
    assert!(err.to_text().contains("closing VECTOR"), "{}", err.to_text());
}

#[test]
fn error_knn_k_must_be_positive() {
    let err =
        parse("SELECT * FROM t WHERE vector::similarity(embedding, [1.0]) AND k = 0").unwrap_err();
    assert!(err.to_text().contains("k must be positive"), "{}", err.to_text());
}

#[test]
fn error_unterminated_string() {
    let err = parse(r#"INSERT INTO t:1 { name: "oops }"#).unwrap_err();
    assert!(matches!(err, NqlError::Lex { .. }), "{err:?}");
    assert!(err.to_text().contains("unterminated"), "{}", err.to_text());
}

#[test]
fn error_bad_vector_literal() {
    let err = parse("SELECT * FROM t WHERE vector::similarity(embedding, [0.1, \"x\"]) AND k = 1")
        .unwrap_err();
    assert!(err.to_text().contains("vector literal"), "{}", err.to_text());
}

#[test]
fn error_missing_brace_in_body() {
    let err = parse("INSERT INTO t:1 { a: 1").unwrap_err();
    assert!(err.to_text().contains("closing record body"), "{}", err.to_text());
}

#[test]
fn error_bad_order_key() {
    let err = parse("SELECT * FROM t ORDER BY ::random").unwrap_err();
    assert!(err.to_text().contains("ORDER BY"), "{}", err.to_text());
}

#[test]
fn error_set_weight_must_be_number() {
    let err = parse(r#"RELATE (a:1) -> :e -> (b:2) SET weight = "heavy""#).unwrap_err();
    assert!(err.to_text().contains("weight"), "{}", err.to_text());
}

#[test]
fn single_quoted_strings_and_escapes() {
    let plan =
        parse(r#"INSERT INTO t:1 { a: 'it\'s', b: "tab\there", c: "back\\slash" }"#).unwrap();
    let Statement::Insert(rec) = &plan[0] else {
        panic!("expected Insert");
    };
    assert_eq!(field(&rec.body, "a"), Some(&Value::Str("it's".into())));
    assert_eq!(field(&rec.body, "b"), Some(&Value::Str("tab\there".into())));
    assert_eq!(field(&rec.body, "c"), Some(&Value::Str("back\\slash".into())));
}

#[test]
fn plan_is_ordered_sequence_of_statements() {
    let plan = parse("CREATE TABLE t\nINSERT INTO t:1 {}\nSELECT * FROM t\nFORGET t:1").unwrap();
    assert_eq!(plan.len(), 4);
    assert!(matches!(plan[0], Statement::CreateTable { .. }));
    assert!(matches!(plan[1], Statement::Insert(_)));
    assert!(matches!(plan[2], Statement::Select(_)));
    assert!(matches!(plan[3], Statement::Forget { .. }));
}

#[test]
fn select_clauses_any_order() {
    let plan = parse("SELECT * FROM t LIMIT 2 WHERE status = 1 ORDER BY ::score").unwrap();
    let Statement::Select(s) = &plan[0] else {
        panic!("expected Select");
    };
    assert_eq!(s.limit, Some(2));
    assert_eq!(
        s.filter,
        Some(Filter::FieldEquals {
            field: "status".into(),
            value: Value::Int(1),
        })
    );
    assert_eq!(s.order, Some(Order::Score));
}

#[test]
fn errors_say_where() {
    let err = parse("CREATE TABLE t\nDROP").unwrap_err();
    assert_eq!((err.line(), err.col()), (2, 1));
    assert_eq!(
        err.to_text(),
        "parse error at 2:1: expected a statement keyword (CREATE, INSERT, RELATE, MATCH, CLOSURE, SELECT, FORGET), found identifier `DROP`"
    );
    let err = parse("CREATE TABLE t ?").unwrap_err();
    assert!(matches!(err, NqlError::Lex { .. }));
    assert_eq!((err.line(), err.col()), (1, 16));
}

#[test]
fn comments_and_semicolons_separate() {
    let plan = parse("-- declare\nCREATE TABLE t; /* and\nforget */ ;; FORGET t:1;").unwrap();
    assert_eq!(plan.len(), 2);
    assert!(matches!(plan[0], Statement::CreateTable { .. }));
    assert!(matches!(plan[1], Statement::Forget { .. }));
}

#[test]
fn joined_programs_parse_to_both_plans() {
    let a = "CREATE TABLE t; INSERT INTO t:1 { n: 1 }";
    let b = "SELECT * FROM t ORDER BY ::score LIMIT 2; MATCH (t:1) -> :e";
    let mut both = parse(a).unwrap();
    both.extend(parse(b).unwrap());
    assert_eq!(parse(&format!("{a};{b}")).unwrap(), both);
}

#[test]
fn numbers_keep_their_kind() {
    let plan = parse("INSERT INTO t:1 { i: -7, f: -0.25, e: 1e3, big: 9223372036854775807 }").unwrap();
    let Statement::Insert(rec) = &plan[0] else {
        panic!("expected Insert");
    };
    assert_eq!(field(&rec.body, "i"), Some(&Value::Int(-7)));
    assert_eq!(field(&rec.body, "f"), Some(&float(-0.25)));
    assert_eq!(field(&rec.body, "e"), Some(&float(1000.0)));
    assert_eq!(field(&rec.body, "big"), Some(&Value::Int(i64::MAX)));
}

#[test]
fn later_fields_win_and_fields_are_sorted() {
    let plan = parse("INSERT INTO t:1 { b: 1, a: 2, b: 3 }").unwrap();
    let Statement::Insert(rec) = &plan[0] else {
        panic!("expected Insert");
    };
    assert_eq!(rec.body, doc(&[("a", Value::Int(2)), ("b", Value::Int(3))]));
    assert_eq!(rec.body.entries[0].0, "a");
}

#[test]
fn id_suffixes_are_numbers_or_names() {
    let plan = parse("FORGET t:9223372036854775807; FORGET t:abc").unwrap();
    assert_eq!(plan[0], Statement::Forget { id: RecordId::new("t".into(), Id::Num(9223372036854775807)) });
    assert_eq!(plan[1], Statement::Forget { id: RecordId::new("t".into(), Id::Str("abc".into())) });
}

#[test]
fn the_fixed_words_of_a_clause_are_checked() {
    let refused = |input: &str, what: &str| {
        let err = parse(input).unwrap_err().to_text();
        assert!(err.contains(what), "{input}: {err}");
    };
    refused(
        "SELECT * FROM t WHERE a IS NOT NULL",
        "parse error at 1:23: expected `embedding` before `IS NOT NULL`, found identifier `a`",
    );
    refused(
        "SELECT * FROM t WHERE vector::distance(embedding, [1]) AND k = 1",
        "expected `similarity`, found identifier `distance`",
    );
    refused(
        "SELECT * FROM t WHERE vector::similarity(text, [1]) AND k = 1",
        "expected `embedding`, found identifier `text`",
    );
    refused(
        "SELECT * FROM t WHERE vector::similarity(embedding, [1]) AND n = 1",
        "expected `k`, found identifier `n`",
    );
    refused(
        "SELECT * FROM t WHERE ::bm25(a, 'b') AND vec::similarity(embedding, [1]) AND k = 1",
        "expected `vector`, found identifier `vec`",
    );
    refused("CREATE TABLE t VECTOR<f64, 2>", "expected vector element type (e.g. `f32`), found");
    assert!(parse("SELECT * FROM t WHERE Embedding IS NOT NULL").is_ok());
    assert!(parse("SELECT * FROM t WHERE Vector::Similarity(EMBEDDING, [1]) AND K = 1").is_ok());
    assert!(parse("CREATE TABLE t VECTOR<F32, 2>").is_ok());
}

#[test]
fn positions_increase_along_the_tokens() {
    let toks =
        nqlite::lexer::tokenize("SELECT *\n  FROM t -- c\n WHERE é = 'a' /* x\n */ LIMIT 1").unwrap();
    assert_eq!(toks.len(), 11);
    assert!(toks.windows(2).all(|w| (w[0].line, w[0].col) < (w[1].line, w[1].col)));
}

#[test]
fn written_programs_join() {
    let texts = [
        "CREATE TABLE t",
        "INSERT INTO t:1 { \"a;b\": 'x -- y' }",
        "/* note */ SELECT * FROM t WHERE a = 1",
        "MATCH (t:1) -> :e",
        "FORGET t:1 -- done\n",
    ];
    for a in texts {
        for b in texts {
            let want = vec![parse_statement(a).unwrap(), parse_statement(b).unwrap()];
            assert_eq!(parse(&format!("{a};{b}")).unwrap(), want);
            assert_eq!(parse(&format!("{a}; \n\t{b};")).unwrap(), want);
        }
    }
    // A line comment at the end swallows the semicolon and what follows it.
    assert_eq!(parse("FORGET t:1 -- done; FORGET t:2").unwrap().len(), 1);
}

#[test]
fn written_clauses_stand_in_any_order() {
    let clauses = ["WHERE ::bm25(a, 'x') AND k = 2", "ORDER BY ::score", "LIMIT 3", "AS OF 9"];
    let want = parse(&format!("SELECT * FROM t {}", clauses.join(" "))).unwrap();
    for i in 0..4 {
        for j in 0..4 {
            for k in 0..4 {
                if i == j || i == k || j == k {
                    continue;
                }
                let order = [clauses[i], clauses[j], clauses[k], clauses[6 - i - j - k]];
                assert_eq!(parse(&format!("SELECT * FROM t {}", order.join(" "))).unwrap(), want);
            }
        }
    }
    let Statement::Select(s) = &parse("SELECT * FROM t LIMIT 3").unwrap()[0] else { panic!() };
    assert_eq!((&s.knn, &s.filter, &s.order, s.as_of), (&None, &None, &None, None));
}
