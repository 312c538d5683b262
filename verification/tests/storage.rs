//! The persisted form: main file, log, recovery.
use nqlite::bm25::Bm25Terms;
use nqlite::database::{is_mutating, Database};
use nqlite::ir::{Body, Plan, Record, RecordId, Statement, Store, Value};
use nqlite::number::{Form, Numeral};
use nqlite::ordmap::OrdMap;
use nqlite::parser::{parse_statement, NqlError};
use nqlite::score::ScoreTask;
use nqlite::storage::{
    decode_frame, decode_main, encode_frame, encode_main, read_log, replay, StorageError, StoreFile,
    CHECKPOINT_THRESHOLD, FORMAT_VERSION,
};

fn forms(n: Numeral) -> Form {
    let (double, single) = match &n {
        Numeral::Int(i) => (*i as f64, *i as f32),
        Numeral::Decimal(s) => {
            let x: f64 = s.parse().expect("a decimal numeral");
            (x, x as f32)
        }
        Numeral::Wide(i) => (*i as f64, *i as f64 as f32),
        Numeral::Double(b) => (f64::from_bits(*b), f64::from_bits(*b) as f32),
        Numeral::Single(b) => (f32::from_bits(*b) as f64, f32::from_bits(*b)),
    };
    Form { double: double.to_bits(), single: single.to_bits(), shown: format!("{double}") }
}

fn floats(bits: &[u32]) -> Vec<f32> {
    bits.iter().map(|b| f32::from_bits(*b)).collect()
}

fn cosine_similarity(a: &[f32], b: &[f32]) -> f32 {
    let (mut dot, mut na, mut nb) = (0.0f32, 0.0f32, 0.0f32);
    for (x, y) in a.iter().zip(b) {
        dot += x * y;
        na += x * x;
        nb += y * y;
    }
    if na == 0.0 || nb == 0.0 {
        return 0.0;
    }
    dot / (na.sqrt() * nb.sqrt())
}

fn relevance(t: &Bm25Terms) -> f32 {
    let (k1, b) = (1.2f32, 0.75f32);
    let n = t.n_docs as f32;
    let avg = t.total_tokens as f32 / t.n_docs.max(1) as f32;
    let mut sum = 0.0f32;
    for (tf, df) in &t.terms {
        let (f, df) = (*tf as f32, (*df).max(1) as f32);
        let idf = (1.0 + (n - df + 0.5) / (df + 0.5)).ln();
        let norm = 1.0 - b + b * (t.doc_len as f32 / avg);
        sum += idf * (f * (k1 + 1.0)) / (f + k1 * norm);
    }
    sum
}

fn mean(weights: &[u32]) -> f32 {
    (floats(weights).iter().sum::<f32>() + 1.0) / (weights.len() as f32 + 2.0)
}

fn score(task: ScoreTask) -> u32 {
    let x: f32 = match task {
        ScoreTask::Similarity { embedding, query } => {
            cosine_similarity(&floats(&embedding), &floats(&query))
        }
        ScoreTask::Relevance(t) => relevance(&t),
        ScoreTask::Count(n) => n as f32,
        ScoreTask::Mean { weights } => mean(&weights),
        ScoreTask::Normalized { weights } => mean(&weights).clamp(0.0, 1.0),
        ScoreTask::Salience { similarity, weights } => {
            0.7 * f32::from_bits(similarity) + 0.3 * mean(&weights).clamp(0.0, 1.0)
        }
        ScoreTask::Feedback { votes } => {
            votes.iter().map(|(sign, age)| *sign as f32 * (1.0 / (1.0 + *age as f32))).sum()
        }
        ScoreTask::Fusion { lexical, vector } => {
            1.0 / (60.0 + lexical as f32) + 1.0 / (60.0 + vector as f32)
        }
    };
    x.to_bits()
}

fn parse(input: &str) -> Result<Plan, NqlError> {
    nqlite::parser::parse(input, &forms)
}

fn singles(xs: &[f32]) -> Vec<u32> {
    xs.iter().map(|x| x.to_bits()).collect()
}

fn numbers(bits: &[u32]) -> String {
    let parts: Vec<String> = bits.iter().map(|b| format!("{:?}", f32::from_bits(*b))).collect();
    parts.join(", ")
}

fn fields(body: &Body) -> String {
    let parts: Vec<String> = body
        .entries
        .iter()
        .map(|(k, v)| match v {
            Value::Str(s) => format!("{k}: {s:?}"),
            Value::Int(n) => format!("{k}: {n}"),
            other => panic!("no text for {other:?}"),
        })
        .collect();
    parts.join(", ")
}

/// A statement as the bytes of its program text: the codec of these tests.
fn encode(stmt: &Statement) -> Vec<u8> {
    let text = match stmt {
        Statement::CreateTable { table, vector_dim: Some(n) } => {
            format!("CREATE TABLE {table} VECTOR<f32, {n}>")
        }
        Statement::CreateTable { table, vector_dim: None } => format!("CREATE TABLE {table}"),
        Statement::Insert(rec) => {
            let embed = match &rec.embedding {
                Some(v) => format!(" EMBED [{}]", numbers(v)),
                None => String::new(),
            };
            format!("INSERT INTO {} {{ {} }}{embed}", rec.id.to_text(), fields(&rec.body))
        }
        Statement::Relate(e) => {
            let set = match e.weight {
                Some(w) => format!(" SET weight = {:?}", f32::from_bits(w)),
                None => String::new(),
            };
            format!("RELATE ({}) -> :{} -> ({}){set}", e.from.to_text(), e.name, e.to.to_text())
        }
        Statement::Forget { id } => format!("FORGET {}", id.to_text()),
        other => panic!("not logged: {other:?}"),
    };
    text.into_bytes()
}

fn decode(payload: Vec<u8>) -> Option<Statement> {
    parse_statement(&String::from_utf8(payload).ok()?, &forms).ok()
}

/// A store as the statements that make it.
fn encode_store(store: &Store) -> Vec<u8> {
    let mut stmts: Vec<Statement> = Vec::new();
    for (table, dim) in &store.vector_dims.entries {
        stmts.push(Statement::CreateTable { table: table.clone(), vector_dim: Some(*dim) });
    }
    for (_, rec) in &store.records.entries {
        stmts.push(Statement::Insert(rec.clone()));
    }
    for edge in &store.edges {
        stmts.push(Statement::Relate(edge.clone()));
    }
    let lines: Vec<Vec<u8>> = stmts.iter().map(encode).collect();
    lines.join(&b'\n')
}

fn decode_store(payload: &[u8]) -> Store {
    let mut db = Database::default();
    let plan = parse(std::str::from_utf8(payload).unwrap()).unwrap();
    db.execute(&plan, &score).unwrap();
    db.into_store()
}

fn sample_store() -> Store {
    let mut s = Store::default();
    s.vector_dims.insert("t".into(), 2);
    let mut body = OrdMap::new();
    body.insert("name".into(), Value::Str("alpha".into()));
    s.insert(Record {
        id: RecordId::parse("t:1").unwrap(),
        body,
        embedding: Some(singles(&[1.0, 0.0])),
        created_at: 0,
    });
    s
}

/// The two files of a database, in memory.
#[derive(Default)]
struct Disk {
    main: Vec<u8>,
    log: Vec<u8>,
}

impl Disk {
    fn open(&mut self) -> Database {
        let store = match decode_main(&self.main).unwrap() {
            Some(payload) => decode_store(&payload),
            None => Store::default(),
        };
        let (db, keep) = Database::open("db.nql", store, &self.log, &decode);
        self.log.truncate(keep);
        db
    }

    fn execute(&mut self, db: &mut Database, program: &str) -> Vec<nqlite::engine::QueryResult> {
        let plan = parse(program).unwrap();
        let results = db.execute(&plan, &score).unwrap();
        for stmt in db.to_log(&plan) {
            let frame = encode_frame(&encode(&stmt));
            db.logged(frame.len() as u64);
            self.log.extend(frame);
        }
        results
    }

    fn flush(&mut self, db: &mut Database) {
        self.main = encode_main(&encode_store(db.store()));
        self.log.clear();
        db.flushed();
    }
}

#[test]
fn roundtrip_main_file() {
    let main = encode_main(&encode_store(&sample_store()));
    let payload = decode_main(&main).unwrap().expect("a payload");
    assert_eq!(decode_store(&payload), sample_store(), "store survives checkpoint roundtrip");
    let (replayed, keep) = read_log(&Vec::new(), &decode);
    assert!(replayed.is_empty(), "checkpointed store has no WAL replay");
    assert_eq!(keep, 0);
}

#[test]
fn wal_replay_applies_mutations() {
    let create = Statement::CreateTable { table: "t".into(), vector_dim: Some(2) };
    let insert = Statement::Insert(Record {
        id: RecordId::parse("t:1").unwrap(),
        body: OrdMap::new(),
        embedding: Some(singles(&[0.5, 0.5])),
        created_at: 0,
    });
    let mut store = Store::default();
    nqlite::engine::execute_statement(&mut store, &create, &score).unwrap();
    nqlite::engine::execute_statement(&mut store, &insert, &score).unwrap();
    let mut log = encode_frame(&encode(&create));
    log.extend(encode_frame(&encode(&insert)));

    // From the log alone the store must come back.
    let (replayed, keep) = read_log(&log, &decode);
    let mut loaded = Store::default();
    replay(&mut loaded, &replayed);
    assert_eq!(loaded, store, "WAL replay reconstructs the store");
    assert_eq!(replayed.len(), 2, "both statements replayed");
    assert_eq!(keep, log.len());
}

#[test]
fn torn_frame_is_truncated() {
    let create = Statement::CreateTable { table: "t".into(), vector_dim: Some(2) };
    let payload = encode(&create);
    let mut log = encode_frame(&payload);
    // A garbage torn frame (bad CRC).
    log.extend([0xDE, 0xAD, 0xBE, 0xEF, 0x10, 0x00, 0x00, 0x00]);
    log.extend([0x01, 0x02]);
    let (db, keep) = Database::open("db.nql", Store::default(), &log, &decode);
    let (replayed, _) = read_log(&log, &decode);
    assert_eq!(replayed.len(), 1, "only the good frame is replayed");
    assert!(db.store().vector_dims.contains_key(&"t".to_string()));
    // What is kept is the good frame only.
    assert_eq!(keep, 8 + payload.len());
}

#[test]
fn deterministic_bytes() {
    let a = encode_main(&encode_store(&sample_store()));
    let b = encode_main(&encode_store(&sample_store()));
    assert_eq!(a, b, "identical stores serialize to identical bytes");
}

#[test]
fn file_backed_database_persists_across_reopen() {
    let mut disk = Disk::default();
    // Session 1: create + insert + relate, then drop: durability comes from the log.
    {
        let mut db = disk.open();
        disk.execute(
            &mut db,
            "CREATE TABLE t VECTOR<f32, 2>;
             INSERT INTO t:1 { \"name\": \"alpha\" } EMBED [1.0, 0.0];
             INSERT INTO t:2 { \"name\": \"beta\" } EMBED [0.0, 1.0];
             RELATE (t:1) -> :refs -> (t:2) SET weight = 0.5;",
        );
    }
    // Session 2: reopen, the log must reconstruct everything.
    {
        let mut db = disk.open();
        assert_eq!(db.store().records.len(), 2, "both records survive reopen");
        assert_eq!(db.store().edges.len(), 1, "edge survives reopen");
        let results = disk.execute(
            &mut db,
            "SELECT * FROM t WHERE vector::similarity(embedding, [1.0, 0.0]) AND k = 2 ORDER BY ::similarity;",
        );
        assert_eq!(results[0].rows.len(), 2);
        assert_eq!(results[0].rows[0].record.id.to_text(), "t:1", "nearest first");
        assert!(
            f32::from_bits(results[0].rows[0].score) >= f32::from_bits(results[0].rows[1].score)
        );
    }
    // Session 3: checkpoint (flush) then reopen, the main file is authoritative.
    {
        let mut db = disk.open();
        disk.flush(&mut db);
        assert!(disk.log.is_empty());
    }
    {
        let db = disk.open();
        assert_eq!(db.store().records.len(), 2, "records survive checkpoint+reopen");
        assert_eq!(db.store().edges.len(), 1);
    }
}

#[test]
fn deterministic_reopen_bytes() {
    let session = || {
        let mut disk = Disk::default();
        let mut db = disk.open();
        disk.execute(
            &mut db,
            "CREATE TABLE t VECTOR<f32, 2>;
             INSERT INTO t:1 { \"x\": 1 } EMBED [0.5, 0.5];
             SELECT * FROM t;",
        );
        disk.flush(&mut db);
        disk.main
    };
    let a = session();
    let b = session();
    assert_eq!(a, b, "same session writes byte-identical files");
}

#[test]
fn main_file_starts_with_the_documented_header() {
    let main = encode_main(&vec![7, 8, 9]);
    assert_eq!(&main[..8], b"NQLITE01");
    assert_eq!(main[8..16], [1, 0, 0, 0, 0, 0, 0, 0]);
    assert_eq!(main[16..], [7, 8, 9]);
    assert_eq!(FORMAT_VERSION, 1);
}

#[test]
fn broken_main_files_are_refused() {
    assert_eq!(decode_main(&vec![]), Ok(None));
    assert_eq!(decode_main(&vec![0; 15]), Ok(None));
    let mut main = encode_main(&vec![1]);
    assert_eq!(decode_main(&main), Ok(Some(vec![1])));
    main[8] = 2;
    assert_eq!(decode_main(&main), Err(StorageError::BadVersion(2)));
    main[0] = b'X';
    assert_eq!(decode_main(&main), Err(StorageError::BadMagic));
}

#[test]
fn storage_errors_have_their_texts() {
    let text = |e: StorageError| e.to_text();
    assert_eq!(text(StorageError::Io("gone".into())), "io error: gone");
    assert_eq!(text(StorageError::Codec("bad".into())), "serialization error: bad");
    assert_eq!(text(StorageError::BadVersion(2)), "unsupported format version 2 (expected 1)");
    assert_eq!(text(StorageError::BadMagic), "bad magic header");
    assert_eq!(text(StorageError::TornFrame(9)), "torn/corrupt WAL frame at offset 9 (truncated)");
    assert_eq!(StorageError::TornFrame(9).clone(), StorageError::TornFrame(9));
}

#[test]
fn frames_carry_the_checksum_of_length_and_payload() {
    let frame = encode_frame(&b"abc".to_vec());
    assert_eq!(frame.len(), 11);
    assert_eq!(frame[4..8], [3, 0, 0, 0]);
    assert_eq!(&frame[8..], b"abc");
    let mut hasher = crc32fast::Hasher::new();
    hasher.update(&3u32.to_le_bytes());
    hasher.update(b"abc");
    assert_eq!(frame[..4], hasher.finalize().to_le_bytes());
    assert_eq!(decode_frame(&frame, 0), Some((b"abc".to_vec(), 11)));
    assert_eq!(decode_frame(&frame, 11), None);
}

#[test]
fn every_torn_tail_is_dropped() {
    let stmts = parse("CREATE TABLE t; FORGET t:1; FORGET t:2").unwrap();
    let first: Vec<u8> = stmts[..2].iter().flat_map(|s| encode_frame(&encode(s))).collect();
    let last = encode_frame(&encode(&stmts[2]));
    for n in 0..last.len() {
        let log: Vec<u8> = [first.as_slice(), &last[..n]].concat();
        let (read, keep) = read_log(&log, &decode);
        assert_eq!(read, stmts[..2], "{n} bytes of the last frame");
        assert_eq!(keep, first.len());
    }
    let whole: Vec<u8> = [first.as_slice(), &last].concat();
    assert_eq!(read_log(&whole, &decode), (stmts, whole.len()));
}

#[test]
fn reading_stops_at_a_broken_or_undecodable_frame() {
    let stmts = parse("CREATE TABLE a; CREATE TABLE b; CREATE TABLE c").unwrap();
    let mut log: Vec<u8> = stmts.iter().flat_map(|s| encode_frame(&encode(s))).collect();
    let size = log.len() / 3;
    log[size + 9] ^= 1;
    assert_eq!(read_log(&log, &decode), (stmts[..1].to_vec(), size));
    let mut log = encode_frame(&b"not a statement".to_vec());
    log.extend(encode_frame(&encode(&stmts[0])));
    assert_eq!(read_log(&log, &decode), (vec![], 0));
    // A frame may be intact and its statement fail: it then changes nothing.
    let stmts = parse("CREATE TABLE v VECTOR<f32, 2>; INSERT INTO v:1 {} EMBED [1]").unwrap();
    let mut store = Store::default();
    replay(&mut store, &stmts);
    assert_eq!((store.records.len(), store.vector_dims.len()), (0, 1));
}

#[test]
fn the_log_is_folded_once_it_is_past_the_threshold() {
    let mut file = StoreFile::open("dir/data.nql", CHECKPOINT_THRESHOLD - 1);
    assert_eq!(file.wal_path(), "dir/data.nql.wal");
    assert_eq!(file.main_path(), "dir/data.nql");
    file.appended(1);
    assert!(!file.needs_checkpoint());
    file.appended(1);
    assert!(file.needs_checkpoint());
    assert_eq!(file.wal_len(), CHECKPOINT_THRESHOLD + 1);
    file.checkpointed();
    assert_eq!(file.wal_len(), 0);
}

#[test]
fn only_what_changes_is_logged() {
    let plan = parse(
        "CREATE TABLE t; INSERT INTO t:1 {}; SELECT * FROM t; RELATE (t:1) -> :e -> (t:1);
         MATCH (t:1) -> :e; CLOSURE (t:1) -> :e; FORGET t:1",
    )
    .unwrap();
    let mutating: Vec<bool> = plan.iter().map(is_mutating).collect();
    assert_eq!(mutating, [true, true, false, true, false, false, true]);
    let (mut db, _) = Database::open("x", Store::default(), &vec![], &decode);
    assert_eq!(db.to_log(&plan).len(), 4);
    assert!(db.file().is_some() && !db.needs_checkpoint());
    db.logged(CHECKPOINT_THRESHOLD + 1);
    assert!(db.needs_checkpoint());
    db.flushed();
    assert!(!db.needs_checkpoint());
    assert!(Database::default().to_log(&plan).is_empty());
}

#[test]
fn a_cut_log_gives_a_prefix_of_the_plan() {
    let program = "CREATE TABLE t; INSERT INTO t:1 { \"a\": 1 }; SELECT * FROM t; INSERT INTO t:2 {};
                   RELATE (t:1) -> :e -> (t:2); FORGET t:1";
    let plan = parse(program).unwrap();
    let mut disk = Disk::default();
    let mut db = disk.open();
    disk.execute(&mut db, program);
    // The stores behind the first statements of the plan, from none to all.
    let mut behind: Vec<Store> = vec![Store::default()];
    for n in 1..=plan.len() {
        let mut db = Database::default();
        db.execute(&plan[..n].to_vec(), &score).unwrap();
        behind.push(db.into_store());
    }
    let mut seen = 0;
    for cut in 0..=disk.log.len() {
        let log = disk.log[..cut].to_vec();
        let (db, keep) = Database::open("db.nql", Store::default(), &log, &decode);
        assert!(keep <= cut);
        let at = behind.iter().position(|s| s == db.store()).expect("a prefix of the plan");
        assert!(at >= seen);
        seen = at;
    }
    assert_eq!(&behind[plan.len()], db.store());
    let (db, _) = Database::open("db.nql", Store::default(), &disk.log, &decode);
    assert_eq!(&behind[plan.len()], db.store());
}

#[test]
fn a_single_change_is_recovered_whole_or_not_at_all() {
    let mut disk = Disk::default();
    let mut db = disk.open();
    disk.execute(&mut db, "CREATE TABLE t; INSERT INTO t:1 {}");
    let (acknowledged, before) = (disk.log.len(), encode_store(db.store()));
    disk.execute(&mut db, "SELECT * FROM t; INSERT INTO t:2 { \"x\": 2 }; SELECT * FROM t");
    let after = encode_store(db.store());
    for cut in acknowledged..=disk.log.len() {
        let log = disk.log[..cut].to_vec();
        let (db, _) = Database::open("db.nql", Store::default(), &log, &decode);
        let want = if cut == disk.log.len() { &after } else { &before };
        assert_eq!(&encode_store(db.store()), want, "cut at {cut}");
    }
}

#[test]
fn a_plan_that_relates_nothing_is_idempotent() {
    let program = "CREATE TABLE m VECTOR<f32, 2>; INSERT INTO m:1 { \"g\": 1 } EMBED [1.0, 0.0];
                   INSERT INTO m:1 { \"g\": 2 } EMBED [0.9, 0.0]; INSERT INTO m:2 {}; FORGET m:2;
                   FORGET m:3; CREATE TABLE plain";
    let plan = parse(program).unwrap();
    let mut db = Database::default();
    db.execute(&parse("INSERT INTO m:3 {}; INSERT INTO m:4 {}; RELATE (m:3) -> :e -> (m:4)").unwrap(), &score)
        .unwrap();
    db.execute(&plan, &score).unwrap();
    let once = encode_store(db.store());
    assert_eq!((db.store().records.len(), db.store().edges.len()), (2, 0));
    for _ in 0..3 {
        db.execute(&plan, &score).unwrap();
        assert_eq!(encode_store(db.store()), once);
    }
    // Relating is not: each run adds its edge.
    let plan = parse("RELATE (m:1) -> :e -> (m:4)").unwrap();
    db.execute(&plan, &score).unwrap();
    db.execute(&plan, &score).unwrap();
    assert_eq!(db.store().edges.len(), 2);
}

#[test]
fn an_interrupted_checkpoint_changes_nothing() {
    let mut disk = Disk::default();
    let mut db = disk.open();
    disk.execute(
        &mut db,
        "CREATE TABLE t VECTOR<f32, 1>; INSERT INTO t:1 {} EMBED [1]; INSERT INTO t:2 {}; FORGET t:2",
    );
    // The main file is replaced, the log is not yet cut.
    disk.main = encode_main(&encode_store(db.store()));
    let reopened = disk.open();
    assert_eq!(encode_store(reopened.store()), encode_store(db.store()));
    assert_eq!(reopened.store().records.len(), 1);
}

#[test]
fn a_session_with_checkpoints_survives() {
    let programs = [
        "CREATE TABLE t VECTOR<f32, 2>; INSERT INTO t:1 {} EMBED [1, 0]",
        "RELATE (t:1) -> :e -> (t:1); SELECT * FROM t",
        "INSERT INTO t:2 { \"a\": 2 }; FORGET t:1",
        "CREATE TABLE u; INSERT INTO u:1 {}; RELATE (u:1) -> :e -> (t:2)",
    ];
    for checkpoints in 0..16u32 {
        let mut disk = Disk::default();
        let mut db = disk.open();
        for (i, program) in programs.iter().enumerate() {
            disk.execute(&mut db, program);
            if checkpoints & (1 << i) != 0 {
                disk.flush(&mut db);
            }
        }
        let want = encode_store(db.store());
        disk.log.extend([1, 2, 3]);
        assert_eq!(encode_store(disk.open().store()), want, "checkpoints {checkpoints:b}");
        assert_eq!(encode_store(disk.open().store()), want);
    }
}
