//! Vector indexes: exact and approximate nearest neighbours.
use fast_hnsw::distance::Cosine;
use fast_hnsw::labeled::LabeledIndex;
use nqlite::index::{BruteForceVectorIndex, GraphHit, HnswVectorIndex, VectorIndex};
use nqlite::ir::RecordId;
use nqlite::score::ScoreTask;

fn cosine_similarity(a: &[f32], b: &[f32]) -> f32 {
    let (mut dot, mut na, mut nb) = (0.0f32, 0.0f32, 0.0f32);
    for (x, y) in a.iter().zip(b) {
        dot += x * y;
        na += x * x;
        nb += y * y;
    }
    if na == 0.0 || nb == 0.0 {
        return 0.0;
    }
    dot / (na.sqrt() * nb.sqrt())
}

fn floats(bits: &[u32]) -> Vec<f32> {
    bits.iter().map(|b| f32::from_bits(*b)).collect()
}

fn singles(xs: &[f32]) -> Vec<u32> {
    xs.iter().map(|x| x.to_bits()).collect()
}

fn score(task: ScoreTask) -> u32 {
    match task {
        ScoreTask::Similarity { embedding, query } => {
            cosine_similarity(&floats(&embedding), &floats(&query)).to_bits()
        }
        other => panic!("an index only asks for similarities, got {other:?}"),
    }
}

fn rid(s: &str) -> RecordId {
    RecordId::parse(s).unwrap()
}

/// An approximate index: the account of its entries, and the graph.
struct Approximate {
    account: HnswVectorIndex,
    graph: LabeledIndex<Cosine, String>,
}

impl Approximate {
    fn new(seed: u64, m: usize, ef_construction: usize, ef: usize) -> Self {
        let graph = fast_hnsw::Builder::new()
            .m(m)
            .ef_construction(ef_construction)
            .seed(seed)
            .build_labeled(Cosine);
        Approximate { account: HnswVectorIndex::new(ef), graph }
    }

    fn upsert(&mut self, id: RecordId, v: Vec<f32>) {
        let entry = self.graph.insert(v, id.to_text());
        self.account.upsert(id, entry);
    }

    fn remove(&mut self, id: &RecordId) {
        self.account.remove(id);
    }

    fn len(&self) -> usize {
        self.account.len()
    }

    fn search(&self, query: &[f32], k: usize) -> Vec<(RecordId, f32)> {
        if !self.account.asks_graph(k) {
            return Vec::new();
        }
        let hits: Vec<GraphHit> = self
            .graph
            .search(query, k, self.account.ef())
            .into_iter()
            .map(|r| GraphHit {
                payload: r.payload.clone(),
                entry: r.id,
                score: (1.0 - r.distance).to_bits(),
            })
            .collect();
        let found = self.account.accept(&hits, k);
        found.into_iter().map(|(id, s)| (id, f32::from_bits(s))).collect()
    }
}

/// The exact ranking of known vectors, by hand.
fn manual_top(vectors: &[(&str, &[f32])], query: &[f32], k: usize) -> Vec<String> {
    let mut scored: Vec<(String, f32)> = vectors
        .iter()
        .map(|(id, v)| (id.to_string(), cosine_similarity(v, query)))
        .collect();
    scored.sort_by(|a, b| b.1.partial_cmp(&a.1).unwrap().then_with(|| a.0.cmp(&b.0)));
    scored.truncate(k);
    scored.into_iter().map(|(id, _)| id).collect()
}

const KNOWN: &[(&str, &[f32])] = &[
    ("vec:a", &[1.0, 0.0]),
    ("vec:b", &[0.0, 1.0]),
    ("vec:c", &[0.70710677, 0.70710677]),
    ("vec:d", &[-1.0, 0.0]),
];

#[test]
fn brute_force_matches_manual_cosine_ranking() {
    let mut idx = BruteForceVectorIndex::default();
    for (id, v) in KNOWN {
        idx.upsert(rid(id), singles(v));
    }
    for query in [[1.0, 0.0], [0.0, 1.0], [0.5, 0.5], [-1.0, 0.0]] {
        for k in 1..=4 {
            let got: Vec<String> = idx
                .search(&singles(&query), k, &score)
                .into_iter()
                .map(|(id, _)| id.to_text())
                .collect();
            let want = manual_top(KNOWN, &query, k);
            assert_eq!(got, want, "query={query:?} k={k}");
        }
    }
}

#[test]
fn brute_force_returns_correct_similarity_scores() {
    let mut idx = BruteForceVectorIndex::default();
    idx.upsert(rid("vec:a"), singles(&[1.0, 0.0]));
    idx.upsert(rid("vec:b"), singles(&[0.0, 1.0]));
    let results = idx.search(&singles(&[1.0, 0.0]), 2, &score);
    assert_eq!(results.len(), 2);
    assert!((f32::from_bits(results[0].1) - 1.0).abs() < 1e-6);
    assert!(f32::from_bits(results[0].1) > f32::from_bits(results[1].1));
    assert!((f32::from_bits(results[1].1) - 0.0).abs() < 1e-6);
    // Ties break by RecordId ascending.
    idx.upsert(rid("vec:c"), singles(&[1.0, 0.0]));
    let results = idx.search(&singles(&[1.0, 0.0]), 3, &score);
    assert_eq!(results[0].0, rid("vec:a"));
    assert_eq!(results[1].0, rid("vec:c"));
}

#[test]
fn brute_force_deterministic_across_rebuilds() {
    let build = || {
        let mut idx = BruteForceVectorIndex::default();
        for (id, v) in KNOWN {
            idx.upsert(rid(id), singles(v));
        }
        // Same ops twice must yield identical search output.
        for (id, v) in KNOWN.iter().rev() {
            idx.upsert(rid(id), singles(v));
        }
        idx.search(&singles(&[0.3, 0.9]), 4, &score)
    };
    let a = build();
    let b = build();
    assert_eq!(a, b);
    assert_eq!(format!("{a:?}"), format!("{b:?}"));
}

#[test]
fn remove_drops_id_from_results() {
    let mut idx = BruteForceVectorIndex::default();
    for (id, v) in KNOWN {
        idx.upsert(rid(id), singles(v));
    }
    assert_eq!(idx.len(), 4);
    idx.remove(&rid("vec:a"));
    assert_eq!(idx.len(), 3);
    let ids: Vec<String> = idx
        .search(&singles(&[1.0, 0.0]), 4, &score)
        .into_iter()
        .map(|(id, _)| id.to_text())
        .collect();
    assert!(!ids.contains(&"vec:a".to_string()));
    // Removing an absent id is a no-op.
    idx.remove(&rid("vec:nope"));
    assert_eq!(idx.len(), 3);
    // Re-upsert brings the id back.
    idx.upsert(rid("vec:a"), singles(&[1.0, 0.0]));
    assert_eq!(idx.len(), 4);
    assert_eq!(idx.search(&singles(&[1.0, 0.0]), 1, &score)[0].0, rid("vec:a"));
}

#[test]
fn empty_index_returns_nothing() {
    let idx = BruteForceVectorIndex::default();
    assert!(idx.is_empty());
    assert_eq!(idx.search(&singles(&[1.0, 0.0]), 5, &score), Vec::new());
}

#[test]
fn hnsw_top1_agrees_with_brute_force_on_tiny_set() {
    // Well-separated vectors: HNSW with a generous ef must recover the
    // exact top-1 on a tiny, low-dimensional set.
    let mut brute = BruteForceVectorIndex::default();
    let mut hnsw = Approximate::new(7, 16, 200, 128);
    for (id, v) in KNOWN {
        brute.upsert(rid(id), singles(v));
        hnsw.upsert(rid(id), v.to_vec());
    }
    for query in [[1.0, 0.0], [0.0, 1.0], [0.5, 0.5], [-1.0, 0.0], [0.9, 0.4]] {
        let want = brute.search(&singles(&query), 1, &score)[0].0.clone();
        let got = hnsw.search(&query, 1)[0].0.clone();
        assert_eq!(got, want, "query={query:?}");
    }
}

#[test]
fn hnsw_is_reproducible_for_same_ops() {
    let build = || {
        let mut idx = Approximate::new(11, 16, 200, 128);
        for (id, v) in KNOWN {
            idx.upsert(rid(id), v.to_vec());
        }
        idx.search(&[0.3, 0.9], 4)
    };
    assert_eq!(build(), build());
}

#[test]
fn hnsw_remove_tombstones_id() {
    let mut idx = Approximate::new(3, 16, 200, 128);
    for (id, v) in KNOWN {
        idx.upsert(rid(id), v.to_vec());
    }
    assert_eq!(idx.len(), 4);
    idx.remove(&rid("vec:a"));
    assert_eq!(idx.len(), 3);
    let ids: Vec<String> = idx
        .search(&[1.0, 0.0], 4)
        .into_iter()
        .map(|(id, _)| id.to_text())
        .collect();
    assert!(!ids.contains(&"vec:a".to_string()));
}

#[test]
fn a_replaced_vector_is_not_found_by_its_stale_entry() {
    let mut account = HnswVectorIndex::new(0);
    assert_eq!(account.ef(), 1);
    account.upsert(rid("v:1"), 0);
    account.upsert(rid("v:2"), 1);
    account.upsert(rid("v:1"), 2);
    let hit = |payload: &str, entry: usize, score: f32| GraphHit {
        payload: payload.into(),
        entry,
        score: score.to_bits(),
    };
    let hits = vec![hit("v:1", 0, 0.9), hit("v:2", 1, 0.5), hit("v:1", 2, 0.5), hit("v:3", 3, 1.0)];
    let found = account.accept(&hits, 5);
    assert_eq!(found, vec![(rid("v:1"), 0.5f32.to_bits()), (rid("v:2"), 0.5f32.to_bits())]);
    assert_eq!(account.accept(&hits, 1).len(), 1);
    account.remove(&rid("v:2"));
    account.remove(&rid("v:9"));
    assert_eq!(account.len(), 1);
    assert!(account.asks_graph(1) && !account.asks_graph(0));
    account.remove(&rid("v:1"));
    assert!(account.is_empty() && !account.asks_graph(1));
}

#[test]
fn an_id_is_found_once_and_with_its_last_vector() {
    let mut idx = Approximate::new(5, 16, 200, 128);
    idx.upsert(rid("v:1"), vec![1.0, 0.0]);
    idx.upsert(rid("v:2"), vec![0.6, 0.8]);
    idx.upsert(rid("v:1"), vec![0.0, 1.0]);
    let found = idx.search(&[1.0, 0.0], 4);
    let ids: Vec<String> = found.iter().map(|(id, _)| id.to_text()).collect();
    assert_eq!(ids, ["v:2", "v:1"]);
    assert!(found[1].1.abs() < 1e-6, "{found:?}");
}

#[test]
fn an_entry_that_the_graph_names_twice_is_found_once() {
    let mut account = HnswVectorIndex::new(8);
    account.upsert(rid("v:1"), 0);
    account.upsert(rid("v:2"), 1);
    let hit = |payload: &str, entry: usize, score: f32| GraphHit {
        payload: payload.into(),
        entry,
        score: score.to_bits(),
    };
    let hits = vec![hit("v:1", 0, 0.5), hit("v:2", 1, 0.9), hit("v:1", 0, 0.5)];
    let found = account.accept(&hits, 3);
    assert_eq!(found, vec![(rid("v:2"), 0.9f32.to_bits()), (rid("v:1"), 0.5f32.to_bits())]);
}
