//! Graph traversal: `MATCH` walks a path of edges, `CLOSURE` collects all that a path reaches.
//!
//! Edges are scanned in the order in which they were made. An edge whose far end is not a stored
//! record is skipped. A start that is not stored gives an empty result.
use vstd::prelude::*;

use crate::ir;
use crate::ir::{Filter, MatchDirection, MatchPath, MatchStep, RecordId, RelationEdge, Store};
#[allow(unused_imports)]
use crate::ir::{EdgeV, FilV, PathV, RecV, RidV, StepV, StoreV, ValV};
use crate::number;
use crate::ordmap;
use crate::ordmap::{Dup, Key, OrdMap};
use crate::score;
use crate::score::ScoreTask;
#[allow(unused_imports)]
use crate::score::{Scoring, TaskV};
use crate::select::ScoredRecord;
#[allow(unused_imports)]
use crate::select::RowV;
use crate::text;

verus! {

// ---------------------------------------------------------------------------------------------
// Following one edge
// ---------------------------------------------------------------------------------------------
/// The end of an edge that a step comes from.
pub open spec fn near_end(step: StepV, e: EdgeV) -> RidV {
    match step.direction {
        MatchDirection::Out => e.from,
        MatchDirection::In => e.to,
    }
}

/// The end of an edge that a step goes to.
pub open spec fn far_end(step: StepV, e: EdgeV) -> RidV {
    match step.direction {
        MatchDirection::Out => e.to,
        MatchDirection::In => e.from,
    }
}

/// The properties of the edge meet the condition; only an equality is one.
pub open spec fn props_match(e: EdgeV, filter: Option<FilV>) -> bool {
    match filter {
        None => true,
        Some(FilV::FieldEquals { field, value }) => ordmap::lookup::<String, ValV>(
            e.props,
            field,
        ) matches Some(v) && ir::value_eq(v, value),
        Some(_) => false,
    }
}

/// The record is stored.
pub open spec fn stored(store: StoreV, id: RidV) -> bool {
    ordmap::holds::<RecordId, RecV>(store.records, id)
}

/// The step can go along the edge, from wherever it starts, to a stored record.
pub open spec fn passable(store: StoreV, step: StepV, e: EdgeV) -> bool {
    e.name == step.name && props_match(e, step.edge_props) && stored(store, far_end(step, e))
}

/// The step goes along the edge from one of the records `from`.
pub open spec fn follows(store: StoreV, step: StepV, from: Seq<RidV>, e: EdgeV) -> bool {
    passable(store, step, e) && from.contains(near_end(step, e))
}

fn contains_id(ids: &Vec<RecordId>, id: &RecordId) -> (r: bool)
    ensures
        r == ordmap::views(ids@).contains(id@),
{
    let ghost s = ordmap::views(ids@);
    let mut i: usize = 0;
    while i < ids.len()
        invariant
            i <= ids.len(),
            s == ordmap::views(ids@),
            forall|j: int| 0 <= j < i ==> #[trigger] s[j] != id@,
        decreases ids.len() - i,
    {
        assert(s[i as int] == ids@[i as int]@);
        if ids[i].same(id) {
            return true;
        }
        i = i + 1;
    }
    false
}

fn matches_edge_props(edge: &RelationEdge, filter: &Option<Filter>) -> (r: bool)
    ensures
        r == props_match(edge@, ordmap::opt_view(*filter)),
{
    match filter {
        None => true,
        Some(Filter::FieldEquals { field, value }) => match edge.props.get(field) {
            Some(v) => v.equals(value),
            None => false,
        },
        Some(_) => false,
    }
}

fn can_follow(
    store: &Store,
    step: &MatchStep,
    from: &Vec<RecordId>,
    edge: &RelationEdge,
) -> (r: bool)
    ensures
        r == follows(store@, step@, ordmap::views(from@), edge@),
{
    let (near, far) = match step.direction {
        MatchDirection::Out => (&edge.from, &edge.to),
        MatchDirection::In => (&edge.to, &edge.from),
    };
    text::text_same(edge.name.as_str(), step.name.as_str()) && contains_id(from, near)
        && matches_edge_props(edge, &step.edge_props) && store.records.contains_key(far)
}

fn far_id(step: &MatchStep, edge: &RelationEdge) -> (r: RecordId)
    ensures
        r@ == far_end(step@, edge@),
{
    match step.direction {
        MatchDirection::Out => edge.to.dup(),
        MatchDirection::In => edge.from.dup(),
    }
}

// ---------------------------------------------------------------------------------------------
// MATCH
// ---------------------------------------------------------------------------------------------
/// Where a walk stands: the records it has reached, and the score of every record reached so far.
#[verifier::ext_equal]
pub struct WalkV {
    pub front: Seq<RidV>,
    pub scores: Seq<(RidV, u32)>,
}

/// The walk with the far end of the edge reached: listed once, and scored by the first edge that
/// reached it, `0.0` where that has no weight.
pub open spec fn reached(w: WalkV, step: StepV, e: EdgeV) -> WalkV {
    let id = far_end(step, e);
    WalkV {
        front: if w.front.contains(id) {
            w.front
        } else {
            w.front.push(id)
        },
        scores: if ordmap::holds::<RecordId, u32>(w.scores, id) {
            w.scores
        } else {
            ordmap::put::<RecordId, u32>(
                w.scores,
                id,
                match e.weight {
                    Some(x) => x,
                    None => number::SINGLE_ZERO,
                },
            )
        },
    }
}

/// What a step from `from` reaches over the first `n` edges; `scores` are those of before.
pub open spec fn step_over(
    store: StoreV,
    step: StepV,
    from: Seq<RidV>,
    scores: Seq<(RidV, u32)>,
    n: int,
) -> WalkV
    decreases n,
{
    if n <= 0 {
        WalkV { front: Seq::empty(), scores }
    } else {
        let w = step_over(store, step, from, scores, n - 1);
        if follows(store, step, from, store.edges[n - 1]) {
            reached(w, step, store.edges[n - 1])
        } else {
            w
        }
    }
}

/// Where a walk stands behind the first `n` steps of a path.
pub open spec fn walk(store: StoreV, path: PathV, n: int) -> WalkV
    decreases n,
{
    if n <= 0 {
        WalkV {
            front: seq![path.start],
            scores: ordmap::put::<RecordId, u32>(Seq::empty(), path.start, number::SINGLE_ZERO),
        }
    } else {
        let w = walk(store, path, n - 1);
        step_over(store, path.steps[n - 1], w.front, w.scores, store.edges.len() as int)
    }
}

/// The rows of the first `n` of `ids`, with their scores, `0.0` where one has none.
pub open spec fn rows_of(
    store: StoreV,
    ids: Seq<RidV>,
    scores: Seq<(RidV, u32)>,
    n: int,
) -> Seq<RowV>
    decreases n,
{
    if n <= 0 {
        Seq::empty()
    } else {
        let rows = rows_of(store, ids, scores, n - 1);
        match ordmap::lookup::<RecordId, RecV>(store.records, ids[n - 1]) {
            None => rows,
            Some(record) => rows.push(
                RowV {
                    record,
                    score: match ordmap::lookup::<RecordId, u32>(scores, ids[n - 1]) {
                        Some(x) => x,
                        None => number::SINGLE_ZERO,
                    },
                },
            ),
        }
    }
}

/// The result of a `MATCH`: the records at the end of the path.
pub open spec fn match_rows(store: StoreV, path: PathV) -> Seq<RowV> {
    if stored(store, path.start) {
        let w = walk(store, path, path.steps.len() as int);
        rows_of(store, w.front, w.scores, w.front.len() as int)
    } else {
        Seq::empty()
    }
}

proof fn lemma_no_way(
    store: StoreV,
    step: StepV,
    scores: Seq<(RidV, u32)>,
    n: int,
)
    ensures
        step_over(store, step, Seq::empty(), scores, n) == (WalkV { front: Seq::empty(), scores }),
    decreases n,
{
    if n > 0 {
        lemma_no_way(store, step, scores, n - 1);
    }
}

/// A walk that stands nowhere stays there.
proof fn lemma_stuck(store: StoreV, path: PathV, m: int, n: int)
    requires
        0 <= m <= n,
        walk(store, path, m).front.len() == 0,
    ensures
        walk(store, path, n).front.len() == 0,
    decreases n,
{
    if m < n {
        lemma_stuck(store, path, m, n - 1);
        let w = walk(store, path, n - 1);
        assert(w.front =~= Seq::<RidV>::empty());
        lemma_no_way(store, path.steps[n - 1], w.scores, store.edges.len() as int);
    }
}

fn take_step(
    store: &Store,
    step: &MatchStep,
    from: &Vec<RecordId>,
    scores: OrdMap<RecordId, u32>,
) -> (r: (Vec<RecordId>, OrdMap<RecordId, u32>))
    ensures
        (WalkV { front: ordmap::views(r.0@), scores: r.1@ }) == step_over(
            store@,
            step@,
            ordmap::views(from@),
            scores@,
            store@.edges.len() as int,
        ),
{
    let ghost start = scores@;
    let ghost f = ordmap::views(from@);
    let ghost es = store@.edges;
    let mut scores = scores;
    let mut next: Vec<RecordId> = Vec::new();
    let mut i: usize = 0;
    assert(ordmap::views(next@) =~= Seq::<RidV>::empty());
    while i < store.edges.len()
        invariant
            i <= store.edges.len(),
            es == store@.edges,
            f == ordmap::views(from@),
            (WalkV { front: ordmap::views(next@), scores: scores@ }) == step_over(
                store@,
                step@,
                f,
                start,
                i as int,
            ),
        decreases store.edges.len() - i,
    {
        let edge = &store.edges[i];
        assert(es[i as int] == edge@);
        if can_follow(store, step, from, edge) {
            let id = far_id(step, edge);
            if !scores.contains_key(&id) {
                let x: u32 = match edge.weight {
                    Some(x) => x,
                    None => number::SINGLE_ZERO,
                };
                scores.insert(id.dup(), x);
            }
            if !contains_id(&next, &id) {
                let ghost before = ordmap::views(next@);
                let ghost idv = id@;
                next.push(id);
                assert(ordmap::views(next@) =~= before.push(idv));
            }
        }
        i = i + 1;
    }
    (next, scores)
}

fn rows_at(store: &Store, ids: &Vec<RecordId>, scores: &OrdMap<RecordId, u32>) -> (r: Vec<
    ScoredRecord,
>)
    ensures
        ordmap::views(r@) == rows_of(
            store@,
            ordmap::views(ids@),
            scores@,
            ids@.len() as int,
        ),
{
    let ghost s = ordmap::views(ids@);
    let mut out: Vec<ScoredRecord> = Vec::new();
    let mut i: usize = 0;
    assert(ordmap::views(out@) =~= Seq::<RowV>::empty());
    while i < ids.len()
        invariant
            i <= ids.len(),
            s == ordmap::views(ids@),
            ordmap::views(out@) == rows_of(store@, s, scores@, i as int),
        decreases ids.len() - i,
    {
        assert(s[i as int] == ids@[i as int]@);
        match store.records.get(&ids[i]) {
            Some(rec) => {
                let score: u32 = match scores.get(&ids[i]) {
                    Some(x) => *x,
                    None => number::SINGLE_ZERO,
                };
                let row = ScoredRecord { record: rec.dup(), score };
                let ghost before = ordmap::views(out@);
                let ghost rv = row@;
                out.push(row);
                assert(ordmap::views(out@) =~= before.push(rv));
            },
            None => {},
        }
        i = i + 1;
    }
    out
}

/// Walks a path: the records reached behind its last step, each once, in the order in which the
/// scan of the edges first reached them.
pub fn run_match(store: &Store, path: &MatchPath) -> (r: Vec<ScoredRecord>)
    ensures
        ordmap::views(r@) == match_rows(store@, path@),
{
    if !store.records.contains_key(&path.start) {
        let r: Vec<ScoredRecord> = Vec::new();
        assert(ordmap::views(r@) =~= Seq::<RowV>::empty());
        return r;
    }
    let mut front: Vec<RecordId> = Vec::new();
    front.push(path.start.dup());
    let mut scores: OrdMap<RecordId, u32> = OrdMap::new();
    scores.insert(path.start.dup(), number::SINGLE_ZERO);
    assert(ordmap::views(front@) =~= seq![path.start@]);
    let mut k: usize = 0;
    while k < path.steps.len()
        invariant
            k <= path.steps.len(),
            stored(store@, path.start@),
            (WalkV { front: ordmap::views(front@), scores: scores@ }) == walk(
                store@,
                path@,
                k as int,
            ),
        decreases path.steps.len() - k,
    {
        if front.len() == 0 {
            let r: Vec<ScoredRecord> = Vec::new();
            proof {
                lemma_stuck(store@, path@, k as int, path@.steps.len() as int);
                assert(ordmap::views(r@) =~= Seq::<RowV>::empty());
            }
            return r;
        }
        assert(path@.steps[k as int] == path.steps@[k as int]@);
        let (next, seen) = take_step(store, &path.steps[k], &front, scores);
        front = next;
        scores = seen;
        k = k + 1;
    }
    rows_at(store, &front, &scores)
}

// ---------------------------------------------------------------------------------------------
// CLOSURE
// ---------------------------------------------------------------------------------------------
/// What a breadth-first search has seen: the records in the order of their first visit, those of
/// the current round, and the depth of each.
#[verifier::ext_equal]
pub struct SpreadV {
    pub visited: Seq<RidV>,
    pub fresh: Seq<RidV>,
    pub depths: Seq<(RidV, u64)>,
}

/// The search with the far end of the edge visited, unless it was before.
pub open spec fn visit(w: SpreadV, step: StepV, e: EdgeV, depth: int) -> SpreadV {
    let id = far_end(step, e);
    if w.visited.contains(id) {
        w
    } else {
        SpreadV {
            visited: w.visited.push(id),
            fresh: w.fresh.push(id),
            depths: ordmap::put::<RecordId, u64>(w.depths, id, depth as u64),
        }
    }
}

/// One round over the first `n` edges: what `from` leads to and was not visited before.
pub open spec fn round(
    store: StoreV,
    step: StepV,
    from: Seq<RidV>,
    visited: Seq<RidV>,
    depths: Seq<(RidV, u64)>,
    depth: int,
    n: int,
) -> SpreadV
    decreases n,
{
    if n <= 0 {
        SpreadV { visited, fresh: Seq::empty(), depths }
    } else {
        let w = round(store, step, from, visited, depths, depth, n - 1);
        if follows(store, step, from, store.edges[n - 1]) {
            visit(w, step, store.edges[n - 1], depth)
        } else {
            w
        }
    }
}

/// What a search has found: the records in the order of their first visit, the depth of each, and
/// the depth of the next round.
#[verifier::ext_equal]
pub struct FoundV {
    pub visited: Seq<RidV>,
    pub depths: Seq<(RidV, u64)>,
    pub depth: int,
}

/// Rounds of one step from `from` on, until a round finds nothing new.
pub open spec fn spread(
    store: StoreV,
    step: StepV,
    from: Seq<RidV>,
    visited: Seq<RidV>,
    depths: Seq<(RidV, u64)>,
    depth: int,
) -> FoundV
    decreases store.records.len() - visited.len(),
{
    let w = round(store, step, from, visited, depths, depth, store.edges.len() as int);
    if w.fresh.len() > 0 && visited.len() < w.visited.len() <= store.records.len() {
        spread(store, step, w.fresh, w.visited, w.depths, depth + 1)
    } else {
        FoundV { visited: w.visited, depths: w.depths, depth }
    }
}

/// What the first `n` steps of a path find. The first step starts at the start record, a later one
/// at all that was found behind it.
pub open spec fn search(store: StoreV, path: PathV, n: int) -> FoundV
    decreases n,
{
    if n <= 0 {
        FoundV {
            visited: seq![path.start],
            depths: ordmap::put::<RecordId, u64>(Seq::empty(), path.start, 0),
            depth: 1,
        }
    } else {
        let w = search(store, path, n - 1);
        let from = if n == 1 {
            w.visited
        } else {
            w.visited.skip(1)
        };
        spread(store, path.steps[n - 1], from, w.visited, w.depths, w.depth)
    }
}

/// The depth of a record, 0 where it has none.
pub open spec fn depth_of(depths: Seq<(RidV, u64)>, id: RidV) -> u64 {
    match ordmap::lookup::<RecordId, u64>(depths, id) {
        Some(d) => d,
        None => 0,
    }
}

/// The rows of the first `n` of `ids`, scored by their depths.
pub open spec fn depth_rows(
    g: Scoring,
    store: StoreV,
    ids: Seq<RidV>,
    depths: Seq<(RidV, u64)>,
    n: int,
) -> Seq<RowV>
    decreases n,
{
    if n <= 0 {
        Seq::empty()
    } else {
        let rows = depth_rows(g, store, ids, depths, n - 1);
        match ordmap::lookup::<RecordId, RecV>(store.records, ids[n - 1]) {
            None => rows,
            Some(record) => rows.push(
                RowV { record, score: g(TaskV::Count(depth_of(depths, ids[n - 1]) as int)) },
            ),
        }
    }
}

/// The result of a `CLOSURE`: all that was visited, the start first.
pub open spec fn closure_rows(g: Scoring, store: StoreV, path: PathV) -> Seq<RowV> {
    if stored(store, path.start) {
        let w = search(store, path, path.steps.len() as int);
        depth_rows(g, store, w.visited, w.depths, w.visited.len() as int)
    } else {
        Seq::empty()
    }
}

/// Distinct stored records.
pub open spec fn distinct_stored(store: StoreV, ids: Seq<RidV>) -> bool {
    &&& ids.no_duplicates()
    &&& forall|i: int| 0 <= i < ids.len() ==> stored(store, #[trigger] ids[i])
}

/// There are no more distinct stored records than records.
pub proof fn lemma_distinct_bound(store: StoreV, ids: Seq<RidV>)
    requires
        distinct_stored(store, ids),
    ensures
        ids.len() <= store.records.len(),
{
    let place = |id: RidV| ordmap::slot::<RecordId, RecV>(store.records, id, 0);
    let places = ids.map_values(place);
    assert forall|i: int, j: int| 0 <= i < places.len() && 0 <= j < places.len() && i
        != j implies places[i] != places[j] by {
        assert(stored(store, ids[i]) && stored(store, ids[j]));
        assert(ids[i] != ids[j]);
    }
    assert(places.no_duplicates());
    places.unique_seq_to_set();
    let all = vstd::set_lib::set_int_range(0, store.records.len() as int);
    vstd::set_lib::lemma_int_range(0, store.records.len() as int);
    assert forall|p: int| places.to_set().contains(p) implies all.contains(p) by {
        let i = choose|i: int| 0 <= i < places.len() && places[i] == p;
        assert(stored(store, ids[i]));
    }
    vstd::set_lib::lemma_len_subset(places.to_set(), all);
}

/// A round keeps what was visited, adds the fresh ones behind it, and visits stored records once.
pub proof fn lemma_round(
    store: StoreV,
    step: StepV,
    from: Seq<RidV>,
    visited: Seq<RidV>,
    depths: Seq<(RidV, u64)>,
    depth: int,
    n: int,
)
    requires
        0 <= n <= store.edges.len(),
        distinct_stored(store, visited),
    ensures
        ({
            let w = round(store, step, from, visited, depths, depth, n);
            &&& distinct_stored(store, w.visited)
            &&& w.visited == visited + w.fresh
        }),
    decreases n,
{
    if n <= 0 {
        assert(visited + Seq::<RidV>::empty() =~= visited);
    } else {
        lemma_round(store, step, from, visited, depths, depth, n - 1);
        let before = round(store, step, from, visited, depths, depth, n - 1);
        let e = store.edges[n - 1];
        if follows(store, step, from, e) {
            let w = visit(before, step, e, depth);
            if !before.visited.contains(far_end(step, e)) {
                assert(w.visited =~= visited + w.fresh);
                assert forall|i: int| 0 <= i < w.visited.len() implies stored(
                    store,
                    #[trigger] w.visited[i],
                ) by {
                    if i < before.visited.len() {
                        assert(w.visited[i] == before.visited[i]);
                    }
                }
            }
        }
    }
}

fn take_round(
    store: &Store,
    step: &MatchStep,
    from: &Vec<RecordId>,
    visited: Vec<RecordId>,
    depths: OrdMap<RecordId, u64>,
    depth: u64,
) -> (r: (Vec<RecordId>, Vec<RecordId>, OrdMap<RecordId, u64>))
    ensures
        (SpreadV {
            visited: ordmap::views(r.0@),
            fresh: ordmap::views(r.1@),
            depths: r.2@,
        }) == round(
            store@,
            step@,
            ordmap::views(from@),
            ordmap::views(visited@),
            depths@,
            depth as int,
            store@.edges.len() as int,
        ),
{
    let ghost v0 = ordmap::views(visited@);
    let ghost d0 = depths@;
    let ghost f = ordmap::views(from@);
    let ghost es = store@.edges;
    let mut visited = visited;
    let mut depths = depths;
    let mut fresh: Vec<RecordId> = Vec::new();
    let mut i: usize = 0;
    assert(ordmap::views(fresh@) =~= Seq::<RidV>::empty());
    while i < store.edges.len()
        invariant
            i <= store.edges.len(),
            es == store@.edges,
            f == ordmap::views(from@),
            (SpreadV {
                visited: ordmap::views(visited@),
                fresh: ordmap::views(fresh@),
                depths: depths@,
            }) == round(store@, step@, f, v0, d0, depth as int, i as int),
        decreases store.edges.len() - i,
    {
        let edge = &store.edges[i];
        assert(es[i as int] == edge@);
        if can_follow(store, step, from, edge) {
            let id = far_id(step, edge);
            if !contains_id(&visited, &id) {
                let ghost vb = ordmap::views(visited@);
                let ghost fb = ordmap::views(fresh@);
                let ghost idv = id@;
                visited.push(id.dup());
                fresh.push(id.dup());
                depths.insert(id, depth);
                assert(ordmap::views(visited@) =~= vb.push(idv));
                assert(ordmap::views(fresh@) =~= fb.push(idv));
            }
        }
        i = i + 1;
    }
    (visited, fresh, depths)
}

fn spread_step(
    store: &Store,
    step: &MatchStep,
    from: Vec<RecordId>,
    visited: Vec<RecordId>,
    depths: OrdMap<RecordId, u64>,
    depth: u64,
) -> (r: (Vec<RecordId>, OrdMap<RecordId, u64>, u64))
    requires
        distinct_stored(store@, ordmap::views(visited@)),
        depth <= visited@.len(),
    ensures
        (FoundV { visited: ordmap::views(r.0@), depths: r.1@, depth: r.2 as int }) == spread(
            store@,
            step@,
            ordmap::views(from@),
            ordmap::views(visited@),
            depths@,
            depth as int,
        ),
        distinct_stored(store@, ordmap::views(r.0@)),
        r.2 <= r.0@.len(),
        r.0@.len() >= visited@.len(),
{
    let ghost least = visited@.len();
    let ghost goal = spread(
        store@,
        step@,
        ordmap::views(from@),
        ordmap::views(visited@),
        depths@,
        depth as int,
    );
    let mut at = from;
    let mut seen = visited;
    let mut marks = depths;
    let mut level: u64 = depth;
    proof {
        lemma_distinct_bound(store@, ordmap::views(seen@));
    }
    loop
        invariant
            least == visited@.len(),
            goal == spread(
                store@,
                step@,
                ordmap::views(from@),
                ordmap::views(visited@),
                depths@,
                depth as int,
            ),
            distinct_stored(store@, ordmap::views(seen@)),
            level <= seen@.len(),
            seen@.len() <= store@.records.len(),
            seen@.len() >= least,
            goal == spread(
                store@,
                step@,
                ordmap::views(at@),
                ordmap::views(seen@),
                marks@,
                level as int,
            ),
        decreases store@.records.len() - seen@.len(),
    {
        let ghost v0 = ordmap::views(seen@);
        proof {
            lemma_round(
                store@,
                step@,
                ordmap::views(at@),
                v0,
                marks@,
                level as int,
                store@.edges.len() as int,
            );
        }
        let (all, fresh, depths_now) = take_round(store, step, &at, seen, marks, level);
        proof {
            lemma_distinct_bound(store@, ordmap::views(all@));
            assert(ordmap::views(all@).len() == v0.len() + ordmap::views(fresh@).len());
        }
        seen = all;
        marks = depths_now;
        if fresh.len() == 0 {
            return (seen, marks, level);
        }
        at = fresh;
        let n: usize = seen.len();
        assert(level < n);
        level = level + 1;
    }
}

fn ids_behind(ids: &Vec<RecordId>) -> (r: Vec<RecordId>)
    requires
        ids@.len() > 0,
    ensures
        ordmap::views(r@) == ordmap::views(ids@).skip(1),
{
    let mut out: Vec<RecordId> = Vec::new();
    let mut i: usize = 1;
    while i < ids.len()
        invariant
            1 <= i <= ids.len(),
            out.len() == i - 1,
            forall|j: int| 0 <= j < out.len() ==> (#[trigger] out@[j])@ == ids@[j + 1]@,
        decreases ids.len() - i,
    {
        out.push(ids[i].dup());
        i = i + 1;
    }
    assert(ordmap::views(out@) =~= ordmap::views(ids@).skip(1));
    out
}

fn rows_by_depth<F: Fn(ScoreTask) -> u32>(
    store: &Store,
    ids: &Vec<RecordId>,
    depths: &OrdMap<RecordId, u64>,
    f: &F,
) -> (r: Vec<ScoredRecord>)
    requires
        score::takes_tasks(*f),
    ensures
        forall|g: Scoring| #[trigger]
            score::scores_by(*f, g) ==> ordmap::views(r@) == depth_rows(
                g,
                store@,
                ordmap::views(ids@),
                depths@,
                ids@.len() as int,
            ),
{
    let ghost s = ordmap::views(ids@);
    let mut out: Vec<ScoredRecord> = Vec::new();
    let mut i: usize = 0;
    assert(ordmap::views(out@) =~= Seq::<RowV>::empty());
    while i < ids.len()
        invariant
            score::takes_tasks(*f),
            i <= ids.len(),
            s == ordmap::views(ids@),
            forall|g: Scoring| #[trigger]
                score::scores_by(*f, g) ==> ordmap::views(out@) == depth_rows(
                    g,
                    store@,
                    s,
                    depths@,
                    i as int,
                ),
        decreases ids.len() - i,
    {
        assert(s[i as int] == ids@[i as int]@);
        match store.records.get(&ids[i]) {
            Some(rec) => {
                let depth: u64 = match depths.get(&ids[i]) {
                    Some(d) => *d,
                    None => 0,
                };
                let score: u32 = f(ScoreTask::Count(depth as i128));
                let row = ScoredRecord { record: rec.dup(), score };
                let ghost before = ordmap::views(out@);
                let ghost rv = row@;
                out.push(row);
                assert(ordmap::views(out@) =~= before.push(rv));
            },
            None => {},
        }
        i = i + 1;
    }
    out
}

/// Collects all that a path reaches, each step over any number of hops, in the order of first
/// visit and scored by depth. `f` computes the scores.
pub fn run_closure<F: Fn(ScoreTask) -> u32>(store: &Store, path: &MatchPath, f: &F) -> (r: Vec<
    ScoredRecord,
>)
    requires
        score::takes_tasks(*f),
    ensures
        forall|g: Scoring| #[trigger]
            score::scores_by(*f, g) ==> ordmap::views(r@) == closure_rows(g, store@, path@),
{
    if !store.records.contains_key(&path.start) {
        let r: Vec<ScoredRecord> = Vec::new();
        assert(ordmap::views(r@) =~= Seq::<RowV>::empty());
        return r;
    }
    let mut visited: Vec<RecordId> = Vec::new();
    visited.push(path.start.dup());
    let mut depths: OrdMap<RecordId, u64> = OrdMap::new();
    depths.insert(path.start.dup(), 0);
    let mut depth: u64 = 1;
    assert(ordmap::views(visited@) =~= seq![path.start@]);
    let mut k: usize = 0;
    while k < path.steps.len()
        invariant
            k <= path.steps.len(),
            distinct_stored(store@, ordmap::views(visited@)),
            1 <= visited@.len(),
            depth <= visited@.len(),
            (FoundV { visited: ordmap::views(visited@), depths: depths@, depth: depth as int })
                == search(store@, path@, k as int),
            k == 0 ==> visited@.len() == 1,
        decreases path.steps.len() - k,
    {
        assert(path@.steps[k as int] == path.steps@[k as int]@);
        let from = if k == 0 {
            ordmap::vec_dup(&visited)
        } else {
            ids_behind(&visited)
        };
        let (seen, marks, next) = spread_step(
            store,
            &path.steps[k],
            from,
            visited,
            depths,
            depth,
        );
        visited = seen;
        depths = marks;
        depth = next;
        k = k + 1;
    }
    rows_by_depth(store, &visited, &depths, f)
}

// ---------------------------------------------------------------------------------------------
// Laws
// ---------------------------------------------------------------------------------------------
/// Some of the first `n` edges leads the step from `from` to `id`.
pub open spec fn led_to(store: StoreV, step: StepV, from: Seq<RidV>, id: RidV, n: int) -> bool {
    exists|i: int|
        0 <= i < n && follows(store, step, from, #[trigger] store.edges[i]) && far_end(
            step,
            store.edges[i],
        ) == id
}

proof fn lemma_step_over(
    store: StoreV,
    step: StepV,
    from: Seq<RidV>,
    scores: Seq<(RidV, u32)>,
    n: int,
)
    requires
        0 <= n <= store.edges.len(),
    ensures
        ({
            let w = step_over(store, step, from, scores, n);
            &&& distinct_stored(store, w.front)
            &&& forall|id: RidV| #[trigger]
                w.front.contains(id) <==> led_to(store, step, from, id, n)
        }),
    decreases n,
{
    if n > 0 {
        lemma_step_over(store, step, from, scores, n - 1);
        let before = step_over(store, step, from, scores, n - 1);
        let w = step_over(store, step, from, scores, n);
        let e = store.edges[n - 1];
        let far = far_end(step, e);
        assert forall|id: RidV| #[trigger] w.front.contains(id) <==> led_to(
            store,
            step,
            from,
            id,
            n,
        ) by {
            if led_to(store, step, from, id, n - 1) {
                let i = choose|i: int|
                    0 <= i < n - 1 && follows(store, step, from, #[trigger] store.edges[i])
                        && far_end(step, store.edges[i]) == id;
                assert(store.edges[i] == store.edges[i]);
                assert(led_to(store, step, from, id, n));
                assert(before.front.contains(id));
                let k = choose|k: int| 0 <= k < before.front.len() && before.front[k] == id;
                assert(w.front[k] == id);
            } else {
                assert(!before.front.contains(id));
                if led_to(store, step, from, id, n) {
                    assert(follows(store, step, from, e) && far == id);
                    assert(w.front[before.front.len() as int] == id);
                }
                if w.front.contains(id) {
                    let k = choose|k: int| 0 <= k < w.front.len() && w.front[k] == id;
                    if k < before.front.len() {
                        assert(before.front[k] == id);
                    }
                    assert(follows(store, step, from, store.edges[n - 1]));
                }
            }
        }
        if follows(store, step, from, e) && !before.front.contains(far) {
            assert forall|i: int| 0 <= i < w.front.len() implies stored(
                store,
                #[trigger] w.front[i],
            ) by {
                if i < before.front.len() {
                    assert(w.front[i] == before.front[i]);
                }
            }
        }
    }
}

/// A record is at the end of a path behind `n + 1` steps exactly if some edge leads step `n` to it
/// from a record behind `n` steps. It is stored, and it is listed once.
pub proof fn law_match_follows_edges(store: StoreV, path: PathV, n: int, id: RidV)
    requires
        0 <= n < path.steps.len(),
    ensures
        ({
            let here = walk(store, path, n).front;
            let next = walk(store, path, n + 1).front;
            &&& next.contains(id) <==> led_to(
                store,
                path.steps[n],
                here,
                id,
                store.edges.len() as int,
            )
            &&& distinct_stored(store, next)
        }),
{
    let w = walk(store, path, n);
    lemma_step_over(store, path.steps[n], w.front, w.scores, store.edges.len() as int);
}

/// A path that starts at a record that is not stored gives nothing.
pub proof fn law_unknown_start_gives_nothing(g: Scoring, store: StoreV, path: PathV)
    requires
        !stored(store, path.start),
    ensures
        match_rows(store, path).len() == 0,
        closure_rows(g, store, path).len() == 0,
{
}

proof fn lemma_rows_of(store: StoreV, ids: Seq<RidV>, scores: Seq<(RidV, u32)>, n: int)
    requires
        0 <= n <= ids.len(),
        forall|i: int| 0 <= i < ids.len() ==> stored(store, #[trigger] ids[i]),
    ensures
        rows_of(store, ids, scores, n).len() == n,
        forall|i: int|
            0 <= i < n ==> ordmap::lookup::<RecordId, RecV>(store.records, ids[i]) == Some(
                (#[trigger] rows_of(store, ids, scores, n)[i]).record,
            ),
    decreases n,
{
    if n > 0 {
        lemma_rows_of(store, ids, scores, n - 1);
        assert(stored(store, ids[n - 1]));
        let before = rows_of(store, ids, scores, n - 1);
        let after = rows_of(store, ids, scores, n);
        assert forall|i: int| 0 <= i < n implies ordmap::lookup::<RecordId, RecV>(
            store.records,
            ids[i],
        ) == Some((#[trigger] after[i]).record) by {
            if i < n - 1 {
                assert(after[i] == before[i]);
            }
        }
    }
}

/// The rows of a `MATCH` are the stored records at the end of its path, each once.
pub proof fn law_match_rows_are_distinct_records(store: StoreV, path: PathV)
    requires
        ir::store_wf(store),
    ensures
        ({
            let rows = match_rows(store, path);
            &&& forall|i: int|
                0 <= i < rows.len() ==> ordmap::lookup::<RecordId, RecV>(
                    store.records,
                    (#[trigger] rows[i]).record.id,
                ) == Some(rows[i].record)
            &&& forall|i: int, j: int|
                0 <= i < j < rows.len() ==> (#[trigger] rows[i]).record.id != (
                #[trigger] rows[j]).record.id
        }),
{
    if stored(store, path.start) {
        let n = path.steps.len() as int;
        let w = walk(store, path, n);
        let rows = match_rows(store, path);
        if n > 0 {
            law_match_follows_edges(store, path, n - 1, path.start);
        } else {
            assert(w.front =~= seq![path.start]);
        }
        assert(distinct_stored(store, w.front));
        lemma_rows_of(store, w.front, w.scores, w.front.len() as int);
        assert forall|i: int| 0 <= i < rows.len() implies (#[trigger] rows[i]).record.id
            == w.front[i] by {
            assert(ordmap::lookup::<RecordId, RecV>(store.records, w.front[i]) == Some(
                rows[i].record,
            ));
            let p = ordmap::slot::<RecordId, RecV>(store.records, w.front[i], 0);
            assert(store.records[p].1.id == store.records[p].0);
        }
    }
}

/// The records within `n` hops of `start` along one step.
pub open spec fn within(store: StoreV, step: StepV, start: RidV, n: nat) -> Set<RidV>
    decreases n,
{
    if n == 0 {
        set![start]
    } else {
        let near = within(store, step, start, (n - 1) as nat);
        Set::new(
            |id: RidV|
                near.contains(id) || exists|i: int|
                    0 <= i < store.edges.len() && passable(store, step, #[trigger] store.edges[i])
                        && near.contains(near_end(step, store.edges[i])) && far_end(
                        step,
                        store.edges[i],
                    ) == id,
        )
    }
}

proof fn lemma_within_grows(store: StoreV, step: StepV, start: RidV, m: nat, n: nat, id: RidV)
    requires
        m <= n,
        within(store, step, start, m).contains(id),
    ensures
        within(store, step, start, n).contains(id),
    decreases n - m,
{
    if m < n {
        lemma_within_grows(store, step, start, m, (n - 1) as nat, id);
    }
}

/// Where hops reach nothing new, more hops reach nothing new.
proof fn lemma_within_settles(store: StoreV, step: StepV, start: RidV, m: nat, n: nat)
    requires
        m <= n,
        within(store, step, start, m + 1) == within(store, step, start, m),
    ensures
        within(store, step, start, n) == within(store, step, start, m),
    decreases n - m,
{
    if m < n {
        lemma_within_settles(store, step, start, m, (n - 1) as nat);
        assert(within(store, step, start, n) =~= within(store, step, start, m + 1));
    }
}

/// Where a search stands before round `d`: it has visited what is within `d - 1` hops, `from` is
/// what needs exactly that many, and depths are least numbers of hops.
spec fn on_course(
    store: StoreV,
    step: StepV,
    start: RidV,
    from: Seq<RidV>,
    visited: Seq<RidV>,
    depths: Seq<(RidV, u64)>,
    d: int,
) -> bool {
    &&& 1 <= d <= visited.len()
    &&& distinct_stored(store, visited)
    &&& visited[0] == start
    &&& forall|id: RidV| #[trigger]
        visited.contains(id) <==> within(store, step, start, (d - 1) as nat).contains(id)
    &&& forall|id: RidV| #[trigger]
        from.contains(id) <==> visited.contains(id) && (d >= 2 ==> !within(
            store,
            step,
            start,
            (d - 2) as nat,
        ).contains(id))
    &&& ordmap::ascending::<RecordId, u64>(depths)
    &&& forall|id: RidV| #[trigger]
        visited.contains(id) ==> ordmap::holds::<RecordId, u64>(depths, id) && is_distance(
            store,
            step,
            start,
            id,
            depth_of(depths, id) as int,
        )
}

/// `d` is the least number of hops to `id`.
pub open spec fn is_distance(store: StoreV, step: StepV, start: RidV, id: RidV, d: int) -> bool {
    &&& d >= 0
    &&& within(store, step, start, d as nat).contains(id)
    &&& d > 0 ==> !within(store, step, start, (d - 1) as nat).contains(id)
}

/// What a round over the first `n` edges finds.
proof fn lemma_round_finds(
    store: StoreV,
    step: StepV,
    from: Seq<RidV>,
    visited: Seq<RidV>,
    depths: Seq<(RidV, u64)>,
    depth: int,
    n: int,
)
    requires
        0 <= n <= store.edges.len(),
        0 <= depth <= u64::MAX,
        ordmap::ascending::<RecordId, u64>(depths),
    ensures
        ({
            let w = round(store, step, from, visited, depths, depth, n);
            &&& ordmap::ascending::<RecordId, u64>(w.depths)
            &&& forall|id: RidV| #[trigger]
                w.fresh.contains(id) <==> !visited.contains(id) && led_to(
                    store,
                    step,
                    from,
                    id,
                    n,
                )
            &&& forall|id: RidV| #[trigger]
                w.visited.contains(id) <==> visited.contains(id) || led_to(
                    store,
                    step,
                    from,
                    id,
                    n,
                )
            &&& forall|id: RidV|
                visited.contains(id) ==> #[trigger] ordmap::lookup::<RecordId, u64>(w.depths, id)
                    == ordmap::lookup::<RecordId, u64>(depths, id)
            &&& forall|id: RidV|
                w.fresh.contains(id) ==> #[trigger] ordmap::lookup::<RecordId, u64>(w.depths, id)
                    == Some(depth as u64)
        }),
    decreases n,
{
    if n > 0 {
        lemma_round_finds(store, step, from, visited, depths, depth, n - 1);
        let before = round(store, step, from, visited, depths, depth, n - 1);
        let w = round(store, step, from, visited, depths, depth, n);
        let e = store.edges[n - 1];
        let far = far_end(step, e);
        assert forall|id: RidV| led_to(store, step, from, id, n) <==> led_to(
            store,
            step,
            from,
            id,
            n - 1,
        ) || (follows(store, step, from, e) && far == id) by {
            if led_to(store, step, from, id, n - 1) {
                let i = choose|i: int|
                    0 <= i < n - 1 && follows(store, step, from, #[trigger] store.edges[i])
                        && far_end(step, store.edges[i]) == id;
                assert(follows(store, step, from, store.edges[i]));
            }
            if follows(store, step, from, e) && far == id {
                assert(follows(store, step, from, store.edges[n - 1]));
            }
        }
        if follows(store, step, from, e) && !before.visited.contains(far) {
            ordmap::lemma_put_ascending::<RecordId, u64>(before.depths, far, depth as u64);
            ordmap::lemma_put_lookup_same::<RecordId, u64>(before.depths, far, depth as u64);
            assert forall|id: RidV| id != far implies #[trigger] ordmap::lookup::<RecordId, u64>(
                w.depths,
                id,
            ) == ordmap::lookup::<RecordId, u64>(before.depths, id) by {
                ordmap::lemma_put_lookup_other::<RecordId, u64>(
                    before.depths,
                    far,
                    depth as u64,
                    id,
                );
            }
            lemma_push_contains(before.visited, far);
            lemma_push_contains(before.fresh, far);
        }
    }
}

proof fn lemma_push_contains(s: Seq<RidV>, x: RidV)
    ensures
        forall|id: RidV| #[trigger] s.push(x).contains(id) <==> s.contains(id) || id == x,
{
    assert forall|id: RidV| #[trigger] s.push(x).contains(id) <==> s.contains(id) || id == x by {
        if s.contains(id) {
            let k = choose|k: int| 0 <= k < s.len() && s[k] == id;
            assert(s.push(x)[k] == id);
        }
        if id == x {
            assert(s.push(x)[s.len() as int] == id);
        }
        if s.push(x).contains(id) {
            let k = choose|k: int| 0 <= k < s.push(x).len() && s.push(x)[k] == id;
            if k < s.len() {
                assert(s[k] == id);
            }
        }
    }
}

/// One round takes the search one hop further.
proof fn lemma_round_course(
    store: StoreV,
    step: StepV,
    start: RidV,
    from: Seq<RidV>,
    visited: Seq<RidV>,
    depths: Seq<(RidV, u64)>,
    d: int,
)
    requires
        on_course(store, step, start, from, visited, depths, d),
        d <= u64::MAX,
    ensures
        ({
            let w = round(store, step, from, visited, depths, d, store.edges.len() as int);
            &&& forall|id: RidV| #[trigger]
                w.visited.contains(id) <==> within(store, step, start, d as nat).contains(id)
            &&& w.fresh.len() > 0 ==> on_course(
                store,
                step,
                start,
                w.fresh,
                w.visited,
                w.depths,
                d + 1,
            )
            &&& w.fresh.len() == 0 ==> within(store, step, start, d as nat) == within(
                store,
                step,
                start,
                (d - 1) as nat,
            ) && w.visited == visited && w.depths == depths
        }),
{
    let n = store.edges.len() as int;
    let near = within(store, step, start, (d - 1) as nat);
    let w = round(store, step, from, visited, depths, d, n);
    lemma_round_finds(store, step, from, visited, depths, d, n);
    lemma_round(store, step, from, visited, depths, d, n);
    assert forall|id: RidV| #[trigger] w.visited.contains(id) <==> within(
        store,
        step,
        start,
        d as nat,
    ).contains(id) by {
        if led_to(store, step, from, id, n) {
            let i = choose|i: int|
                0 <= i < n && follows(store, step, from, #[trigger] store.edges[i]) && far_end(
                    step,
                    store.edges[i],
                ) == id;
            assert(from.contains(near_end(step, store.edges[i])));
            assert(visited.contains(near_end(step, store.edges[i])));
            assert(passable(store, step, store.edges[i]));
        }
        if visited.contains(id) {
            assert(near.contains(id));
        }
        if within(store, step, start, d as nat).contains(id) && !near.contains(id) {
            let i = choose|i: int|
                0 <= i < n && passable(store, step, #[trigger] store.edges[i]) && near.contains(
                    near_end(step, store.edges[i]),
                ) && far_end(step, store.edges[i]) == id;
            let src = near_end(step, store.edges[i]);
            assert(visited.contains(src));
            if d >= 2 && within(store, step, start, (d - 2) as nat).contains(src) {
                // A nearer source would have brought `id` one hop nearer too.
                assert(within(store, step, start, (d - 1) as nat).contains(id));
                assert(false);
            }
            assert(from.contains(src));
            assert(follows(store, step, from, store.edges[i]));
            assert(led_to(store, step, from, id, n));
        }
    }
    assert forall|id: RidV| #[trigger] w.fresh.contains(id) <==> w.visited.contains(id)
        && !near.contains(id) by {
        if visited.contains(id) {
            assert(near.contains(id));
        }
        if near.contains(id) {
            assert(visited.contains(id));
        }
    }
    if w.fresh.len() > 0 {
        assert(w.visited[0] == start);
        assert forall|id: RidV| #[trigger] w.visited.contains(id) implies ordmap::holds::<
            RecordId,
            u64,
        >(w.depths, id) && is_distance(
            store,
            step,
            start,
            id,
            depth_of(w.depths, id) as int,
        ) by {
            if visited.contains(id) {
                assert(ordmap::lookup::<RecordId, u64>(w.depths, id) == ordmap::lookup::<
                    RecordId,
                    u64,
                >(depths, id));
            } else {
                assert(w.fresh.contains(id));
                assert(ordmap::lookup::<RecordId, u64>(w.depths, id) == Some(d as u64));
            }
        }
        assert(w.visited.len() >= visited.len() + 1);
    } else {
        assert forall|id: RidV| within(store, step, start, d as nat).contains(id) implies near.contains(
            id,
        ) by {
            assert(w.visited.contains(id));
            if !near.contains(id) {
                assert(w.fresh.contains(id));
                let k = choose|k: int| 0 <= k < w.fresh.len() && w.fresh[k] == id;
                assert(false);
            }
        }
        assert(within(store, step, start, d as nat) =~= near) by {
            assert forall|id: RidV| near.contains(id) implies within(
                store,
                step,
                start,
                d as nat,
            ).contains(id) by {
                lemma_within_grows(store, step, start, (d - 1) as nat, d as nat, id);
            }
        }
        lemma_nothing_fresh(store, step, from, visited, depths, d, n);
    }
}

proof fn lemma_nothing_fresh(
    store: StoreV,
    step: StepV,
    from: Seq<RidV>,
    visited: Seq<RidV>,
    depths: Seq<(RidV, u64)>,
    depth: int,
    n: int,
)
    requires
        0 <= n,
        round(store, step, from, visited, depths, depth, n).fresh.len() == 0,
    ensures
        round(store, step, from, visited, depths, depth, n).visited == visited,
        round(store, step, from, visited, depths, depth, n).depths == depths,
    decreases n,
{
    if n > 0 {
        lemma_nothing_fresh(store, step, from, visited, depths, depth, n - 1);
    }
}

/// A search on course ends with all that is within any number of hops.
proof fn lemma_spread_course(
    store: StoreV,
    step: StepV,
    start: RidV,
    from: Seq<RidV>,
    visited: Seq<RidV>,
    depths: Seq<(RidV, u64)>,
    d: int,
)
    requires
        on_course(store, step, start, from, visited, depths, d),
        store.records.len() <= u64::MAX,
    ensures
        ({
            let f = spread(store, step, from, visited, depths, d);
            &&& distinct_stored(store, f.visited)
            &&& f.visited.len() >= 1
            &&& f.visited[0] == start
            &&& forall|id: RidV| #[trigger]
                f.visited.contains(id) <==> exists|n: nat| #[trigger]
                    within(store, step, start, n).contains(id)
            &&& forall|id: RidV| #[trigger]
                f.visited.contains(id) ==> is_distance(
                    store,
                    step,
                    start,
                    id,
                    depth_of(f.depths, id) as int,
                )
        }),
    decreases store.records.len() - visited.len(),
{
    let n = store.edges.len() as int;
    lemma_distinct_bound(store, visited);
    lemma_round_course(store, step, start, from, visited, depths, d);
    lemma_round(store, step, from, visited, depths, d, n);
    let w = round(store, step, from, visited, depths, d, n);
    lemma_distinct_bound(store, w.visited);
    if w.fresh.len() > 0 {
        lemma_spread_course(store, step, start, w.fresh, w.visited, w.depths, d + 1);
    } else {
        let near = within(store, step, start, (d - 1) as nat);
        assert forall|id: RidV| #[trigger] visited.contains(id) <==> exists|m: nat| #[trigger]
            within(store, step, start, m).contains(id) by {
            if visited.contains(id) {
                assert(within(store, step, start, (d - 1) as nat).contains(id));
            }
            if exists|m: nat| #[trigger] within(store, step, start, m).contains(id) {
                let m = choose|m: nat| #[trigger] within(store, step, start, m).contains(id);
                if m <= d - 1 {
                    lemma_within_grows(store, step, start, m, (d - 1) as nat, id);
                } else {
                    lemma_within_settles(store, step, start, (d - 1) as nat, m);
                }
                assert(near.contains(id));
            }
        }
    }
}

/// `CLOSURE` along one step finds exactly the records that any number of hops reach, each once, the
/// start first, and the depth of each is the least number of hops to it.
pub proof fn law_closure_is_reachability(store: StoreV, path: PathV)
    requires
        stored(store, path.start),
        path.steps.len() == 1,
        store.records.len() <= u64::MAX,
    ensures
        ({
            let f = search(store, path, 1);
            &&& distinct_stored(store, f.visited)
            &&& f.visited.len() >= 1
            &&& f.visited[0] == path.start
            &&& forall|id: RidV| #[trigger]
                f.visited.contains(id) <==> exists|n: nat| #[trigger]
                    within(store, path.steps[0], path.start, n).contains(id)
            &&& forall|id: RidV| #[trigger]
                f.visited.contains(id) ==> is_distance(
                    store,
                    path.steps[0],
                    path.start,
                    id,
                    depth_of(f.depths, id) as int,
                )
        }),
{
    let step = path.steps[0];
    let start = path.start;
    let w = search(store, path, 0);
    let empty = Seq::<(RidV, u64)>::empty();
    ordmap::lemma_put_ascending::<RecordId, u64>(empty, start, 0);
    ordmap::lemma_put_lookup_same::<RecordId, u64>(empty, start, 0);
    assert(w.visited =~= seq![start]);
    assert(w.visited[0] == start);
    assert forall|id: RidV| #[trigger] w.visited.contains(id) <==> id == start by {
        if w.visited.contains(id) {
            let k = choose|k: int| 0 <= k < w.visited.len() && w.visited[k] == id;
        }
    }
    assert(on_course(store, step, start, w.visited, w.visited, w.depths, 1));
    lemma_spread_course(store, step, start, w.visited, w.visited, w.depths, 1);
    assert(search(store, path, 1) == spread(store, step, w.visited, w.visited, w.depths, w.depth));
}

proof fn lemma_spread_distinct(
    store: StoreV,
    step: StepV,
    from: Seq<RidV>,
    visited: Seq<RidV>,
    depths: Seq<(RidV, u64)>,
    depth: int,
)
    requires
        distinct_stored(store, visited),
        visited.len() > 0,
    ensures
        ({
            let f = spread(store, step, from, visited, depths, depth);
            &&& distinct_stored(store, f.visited)
            &&& f.visited.len() >= visited.len()
            &&& f.visited.take(visited.len() as int) == visited
        }),
    decreases store.records.len() - visited.len(),
{
    let n = store.edges.len() as int;
    lemma_distinct_bound(store, visited);
    lemma_round(store, step, from, visited, depths, depth, n);
    let w = round(store, step, from, visited, depths, depth, n);
    lemma_distinct_bound(store, w.visited);
    assert(w.visited.take(visited.len() as int) =~= visited);
    if w.fresh.len() > 0 {
        lemma_spread_distinct(store, step, w.fresh, w.visited, w.depths, depth + 1);
        let f = spread(store, step, from, visited, depths, depth);
        assert(f.visited.take(visited.len() as int) =~= f.visited.take(
            w.visited.len() as int,
        ).take(visited.len() as int));
    }
}

/// Whatever path it follows, a `CLOSURE` from a stored record lists stored records only, each once,
/// the start first; and each further step keeps what was found and adds to it.
pub proof fn law_closure_rows_are_distinct_records(store: StoreV, path: PathV, n: int)
    requires
        stored(store, path.start),
        0 <= n <= path.steps.len(),
    ensures
        ({
            let f = search(store, path, n);
            &&& distinct_stored(store, f.visited)
            &&& f.visited.len() >= 1
            &&& f.visited[0] == path.start
            &&& n > 0 ==> {
                let before = search(store, path, n - 1).visited;
                before.len() <= f.visited.len() && f.visited.take(before.len() as int) == before
            }
        }),
    decreases n,
{
    if n > 0 {
        law_closure_rows_are_distinct_records(store, path, n - 1);
        let w = search(store, path, n - 1);
        let from = if n == 1 {
            w.visited
        } else {
            w.visited.skip(1)
        };
        lemma_spread_distinct(store, path.steps[n - 1], from, w.visited, w.depths, w.depth);
        let f = search(store, path, n);
        assert(f.visited.take(w.visited.len() as int)[0] == f.visited[0]);
    } else {
        assert(search(store, path, 0).visited =~= seq![path.start]);
    }
}

/// Depths never fall along `visited`, and all are below `d`.
spec fn climbs(visited: Seq<RidV>, depths: Seq<(RidV, u64)>, d: int) -> bool {
    &&& ordmap::ascending::<RecordId, u64>(depths)
    &&& forall|i: int, j: int|
        0 <= i <= j < visited.len() ==> depth_of(depths, #[trigger] visited[i]) <= depth_of(
            depths,
            #[trigger] visited[j],
        )
    &&& forall|i: int| 0 <= i < visited.len() ==> depth_of(depths, #[trigger] visited[i]) < d
}

proof fn lemma_climbing_round(
    store: StoreV,
    step: StepV,
    from: Seq<RidV>,
    visited: Seq<RidV>,
    depths: Seq<(RidV, u64)>,
    d: int,
)
    requires
        distinct_stored(store, visited),
        climbs(visited, depths, d),
        1 <= d <= u64::MAX,
    ensures
        ({
            let w = round(store, step, from, visited, depths, d, store.edges.len() as int);
            &&& climbs(w.visited, w.depths, d + 1)
            &&& w.fresh.len() == 0 ==> w.visited == visited && w.depths == depths
        }),
{
    let n = store.edges.len() as int;
    let w = round(store, step, from, visited, depths, d, n);
    lemma_round(store, step, from, visited, depths, d, n);
    lemma_round_finds(store, step, from, visited, depths, d, n);
    assert forall|i: int| 0 <= i < w.visited.len() implies depth_of(
        w.depths,
        #[trigger] w.visited[i],
    ) == if i < visited.len() {
        depth_of(depths, visited[i])
    } else {
        d as u64
    } by {
        let id = w.visited[i];
        if i < visited.len() {
            assert(id == visited[i]);
            assert(visited.contains(id));
            assert(ordmap::lookup::<RecordId, u64>(w.depths, id) == ordmap::lookup::<RecordId, u64>(
                depths,
                id,
            ));
        } else {
            assert(id == w.fresh[i - visited.len()]);
            assert(w.fresh.contains(id));
            assert(ordmap::lookup::<RecordId, u64>(w.depths, id) == Some(d as u64));
        }
    }
    if w.fresh.len() == 0 {
        lemma_nothing_fresh(store, step, from, visited, depths, d, n);
    }
}

proof fn lemma_climbing_spread(
    store: StoreV,
    step: StepV,
    from: Seq<RidV>,
    visited: Seq<RidV>,
    depths: Seq<(RidV, u64)>,
    d: int,
)
    requires
        distinct_stored(store, visited),
        climbs(visited, depths, d),
        1 <= d <= visited.len(),
        store.records.len() <= u64::MAX,
    ensures
        ({
            let f = spread(store, step, from, visited, depths, d);
            &&& distinct_stored(store, f.visited)
            &&& climbs(f.visited, f.depths, f.depth)
            &&& 1 <= f.depth <= f.visited.len()
        }),
    decreases store.records.len() - visited.len(),
{
    let n = store.edges.len() as int;
    lemma_distinct_bound(store, visited);
    lemma_climbing_round(store, step, from, visited, depths, d);
    lemma_round(store, step, from, visited, depths, d, n);
    let w = round(store, step, from, visited, depths, d, n);
    lemma_distinct_bound(store, w.visited);
    if w.fresh.len() > 0 {
        lemma_climbing_spread(store, step, w.fresh, w.visited, w.depths, d + 1);
    }
}

proof fn lemma_climbing_search(store: StoreV, path: PathV, n: int)
    requires
        stored(store, path.start),
        0 <= n <= path.steps.len(),
        store.records.len() <= u64::MAX,
    ensures
        ({
            let f = search(store, path, n);
            &&& distinct_stored(store, f.visited)
            &&& climbs(f.visited, f.depths, f.depth)
            &&& 1 <= f.depth <= f.visited.len()
        }),
    decreases n,
{
    if n > 0 {
        lemma_climbing_search(store, path, n - 1);
        let w = search(store, path, n - 1);
        let from = if n == 1 {
            w.visited
        } else {
            w.visited.skip(1)
        };
        lemma_climbing_spread(store, path.steps[n - 1], from, w.visited, w.depths, w.depth);
    } else {
        let empty = Seq::<(RidV, u64)>::empty();
        ordmap::lemma_put_ascending::<RecordId, u64>(empty, path.start, 0);
        ordmap::lemma_put_lookup_same::<RecordId, u64>(empty, path.start, 0);
        assert(search(store, path, 0).visited =~= seq![path.start]);
    }
}

proof fn lemma_depth_rows(
    g: Scoring,
    store: StoreV,
    ids: Seq<RidV>,
    depths: Seq<(RidV, u64)>,
    n: int,
)
    requires
        0 <= n <= ids.len(),
        distinct_stored(store, ids),
    ensures
        depth_rows(g, store, ids, depths, n).len() == n,
        forall|i: int|
            0 <= i < n ==> ordmap::lookup::<RecordId, RecV>(store.records, ids[i]) == Some(
                (#[trigger] depth_rows(g, store, ids, depths, n)[i]).record,
            ) && depth_rows(g, store, ids, depths, n)[i].score == g(
                TaskV::Count(depth_of(depths, ids[i]) as int),
            ),
    decreases n,
{
    if n > 0 {
        lemma_depth_rows(g, store, ids, depths, n - 1);
        assert(stored(store, ids[n - 1]));
    }
}

/// The rows of a `CLOSURE` are what was found, in the order of the first visit, each scored by its
/// depth; the start has depth 0, and depths never fall from one row to the next, whatever path is
/// followed.
pub proof fn law_closure_depths_never_fall(g: Scoring, store: StoreV, path: PathV)
    requires
        stored(store, path.start),
        store.records.len() <= u64::MAX,
    ensures
        ({
            let f = search(store, path, path.steps.len() as int);
            let rows = closure_rows(g, store, path);
            &&& rows.len() == f.visited.len()
            &&& forall|i: int|
                0 <= i < rows.len() ==> ordmap::lookup::<RecordId, RecV>(store.records, f.visited[i])
                    == Some((#[trigger] rows[i]).record) && rows[i].score == g(
                    TaskV::Count(depth_of(f.depths, f.visited[i]) as int),
                )
            &&& depth_of(f.depths, f.visited[0]) == 0
            &&& forall|i: int, j: int|
                0 <= i <= j < rows.len() ==> depth_of(f.depths, #[trigger] f.visited[i]) <= depth_of(
                    f.depths,
                    #[trigger] f.visited[j],
                )
        }),
{
    let n = path.steps.len() as int;
    let f = search(store, path, n);
    lemma_climbing_search(store, path, n);
    lemma_depth_rows(g, store, f.visited, f.depths, f.visited.len() as int);
    lemma_start_depth(store, path, n);
}

proof fn lemma_start_depth(store: StoreV, path: PathV, n: int)
    requires
        stored(store, path.start),
        0 <= n <= path.steps.len(),
        store.records.len() <= u64::MAX,
    ensures
        ({
            let f = search(store, path, n);
            f.visited.len() >= 1 && f.visited[0] == path.start && ordmap::lookup::<RecordId, u64>(
                f.depths,
                path.start,
            ) == Some(0u64)
        }),
    decreases n,
{
    law_closure_rows_are_distinct_records(store, path, n);
    if n > 0 {
        lemma_start_depth(store, path, n - 1);
        lemma_climbing_search(store, path, n - 1);
        let w = search(store, path, n - 1);
        let from = if n == 1 {
            w.visited
        } else {
            w.visited.skip(1)
        };
        lemma_spread_keeps(
            store,
            path.steps[n - 1],
            from,
            w.visited,
            w.depths,
            w.depth,
            path.start,
        );
    } else {
        ordmap::lemma_put_lookup_same::<RecordId, u64>(Seq::empty(), path.start, 0);
    }
}

/// A search changes no depth that it has given.
proof fn lemma_spread_keeps(
    store: StoreV,
    step: StepV,
    from: Seq<RidV>,
    visited: Seq<RidV>,
    depths: Seq<(RidV, u64)>,
    d: int,
    id: RidV,
)
    requires
        distinct_stored(store, visited),
        climbs(visited, depths, d),
        1 <= d <= visited.len(),
        store.records.len() <= u64::MAX,
        visited.contains(id),
    ensures
        ordmap::lookup::<RecordId, u64>(
            spread(store, step, from, visited, depths, d).depths,
            id,
        ) == ordmap::lookup::<RecordId, u64>(depths, id),
    decreases store.records.len() - visited.len(),
{
    let n = store.edges.len() as int;
    lemma_distinct_bound(store, visited);
    lemma_climbing_round(store, step, from, visited, depths, d);
    lemma_round(store, step, from, visited, depths, d, n);
    lemma_round_finds(store, step, from, visited, depths, d, n);
    let w = round(store, step, from, visited, depths, d, n);
    lemma_distinct_bound(store, w.visited);
    assert(w.visited.contains(id));
    assert(ordmap::lookup::<RecordId, u64>(w.depths, id) == ordmap::lookup::<RecordId, u64>(
        depths,
        id,
    ));
    if w.fresh.len() > 0 {
        lemma_spread_keeps(store, step, w.fresh, w.visited, w.depths, d + 1, id);
    }
}

// ---------------------------------------------------------------------------------------------
// Laws on results: what a `MATCH` and a `CLOSURE` give, in terms of the edges and the records
// ---------------------------------------------------------------------------------------------
/// The path without its last step.
pub open spec fn shorter(path: PathV) -> PathV {
    PathV { start: path.start, steps: path.steps.drop_last() }
}

/// `id` is the id of one of the rows.
pub open spec fn lists(rows: Seq<RowV>, id: RidV) -> bool {
    exists|k: int| 0 <= k < rows.len() && (#[trigger] rows[k]).record.id == id
}

proof fn lemma_walk_shorter(store: StoreV, path: PathV, n: int)
    requires
        0 <= n < path.steps.len(),
    ensures
        walk(store, shorter(path), n) == walk(store, path, n),
    decreases n,
{
    if n > 0 {
        lemma_walk_shorter(store, path, n - 1);
        assert(shorter(path).steps[n - 1] == path.steps[n - 1]);
    }
}

proof fn lemma_search_shorter(store: StoreV, path: PathV, n: int)
    requires
        0 <= n < path.steps.len(),
    ensures
        search(store, shorter(path), n) == search(store, path, n),
    decreases n,
{
    if n > 0 {
        lemma_search_shorter(store, path, n - 1);
        assert(shorter(path).steps[n - 1] == path.steps[n - 1]);
    }
}

/// The ids of the rows of a `MATCH`, in order, are where the walk stands at its end.
proof fn lemma_match_ids(store: StoreV, path: PathV)
    requires
        ir::store_wf(store),
        stored(store, path.start),
    ensures
        ({
            let rows = match_rows(store, path);
            let w = walk(store, path, path.steps.len() as int);
            &&& distinct_stored(store, w.front)
            &&& rows.len() == w.front.len()
            &&& forall|i: int| 0 <= i < rows.len() ==> (#[trigger] rows[i]).record.id == w.front[i]
            &&& forall|i: int|
                0 <= i < rows.len() ==> (#[trigger] rows[i]).score == match ordmap::lookup::<
                    RecordId,
                    u32,
                >(w.scores, w.front[i]) {
                    Some(x) => x,
                    None => number::SINGLE_ZERO,
                }
            &&& forall|id: RidV| #[trigger] lists(rows, id) <==> w.front.contains(id)
        }),
{
    let n = path.steps.len() as int;
    let w = walk(store, path, n);
    let rows = match_rows(store, path);
    if n > 0 {
        law_match_follows_edges(store, path, n - 1, path.start);
    } else {
        assert(w.front =~= seq![path.start]);
    }
    lemma_rows_of(store, w.front, w.scores, w.front.len() as int);
    lemma_row_scores(store, w.front, w.scores, w.front.len() as int);
    assert forall|i: int| 0 <= i < rows.len() implies (#[trigger] rows[i]).record.id
        == w.front[i] by {
        let p = ordmap::slot::<RecordId, RecV>(store.records, w.front[i], 0);
        assert(store.records[p].1.id == store.records[p].0);
    }
    assert forall|id: RidV| #[trigger] lists(rows, id) <==> w.front.contains(id) by {
        if lists(rows, id) {
            let k = choose|k: int| 0 <= k < rows.len() && (#[trigger] rows[k]).record.id == id;
            assert(w.front[k] == id);
        }
        if w.front.contains(id) {
            let k = choose|k: int| 0 <= k < w.front.len() && w.front[k] == id;
            assert(rows[k].record.id == id);
        }
    }
}

proof fn lemma_row_scores(store: StoreV, ids: Seq<RidV>, scores: Seq<(RidV, u32)>, n: int)
    requires
        0 <= n <= ids.len(),
        forall|i: int| 0 <= i < ids.len() ==> stored(store, #[trigger] ids[i]),
    ensures
        rows_of(store, ids, scores, n).len() == n,
        forall|i: int|
            0 <= i < n ==> (#[trigger] rows_of(store, ids, scores, n)[i]).score
                == match ordmap::lookup::<RecordId, u32>(scores, ids[i]) {
                Some(x) => x,
                None => number::SINGLE_ZERO,
            },
    decreases n,
{
    if n > 0 {
        lemma_row_scores(store, ids, scores, n - 1);
        assert(stored(store, ids[n - 1]));
        let before = rows_of(store, ids, scores, n - 1);
        let after = rows_of(store, ids, scores, n);
        assert(after == before.push(after.last()));
    }
}

/// A `MATCH` follows the edges of its steps, and those only. A record is a row exactly if some edge
/// with the name of the last step leads to it, in the direction of the step, from a row of the path
/// without that step; the record is stored, and where the step has a condition `field = value` the
/// properties of the edge hold that field with an equal value.
pub proof fn law_match_goes_one_step_further(store: StoreV, path: PathV, id: RidV)
    requires
        ir::store_wf(store),
        path.steps.len() > 0,
    ensures
        lists(match_rows(store, path), id) <==> (ordmap::lookup::<RecordId, RecV>(
            store.records,
            id,
        ) is Some && exists|i: int|
            {
                let e = #[trigger] store.edges[i];
                let step = path.steps.last();
                &&& 0 <= i < store.edges.len()
                &&& e.name == step.name
                &&& match step.direction {
                    MatchDirection::Out => e.to == id && lists(
                        match_rows(store, shorter(path)),
                        e.from,
                    ),
                    MatchDirection::In => e.from == id && lists(
                        match_rows(store, shorter(path)),
                        e.to,
                    ),
                }
                &&& match step.edge_props {
                    None => true,
                    Some(FilV::FieldEquals { field, value }) => ordmap::lookup::<String, ValV>(
                        e.props,
                        field,
                    ) matches Some(v) && ir::value_eq(v, value),
                    Some(_) => false,
                }
            }),
{
    let n = path.steps.len() as int;
    let q = shorter(path);
    let step = path.steps.last();
    let here = match_rows(store, q);
    if stored(store, path.start) {
        lemma_match_ids(store, path);
        lemma_match_ids(store, q);
        lemma_walk_shorter(store, path, n - 1);
        law_match_follows_edges(store, path, n - 1, id);
        let front = walk(store, path, n - 1).front;
        assert forall|x: RidV| #[trigger] front.contains(x) <==> lists(here, x) by {
            assert(lists(here, x) <==> walk(store, q, n - 1).front.contains(x));
        }
        if led_to(store, step, front, id, store.edges.len() as int) {
            let i = choose|i: int|
                0 <= i < store.edges.len() && follows(store, step, front, #[trigger] store.edges[i])
                    && far_end(step, store.edges[i]) == id;
            assert(front.contains(near_end(step, store.edges[i])));
            assert(stored(store, id));
        }
        if ordmap::lookup::<RecordId, RecV>(store.records, id) is Some && exists|i: int|
            {
                let e = #[trigger] store.edges[i];
                &&& 0 <= i < store.edges.len()
                &&& passable(store, step, e)
                &&& far_end(step, e) == id
                &&& lists(here, near_end(step, e))
            } {
            let i = choose|i: int|
                {
                    let e = #[trigger] store.edges[i];
                    &&& 0 <= i < store.edges.len()
                    &&& passable(store, step, e)
                    &&& far_end(step, e) == id
                    &&& lists(here, near_end(step, e))
                };
            assert(front.contains(near_end(step, store.edges[i])));
            assert(follows(store, step, front, store.edges[i]));
        }
    } else {
        assert(here.len() == 0);
    }
}

/// A path without a step stands at its start.
pub proof fn law_match_starts_at_the_start(store: StoreV, path: PathV)
    requires
        path.steps.len() == 0,
    ensures
        match_rows(store, path) == match ordmap::lookup::<RecordId, RecV>(
            store.records,
            path.start,
        ) {
            Some(record) => seq![RowV { record, score: 0u32 }],
            None => Seq::empty(),
        },
{
    if stored(store, path.start) {
        let w = walk(store, path, 0);
        ordmap::lemma_put_lookup_same::<RecordId, u32>(Seq::empty(), path.start, 0u32);
        assert(w.front =~= seq![path.start]);
        assert(rows_of(store, w.front, w.scores, 0) =~= Seq::<RowV>::empty());
        assert(rows_of(store, w.front, w.scores, 1) =~= match_rows(store, path));
    }
}

/// What a spreading search ends with is closed under its step, but for what was visited and is not
/// set out from, and it is the least such.
proof fn lemma_spread_least(
    store: StoreV,
    step: StepV,
    from: Seq<RidV>,
    visited: Seq<RidV>,
    depths: Seq<(RidV, u64)>,
    d: int,
    t: Set<RidV>,
)
    requires
        distinct_stored(store, visited),
        climbs(visited, depths, d),
        1 <= d <= visited.len(),
        store.records.len() <= u64::MAX,
        forall|x: RidV| #[trigger] from.contains(x) ==> visited.contains(x),
    ensures
        ({
            let f = spread(store, step, from, visited, depths, d);
            &&& forall|i: int|
                0 <= i < store.edges.len() && passable(store, step, #[trigger] store.edges[i]) && (
                from.contains(near_end(step, store.edges[i])) || (f.visited.contains(
                    near_end(step, store.edges[i]),
                ) && !visited.contains(near_end(step, store.edges[i])))) ==> f.visited.contains(
                    far_end(step, store.edges[i]),
                )
            &&& (forall|x: RidV| #[trigger] visited.contains(x) ==> t.contains(x)) && (forall|
                i: int,
            |
                0 <= i < store.edges.len() && passable(store, step, #[trigger] store.edges[i])
                    && t.contains(near_end(step, store.edges[i])) && (from.contains(
                    near_end(step, store.edges[i]),
                ) || !visited.contains(near_end(step, store.edges[i]))) ==> t.contains(
                    far_end(step, store.edges[i]),
                )) ==> forall|x: RidV| #[trigger] f.visited.contains(x) ==> t.contains(x)
        }),
    decreases store.records.len() - visited.len(),
{
    let n = store.edges.len() as int;
    lemma_distinct_bound(store, visited);
    lemma_climbing_round(store, step, from, visited, depths, d);
    lemma_round(store, step, from, visited, depths, d, n);
    lemma_round_finds(store, step, from, visited, depths, d, n);
    let w = round(store, step, from, visited, depths, d, n);
    let f = spread(store, step, from, visited, depths, d);
    lemma_distinct_bound(store, w.visited);
    assert forall|x: RidV| #[trigger] w.fresh.contains(x) implies w.visited.contains(x) by {}
    if w.fresh.len() > 0 {
        lemma_spread_least(store, step, w.fresh, w.visited, w.depths, d + 1, t);
        lemma_spread_distinct(store, step, w.fresh, w.visited, w.depths, d + 1);
        assert forall|x: RidV| #[trigger] w.visited.contains(x) implies f.visited.contains(x) by {
            let k = choose|k: int| 0 <= k < w.visited.len() && w.visited[k] == x;
            assert(f.visited.take(w.visited.len() as int)[k] == x);
            assert(f.visited[k] == x);
        }
    }
    assert forall|i: int|
        0 <= i < n && passable(store, step, #[trigger] store.edges[i]) && from.contains(
            near_end(step, store.edges[i]),
        ) implies w.visited.contains(far_end(step, store.edges[i])) by {
        assert(follows(store, step, from, store.edges[i]));
        assert(led_to(store, step, from, far_end(step, store.edges[i]), n));
    }
    if w.fresh.len() == 0 {
        lemma_nothing_fresh(store, step, from, visited, depths, d, n);
    }
    if (forall|x: RidV| #[trigger] visited.contains(x) ==> t.contains(x)) && (forall|i: int|
        0 <= i < n && passable(store, step, #[trigger] store.edges[i]) && t.contains(
            near_end(step, store.edges[i]),
        ) && (from.contains(near_end(step, store.edges[i])) || !visited.contains(
            near_end(step, store.edges[i]),
        )) ==> t.contains(far_end(step, store.edges[i]))) {
        assert forall|x: RidV| #[trigger] w.visited.contains(x) implies t.contains(x) by {
            if !visited.contains(x) {
                assert(led_to(store, step, from, x, n));
                let i = choose|i: int|
                    0 <= i < n && follows(store, step, from, #[trigger] store.edges[i]) && far_end(
                        step,
                        store.edges[i],
                    ) == x;
                assert(visited.contains(near_end(step, store.edges[i])));
            }
        }
    }
}

/// The ids of the rows of a `CLOSURE`, in order, are what the search has found.
proof fn lemma_closure_ids(g: Scoring, store: StoreV, path: PathV)
    requires
        ir::store_wf(store),
        stored(store, path.start),
        store.records.len() <= u64::MAX,
    ensures
        ({
            let rows = closure_rows(g, store, path);
            let f = search(store, path, path.steps.len() as int);
            &&& rows.len() == f.visited.len()
            &&& forall|i: int| 0 <= i < rows.len() ==> (#[trigger] rows[i]).record.id == f.visited[i]
            &&& forall|id: RidV| #[trigger] lists(rows, id) <==> f.visited.contains(id)
        }),
{
    let rows = closure_rows(g, store, path);
    let f = search(store, path, path.steps.len() as int);
    law_closure_depths_never_fall(g, store, path);
    assert forall|i: int| 0 <= i < rows.len() implies (#[trigger] rows[i]).record.id
        == f.visited[i] by {
        let p = ordmap::slot::<RecordId, RecV>(store.records, f.visited[i], 0);
        assert(store.records[p].1.id == store.records[p].0);
    }
    assert forall|id: RidV| #[trigger] lists(rows, id) <==> f.visited.contains(id) by {
        if lists(rows, id) {
            let k = choose|k: int| 0 <= k < rows.len() && (#[trigger] rows[k]).record.id == id;
            assert(f.visited[k] == id);
        }
        if f.visited.contains(id) {
            let k = choose|k: int| 0 <= k < f.visited.len() && f.visited[k] == id;
            assert(rows[k].record.id == id);
        }
    }
}

proof fn lemma_sources(visited: Seq<RidV>, start: RidV)
    requires
        visited.no_duplicates(),
        visited.len() > 0,
        visited[0] == start,
    ensures
        forall|x: RidV| #[trigger] visited.skip(1).contains(x) <==> visited.contains(x) && x != start,
{
    assert forall|x: RidV| #[trigger] visited.skip(1).contains(x) <==> visited.contains(x) && x
        != start by {
        if visited.skip(1).contains(x) {
            let k = choose|k: int| 0 <= k < visited.skip(1).len() && visited.skip(1)[k] == x;
            assert(visited[k + 1] == x);
        }
        if visited.contains(x) && x != start {
            let k = choose|k: int| 0 <= k < visited.len() && visited[k] == x;
            assert(visited.skip(1)[k - 1] == x);
        }
    }
}

/// A `CLOSURE` with one more step finds what it found without it, and all that any number of hops
/// of that step reach from there: the rows are closed under the hops of the step and hold nothing
/// beyond what that asks for. A hop follows an edge with the name of the step, in its direction, to a
/// stored record, along an edge whose properties meet the condition of the step; the start is set out
/// from in the first step only. Least is said by `t`: any set that holds the rows without the step and
/// is closed under its hops holds all rows.
pub proof fn law_closure_is_the_least_closed_set(
    g: Scoring,
    store: StoreV,
    path: PathV,
    t: Set<RidV>,
)
    requires
        ir::store_wf(store),
        store.records.len() <= u64::MAX,
        ordmap::lookup::<RecordId, RecV>(store.records, path.start) is Some,
        path.steps.len() > 0,
    ensures
        ({
            let before = closure_rows(g, store, shorter(path));
            let rows = closure_rows(g, store, path);
            let step = path.steps.last();
            let first = path.steps.len() == 1;
            &&& forall|x: RidV| #[trigger] lists(before, x) ==> lists(rows, x)
            &&& forall|i: int, x: RidV, y: RidV|
                #![trigger store.edges[i], lists(rows, x), lists(rows, y)]
                0 <= i < store.edges.len() && store.edges[i].name == step.name && (
                match step.direction {
                    MatchDirection::Out => store.edges[i].from == x && store.edges[i].to == y,
                    MatchDirection::In => store.edges[i].to == x && store.edges[i].from == y,
                }) && (match step.edge_props {
                    None => true,
                    Some(FilV::FieldEquals { field, value }) => ordmap::lookup::<String, ValV>(
                        store.edges[i].props,
                        field,
                    ) matches Some(v) && ir::value_eq(v, value),
                    Some(_) => false,
                }) && ordmap::lookup::<RecordId, RecV>(store.records, y) is Some && lists(rows, x)
                    && (first || x != path.start) ==> lists(rows, y)
            &&& (forall|x: RidV| #[trigger] lists(before, x) ==> t.contains(x)) && (forall|
                i: int,
                x: RidV,
                y: RidV,
            |
                #![trigger store.edges[i], t.contains(x), t.contains(y)]
                0 <= i < store.edges.len() && store.edges[i].name == step.name && (
                match step.direction {
                    MatchDirection::Out => store.edges[i].from == x && store.edges[i].to == y,
                    MatchDirection::In => store.edges[i].to == x && store.edges[i].from == y,
                }) && (match step.edge_props {
                    None => true,
                    Some(FilV::FieldEquals { field, value }) => ordmap::lookup::<String, ValV>(
                        store.edges[i].props,
                        field,
                    ) matches Some(v) && ir::value_eq(v, value),
                    Some(_) => false,
                }) && ordmap::lookup::<RecordId, RecV>(store.records, y) is Some && t.contains(x)
                    && (first || x != path.start) ==> t.contains(y)) ==> forall|x: RidV| #[trigger]
                lists(rows, x) ==> t.contains(x)
        }),
{
    let n = path.steps.len() as int;
    let q = shorter(path);
    let before = closure_rows(g, store, q);
    let rows = closure_rows(g, store, path);
    let step = path.steps.last();
    let first = n == 1;
    lemma_closure_ids(g, store, path);
    lemma_closure_ids(g, store, q);
    lemma_search_shorter(store, path, n - 1);
    lemma_climbing_search(store, path, n - 1);
    law_closure_rows_are_distinct_records(store, path, n - 1);
    law_closure_rows_are_distinct_records(store, path, n);
    let w = search(store, path, n - 1);
    let f = search(store, path, n);
    let from = if first {
        w.visited
    } else {
        w.visited.skip(1)
    };
    lemma_sources(w.visited, path.start);
    assert forall|x: RidV| #[trigger] from.contains(x) implies w.visited.contains(x) by {}
    lemma_spread_least(store, step, from, w.visited, w.depths, w.depth, t);
    assert forall|x: RidV| #[trigger] w.visited.contains(x) implies f.visited.contains(x) by {
        let k = choose|k: int| 0 <= k < w.visited.len() && w.visited[k] == x;
        assert(f.visited.take(w.visited.len() as int)[k] == x);
        assert(f.visited[k] == x);
    }
    assert forall|x: RidV| #[trigger] lists(before, x) implies lists(rows, x) by {
        assert(search(store, q, n - 1).visited.contains(x));
        assert(f.visited.contains(x));
    }
    assert forall|i: int, x: RidV, y: RidV|
        #![trigger store.edges[i], lists(rows, x), lists(rows, y)]
        0 <= i < store.edges.len() && passable(store, step, store.edges[i]) && near_end(
            step,
            store.edges[i],
        ) == x && far_end(step, store.edges[i]) == y && lists(rows, x) && (first || x
            != path.start) implies lists(rows, y) by {
        assert(f.visited.contains(x));
        if w.visited.contains(x) {
            assert(from.contains(x));
        }
        assert(f.visited.contains(y));
    }
    if (forall|x: RidV| #[trigger] lists(before, x) ==> t.contains(x)) && (forall|
        i: int,
        x: RidV,
        y: RidV,
    |
        #![trigger store.edges[i], t.contains(x), t.contains(y)]
        0 <= i < store.edges.len() && passable(store, step, store.edges[i]) && near_end(
            step,
            store.edges[i],
        ) == x && far_end(step, store.edges[i]) == y && t.contains(x) && (first || x != path.start)
            ==> t.contains(y)) {
        assert forall|x: RidV| #[trigger] w.visited.contains(x) implies t.contains(x) by {
            assert(search(store, q, n - 1).visited.contains(x));
            assert(lists(before, x));
        }
        assert forall|i: int|
            0 <= i < store.edges.len() && passable(store, step, #[trigger] store.edges[i])
                && t.contains(near_end(step, store.edges[i])) && (from.contains(
                near_end(step, store.edges[i]),
            ) || !w.visited.contains(near_end(step, store.edges[i]))) implies t.contains(
            far_end(step, store.edges[i]),
        ) by {
            let x = near_end(step, store.edges[i]);
            if !first && x == path.start {
                assert(w.visited[0] == path.start);
                assert(w.visited.contains(x));
            }
        }
        assert forall|x: RidV| #[trigger] lists(rows, x) implies t.contains(x) by {
            assert(f.visited.contains(x));
        }
    }
}

/// Edge number `k` leads from `a` to `b` by this step: it has the name of the step, runs in its
/// direction to a stored record, and holds the field that the step asks for, if it asks for one, with
/// an equal value.
pub open spec fn hop(store: StoreV, step: StepV, k: int, a: RidV, b: RidV) -> bool {
    &&& 0 <= k < store.edges.len()
    &&& store.edges[k].name == step.name
    &&& match step.direction {
        MatchDirection::Out => store.edges[k].from == a && store.edges[k].to == b,
        MatchDirection::In => store.edges[k].to == a && store.edges[k].from == b,
    }
    &&& match step.edge_props {
        None => true,
        Some(FilV::FieldEquals { field, value }) => ordmap::lookup::<String, ValV>(
            store.edges[k].props,
            field,
        ) matches Some(v) && ir::value_eq(v, value),
        Some(_) => false,
    }
    &&& ordmap::lookup::<RecordId, RecV>(store.records, b) is Some
}

/// The depths of the rows of a `CLOSURE`, row by row.
pub open spec fn closure_depths(store: StoreV, path: PathV) -> Seq<int> {
    let f = search(store, path, path.steps.len() as int);
    Seq::new(f.visited.len(), |i: int| depth_of(f.depths, f.visited[i]) as int)
}

/// The depths that a spreading search gives: `d` to what a source leads to, and to anything else that
/// is new one more than to the first that leads to it.
proof fn lemma_spread_depths(
    store: StoreV,
    step: StepV,
    from: Seq<RidV>,
    visited: Seq<RidV>,
    depths: Seq<(RidV, u64)>,
    d: int,
)
    requires
        distinct_stored(store, visited),
        climbs(visited, depths, d),
        1 <= d <= visited.len(),
        store.records.len() <= u64::MAX,
    ensures
        ({
            let f = spread(store, step, from, visited, depths, d);
            &&& forall|y: RidV|
                #[trigger] f.visited.contains(y) && !visited.contains(y) ==> depth_of(f.depths, y) >= d
            &&& forall|y: RidV|
                #[trigger] f.visited.contains(y) && !visited.contains(y) ==> (depth_of(f.depths, y) == d
                    <==> led_to(store, step, from, y, store.edges.len() as int))
            &&& forall|y: RidV|
                #[trigger] f.visited.contains(y) && !visited.contains(y) && depth_of(f.depths, y) > d
                    ==> exists|k: int|
                    0 <= k < store.edges.len() && passable(store, step, #[trigger] store.edges[k])
                        && far_end(step, store.edges[k]) == y && f.visited.contains(
                        near_end(step, store.edges[k]),
                    ) && !visited.contains(near_end(step, store.edges[k])) && depth_of(
                        f.depths,
                        near_end(step, store.edges[k]),
                    ) == depth_of(f.depths, y) - 1
            &&& forall|k: int|
                0 <= k < store.edges.len() && passable(store, step, #[trigger] store.edges[k])
                    && f.visited.contains(near_end(step, store.edges[k])) && !visited.contains(
                    near_end(step, store.edges[k]),
                ) && f.visited.contains(far_end(step, store.edges[k])) && !visited.contains(
                    far_end(step, store.edges[k]),
                ) ==> depth_of(f.depths, far_end(step, store.edges[k])) <= depth_of(
                    f.depths,
                    near_end(step, store.edges[k]),
                ) + 1
            &&& f.depth == if f.visited.len() > visited.len() {
                depth_of(f.depths, f.visited.last()) + 1
            } else {
                d
            }
        }),
    decreases store.records.len() - visited.len(),
{
    let n = store.edges.len() as int;
    lemma_distinct_bound(store, visited);
    lemma_climbing_round(store, step, from, visited, depths, d);
    lemma_round(store, step, from, visited, depths, d, n);
    lemma_round_finds(store, step, from, visited, depths, d, n);
    let w = round(store, step, from, visited, depths, d, n);
    let f = spread(store, step, from, visited, depths, d);
    lemma_distinct_bound(store, w.visited);
    if w.fresh.len() == 0 {
        lemma_nothing_fresh(store, step, from, visited, depths, d, n);
    } else {
        lemma_spread_depths(store, step, w.fresh, w.visited, w.depths, d + 1);
        lemma_spread_distinct(store, step, w.fresh, w.visited, w.depths, d + 1);
        assert forall|x: RidV| #[trigger] w.visited.contains(x) implies f.visited.contains(x)
            && ordmap::lookup::<RecordId, u64>(f.depths, x) == ordmap::lookup::<RecordId, u64>(
            w.depths,
            x,
        ) by {
            let k = choose|k: int| 0 <= k < w.visited.len() && w.visited[k] == x;
            assert(f.visited.take(w.visited.len() as int)[k] == x);
            assert(f.visited[k] == x);
            lemma_spread_keeps(store, step, w.fresh, w.visited, w.depths, d + 1, x);
        }
        assert forall|x: RidV| #[trigger] w.visited.contains(x) && !visited.contains(x) implies (
        w.fresh.contains(x) && depth_of(f.depths, x) == d) by {
            assert(ordmap::lookup::<RecordId, u64>(w.depths, x) == Some(d as u64));
        }
        assert forall|y: RidV| #[trigger]
            f.visited.contains(y) && !visited.contains(y) && depth_of(f.depths, y) > d implies exists|
            k: int,
        |
            0 <= k < store.edges.len() && passable(store, step, #[trigger] store.edges[k]) && far_end(
                step,
                store.edges[k],
            ) == y && f.visited.contains(near_end(step, store.edges[k])) && !visited.contains(
                near_end(step, store.edges[k]),
            ) && depth_of(f.depths, near_end(step, store.edges[k])) == depth_of(f.depths, y) - 1 by {
            assert(!w.visited.contains(y));
            if depth_of(f.depths, y) == d + 1 {
                assert(led_to(store, step, w.fresh, y, n));
                let k = choose|k: int|
                    0 <= k < n && follows(store, step, w.fresh, #[trigger] store.edges[k]) && far_end(
                        step,
                        store.edges[k],
                    ) == y;
                let x = near_end(step, store.edges[k]);
                assert(w.fresh.contains(x));
                assert(w.visited.contains(x) && !visited.contains(x));
            } else {
                let k = choose|k: int|
                    0 <= k < store.edges.len() && passable(store, step, #[trigger] store.edges[k])
                        && far_end(step, store.edges[k]) == y && f.visited.contains(
                        near_end(step, store.edges[k]),
                    ) && !w.visited.contains(near_end(step, store.edges[k])) && depth_of(
                        f.depths,
                        near_end(step, store.edges[k]),
                    ) == depth_of(f.depths, y) - 1;
                let x = near_end(step, store.edges[k]);
                assert(!visited.contains(x));
            }
        }
        assert forall|k: int|
            0 <= k < store.edges.len() && passable(store, step, #[trigger] store.edges[k])
                && f.visited.contains(near_end(step, store.edges[k])) && !visited.contains(
                near_end(step, store.edges[k]),
            ) && f.visited.contains(far_end(step, store.edges[k])) && !visited.contains(
                far_end(step, store.edges[k]),
            ) implies depth_of(f.depths, far_end(step, store.edges[k])) <= depth_of(
            f.depths,
            near_end(step, store.edges[k]),
        ) + 1 by {
            let x = near_end(step, store.edges[k]);
            let y = far_end(step, store.edges[k]);
            if !w.visited.contains(y) {
                if w.visited.contains(x) {
                    assert(follows(store, step, w.fresh, store.edges[k]));
                    assert(led_to(store, step, w.fresh, y, n));
                }
            }
        }
        if f.visited.len() == w.visited.len() {
            assert(f.visited =~= f.visited.take(w.visited.len() as int));
            let x = w.visited.last();
            assert(w.fresh.last() == x);
            assert(w.fresh.contains(x));
            assert(w.visited.contains(x));
        }
    }
}

proof fn lemma_next_depth(store: StoreV, path: PathV, n: int)
    requires
        stored(store, path.start),
        0 <= n <= path.steps.len(),
        store.records.len() <= u64::MAX,
    ensures
        ({
            let f = search(store, path, n);
            f.depth == depth_of(f.depths, f.visited.last()) + 1
        }),
    decreases n,
{
    if n > 0 {
        lemma_next_depth(store, path, n - 1);
        lemma_climbing_search(store, path, n - 1);
        let w = search(store, path, n - 1);
        let f = search(store, path, n);
        let from = if n == 1 {
            w.visited
        } else {
            w.visited.skip(1)
        };
        let step = path.steps[n - 1];
        lemma_spread_depths(store, step, from, w.visited, w.depths, w.depth);
        lemma_spread_distinct(store, step, from, w.visited, w.depths, w.depth);
        if f.visited.len() == w.visited.len() {
            assert(f.visited =~= f.visited.take(w.visited.len() as int));
            let x = w.visited.last();
            assert(w.visited.contains(x));
            lemma_spread_keeps(store, step, from, w.visited, w.depths, w.depth, x);
        }
    } else {
        ordmap::lemma_put_lookup_same::<RecordId, u64>(Seq::empty(), path.start, 0);
    }
}

/// A `CLOSURE` over no step gives the start alone, at depth 0.
pub proof fn law_closure_starts_at_the_start(g: Scoring, store: StoreV, path: PathV)
    requires
        path.steps.len() == 0,
    ensures
        closure_rows(g, store, path) == match ordmap::lookup::<RecordId, RecV>(
            store.records,
            path.start,
        ) {
            Some(record) => seq![RowV { record, score: g(TaskV::Count(0)) }],
            None => Seq::empty(),
        },
        closure_depths(store, path) == seq![0int],
{
    let w = search(store, path, 0);
    ordmap::lemma_put_lookup_same::<RecordId, u64>(Seq::empty(), path.start, 0u64);
    assert(w.visited =~= seq![path.start]);
    assert(closure_depths(store, path) =~= seq![0int]);
    if stored(store, path.start) {
        assert(depth_rows(g, store, w.visited, w.depths, 0) =~= Seq::<RowV>::empty());
        assert(depth_rows(g, store, w.visited, w.depths, 1) =~= closure_rows(g, store, path));
    }
}

/// How deep the rows of a `CLOSURE` lie, from one step to the next. The rows found without the last
/// step stay in front, in their order, with their scores. A row that the step adds lies one below
/// all of those where a hop leads to it from one of them (from the start in the first step only), else
/// one below the least deep new row that a hop leads to it from. Each row is scored by its depth.
#[verifier::rlimit(60)]
pub proof fn law_closure_counts_hops(g: Scoring, store: StoreV, path: PathV)
    requires
        ir::store_wf(store),
        store.records.len() <= u64::MAX,
        ordmap::lookup::<RecordId, RecV>(store.records, path.start) is Some,
        path.steps.len() > 0,
    ensures
        ({
            let before = closure_rows(g, store, shorter(path));
            let rows = closure_rows(g, store, path);
            let e = closure_depths(store, shorter(path));
            let d = closure_depths(store, path);
            let step = path.steps.last();
            let first = path.steps.len() == 1;
            let m = before.len() as int;
            let base = e.last() + 1;
            &&& 1 <= m <= rows.len() && e.len() == m && d.len() == rows.len()
            &&& before == rows.take(m)
            &&& e == d.take(m)
            &&& forall|i: int|
                0 <= i < rows.len() ==> (#[trigger] rows[i]).score == g(TaskV::Count(d[i]))
            &&& forall|i: int, j: int| 0 <= i <= j < d.len() ==> #[trigger] d[i] <= #[trigger] d[j]
            &&& forall|i: int| m <= i < rows.len() ==> #[trigger] d[i] >= base
            &&& forall|i: int|
                m <= i < rows.len() ==> exists|k: int, j: int|
                    #[trigger] hop(store, step, k, rows[j].record.id, (#[trigger] rows[i]).record.id)
                        && ((d[i] == base && 0 <= j < m && (first || j != 0)) || (m <= j < rows.len()
                        && d[j] == d[i] - 1))
            &&& forall|k: int, j: int, i: int|
                #[trigger] hop(store, step, k, rows[j].record.id, rows[i].record.id) && m <= i
                    < rows.len() && 0 <= j < m && (first || j != 0) ==> d[i] == base
            &&& forall|k: int, j: int, i: int|
                #[trigger] hop(store, step, k, rows[j].record.id, rows[i].record.id) && m <= i
                    < rows.len() && m <= j < rows.len() ==> d[i] <= d[j] + 1
        }),
{
    let n = path.steps.len() as int;
    let q = shorter(path);
    let before = closure_rows(g, store, q);
    let rows = closure_rows(g, store, path);
    let e = closure_depths(store, q);
    let d = closure_depths(store, path);
    let step = path.steps.last();
    let first = n == 1;
    let m = before.len() as int;
    let base = e.last() + 1;
    lemma_closure_ids(g, store, path);
    lemma_closure_ids(g, store, q);
    lemma_search_shorter(store, path, n - 1);
    lemma_climbing_search(store, path, n - 1);
    lemma_climbing_search(store, path, n);
    lemma_next_depth(store, path, n - 1);
    law_closure_depths_never_fall(g, store, path);
    law_closure_depths_never_fall(g, store, q);
    law_closure_rows_are_distinct_records(store, path, n - 1);
    law_closure_rows_are_distinct_records(store, path, n);
    let w = search(store, path, n - 1);
    let f = search(store, path, n);
    let from = if first {
        w.visited
    } else {
        w.visited.skip(1)
    };
    lemma_sources(w.visited, path.start);
    lemma_spread_depths(store, step, from, w.visited, w.depths, w.depth);
    lemma_spread_distinct(store, step, from, w.visited, w.depths, w.depth);
    assert forall|i: int| 0 <= i < m implies f.visited[i] == #[trigger] w.visited[i] && ordmap::lookup::<
        RecordId,
        u64,
    >(f.depths, w.visited[i]) == ordmap::lookup::<RecordId, u64>(w.depths, w.visited[i]) by {
        assert(f.visited.take(m)[i] == w.visited[i]);
        assert(w.visited.contains(w.visited[i]));
        lemma_spread_keeps(store, step, from, w.visited, w.depths, w.depth, w.visited[i]);
    }
    assert(e =~= d.take(m));
    assert forall|i: int| 0 <= i < m implies before[i] == #[trigger] rows[i] by {
        assert(f.visited[i] == w.visited[i]);
    }
    assert(before =~= rows.take(m));
    assert(base == w.depth);
    assert forall|i: int| m <= i < rows.len() implies f.visited.contains(#[trigger] f.visited[i])
        && !w.visited.contains(f.visited[i]) by {
        if w.visited.contains(f.visited[i]) {
            let k = choose|k: int| 0 <= k < m && w.visited[k] == f.visited[i];
            assert(f.visited[k] == f.visited[i]);
        }
    }
    assert forall|k: int, a: RidV, b: RidV| #[trigger] hop(store, step, k, a, b) implies passable(
        store,
        step,
        store.edges[k],
    ) && near_end(step, store.edges[k]) == a && far_end(step, store.edges[k]) == b by {}
    assert forall|i: int| m <= i < rows.len() implies exists|k: int, j: int|
        #[trigger] hop(store, step, k, rows[j].record.id, (#[trigger] rows[i]).record.id) && ((d[i]
            == base && 0 <= j < m && (first || j != 0)) || (m <= j < rows.len() && d[j] == d[i]
            - 1)) by {
        let y = f.visited[i];
        assert(rows[i].record.id == y);
        if d[i] == base {
            assert(led_to(store, step, from, y, store.edges.len() as int));
            let k = choose|k: int|
                0 <= k < store.edges.len() && follows(store, step, from, #[trigger] store.edges[k])
                    && far_end(step, store.edges[k]) == y;
            let x = near_end(step, store.edges[k]);
            assert(from.contains(x));
            assert(w.visited.contains(x));
            let j = choose|j: int| 0 <= j < m && w.visited[j] == x;
            assert(f.visited[j] == x);
            assert(rows[j].record.id == x);
            assert(hop(store, step, k, rows[j].record.id, rows[i].record.id));
        } else {
            assert(f.visited.contains(y) && !w.visited.contains(y) && depth_of(f.depths, y) > w.depth);
            let k = choose|k: int|
                0 <= k < store.edges.len() && passable(store, step, #[trigger] store.edges[k])
                    && far_end(step, store.edges[k]) == y && f.visited.contains(
                    near_end(step, store.edges[k]),
                ) && !w.visited.contains(near_end(step, store.edges[k])) && depth_of(
                    f.depths,
                    near_end(step, store.edges[k]),
                ) == depth_of(f.depths, y) - 1;
            let x = near_end(step, store.edges[k]);
            let j = choose|j: int| 0 <= j < f.visited.len() && f.visited[j] == x;
            if j < m {
                assert(w.visited[j] == x);
                assert(w.visited.contains(x));
            }
            assert(rows[j].record.id == x);
            assert(hop(store, step, k, rows[j].record.id, rows[i].record.id));
        }
    }
    assert forall|k: int, j: int, i: int|
        #[trigger] hop(store, step, k, rows[j].record.id, rows[i].record.id) && m <= i < rows.len()
            && 0 <= j < m && (first || j != 0) implies d[i] == base by {
        let x = rows[j].record.id;
        let y = rows[i].record.id;
        assert(f.visited[j] == w.visited[j]);
        assert(w.visited.contains(x));
        if j != 0 {
            assert(w.visited[0] != w.visited[j]);
        }
        assert(from.contains(x));
        assert(follows(store, step, from, store.edges[k]));
        assert(led_to(store, step, from, y, store.edges.len() as int));
        assert(y == f.visited[i]);
    }
    assert forall|k: int, j: int, i: int|
        #[trigger] hop(store, step, k, rows[j].record.id, rows[i].record.id) && m <= i < rows.len()
            && m <= j < rows.len() implies d[i] <= d[j] + 1 by {
        assert(rows[j].record.id == f.visited[j]);
        assert(rows[i].record.id == f.visited[i]);
        assert(passable(store, step, store.edges[k]));
    }
}

/// Edge number `k` leads the step from one of `from` to `id`.
spec fn leads(store: StoreV, step: StepV, from: Seq<RidV>, k: int, id: RidV) -> bool {
    follows(store, step, from, store.edges[k]) && far_end(step, store.edges[k]) == id
}

/// A score that a record has stays; one without a score gets that of the first edge that leads to it.
proof fn lemma_step_scores(
    store: StoreV,
    step: StepV,
    from: Seq<RidV>,
    scores: Seq<(RidV, u32)>,
    n: int,
    id: RidV,
)
    requires
        0 <= n <= store.edges.len(),
        ordmap::ascending::<RecordId, u32>(scores),
    ensures
        ({
            let before = ordmap::lookup::<RecordId, u32>(scores, id);
            let w = step_over(store, step, from, scores, n);
            let after = ordmap::lookup::<RecordId, u32>(w.scores, id);
            &&& ordmap::ascending::<RecordId, u32>(w.scores)
            &&& before is Some ==> after == before
            &&& before is None && after is None ==> forall|k: int|
                0 <= k < n ==> !#[trigger] leads(store, step, from, k, id)
            &&& before is None && after is Some ==> exists|k: int|
                0 <= k < n && #[trigger] leads(store, step, from, k, id) && after->0 == (
                match store.edges[k].weight {
                    Some(x) => x,
                    None => 0u32,
                }) && forall|j: int| 0 <= j < k ==> !#[trigger] leads(store, step, from, j, id)
        }),
    decreases n,
{
    if n > 0 {
        lemma_step_scores(store, step, from, scores, n - 1, id);
        let w = step_over(store, step, from, scores, n - 1);
        let e = store.edges[n - 1];
        let far = far_end(step, e);
        let before = ordmap::lookup::<RecordId, u32>(scores, id);
        if follows(store, step, from, e) {
            let x = match e.weight {
                Some(x) => x,
                None => number::SINGLE_ZERO,
            };
            ordmap::lemma_put_ascending::<RecordId, u32>(w.scores, far, x);
            ordmap::lemma_put_lookup_same::<RecordId, u32>(w.scores, far, x);
            if far != id {
                ordmap::lemma_put_lookup_other::<RecordId, u32>(w.scores, far, x, id);
            }
        }
        let after = ordmap::lookup::<RecordId, u32>(
            step_over(store, step, from, scores, n).scores,
            id,
        );
        if before is None && after is Some {
            if ordmap::lookup::<RecordId, u32>(w.scores, id) is None {
                assert(leads(store, step, from, n - 1, id));
            } else {
                let k = choose|k: int|
                    0 <= k < n - 1 && #[trigger] leads(store, step, from, k, id) && ordmap::lookup::<
                        RecordId,
                        u32,
                    >(w.scores, id)->0 == (match store.edges[k].weight {
                        Some(x) => x,
                        None => 0u32,
                    }) && forall|j: int| 0 <= j < k ==> !#[trigger] leads(store, step, from, j, id);
                assert(leads(store, step, from, k, id));
            }
        }
    }
}

/// What a step reaches stands in the order of the edges that reach it first.
proof fn lemma_step_order(
    store: StoreV,
    step: StepV,
    from: Seq<RidV>,
    scores: Seq<(RidV, u32)>,
    n: int,
    i: int,
    j: int,
)
    requires
        0 <= n <= store.edges.len(),
        0 <= i < j < step_over(store, step, from, scores, n).front.len(),
    ensures
        ({
            let front = step_over(store, step, from, scores, n).front;
            exists|k: int|
                0 <= k < n && #[trigger] leads(store, step, from, k, front[i]) && forall|m: int|
                    0 <= m <= k ==> !#[trigger] leads(store, step, from, m, front[j])
        }),
    decreases n,
{
    if n > 0 {
        lemma_step_over(store, step, from, scores, n - 1);
        let before = step_over(store, step, from, scores, n - 1).front;
        let front = step_over(store, step, from, scores, n).front;
        if j < before.len() {
            assert(front[i] == before[i] && front[j] == before[j]);
            lemma_step_order(store, step, from, scores, n - 1, i, j);
            let k = choose|k: int|
                0 <= k < n - 1 && #[trigger] leads(store, step, from, k, before[i]) && forall|m: int|
                    0 <= m <= k ==> !#[trigger] leads(store, step, from, m, before[j]);
            assert(leads(store, step, from, k, front[i]));
        } else {
            assert(front[i] == before[i]);
            assert(before.contains(before[i]));
            assert(!before.contains(front[j]));
            assert(led_to(store, step, from, before[i], n - 1));
            let k = choose|k: int|
                0 <= k < n - 1 && follows(store, step, from, #[trigger] store.edges[k]) && far_end(
                    step,
                    store.edges[k],
                ) == before[i];
            assert(leads(store, step, from, k, front[i]));
            assert forall|m: int| 0 <= m <= k implies !#[trigger] leads(
                store,
                step,
                from,
                m,
                front[j],
            ) by {
                if leads(store, step, from, m, front[j]) {
                    assert(led_to(store, step, from, front[j], n - 1));
                }
            }
        }
    }
}

/// The path over its first `m` steps.
pub open spec fn first_steps(path: PathV, m: int) -> PathV {
    PathV { start: path.start, steps: path.steps.take(m) }
}

proof fn lemma_walk_first_steps(store: StoreV, path: PathV, m: int, n: int)
    requires
        0 <= n <= m <= path.steps.len(),
    ensures
        walk(store, first_steps(path, m), n) == walk(store, path, n),
    decreases n,
{
    if n > 0 {
        lemma_walk_first_steps(store, path, m, n - 1);
        assert(first_steps(path, m).steps[n - 1] == path.steps[n - 1]);
    }
}

/// Once a walk stood at a record, its score there stays; and only where it stood it has one.
proof fn lemma_walk_scores(store: StoreV, path: PathV, n: int, id: RidV)
    requires
        0 <= n <= path.steps.len(),
    ensures
        ({
            let now = ordmap::lookup::<RecordId, u32>(walk(store, path, n).scores, id);
            &&& ordmap::ascending::<RecordId, u32>(walk(store, path, n).scores)
            &&& forall|m: int|
                0 <= m <= n && (#[trigger] walk(store, path, m)).front.contains(id) ==> now is Some
                    && ordmap::lookup::<RecordId, u32>(walk(store, path, m).scores, id) == now
            &&& now is Some ==> exists|m: int|
                0 <= m <= n && (#[trigger] walk(store, path, m)).front.contains(id)
        }),
    decreases n,
{
    let empty = Seq::<(RidV, u32)>::empty();
    if n > 0 {
        lemma_walk_scores(store, path, n - 1, id);
        let w = walk(store, path, n - 1);
        let len = store.edges.len() as int;
        let step = path.steps[n - 1];
        lemma_step_scores(store, step, w.front, w.scores, len, id);
        lemma_step_over(store, step, w.front, w.scores, len);
        let before = ordmap::lookup::<RecordId, u32>(w.scores, id);
        let now = ordmap::lookup::<RecordId, u32>(walk(store, path, n).scores, id);
        assert(walk(store, path, n) == step_over(store, step, w.front, w.scores, len));
        if before is None && now is Some {
            let k = choose|k: int|
                0 <= k < len && #[trigger] leads(store, step, w.front, k, id) && now->0 == (
                match store.edges[k].weight {
                    Some(x) => x,
                    None => 0u32,
                }) && forall|j: int| 0 <= j < k ==> !#[trigger] leads(store, step, w.front, j, id);
            assert(led_to(store, step, w.front, id, len));
            assert(walk(store, path, n).front.contains(id));
        }
        if walk(store, path, n).front.contains(id) {
            assert(led_to(store, step, w.front, id, len));
            let k = choose|k: int|
                0 <= k < len && follows(store, step, w.front, #[trigger] store.edges[k]) && far_end(
                    step,
                    store.edges[k],
                ) == id;
            assert(leads(store, step, w.front, k, id));
        }
    } else {
        let w = walk(store, path, 0);
        ordmap::lemma_put_ascending::<RecordId, u32>(empty, path.start, 0u32);
        ordmap::lemma_put_lookup_same::<RecordId, u32>(empty, path.start, 0u32);
        if id != path.start {
            ordmap::lemma_put_lookup_other::<RecordId, u32>(empty, path.start, 0u32, id);
        }
        assert(w.front[0] == path.start);
    }
}

/// The score of a row of a `MATCH` is that of the first edge that ever led to the record. Where the
/// record was a row behind fewer steps, it keeps the score that it had there, `0.0` for the start.
/// Else it has the weight of the first edge, in the order of the edges, that leads to it from a row of
/// the path without the last step, or `0.0` where that edge has no weight.
#[verifier::rlimit(40)]
pub proof fn law_match_scores_by_the_first_edge(store: StoreV, path: PathV, i: int)
    requires
        ir::store_wf(store),
        path.steps.len() > 0,
        0 <= i < match_rows(store, path).len(),
    ensures
        ({
            let row = match_rows(store, path)[i];
            let id = row.record.id;
            let step = path.steps.last();
            &&& forall|m: int, j: int|
                0 <= m < path.steps.len() && 0 <= j < match_rows(store, first_steps(path, m)).len() && (
                #[trigger] match_rows(store, first_steps(path, m))[j]).record.id == id
                    ==> match_rows(store, first_steps(path, m))[j].score == row.score
            &&& (forall|m: int|
                0 <= m < path.steps.len() ==> !lists(
                    #[trigger] match_rows(store, first_steps(path, m)),
                    id,
                )) ==> exists|k: int, a: RidV|
                #[trigger] hop(store, step, k, a, id) && lists(match_rows(store, shorter(path)), a)
                    && row.score == (match store.edges[k].weight {
                    Some(x) => x,
                    None => 0u32,
                }) && forall|j: int, b: RidV|
                    0 <= j < k && #[trigger] hop(store, step, j, b, id) ==> !lists(
                        match_rows(store, shorter(path)),
                        b,
                    )
        }),
{
    let n = path.steps.len() as int;
    let q = shorter(path);
    let row = match_rows(store, path)[i];
    let id = row.record.id;
    let step = path.steps.last();
    assert(stored(store, path.start));
    lemma_match_ids(store, path);
    lemma_match_ids(store, q);
    lemma_walk_shorter(store, path, n - 1);
    lemma_walk_scores(store, path, n, id);
    lemma_walk_scores(store, path, n - 1, id);
    let w = walk(store, path, n - 1);
    let end = walk(store, path, n);
    assert(end.front[i] == id);
    assert(end.front.contains(id));
    let now = ordmap::lookup::<RecordId, u32>(end.scores, id);
    assert(row.score == now->0);
    assert forall|m: int| 0 <= m < n implies (lists(
        #[trigger] match_rows(store, first_steps(path, m)),
        id,
    ) <==> walk(store, path, m).front.contains(id)) by {
        lemma_match_ids(store, first_steps(path, m));
        lemma_walk_first_steps(store, path, m, m);
    }
    assert forall|m: int, j: int|
        0 <= m < n && 0 <= j < match_rows(store, first_steps(path, m)).len() && (
        #[trigger] match_rows(store, first_steps(path, m))[j]).record.id == id implies match_rows(
        store,
        first_steps(path, m),
    )[j].score == row.score by {
        lemma_match_ids(store, first_steps(path, m));
        lemma_walk_first_steps(store, path, m, m);
        let v = walk(store, path, m);
        assert(v.front[j] == id);
        assert(v.front.contains(id));
    }
    if forall|m: int|
        0 <= m < n ==> !lists(#[trigger] match_rows(store, first_steps(path, m)), id) {
        let len = store.edges.len() as int;
        lemma_step_scores(store, step, w.front, w.scores, len, id);
        let before = ordmap::lookup::<RecordId, u32>(w.scores, id);
        if before is Some {
            let m = choose|m: int|
                0 <= m <= n - 1 && (#[trigger] walk(store, path, m)).front.contains(id);
            assert(lists(match_rows(store, first_steps(path, m)), id));
        }
        let k = choose|k: int|
            0 <= k < len && #[trigger] leads(store, step, w.front, k, id) && now->0 == (
            match store.edges[k].weight {
                Some(x) => x,
                None => 0u32,
            }) && forall|j: int| 0 <= j < k ==> !#[trigger] leads(store, step, w.front, j, id);
        let a = near_end(step, store.edges[k]);
        assert(hop(store, step, k, a, id));
        assert(w.front.contains(a));
        assert(lists(match_rows(store, q), a));
        assert forall|j: int, b: RidV| 0 <= j < k && #[trigger] hop(store, step, j, b, id) implies !lists(
            match_rows(store, q),
            b,
        ) by {
            assert(!leads(store, step, w.front, j, id));
        }
    }
}

/// The rows of a `MATCH` stand in the order of the edges of the last step: of two rows, some edge from
/// a row of the path without that step leads to the first before any such edge leads to the second.
pub proof fn law_match_rows_follow_the_edge_order(store: StoreV, path: PathV, i: int, j: int)
    requires
        ir::store_wf(store),
        path.steps.len() > 0,
        0 <= i < j < match_rows(store, path).len(),
    ensures
        ({
            let rows = match_rows(store, path);
            let before = match_rows(store, shorter(path));
            let step = path.steps.last();
            exists|k: int, a: RidV|
                #[trigger] hop(store, step, k, a, rows[i].record.id) && lists(before, a) && forall|
                    m: int,
                    b: RidV,
                |
                    0 <= m <= k && #[trigger] hop(store, step, m, b, rows[j].record.id) ==> !lists(
                        before,
                        b,
                    )
        }),
{
    let n = path.steps.len() as int;
    let q = shorter(path);
    let step = path.steps.last();
    let rows = match_rows(store, path);
    lemma_match_ids(store, path);
    lemma_match_ids(store, q);
    lemma_walk_shorter(store, path, n - 1);
    let w = walk(store, path, n - 1);
    let len = store.edges.len() as int;
    lemma_step_order(store, step, w.front, w.scores, len, i, j);
    let x = rows[i].record.id;
    let y = rows[j].record.id;
    let k = choose|k: int|
        0 <= k < len && #[trigger] leads(store, step, w.front, k, x) && forall|m: int|
            0 <= m <= k ==> !#[trigger] leads(store, step, w.front, m, y);
    let a = near_end(step, store.edges[k]);
    assert(hop(store, step, k, a, x));
    assert(w.front.contains(a));
    assert(lists(match_rows(store, q), a));
    assert forall|m: int, b: RidV| 0 <= m <= k && #[trigger] hop(store, step, m, b, y) implies !lists(
        match_rows(store, q),
        b,
    ) by {
        assert(!leads(store, step, w.front, m, y));
    }
}

/// What a round finds stands in the order of the edges that lead to it first.
proof fn lemma_round_order(
    store: StoreV,
    step: StepV,
    from: Seq<RidV>,
    visited: Seq<RidV>,
    depths: Seq<(RidV, u64)>,
    d: int,
    n: int,
    i: int,
    j: int,
)
    requires
        0 <= n <= store.edges.len(),
        0 <= d <= u64::MAX,
        ordmap::ascending::<RecordId, u64>(depths),
        0 <= i < j < round(store, step, from, visited, depths, d, n).fresh.len(),
    ensures
        ({
            let fresh = round(store, step, from, visited, depths, d, n).fresh;
            exists|k: int|
                0 <= k < n && #[trigger] leads(store, step, from, k, fresh[i]) && forall|m: int|
                    0 <= m <= k ==> !#[trigger] leads(store, step, from, m, fresh[j])
        }),
    decreases n,
{
    if n > 0 {
        lemma_round_finds(store, step, from, visited, depths, d, n - 1);
        let w = round(store, step, from, visited, depths, d, n - 1);
        let before = w.fresh;
        let fresh = round(store, step, from, visited, depths, d, n).fresh;
        if j < before.len() {
            assert(fresh[i] == before[i] && fresh[j] == before[j]);
            lemma_round_order(store, step, from, visited, depths, d, n - 1, i, j);
            let k = choose|k: int|
                0 <= k < n - 1 && #[trigger] leads(store, step, from, k, before[i]) && forall|m: int|
                    0 <= m <= k ==> !#[trigger] leads(store, step, from, m, before[j]);
            assert(leads(store, step, from, k, fresh[i]));
        } else {
            assert(fresh[i] == before[i]);
            assert(before.contains(before[i]));
            assert(!w.visited.contains(fresh[j]));
            assert(led_to(store, step, from, before[i], n - 1));
            let k = choose|k: int|
                0 <= k < n - 1 && follows(store, step, from, #[trigger] store.edges[k]) && far_end(
                    step,
                    store.edges[k],
                ) == before[i];
            assert(leads(store, step, from, k, fresh[i]));
            assert forall|m: int| 0 <= m <= k implies !#[trigger] leads(
                store,
                step,
                from,
                m,
                fresh[j],
            ) by {
                if leads(store, step, from, m, fresh[j]) {
                    assert(led_to(store, step, from, fresh[j], n - 1));
                }
            }
        }
    }
}

/// What the search sets out from to reach a new record of depth `e`: the sources of the step at depth
/// `d`, else what lies one less deep among the new.
spec fn sets_out(
    from: Seq<RidV>,
    visited: Seq<RidV>,
    f: FoundV,
    d: int,
    e: int,
    x: RidV,
) -> bool {
    if e == d {
        from.contains(x)
    } else {
        f.visited.contains(x) && !visited.contains(x) && depth_of(f.depths, x) == e - 1
    }
}

/// Of two new records of one depth, an edge from where the search set out leads to the first before any
/// such edge leads to the second.
proof fn lemma_spread_order(
    store: StoreV,
    step: StepV,
    from: Seq<RidV>,
    visited: Seq<RidV>,
    depths: Seq<(RidV, u64)>,
    d: int,
    i: int,
    j: int,
)
    requires
        distinct_stored(store, visited),
        climbs(visited, depths, d),
        1 <= d <= visited.len(),
        store.records.len() <= u64::MAX,
        ({
            let f = spread(store, step, from, visited, depths, d);
            visited.len() <= i < j < f.visited.len() && depth_of(f.depths, f.visited[i]) == depth_of(
                f.depths,
                f.visited[j],
            )
        }),
    ensures
        ({
            let f = spread(store, step, from, visited, depths, d);
            let e = depth_of(f.depths, f.visited[i]) as int;
            exists|k: int|
                0 <= k < store.edges.len() && passable(store, step, #[trigger] store.edges[k])
                    && sets_out(from, visited, f, d, e, near_end(step, store.edges[k])) && far_end(
                    step,
                    store.edges[k],
                ) == f.visited[i] && forall|m: int|
                    0 <= m <= k && passable(store, step, #[trigger] store.edges[m]) && far_end(
                        step,
                        store.edges[m],
                    ) == f.visited[j] ==> !sets_out(
                        from,
                        visited,
                        f,
                        d,
                        e,
                        near_end(step, store.edges[m]),
                    )
        }),
    decreases store.records.len() - visited.len(),
{
    let n = store.edges.len() as int;
    lemma_distinct_bound(store, visited);
    lemma_climbing_round(store, step, from, visited, depths, d);
    lemma_round(store, step, from, visited, depths, d, n);
    lemma_round_finds(store, step, from, visited, depths, d, n);
    let w = round(store, step, from, visited, depths, d, n);
    let f = spread(store, step, from, visited, depths, d);
    let e = depth_of(f.depths, f.visited[i]) as int;
    let len = visited.len() as int;
    lemma_distinct_bound(store, w.visited);
    if w.fresh.len() == 0 {
        lemma_nothing_fresh(store, step, from, visited, depths, d, n);
    }
    assert(w.fresh.len() > 0);
    lemma_spread_distinct(store, step, w.fresh, w.visited, w.depths, d + 1);
    lemma_spread_depths(store, step, w.fresh, w.visited, w.depths, d + 1);
    lemma_spread_depths(store, step, from, visited, depths, d);
    lemma_spread_distinct(store, step, from, visited, depths, d);
    assert forall|x: RidV| #[trigger] w.visited.contains(x) implies f.visited.contains(x)
        && ordmap::lookup::<RecordId, u64>(f.depths, x) == ordmap::lookup::<RecordId, u64>(
        w.depths,
        x,
    ) by {
        let k = choose|k: int| 0 <= k < w.visited.len() && w.visited[k] == x;
        assert(f.visited.take(w.visited.len() as int)[k] == x);
        assert(f.visited[k] == x);
        lemma_spread_keeps(store, step, w.fresh, w.visited, w.depths, d + 1, x);
    }
    assert forall|x: RidV| #[trigger] w.fresh.contains(x) implies depth_of(f.depths, x) == d
        && w.visited.contains(x) && !visited.contains(x) by {
        assert(led_to(store, step, from, x, n));
        assert(w.visited.contains(x));
        assert(ordmap::lookup::<RecordId, u64>(w.depths, x) == Some(d as u64));
        assert(ordmap::lookup::<RecordId, u64>(f.depths, x) == Some(d as u64));
    }
    assert forall|k: int| 0 <= k < w.visited.len() implies f.visited[k] == #[trigger] w.visited[k] by {
        assert(f.visited.take(w.visited.len() as int)[k] == w.visited[k]);
    }
    assert forall|k: int| w.visited.len() <= k < f.visited.len() implies depth_of(
        f.depths,
        #[trigger] f.visited[k],
    ) >= d + 1 by {
        assert(f.visited.contains(f.visited[k]));
        if w.visited.contains(f.visited[k]) {
            let b = choose|b: int| 0 <= b < w.visited.len() && w.visited[b] == f.visited[k];
            assert(f.visited[b] == f.visited[k]);
        }
    }
    if i < w.visited.len() {
        assert(w.visited[i] == w.fresh[i - len]);
        assert(f.visited[i] == w.fresh[i - len]);
        assert(w.fresh.contains(f.visited[i]));
        assert(j < w.visited.len());
        assert(w.visited[j] == w.fresh[j - len]);
        assert(f.visited[j] == w.fresh[j - len]);
        lemma_round_order(store, step, from, visited, depths, d, n, i - len, j - len);
        let k = choose|k: int|
            0 <= k < n && #[trigger] leads(store, step, from, k, f.visited[i]) && forall|m: int|
                0 <= m <= k ==> !#[trigger] leads(store, step, from, m, f.visited[j]);
        assert(passable(store, step, store.edges[k]));
        assert forall|m: int|
            0 <= m <= k && passable(store, step, #[trigger] store.edges[m]) && far_end(
                step,
                store.edges[m],
            ) == f.visited[j] implies !sets_out(
            from,
            visited,
            f,
            d,
            e,
            near_end(step, store.edges[m]),
        ) by {
            assert(!leads(store, step, from, m, f.visited[j]));
        }
    } else {
        lemma_spread_order(store, step, w.fresh, w.visited, w.depths, d + 1, i, j);
        assert forall|x: RidV|
            #[trigger] sets_out(w.fresh, w.visited, f, d + 1, e, x) <==> sets_out(
                from,
                visited,
                f,
                d,
                e,
                x,
            ) by {
            assert(e >= d + 1);
            if e == d + 1 {
                if sets_out(from, visited, f, d, e, x) {
                    assert(f.visited.contains(x) && !visited.contains(x) && depth_of(f.depths, x)
                        == d);
                    let k = choose|k: int| 0 <= k < f.visited.len() && f.visited[k] == x;
                    assert(k < w.visited.len());
                    assert(w.visited[k] == x);
                    assert(w.visited.contains(x));
                    assert(led_to(store, step, from, x, n));
                    assert(w.fresh.contains(x));
                }
            } else {
                if w.visited.contains(x) && !visited.contains(x) {
                    assert(w.fresh.contains(x));
                }
                if visited.contains(x) {
                    assert(w.visited.contains(x));
                }
            }
        }
        let k = choose|k: int|
            0 <= k < store.edges.len() && passable(store, step, #[trigger] store.edges[k]) && sets_out(
                w.fresh,
                w.visited,
                f,
                d + 1,
                e,
                near_end(step, store.edges[k]),
            ) && far_end(step, store.edges[k]) == f.visited[i] && forall|m: int|
                0 <= m <= k && passable(store, step, #[trigger] store.edges[m]) && far_end(
                    step,
                    store.edges[m],
                ) == f.visited[j] ==> !sets_out(
                    w.fresh,
                    w.visited,
                    f,
                    d + 1,
                    e,
                    near_end(step, store.edges[m]),
                );
        assert(sets_out(from, visited, f, d, e, near_end(step, store.edges[k])));
        assert forall|m: int|
            0 <= m <= k && passable(store, step, #[trigger] store.edges[m]) && far_end(
                step,
                store.edges[m],
            ) == f.visited[j] implies !sets_out(
            from,
            visited,
            f,
            d,
            e,
            near_end(step, store.edges[m]),
        ) by {
            assert(!sets_out(w.fresh, w.visited, f, d + 1, e, near_end(step, store.edges[m])));
        }
    }
}

/// The rows that a step of a `CLOSURE` adds at one depth stand in the order of the edges that lead to
/// them from the rows one less deep, or from the rows found without the step at the first of its depths.
#[verifier::rlimit(40)]
pub proof fn law_closure_rows_follow_the_edge_order(
    g: Scoring,
    store: StoreV,
    path: PathV,
    i: int,
    j: int,
)
    requires
        ir::store_wf(store),
        store.records.len() <= u64::MAX,
        ordmap::lookup::<RecordId, RecV>(store.records, path.start) is Some,
        path.steps.len() > 0,
        closure_rows(g, store, shorter(path)).len() <= i < j < closure_rows(g, store, path).len(),
        closure_depths(store, path)[i] == closure_depths(store, path)[j],
    ensures
        ({
            let rows = closure_rows(g, store, path);
            let before = closure_rows(g, store, shorter(path));
            let d = closure_depths(store, path);
            let step = path.steps.last();
            let first = path.steps.len() == 1;
            let m = before.len() as int;
            let source = |x: int|
                if d[i] == d[m - 1] + 1 {
                    0 <= x < m && (first || x != 0)
                } else {
                    m <= x < rows.len() && d[x] == d[i] - 1
                };
            exists|k: int, x: int|
                source(x) && #[trigger] hop(store, step, k, rows[x].record.id, rows[i].record.id)
                    && forall|l: int, y: int|
                    0 <= l <= k && source(y) ==> !#[trigger] hop(
                        store,
                        step,
                        l,
                        rows[y].record.id,
                        rows[j].record.id,
                    )
        }),
{
    let n = path.steps.len() as int;
    let q = shorter(path);
    let before = closure_rows(g, store, q);
    let rows = closure_rows(g, store, path);
    let d = closure_depths(store, path);
    let step = path.steps.last();
    let first = n == 1;
    let m = before.len() as int;
    lemma_closure_ids(g, store, path);
    lemma_closure_ids(g, store, q);
    lemma_search_shorter(store, path, n - 1);
    lemma_climbing_search(store, path, n - 1);
    lemma_next_depth(store, path, n - 1);
    law_closure_counts_hops(g, store, path);
    law_closure_rows_are_distinct_records(store, path, n - 1);
    law_closure_rows_are_distinct_records(store, path, n);
    let w = search(store, path, n - 1);
    let f = search(store, path, n);
    let from = if first {
        w.visited
    } else {
        w.visited.skip(1)
    };
    lemma_sources(w.visited, path.start);
    lemma_spread_distinct(store, step, from, w.visited, w.depths, w.depth);
    assert forall|k: int| 0 <= k < m implies f.visited[k] == #[trigger] w.visited[k] by {
        assert(f.visited.take(m)[k] == w.visited[k]);
    }
    let e = d[i];
    assert(d[m - 1] == closure_depths(store, q)[m - 1]);
    assert(w.depth == d[m - 1] + 1);
    lemma_spread_order(store, step, from, w.visited, w.depths, w.depth, i, j);
    let source = |x: int|
        if e == d[m - 1] + 1 {
            0 <= x < m && (first || x != 0)
        } else {
            m <= x < rows.len() && d[x] == e - 1
        };
    assert forall|x: int| 0 <= x < rows.len() implies (#[trigger] source(x) <==> sets_out(
        from,
        w.visited,
        f,
        w.depth,
        e,
        f.visited[x],
    )) by {
        let id = f.visited[x];
        assert(f.visited.contains(id));
        if x < m {
            assert(w.visited[x] == id);
            assert(w.visited.contains(id));
            assert(w.visited[0] == path.start);
            if x != 0 {
                assert(w.visited[0] != w.visited[x]);
            }
        } else if w.visited.contains(id) {
            let b = choose|b: int| 0 <= b < m && w.visited[b] == id;
            assert(f.visited[b] == f.visited[x]);
        }
    }
    let k = choose|k: int|
        0 <= k < store.edges.len() && passable(store, step, #[trigger] store.edges[k]) && sets_out(
            from,
            w.visited,
            f,
            w.depth,
            e,
            near_end(step, store.edges[k]),
        ) && far_end(step, store.edges[k]) == f.visited[i] && forall|l: int|
            0 <= l <= k && passable(store, step, #[trigger] store.edges[l]) && far_end(
                step,
                store.edges[l],
            ) == f.visited[j] ==> !sets_out(
                from,
                w.visited,
                f,
                w.depth,
                e,
                near_end(step, store.edges[l]),
            );
    let a = near_end(step, store.edges[k]);
    assert(f.visited.contains(a)) by {
        if from.contains(a) {
            assert(w.visited.contains(a));
            let b = choose|b: int| 0 <= b < m && w.visited[b] == a;
            assert(f.visited[b] == a);
        }
    }
    let x = choose|x: int| 0 <= x < f.visited.len() && f.visited[x] == a;
    assert(source(x));
    assert(rows[x].record.id == a && rows[i].record.id == f.visited[i]);
    assert(hop(store, step, k, rows[x].record.id, rows[i].record.id));
    assert forall|l: int, y: int| 0 <= l <= k && source(y) implies !#[trigger] hop(
        store,
        step,
        l,
        rows[y].record.id,
        rows[j].record.id,
    ) by {
        assert(0 <= y < rows.len());
        assert(rows[y].record.id == f.visited[y]);
        assert(rows[j].record.id == f.visited[j]);
        if hop(store, step, l, rows[y].record.id, rows[j].record.id) {
            assert(passable(store, step, store.edges[l]));
            assert(near_end(step, store.edges[l]) == f.visited[y]);
        }
    }
}

/// A condition needs the property: where the last step asks for `field = value`, every row of the `MATCH`,
/// and every row that the step adds to the `CLOSURE`, is the end of an edge of that name whose properties
/// hold the field with an equal value. So an edge without the field is never followed.
pub proof fn law_condition_needs_the_property(
    g: Scoring,
    store: StoreV,
    path: PathV,
    field: Seq<char>,
    value: ValV,
    i: int,
)
    requires
        ir::store_wf(store),
        store.records.len() <= u64::MAX,
        ordmap::lookup::<RecordId, RecV>(store.records, path.start) is Some,
        path.steps.len() > 0,
        path.steps.last().edge_props == Some(FilV::FieldEquals { field, value }),
    ensures
        0 <= i < match_rows(store, path).len() ==> exists|k: int|
            {
                let e = #[trigger] store.edges[k];
                &&& 0 <= k < store.edges.len()
                &&& e.name == path.steps.last().name
                &&& ordmap::lookup::<String, ValV>(e.props, field) is Some
                &&& ir::value_eq(ordmap::lookup::<String, ValV>(e.props, field)->0, value)
                &&& match path.steps.last().direction {
                    MatchDirection::Out => e.to == match_rows(store, path)[i].record.id,
                    MatchDirection::In => e.from == match_rows(store, path)[i].record.id,
                }
            },
        closure_rows(g, store, shorter(path)).len() <= i < closure_rows(g, store, path).len()
            ==> exists|k: int|
            {
                let e = #[trigger] store.edges[k];
                &&& 0 <= k < store.edges.len()
                &&& e.name == path.steps.last().name
                &&& ordmap::lookup::<String, ValV>(e.props, field) is Some
                &&& ir::value_eq(ordmap::lookup::<String, ValV>(e.props, field)->0, value)
                &&& match path.steps.last().direction {
                    MatchDirection::Out => e.to == closure_rows(g, store, path)[i].record.id,
                    MatchDirection::In => e.from == closure_rows(g, store, path)[i].record.id,
                }
            },
{
    let rows = match_rows(store, path);
    let all = closure_rows(g, store, path);
    let step = path.steps.last();
    if 0 <= i < rows.len() {
        let id = rows[i].record.id;
        assert(lists(rows, id));
        law_match_goes_one_step_further(store, path, id);
    }
    if closure_rows(g, store, shorter(path)).len() <= i < all.len() {
        law_closure_counts_hops(g, store, path);
        let m = closure_rows(g, store, shorter(path)).len() as int;
        let d = closure_depths(store, path);
        let base = closure_depths(store, shorter(path)).last() + 1;
        let first = path.steps.len() == 1;
        let (k, j) = choose|k: int, j: int|
            #[trigger] hop(store, step, k, all[j].record.id, all[i].record.id) && ((d[i] == base && 0
                <= j < m && (first || j != 0)) || (m <= j < all.len() && d[j] == d[i] - 1));
        assert(hop(store, step, k, all[j].record.id, all[i].record.id));
    }
}

} // verus!
