//! Votes: the `voted` edges that point at a record.
//!
//! A vote is an edge `(voter) -[:voted {value: +1 | -1}]-> (record)`, with an optional weight.
use vstd::prelude::*;

use crate::ir::{Body, RecordId, RelationEdge, Store, Value, VoteCounts};
#[allow(unused_imports)]
use crate::ir::{BodyV, EdgeV, RidV, StoreV, ValV};
use crate::number;
use crate::ordmap;
use crate::ordmap::Key;
use crate::text;

verus! {

/// The edge is a vote on `id`.
pub open spec fn is_vote(e: EdgeV, id: RidV) -> bool {
    e.name == "voted"@ && e.to == id
}

/// The votes on `id` among the first `n` edges, in their order.
pub open spec fn votes_on(edges: Seq<EdgeV>, id: RidV, n: int) -> Seq<EdgeV>
    decreases n,
{
    if n <= 0 {
        Seq::empty()
    } else if is_vote(edges[n - 1], id) {
        votes_on(edges, id, n - 1).push(edges[n - 1])
    } else {
        votes_on(edges, id, n - 1)
    }
}

/// What a vote says: 1 for a `value` of 1, -1 for a `value` of -1, 0 for anything else.
pub open spec fn vote_sign(props: BodyV) -> int {
    match ordmap::lookup::<String, ValV>(props, "value"@) {
        Some(ValV::Int(n)) => if n == 1 {
            1
        } else if n == -1 {
            -1
        } else {
            0
        },
        Some(ValV::Float(x)) => if x == number::DOUBLE_ONE {
            1
        } else if x == number::DOUBLE_MINUS_ONE {
            -1
        } else {
            0
        },
        _ => 0,
    }
}

/// How many of `votes` say `sign`.
pub open spec fn tally(votes: Seq<EdgeV>, sign: int) -> int
    decreases votes.len(),
{
    if votes.len() == 0 {
        0
    } else {
        tally(votes.drop_last(), sign) + if vote_sign(votes.last().props) == sign {
            1int
        } else {
            0
        }
    }
}

/// Up-votes minus down-votes on `id`.
pub open spec fn net_votes(edges: Seq<EdgeV>, id: RidV) -> int {
    let votes = votes_on(edges, id, edges.len() as int);
    tally(votes, 1) - tally(votes, -1)
}

/// The weights of votes, `1.0` where a vote has none.
pub open spec fn weights_of(votes: Seq<EdgeV>) -> Seq<u32> {
    Seq::new(
        votes.len(),
        |i: int|
            match votes[i].weight {
                Some(w) => w,
                None => number::SINGLE_ONE,
            },
    )
}

/// The weights of the votes on `id`.
pub open spec fn vote_weights(edges: Seq<EdgeV>, id: RidV) -> Seq<u32> {
    weights_of(votes_on(edges, id, edges.len() as int))
}

/// The latest time of a vote among the first `n` edges, on whatever record.
pub open spec fn latest_vote(edges: Seq<EdgeV>, n: int) -> Option<i64>
    decreases n,
{
    if n <= 0 {
        None
    } else if edges[n - 1].name == "voted"@ {
        match latest_vote(edges, n - 1) {
            None => Some(edges[n - 1].created_at),
            Some(t) => if t < edges[n - 1].created_at {
                Some(edges[n - 1].created_at)
            } else {
                Some(t)
            },
        }
    } else {
        latest_vote(edges, n - 1)
    }
}

/// `n` held within the range of an `i64`.
pub open spec fn saturated(n: int) -> i64 {
    if n > i64::MAX {
        i64::MAX
    } else if n < i64::MIN {
        i64::MIN
    } else {
        n as i64
    }
}

/// The sign and the age at `now` of each vote.
pub open spec fn aged(votes: Seq<EdgeV>, now: i64) -> Seq<(i8, i64)> {
    Seq::new(
        votes.len(),
        |i: int| (vote_sign(votes[i].props) as i8, saturated(now - votes[i].created_at)),
    )
}

/// The sign and the age of each vote on `id`; an age counts back from the latest vote of the store.
pub open spec fn vote_ages(edges: Seq<EdgeV>, id: RidV) -> Seq<(i8, i64)> {
    match latest_vote(edges, edges.len() as int) {
        None => Seq::empty(),
        Some(now) => aged(votes_on(edges, id, edges.len() as int), now),
    }
}

fn vote_toward(e: &RelationEdge, id: &RecordId) -> (r: bool)
    ensures
        r == is_vote(e@, id@),
{
    text::text_same(e.name.as_str(), "voted") && e.to.same(id)
}

/// What a vote says: 1, -1, or 0 for neither.
pub fn vote_value(props: &Body) -> (r: i8)
    ensures
        r == vote_sign(props@),
{
    let key = text::owned("value");
    match props.get(&key) {
        Some(Value::Int(n)) => {
            if *n == 1 {
                1
            } else if *n == -1 {
                -1
            } else {
                0
            }
        },
        Some(Value::Float(x)) => {
            if *x == number::DOUBLE_ONE {
                1
            } else if *x == number::DOUBLE_MINUS_ONE {
                -1
            } else {
                0
            }
        },
        _ => 0,
    }
}

proof fn lemma_tally_bound(votes: Seq<EdgeV>)
    ensures
        0 <= tally(votes, 1),
        0 <= tally(votes, -1),
        tally(votes, 1) + tally(votes, -1) <= votes.len(),
    decreases votes.len(),
{
    if votes.len() > 0 {
        lemma_tally_bound(votes.drop_last());
    }
}

proof fn lemma_votes_bound(edges: Seq<EdgeV>, id: RidV, n: int)
    requires
        0 <= n <= edges.len(),
    ensures
        votes_on(edges, id, n).len() <= n,
    decreases n,
{
    if n > 0 {
        lemma_votes_bound(edges, id, n - 1);
    }
}

/// Counts the up-votes and the down-votes on `id`.
fn count_votes(edges: &Vec<RelationEdge>, id: &RecordId) -> (r: (u64, u64))
    ensures
        r.0 == tally(votes_on(ordmap::views(edges@), id@, edges@.len() as int), 1),
        r.1 == tally(votes_on(ordmap::views(edges@), id@, edges@.len() as int), -1),
        r.0 + r.1 <= edges@.len(),
{
    let ghost es = ordmap::views(edges@);
    let mut up: u64 = 0;
    let mut down: u64 = 0;
    let mut i: usize = 0;
    while i < edges.len()
        invariant
            i <= edges.len(),
            es == ordmap::views(edges@),
            up == tally(votes_on(es, id@, i as int), 1),
            down == tally(votes_on(es, id@, i as int), -1),
        decreases edges.len() - i,
    {
        assert(es[i as int] == edges@[i as int]@);
        let ghost before = votes_on(es, id@, i as int);
        proof {
            lemma_tally_bound(before);
            lemma_votes_bound(es, id@, i as int);
        }
        if vote_toward(&edges[i], id) {
            assert(votes_on(es, id@, i + 1).drop_last() =~= before);
            let sign: i8 = vote_value(&edges[i].props);
            if sign == 1 {
                up = up + 1;
            } else if sign == -1 {
                down = down + 1;
            }
        }
        i = i + 1;
    }
    proof {
        lemma_tally_bound(votes_on(es, id@, i as int));
        lemma_votes_bound(es, id@, i as int);
    }
    (up, down)
}

/// The votes on `id`: how many up, how many down, and the difference.
pub fn vote_counts(store: &Store, id: &RecordId) -> (r: VoteCounts)
    requires
        store@.edges.len() <= i64::MAX,
    ensures
        r.up == tally(votes_on(store@.edges, id@, store@.edges.len() as int), 1),
        r.down == tally(votes_on(store@.edges, id@, store@.edges.len() as int), -1),
        r.net == r.up - r.down,
{
    let (up, down) = count_votes(&store.edges, id);
    VoteCounts { up, down, net: up as i64 - down as i64 }
}

/// Up-votes minus down-votes on `id`.
pub fn net_of_votes(store: &Store, id: &RecordId) -> (r: i128)
    ensures
        r == net_votes(store@.edges, id@),
{
    let (up, down) = count_votes(&store.edges, id);
    up as i128 - down as i128
}

/// The weights of the votes on `id`, in the order of the edges; a vote without one counts `1.0`.
pub fn weights_toward(store: &Store, id: &RecordId) -> (r: Vec<u32>)
    ensures
        r@ == vote_weights(store@.edges, id@),
{
    let edges = &store.edges;
    let ghost es = ordmap::views(edges@);
    let mut out: Vec<u32> = Vec::new();
    let mut i: usize = 0;
    assert(out@ =~= weights_of(Seq::empty()));
    while i < edges.len()
        invariant
            i <= edges.len(),
            es == ordmap::views(edges@),
            out@ == weights_of(votes_on(es, id@, i as int)),
        decreases edges.len() - i,
    {
        assert(es[i as int] == edges@[i as int]@);
        if vote_toward(&edges[i], id) {
            let w: u32 = match edges[i].weight {
                Some(w) => w,
                None => number::SINGLE_ONE,
            };
            out.push(w);
            assert(out@ =~= weights_of(votes_on(es, id@, i + 1)));
        }
        i = i + 1;
    }
    out
}

fn latest_time(edges: &Vec<RelationEdge>) -> (r: Option<i64>)
    ensures
        r == latest_vote(ordmap::views(edges@), edges@.len() as int),
{
    let ghost es = ordmap::views(edges@);
    let mut now: Option<i64> = None;
    let mut i: usize = 0;
    while i < edges.len()
        invariant
            i <= edges.len(),
            es == ordmap::views(edges@),
            now == latest_vote(es, i as int),
        decreases edges.len() - i,
    {
        assert(es[i as int] == edges@[i as int]@);
        if text::text_same(edges[i].name.as_str(), "voted") {
            let t: i64 = edges[i].created_at;
            now = match now {
                None => Some(t),
                Some(n) => if n < t {
                    Some(t)
                } else {
                    Some(n)
                },
            };
        }
        i = i + 1;
    }
    now
}

fn age_at(now: i64, t: i64) -> (r: i64)
    ensures
        r == saturated(now - t),
{
    let d: i128 = now as i128 - t as i128;
    if d > 9223372036854775807 {
        i64::MAX
    } else if d < -9223372036854775808 {
        i64::MIN
    } else {
        d as i64
    }
}

/// The sign and the age of each vote on `id`, in the order of the edges.
pub fn feedback_toward(store: &Store, id: &RecordId) -> (r: Vec<(i8, i64)>)
    ensures
        r@ == vote_ages(store@.edges, id@),
{
    let edges = &store.edges;
    let ghost es = ordmap::views(edges@);
    let mut out: Vec<(i8, i64)> = Vec::new();
    let now = match latest_time(edges) {
        Some(now) => now,
        None => return out,
    };
    let mut i: usize = 0;
    assert(out@ =~= aged(Seq::empty(), now));
    while i < edges.len()
        invariant
            i <= edges.len(),
            es == ordmap::views(edges@),
            out@ == aged(votes_on(es, id@, i as int), now),
        decreases edges.len() - i,
    {
        assert(es[i as int] == edges@[i as int]@);
        if vote_toward(&edges[i], id) {
            let sign: i8 = vote_value(&edges[i].props);
            let age: i64 = age_at(now, edges[i].created_at);
            out.push((sign, age));
            assert(out@ =~= aged(votes_on(es, id@, i + 1), now));
        }
        i = i + 1;
    }
    out
}

// ---------------------------------------------------------------------------------------------
// Laws
// ---------------------------------------------------------------------------------------------
/// A record that no vote points at has no votes, no weights and no feedback.
pub proof fn law_no_votes(edges: Seq<EdgeV>, id: RidV)
    requires
        forall|i: int| 0 <= i < edges.len() ==> !is_vote(#[trigger] edges[i], id),
    ensures
        net_votes(edges, id) == 0,
        vote_weights(edges, id) == Seq::<u32>::empty(),
        vote_ages(edges, id) == Seq::<(i8, i64)>::empty(),
{
    lemma_no_votes(edges, id, edges.len() as int);
    assert(vote_weights(edges, id) =~= Seq::<u32>::empty());
    assert(vote_ages(edges, id) =~= Seq::<(i8, i64)>::empty());
}

proof fn lemma_no_votes(edges: Seq<EdgeV>, id: RidV, n: int)
    requires
        0 <= n <= edges.len(),
        forall|i: int| 0 <= i < edges.len() ==> !is_vote(#[trigger] edges[i], id),
    ensures
        votes_on(edges, id, n) == Seq::<EdgeV>::empty(),
    decreases n,
{
    if n > 0 {
        lemma_no_votes(edges, id, n - 1);
        assert(!is_vote(edges[n - 1], id));
    }
}

/// An edge that is not a vote changes neither the votes on a record nor their ages.
pub proof fn law_other_edges_do_not_count(edges: Seq<EdgeV>, e: EdgeV, id: RidV)
    requires
        e.name != "voted"@,
    ensures
        net_votes(edges.push(e), id) == net_votes(edges, id),
        vote_weights(edges.push(e), id) == vote_weights(edges, id),
        vote_ages(edges.push(e), id) == vote_ages(edges, id),
{
    lemma_votes_prefix(edges, e, id, edges.len() as int);
}

proof fn lemma_votes_prefix(edges: Seq<EdgeV>, e: EdgeV, id: RidV, n: int)
    requires
        0 <= n <= edges.len(),
    ensures
        votes_on(edges.push(e), id, n) == votes_on(edges, id, n),
        latest_vote(edges.push(e), n) == latest_vote(edges, n),
    decreases n,
{
    if n > 0 {
        lemma_votes_prefix(edges, e, id, n - 1);
        assert(edges.push(e)[n - 1] == edges[n - 1]);
    }
}

/// No vote of the store is later than the latest one, so no age counted from it is negative.
pub proof fn law_ages_are_not_negative(edges: Seq<EdgeV>, id: RidV)
    ensures
        forall|i: int| 0 <= i < vote_ages(edges, id).len() ==> (#[trigger] vote_ages(edges, id)[i]).1
            >= 0,
{
    let n = edges.len() as int;
    if let Some(now) = latest_vote(edges, n) {
        lemma_latest_bounds(edges, id, n);
        assert forall|i: int| 0 <= i < vote_ages(edges, id).len() implies (#[trigger] vote_ages(
            edges,
            id,
        )[i]).1 >= 0 by {
            assert(votes_on(edges, id, n)[i].created_at <= now);
        }
    }
}

proof fn lemma_latest_bounds(edges: Seq<EdgeV>, id: RidV, n: int)
    requires
        0 <= n <= edges.len(),
    ensures
        votes_on(edges, id, n).len() > 0 ==> latest_vote(edges, n) is Some,
        latest_vote(edges, n) matches Some(now) ==> forall|i: int|
            0 <= i < votes_on(edges, id, n).len() ==> (#[trigger] votes_on(edges, id, n)[i]).created_at
                <= now,
    decreases n,
{
    if n > 0 {
        lemma_latest_bounds(edges, id, n - 1);
        let before = votes_on(edges, id, n - 1);
        let after = votes_on(edges, id, n);
        if let Some(now) = latest_vote(edges, n) {
            assert forall|i: int| 0 <= i < after.len() implies (#[trigger] after[i]).created_at
                <= now by {
                if i < before.len() {
                    assert(after[i] == before[i]);
                }
            }
        }
    }
}

// ---------------------------------------------------------------------------------------------
// Laws: votes in terms of the edges
// ---------------------------------------------------------------------------------------------
/// The votes on a record are the edges named `voted` that point at it, all of them, in their order.
pub proof fn law_votes_are_voted_edges(edges: Seq<EdgeV>, id: RidV)
    ensures
        votes_on(edges, id, edges.len() as int) == edges.filter(
            |e: EdgeV| e.name == "voted"@ && e.to == id,
        ),
{
    lemma_votes_filtered(edges, id, edges.len() as int);
    assert(edges.take(edges.len() as int) =~= edges);
}

proof fn lemma_votes_filtered(edges: Seq<EdgeV>, id: RidV, n: int)
    requires
        0 <= n <= edges.len(),
    ensures
        votes_on(edges, id, n) == edges.take(n).filter(|e: EdgeV| e.name == "voted"@ && e.to == id),
    decreases n,
{
    reveal(Seq::filter);
    if n > 0 {
        lemma_votes_filtered(edges, id, n - 1);
        assert(edges.take(n).drop_last() =~= edges.take(n - 1));
        assert(edges.take(n).last() == edges[n - 1]);
    }
}

/// A vote says yes if its `value` is 1 or `1.0`, no if it is -1 or `-1.0`, and nothing otherwise.
pub proof fn law_what_a_vote_says(props: BodyV)
    ensures
        vote_sign(props) == 1 <==> ordmap::lookup::<String, ValV>(props, "value"@) == Some(
            ValV::Int(1),
        ) || ordmap::lookup::<String, ValV>(props, "value"@) == Some(
            ValV::Float(0x3ff0_0000_0000_0000),
        ),
        vote_sign(props) == -1 <==> ordmap::lookup::<String, ValV>(props, "value"@) == Some(
            ValV::Int((-1) as i64),
        ) || ordmap::lookup::<String, ValV>(props, "value"@) == Some(
            ValV::Float(0xbff0_0000_0000_0000),
        ),
        vote_sign(props) == 1 || vote_sign(props) == -1 || vote_sign(props) == 0,
{
}

/// Each vote counts once: what `tally` counts are the `voted` edges at the record that say `sign`.
proof fn lemma_tally_edges(edges: Seq<EdgeV>, id: RidV, sign: int, n: int)
    requires
        0 <= n <= edges.len(),
    ensures
        tally(votes_on(edges, id, n), sign) == edges.take(n).filter(
            |e: EdgeV| e.name == "voted"@ && e.to == id && vote_sign(e.props) == sign,
        ).len(),
    decreases n,
{
    reveal(Seq::filter);
    if n > 0 {
        lemma_tally_edges(edges, id, sign, n - 1);
        assert(edges.take(n).drop_last() =~= edges.take(n - 1));
        assert(edges.take(n).last() == edges[n - 1]);
        if is_vote(edges[n - 1], id) {
            assert(votes_on(edges, id, n).drop_last() =~= votes_on(edges, id, n - 1));
        }
    } else {
        assert(edges.take(0) =~= Seq::<EdgeV>::empty());
    }
}

proof fn lemma_filter_same(edges: Seq<EdgeV>, p: spec_fn(EdgeV) -> bool, q: spec_fn(EdgeV) -> bool)
    requires
        forall|e: EdgeV| #[trigger] p(e) == q(e),
    ensures
        edges.filter(p) == edges.filter(q),
    decreases edges.len(),
{
    reveal(Seq::filter);
    if edges.len() > 0 {
        lemma_filter_same(edges.drop_last(), p, q);
        assert(p(edges.last()) == q(edges.last()));
    }
}

/// The up-votes on a record are the `voted` edges at it with a `value` of 1, the down-votes those with
/// one of -1; the net votes are the difference.
pub proof fn law_net_votes_count_the_edges(edges: Seq<EdgeV>, id: RidV)
    ensures
        tally(votes_on(edges, id, edges.len() as int), 1) == edges.filter(
            |e: EdgeV|
                e.name == "voted"@ && e.to == id && (ordmap::lookup::<String, ValV>(
                    e.props,
                    "value"@,
                ) == Some(ValV::Int(1)) || ordmap::lookup::<String, ValV>(e.props, "value"@) == Some(
                    ValV::Float(0x3ff0_0000_0000_0000),
                )),
        ).len(),
        tally(votes_on(edges, id, edges.len() as int), -1) == edges.filter(
            |e: EdgeV|
                e.name == "voted"@ && e.to == id && (ordmap::lookup::<String, ValV>(
                    e.props,
                    "value"@,
                ) == Some(ValV::Int((-1) as i64)) || ordmap::lookup::<String, ValV>(e.props, "value"@) == Some(
                    ValV::Float(0xbff0_0000_0000_0000),
                )),
        ).len(),
        net_votes(edges, id) == edges.filter(
            |e: EdgeV|
                e.name == "voted"@ && e.to == id && (ordmap::lookup::<String, ValV>(
                    e.props,
                    "value"@,
                ) == Some(ValV::Int(1)) || ordmap::lookup::<String, ValV>(e.props, "value"@) == Some(
                    ValV::Float(0x3ff0_0000_0000_0000),
                )),
        ).len() - edges.filter(
            |e: EdgeV|
                e.name == "voted"@ && e.to == id && (ordmap::lookup::<String, ValV>(
                    e.props,
                    "value"@,
                ) == Some(ValV::Int((-1) as i64)) || ordmap::lookup::<String, ValV>(e.props, "value"@) == Some(
                    ValV::Float(0xbff0_0000_0000_0000),
                )),
        ).len(),
{
    let n = edges.len() as int;
    lemma_tally_edges(edges, id, 1, n);
    lemma_tally_edges(edges, id, -1, n);
    assert(edges.take(n) =~= edges);
    lemma_filter_same(
        edges,
        |e: EdgeV| e.name == "voted"@ && e.to == id && vote_sign(e.props) == 1,
        |e: EdgeV|
            e.name == "voted"@ && e.to == id && (ordmap::lookup::<String, ValV>(e.props, "value"@)
                == Some(ValV::Int(1)) || ordmap::lookup::<String, ValV>(e.props, "value"@) == Some(
                ValV::Float(0x3ff0_0000_0000_0000),
            )),
    );
    lemma_filter_same(
        edges,
        |e: EdgeV| e.name == "voted"@ && e.to == id && vote_sign(e.props) == -1,
        |e: EdgeV|
            e.name == "voted"@ && e.to == id && (ordmap::lookup::<String, ValV>(e.props, "value"@)
                == Some(ValV::Int((-1) as i64)) || ordmap::lookup::<String, ValV>(e.props, "value"@) == Some(
                ValV::Float(0xbff0_0000_0000_0000),
            )),
    );
}

/// The weights of the votes on a record: one for each vote, in order, its weight or `1.0`.
pub proof fn law_vote_weights_are_those_of_the_edges(edges: Seq<EdgeV>, id: RidV)
    ensures
        ({
            let votes = edges.filter(|e: EdgeV| e.name == "voted"@ && e.to == id);
            let weights = vote_weights(edges, id);
            &&& weights.len() == votes.len()
            &&& forall|i: int|
                0 <= i < votes.len() ==> #[trigger] weights[i] == (match votes[i].weight {
                    Some(w) => w,
                    None => 0x3f80_0000u32,
                })
        }),
{
    law_votes_are_voted_edges(edges, id);
}

/// An age counts back from the latest vote of all, on whatever record: no vote is later, and one is of
/// that time.
proof fn lemma_latest(edges: Seq<EdgeV>, n: int)
    requires
        0 <= n <= edges.len(),
    ensures
        match latest_vote(edges, n) {
            None => forall|i: int| 0 <= i < n ==> (#[trigger] edges[i]).name != "voted"@,
            Some(t) => {
                &&& forall|i: int|
                    0 <= i < n && (#[trigger] edges[i]).name == "voted"@ ==> edges[i].created_at <= t
                &&& exists|i: int|
                    0 <= i < n && (#[trigger] edges[i]).name == "voted"@ && edges[i].created_at == t
            },
        },
    decreases n,
{
    if n > 0 {
        lemma_latest(edges, n - 1);
        if let Some(t) = latest_vote(edges, n) {
            if edges[n - 1].name == "voted"@ && edges[n - 1].created_at == t {
            } else {
                let i = choose|i: int|
                    0 <= i < n - 1 && (#[trigger] edges[i]).name == "voted"@ && edges[i].created_at
                        == t;
                assert(edges[i].name == "voted"@);
            }
        }
    }
}

/// The ages of the votes on a record: for each vote, in order, what it says and how long before the
/// latest `voted` edge of all it was cast, within the range of an `i64`.
pub proof fn law_vote_ages_count_back_from_the_latest_vote(edges: Seq<EdgeV>, id: RidV, last: int)
    requires
        0 <= last < edges.len(),
        edges[last].name == "voted"@,
        forall|i: int|
            0 <= i < edges.len() && (#[trigger] edges[i]).name == "voted"@ ==> edges[i].created_at
                <= edges[last].created_at,
    ensures
        ({
            let votes = edges.filter(|e: EdgeV| e.name == "voted"@ && e.to == id);
            let ages = vote_ages(edges, id);
            &&& ages.len() == votes.len()
            &&& forall|i: int|
                0 <= i < votes.len() ==> {
                    let age = edges[last].created_at - votes[i].created_at;
                    &&& (#[trigger] ages[i]).0 == vote_sign(votes[i].props)
                    &&& i64::MIN <= age <= i64::MAX ==> ages[i].1 == age
                    &&& age > i64::MAX ==> ages[i].1 == i64::MAX
                    &&& age < i64::MIN ==> ages[i].1 == i64::MIN
                }
        }),
{
    law_votes_are_voted_edges(edges, id);
    lemma_latest(edges, edges.len() as int);
    let now = latest_vote(edges, edges.len() as int);
    if now is Some {
        let t = now->0;
        assert(edges[last].created_at <= t);
        let i = choose|i: int|
            0 <= i < edges.len() && (#[trigger] edges[i]).name == "voted"@ && edges[i].created_at
                == t;
        assert(t <= edges[last].created_at);
    }
    let votes = edges.filter(|e: EdgeV| e.name == "voted"@ && e.to == id);
    assert forall|i: int| 0 <= i < votes.len() implies (#[trigger] vote_ages(edges, id)[i]).0
        == vote_sign(votes[i].props) by {
        law_what_a_vote_says(votes[i].props);
    }
}

/// Where no edge is a vote, no record has an age of a vote.
pub proof fn law_no_votes_no_ages(edges: Seq<EdgeV>, id: RidV)
    requires
        forall|i: int| 0 <= i < edges.len() ==> (#[trigger] edges[i]).name != "voted"@,
    ensures
        vote_ages(edges, id).len() == 0,
        vote_weights(edges, id).len() == 0,
        net_votes(edges, id) == 0,
{
    lemma_latest(edges, edges.len() as int);
    lemma_no_votes(edges, id, edges.len() as int);
}

} // verus!
