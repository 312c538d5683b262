//! A database: a store, in memory or persisted.
//!
//! A persisted database logs what changes its store. [`Database::execute`] works on the store;
//! [`Database::to_log`] says which statements the caller has to add to the log behind it, and
//! [`Database::needs_checkpoint`] when to fold the log into the main file. [`Database::open`] restores
//! the store from the two files.
use vstd::prelude::*;

use crate::engine;
use crate::engine::QueryResult;
use crate::error::Error;
use crate::ir;
use crate::ir::{Statement, Store};
#[allow(unused_imports)]
use crate::ir::{StmtV, StoreV};
use crate::ordmap;
use crate::ordmap::Dup;
use crate::score;
use crate::score::ScoreTask;
#[allow(unused_imports)]
use crate::score::Scoring;
use crate::storage;
use crate::storage::StoreFile;
#[allow(unused_imports)]
use crate::storage::{Decoding, FileV};

verus! {

/// The statement changes the store, and so belongs in the log.
pub open spec fn mutating(stmt: StmtV) -> bool {
    match stmt {
        StmtV::CreateTable { .. } => true,
        StmtV::Insert(_) => true,
        StmtV::Relate(_) => true,
        StmtV::Forget { .. } => true,
        StmtV::Select(_) => false,
        StmtV::Match(_) => false,
        StmtV::Closure(_) => false,
    }
}

/// Those of the first `n` statements that change the store.
pub open spec fn changes(plan: Seq<StmtV>, n: int) -> Seq<StmtV>
    decreases n,
{
    if n <= 0 {
        Seq::empty()
    } else if mutating(plan[n - 1]) {
        changes(plan, n - 1).push(plan[n - 1])
    } else {
        changes(plan, n - 1)
    }
}

/// Whether the statement changes the store.
pub fn is_mutating(stmt: &Statement) -> (r: bool)
    ensures
        r == mutating(stmt@),
{
    match stmt {
        Statement::Select(_) => false,
        Statement::Match(_) => false,
        Statement::Closure(_) => false,
        _ => true,
    }
}

/// An open database.
#[derive(Debug)]
pub struct Database {
    store: Store,
    file: Option<StoreFile>,
}

#[verifier::ext_equal]
pub struct DbV {
    pub store: StoreV,
    pub file: Option<FileV>,
}

impl View for Database {
    type V = DbV;

    closed spec fn view(&self) -> DbV {
        DbV { store: self.store@, file: ordmap::opt_view(self.file) }
    }
}

/// An empty database in memory.
pub open spec fn empty_db() -> DbV {
    DbV { store: ir::empty_store(), file: None }
}

impl Default for Database {
    /// An empty database in memory.
    fn default() -> (r: Self)
        ensures
            r@ == empty_db(),
    {
        Database::new(Store::default())
    }
}

impl Database {
    /// A database in memory.
    pub fn new(store: Store) -> (r: Self)
        ensures
            r@ == (DbV { store: store@, file: None }),
    {
        Database { store, file: None }
    }

    /// The persisted database whose main file, at `path`, holds `store`, and whose log is `log`: the
    /// store with the log replayed on it. Also returned is how much of the log is intact; the rest is
    /// to be cut off. `decode` decodes a payload of the log.
    pub fn open<F: Fn(Vec<u8>) -> Option<Statement>>(
        path: &str,
        store: Store,
        log: &Vec<u8>,
        decode: &F,
    ) -> (r: (Self, usize))
        requires
            storage::takes_payloads(*decode),
        ensures
            r.1 <= log.len(),
            r.0@.file == Some(FileV { main: path@, wal: path@ + ".wal"@, wal_len: r.1 as u64 }),
            forall|d: Decoding| #[trigger]
                storage::decodes_by(*decode, d) ==> {
                    let intact = storage::log_from(d, log@, 0);
                    &&& r.1 == intact.1
                    &&& r.0@.store == storage::replayed(
                        store@,
                        intact.0,
                        intact.0.len() as int,
                    )
                },
    {
        let (stmts, keep) = storage::read_log(log, decode);
        let mut store = store;
        storage::replay(&mut store, &stmts);
        let file = StoreFile::open(path, keep as u64);
        (Database { store, file: Some(file) }, keep)
    }

    /// The store.
    pub fn store(&self) -> (r: &Store)
        ensures
            r@ == self@.store,
    {
        &self.store
    }

    /// The store, out of the database.
    pub fn into_store(self) -> (r: Store)
        ensures
            r@ == self@.store,
    {
        self.store
    }

    /// The persisted files, if there are any.
    pub fn file(&self) -> (r: Option<&StoreFile>)
        ensures
            match r {
                Some(f) => self@.file == Some(f@),
                None => self@.file is None,
            },
    {
        match &self.file {
            Some(f) => Some(f),
            None => None,
        }
    }

    /// Executes a plan on the store as one transaction: one result for each statement that reads, or
    /// the error of the first statement that fails, and then the store stays as it was. `f` computes
    /// the scores.
    pub fn execute<F: Fn(ScoreTask) -> u32>(&mut self, plan: &Vec<Statement>, f: &F) -> (r: Result<
        Vec<QueryResult>,
        Error,
    >)
        requires
            score::takes_tasks(*f),
        ensures
            final(self)@.file == old(self)@.file,
            engine::executed(
                *f,
                old(self)@.store,
                ordmap::views(plan@),
                final(self)@.store,
                engine::outcome(r),
            ),
    {
        engine::execute_plan(&mut self.store, plan, f)
    }

    /// The statements of an executed plan that are to be added to the log: those that change the
    /// store, where the database is persisted.
    pub fn to_log(&self, plan: &Vec<Statement>) -> (r: Vec<Statement>)
        ensures
            ordmap::views(r@) == (if self@.file is Some {
                changes(ordmap::views(plan@), plan@.len() as int)
            } else {
                Seq::empty()
            }),
    {
        let ghost stmts = ordmap::views(plan@);
        let mut out: Vec<Statement> = Vec::new();
        assert(ordmap::views(out@) =~= Seq::<StmtV>::empty());
        if self.file.is_none() {
            return out;
        }
        let mut i: usize = 0;
        while i < plan.len()
            invariant
                i <= plan.len(),
                stmts == ordmap::views(plan@),
                ordmap::views(out@) == changes(stmts, i as int),
            decreases plan.len() - i,
        {
            assert(stmts[i as int] == plan@[i as int]@);
            if is_mutating(&plan[i]) {
                let ghost before = ordmap::views(out@);
                out.push(plan[i].dup());
                assert(ordmap::views(out@) =~= before.push(stmts[i as int]));
            }
            i = i + 1;
        }
        out
    }

    /// Takes note of `n` bytes that were added to the log. In memory there is none.
    pub fn logged(&mut self, n: u64)
        requires
            old(self)@.file matches Some(f) ==> f.wal_len + n <= u64::MAX,
        ensures
            final(self)@ == (DbV {
                store: old(self)@.store,
                file: match old(self)@.file {
                    Some(f) => Some(FileV { wal_len: (f.wal_len + n) as u64, ..f }),
                    None => None,
                },
            }),
    {
        if let Some(f) = &mut self.file {
            f.appended(n);
        }
    }

    /// Whether the log has grown past the threshold.
    pub fn needs_checkpoint(&self) -> (r: bool)
        ensures
            r == (self@.file matches Some(f) && f.wal_len > storage::CHECKPOINT_THRESHOLD),
    {
        match &self.file {
            Some(f) => f.needs_checkpoint(),
            None => false,
        }
    }

    /// Takes note that the main file holds the store and the log is empty.
    pub fn flushed(&mut self)
        ensures
            final(self)@ == (DbV {
                store: old(self)@.store,
                file: match old(self)@.file {
                    Some(f) => Some(FileV { wal_len: 0, ..f }),
                    None => None,
                },
            }),
    {
        if let Some(f) = &mut self.file {
            f.checkpointed();
        }
    }
}

// ---------------------------------------------------------------------------------------------
// Laws
// ---------------------------------------------------------------------------------------------
/// Replaying what a plan logs rebuilds the store behind the plan: the log loses nothing.
pub proof fn law_log_rebuilds_the_store(s: StoreV, plan: Seq<StmtV>, n: int)
    requires
        engine::plan_runs(s, plan),
        0 <= n <= plan.len(),
    ensures
        storage::replayed(s, changes(plan, n), changes(plan, n).len() as int) == engine::store_at(
            s,
            plan,
            n,
        ),
    decreases n,
{
    if n > 0 {
        law_log_rebuilds_the_store(s, plan, n - 1);
        let before = changes(plan, n - 1);
        assert(engine::plan_fault_at(s, plan, n - 1) is None);
        if mutating(plan[n - 1]) {
            lemma_replayed_prefix(s, before, plan[n - 1], before.len() as int);
        }
    }
}

proof fn lemma_replayed_prefix(s: StoreV, stmts: Seq<StmtV>, last: StmtV, n: int)
    requires
        0 <= n <= stmts.len(),
    ensures
        storage::replayed(s, stmts.push(last), n) == storage::replayed(s, stmts, n),
    decreases n,
{
    if n > 0 {
        lemma_replayed_prefix(s, stmts, last, n - 1);
    }
}

/// What was acknowledged survives a crash. Where the log holds the frames of what a plan changed,
/// and perhaps part of a further frame, opening the database gives the store behind the plan.
pub proof fn law_acknowledged_plans_survive(
    d: Decoding,
    s: StoreV,
    plan: Seq<StmtV>,
    payloads: Seq<Seq<u8>>,
    last: Seq<u8>,
    torn: int,
)
    requires
        engine::plan_runs(s, plan),
        storage::decodable(d, payloads, changes(plan, plan.len() as int)),
        last.len() <= u32::MAX,
        0 <= torn < storage::frame(last).len(),
    ensures
        ({
            let whole = storage::frames(payloads, payloads.len() as int);
            let log = whole + storage::frame(last).take(torn);
            let intact = storage::log_from(d, log, 0);
            &&& intact.1 == whole.len()
            &&& storage::replayed(s, intact.0, intact.0.len() as int) == engine::store_at(
                s,
                plan,
                plan.len() as int,
            )
        }),
{
    storage::law_torn_tail_is_dropped(
        d,
        payloads,
        changes(plan, plan.len() as int),
        last,
        torn,
    );
    law_log_rebuilds_the_store(s, plan, plan.len() as int);
}

/// A crash while a plan is logged keeps whole statements only: wherever the log is cut off, opening
/// the database gives the store behind the first few changes of the plan.
pub proof fn law_crash_recovers_a_prefix(
    d: Decoding,
    s: StoreV,
    plan: Seq<StmtV>,
    payloads: Seq<Seq<u8>>,
    cut: int,
)
    requires
        engine::plan_runs(s, plan),
        storage::decodable(d, payloads, changes(plan, plan.len() as int)),
        0 <= cut <= storage::frames(payloads, payloads.len() as int).len(),
    ensures
        ({
            let log = storage::frames(payloads, payloads.len() as int).take(cut);
            let intact = storage::log_from(d, log, 0);
            exists|n: int|
                0 <= n <= plan.len() && storage::replayed(s, intact.0, intact.0.len() as int)
                    == #[trigger] engine::store_at(s, plan, n)
        }),
{
    let all = changes(plan, plan.len() as int);
    storage::law_cut_log_gives_a_prefix(d, payloads, all, cut);
    let log = storage::frames(payloads, payloads.len() as int).take(cut);
    let i = choose|i: int|
        0 <= i <= all.len() && (#[trigger] storage::frames(payloads, i)).len() <= cut && (i
            < all.len() ==> cut < storage::frames(payloads, i + 1).len()) && storage::log_from(
            d,
            log,
            0,
        ) == (all.take(i), storage::frames(payloads, i).len() as int);
    lemma_some_changes(plan, plan.len() as int, i);
    let n = choose|n: int|
        0 <= n <= plan.len() && #[trigger] changes(plan, n) == changes(plan, plan.len() as int).take(
            i,
        );
    law_log_rebuilds_the_store(s, plan, n);
}

proof fn lemma_some_changes(plan: Seq<StmtV>, m: int, i: int)
    requires
        0 <= m <= plan.len(),
        0 <= i <= changes(plan, m).len(),
    ensures
        exists|n: int| 0 <= n <= m && #[trigger] changes(plan, n) == changes(plan, m).take(i),
    decreases m,
{
    if i == changes(plan, m).len() {
        assert(changes(plan, m).take(i) =~= changes(plan, m));
    } else {
        lemma_some_changes(plan, m - 1, i);
        assert(changes(plan, m).take(i) =~= changes(plan, m - 1).take(i));
    }
}

/// A plan with a single change is recovered whole or not at all, whatever part of its frame was
/// written before a crash.
pub proof fn law_single_change_is_all_or_nothing(
    d: Decoding,
    s: StoreV,
    logged: Seq<StmtV>,
    payloads: Seq<Seq<u8>>,
    plan: Seq<StmtV>,
    payload: Seq<u8>,
    written: int,
)
    requires
        storage::decodable(d, payloads, logged),
        engine::plan_runs(storage::replayed(s, logged, logged.len() as int), plan),
        changes(plan, plan.len() as int).len() == 1,
        d(payload) == Some(changes(plan, plan.len() as int)[0]),
        payload.len() <= u32::MAX,
        0 <= written <= storage::frame(payload).len(),
    ensures
        ({
            let before = storage::replayed(s, logged, logged.len() as int);
            let log = storage::frames(payloads, payloads.len() as int) + storage::frame(
                payload,
            ).take(written);
            let intact = storage::log_from(d, log, 0);
            storage::replayed(s, intact.0, intact.0.len() as int) == if written == storage::frame(
                payload,
            ).len() {
                engine::store_at(before, plan, plan.len() as int)
            } else {
                before
            }
        }),
{
    let before = storage::replayed(s, logged, logged.len() as int);
    if written < storage::frame(payload).len() {
        storage::law_torn_tail_is_dropped(d, payloads, logged, payload, written);
    } else {
        let change = changes(plan, plan.len() as int)[0];
        let more = payloads.push(payload);
        let all = logged.push(change);
        assert forall|i: int| 0 <= i < more.len() implies (#[trigger] more[i]).len() <= u32::MAX && d(
            more[i],
        ) == Some(all[i]) by {
            if i < payloads.len() {
                assert(more[i] == payloads[i]);
            }
        }
        storage::law_log_reads_back(d, more, all);
        assert(more.drop_last() =~= payloads);
        storage::lemma_frames_of_prefix(more, payloads.len() as int);
        assert(storage::frame(payload).take(written) =~= storage::frame(payload));
        law_log_rebuilds_the_store(before, plan, plan.len() as int);
        lemma_replayed_prefix(s, logged, change, logged.len() as int);
        assert(changes(plan, plan.len() as int) =~= seq![change]);
        assert(storage::replayed(before, seq![change], 0) == before);
        assert(storage::replayed(before, seq![change], 1) == storage::replayed_one(before, change));
    }
}

/// A checkpoint keeps the store: behind it the log is empty, and opening the database gives what
/// the main file holds.
pub proof fn law_checkpoint_keeps_the_store(d: Decoding, s: StoreV, payload: Seq<u8>)
    ensures
        storage::main_payload(storage::main_file(payload)) == Ok::<
            Option<Seq<u8>>,
            storage::StorageErrV,
        >(Some(payload)),
        ({
            let intact = storage::log_from(d, Seq::empty(), 0);
            &&& intact == (Seq::<StmtV>::empty(), 0int)
            &&& storage::replayed(s, intact.0, intact.0.len() as int) == s
        }),
{
    storage::law_main_file_reads_back(payload);
}

/// A crash between the two steps of a checkpoint, when the main file holds the store already and the
/// log is not yet cut, loses and changes nothing, where the log adds no edge and its statements run
/// on that store too.
pub proof fn law_interrupted_checkpoint(s: StoreV, stmts: Seq<StmtV>)
    requires
        ir::store_wf(s),
        engine::relates_nothing(stmts),
        engine::plan_runs(s, stmts),
        engine::plan_runs(storage::replayed(s, stmts, stmts.len() as int), stmts),
    ensures
        ({
            let t = storage::replayed(s, stmts, stmts.len() as int);
            storage::replayed(t, stmts, stmts.len() as int) == t
        }),
{
    let n = stmts.len() as int;
    lemma_replay_runs(s, stmts, n);
    lemma_replay_runs(storage::replayed(s, stmts, n), stmts, n);
    engine::law_plan_without_relations_is_idempotent(s, stmts);
}

proof fn lemma_replay_runs(s: StoreV, stmts: Seq<StmtV>, n: int)
    requires
        0 <= n <= stmts.len(),
        engine::plan_runs(s, stmts),
    ensures
        storage::replayed(s, stmts, n) == engine::store_at(s, stmts, n),
    decreases n,
{
    if n > 0 {
        lemma_replay_runs(s, stmts, n - 1);
        assert(engine::plan_fault_at(s, stmts, n - 1) is None);
    }
}

/// Nothing that reads is logged, and a plan that only reads changes nothing.
pub proof fn law_reading_is_not_logged(s: StoreV, plan: Seq<StmtV>, n: int)
    requires
        0 <= n <= plan.len(),
        forall|i: int| 0 <= i < n ==> !mutating(#[trigger] plan[i]),
    ensures
        changes(plan, n) == Seq::<StmtV>::empty(),
        engine::store_at(s, plan, n) == s,
    decreases n,
{
    if n > 0 {
        law_reading_is_not_logged(s, plan, n - 1);
        assert(!mutating(plan[n - 1]));
    }
}

/// One thing that a session on a persisted database does: execute a plan that is acknowledged, or
/// fold the log into the main file.
pub enum ActV {
    Plan(Seq<StmtV>),
    Checkpoint,
}

/// What is on disk: the store in the main file, and the statements in the log.
#[verifier::ext_equal]
pub struct DiskV {
    pub main: StoreV,
    pub logged: Seq<StmtV>,
}

/// The store behind the first `n` acts of a session that starts on `s`.
pub open spec fn store_behind(s: StoreV, acts: Seq<ActV>, n: int) -> StoreV
    decreases n,
{
    if n <= 0 {
        s
    } else {
        match acts[n - 1] {
            ActV::Plan(plan) => engine::store_at(
                store_behind(s, acts, n - 1),
                plan,
                plan.len() as int,
            ),
            ActV::Checkpoint => store_behind(s, acts, n - 1),
        }
    }
}

/// What is on disk behind the first `n` acts: a plan adds its changes to the log, a checkpoint
/// writes the store into the main file and empties the log.
pub open spec fn disk_behind(disk: DiskV, s: StoreV, acts: Seq<ActV>, n: int) -> DiskV
    decreases n,
{
    if n <= 0 {
        disk
    } else {
        let before = disk_behind(disk, s, acts, n - 1);
        match acts[n - 1] {
            ActV::Plan(plan) => DiskV {
                main: before.main,
                logged: before.logged + changes(plan, plan.len() as int),
            },
            ActV::Checkpoint => DiskV {
                main: store_behind(s, acts, n - 1),
                logged: Seq::empty(),
            },
        }
    }
}

/// Every plan of the session ran.
pub open spec fn all_run(s: StoreV, acts: Seq<ActV>) -> bool {
    forall|i: int|
        0 <= i < acts.len() ==> (#[trigger] acts[i] matches ActV::Plan(plan) ==> engine::plan_runs(
            store_behind(s, acts, i),
            plan,
        ))
}

/// What is on disk replays to the store `s`.
pub open spec fn replays_to(disk: DiskV, s: StoreV) -> bool {
    storage::replayed(disk.main, disk.logged, disk.logged.len() as int) == s
}

proof fn lemma_replayed_join(s: StoreV, a: Seq<StmtV>, b: Seq<StmtV>, n: int)
    requires
        0 <= n <= b.len(),
    ensures
        storage::replayed(s, a + b, a.len() + n) == storage::replayed(
            storage::replayed(s, a, a.len() as int),
            b,
            n,
        ),
    decreases n,
{
    if n > 0 {
        lemma_replayed_join(s, a, b, n - 1);
        assert((a + b)[a.len() + n - 1] == b[n - 1]);
    } else {
        lemma_replayed_head(s, a, b, a.len() as int);
    }
}

proof fn lemma_replayed_head(s: StoreV, a: Seq<StmtV>, b: Seq<StmtV>, n: int)
    requires
        0 <= n <= a.len(),
    ensures
        storage::replayed(s, a + b, n) == storage::replayed(s, a, n),
    decreases n,
{
    if n > 0 {
        lemma_replayed_head(s, a, b, n - 1);
        assert((a + b)[n - 1] == a[n - 1]);
    }
}

/// Throughout a session, whatever plans it executes and wherever it checkpoints, what is on disk
/// replays to its store.
pub proof fn law_disk_follows_the_store(disk: DiskV, s: StoreV, acts: Seq<ActV>, n: int)
    requires
        replays_to(disk, s),
        all_run(s, acts),
        0 <= n <= acts.len(),
    ensures
        replays_to(disk_behind(disk, s, acts, n), store_behind(s, acts, n)),
    decreases n,
{
    if n > 0 {
        law_disk_follows_the_store(disk, s, acts, n - 1);
        let before = disk_behind(disk, s, acts, n - 1);
        let store = store_behind(s, acts, n - 1);
        if let ActV::Plan(plan) = acts[n - 1] {
            let more = changes(plan, plan.len() as int);
            law_log_rebuilds_the_store(store, plan, plan.len() as int);
            lemma_replayed_join(before.main, before.logged, more, more.len() as int);
        }
    }
}

/// A session survives its end, with or without a checkpoint and even if that end is a crash while a
/// further frame is written: opening what is on disk gives the store behind its last act.
pub proof fn law_acknowledged_session_survives(
    d: Decoding,
    disk: DiskV,
    s: StoreV,
    acts: Seq<ActV>,
    payloads: Seq<Seq<u8>>,
    last: Seq<u8>,
    torn: int,
)
    requires
        replays_to(disk, s),
        all_run(s, acts),
        storage::decodable(d, payloads, disk_behind(disk, s, acts, acts.len() as int).logged),
        last.len() <= u32::MAX,
        0 <= torn < storage::frame(last).len(),
    ensures
        ({
            let end = disk_behind(disk, s, acts, acts.len() as int);
            let whole = storage::frames(payloads, payloads.len() as int);
            let intact = storage::log_from(d, whole + storage::frame(last).take(torn), 0);
            &&& intact.1 == whole.len()
            &&& storage::replayed(end.main, intact.0, intact.0.len() as int) == store_behind(
                s,
                acts,
                acts.len() as int,
            )
        }),
{
    law_disk_follows_the_store(disk, s, acts, acts.len() as int);
    storage::law_torn_tail_is_dropped(
        d,
        payloads,
        disk_behind(disk, s, acts, acts.len() as int).logged,
        last,
        torn,
    );
}

/// What goes into the log of a plan: its statements that create, insert, relate or forget, all of them,
/// in their order, and no other.
pub proof fn law_log_holds_the_changes(plan: Seq<StmtV>)
    ensures
        changes(plan, plan.len() as int) == plan.filter(
            |s: StmtV| s is CreateTable || s is Insert || s is Relate || s is Forget,
        ),
{
    lemma_changes_filtered(plan, plan.len() as int);
    assert(plan.take(plan.len() as int) =~= plan);
}

proof fn lemma_changes_filtered(plan: Seq<StmtV>, n: int)
    requires
        0 <= n <= plan.len(),
    ensures
        changes(plan, n) == plan.take(n).filter(
            |s: StmtV| s is CreateTable || s is Insert || s is Relate || s is Forget,
        ),
    decreases n,
{
    reveal(Seq::filter);
    if n > 0 {
        lemma_changes_filtered(plan, n - 1);
        assert(plan.take(n).drop_last() =~= plan.take(n - 1));
        assert(plan.take(n).last() == plan[n - 1]);
    }
}

} // verus!
