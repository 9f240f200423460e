//! Per-player totals from their best records, and per-nation totals from player totals.
use vstd::prelude::*;
use crate::rank_store::{lemma_store_facts, RankStore};
use crate::score::{lemma_score_bounds, score_of, ScoreConfig, MAX_REFERENCE_SCORE};

verus! {

#[derive(Clone, Copy, Debug, PartialEq, Eq, Structural)]
pub enum RecordStatus {
    Approved,
    Rejected,
    Pending,
}

/// A player's completion of a demon, at `progress` percent.
#[derive(Debug)]
pub struct Record {
    pub id: u64,
    pub player: u64,
    pub demon: u64,
    pub progress: u64,
    pub status: RecordStatus,
    /// When the record was approved; earlier approval keeps credit on equal progress.
    pub approved_at: i64,
    pub video: Option<String>,
}

#[derive(Debug)]
pub struct Player {
    pub id: u64,
    pub name: String,
    /// Identity of the player's nationality, if any.
    pub nationality: Option<u64>,
}

#[derive(Debug)]
pub struct Nationality {
    pub id: u64,
    pub iso_country_code: String,
    pub nation: String,
    pub subdivision: Option<String>,
}

/// Whether `r` is an approved record of `player` on `demon`.
pub open spec fn is_candidate(r: Record, player: u64, demon: u64) -> bool {
    r.status == RecordStatus::Approved && r.player == player && r.demon == demon
}

/// Every record's progress is a percentage.
pub open spec fn records_ok(records: Seq<Record>) -> bool {
    forall|i: int| 0 <= i < records.len() ==> (#[trigger] records[i]).progress <= 100
}

/// The highest progress among the approved records of `player` on `demon`, or -1 when
/// there is none.
pub open spec fn best_progress(records: Seq<Record>, player: u64, demon: u64) -> int
    decreases records.len(),
{
    if records.len() == 0 {
        -1
    } else {
        let rest = best_progress(records.drop_last(), player, demon);
        let r = records.last();
        if is_candidate(r, player, demon) && r.progress > rest {
            r.progress as int
        } else {
            rest
        }
    }
}

/// Record `i` keeps credit for `player` on `demon`: it is an approved record of theirs with
/// the highest progress, approved no later than any other with that progress, and the
/// first of those approved at the same time.
pub open spec fn is_best_record(records: Seq<Record>, i: int, player: u64, demon: u64) -> bool {
    &&& 0 <= i < records.len()
    &&& is_candidate(records[i], player, demon)
    &&& forall|j: int| 0 <= j < records.len() && is_candidate(#[trigger] records[j], player, demon) ==> {
        ||| records[j].progress < records[i].progress
        ||| (records[j].progress == records[i].progress && records[j].approved_at > records[i].approved_at)
        ||| (records[j].progress == records[i].progress && records[j].approved_at == records[i].approved_at && j >= i)
    }
}

/// What `player` earns on the demon at list index `i` of `store`.
pub open spec fn contribution(cfg: &ScoreConfig, store: &RankStore, records: Seq<Record>, player: u64, i: int) -> int {
    let id = store.spec_list()[i];
    let best = best_progress(records, player, id);
    if best < 0 {
        0
    } else {
        score_of(cfg.spec_curve(), i + 1, store.spec_demons()[id as int].requirement as int, best)
    }
}

/// What `player` earns on the first `k` demons of the list.
pub open spec fn total_upto(cfg: &ScoreConfig, store: &RankStore, records: Seq<Record>, player: u64, k: int) -> int
    decreases k,
{
    if k <= 0 {
        0
    } else {
        total_upto(cfg, store, records, player, k - 1) + contribution(cfg, store, records, player, k - 1)
    }
}

/// A player's total: the sum, over the demons of the list, of the score of their best
/// approved record on each.
pub open spec fn player_total_of(cfg: &ScoreConfig, store: &RankStore, records: Seq<Record>, player: u64) -> int {
    total_upto(cfg, store, records, player, store.spec_list().len() as int)
}

/// The sum of the totals of the first `k` players of nationality `nation`.
pub open spec fn nation_total_upto(
    cfg: &ScoreConfig,
    store: &RankStore,
    records: Seq<Record>,
    players: Seq<Player>,
    nation: u64,
    k: int,
) -> int
    decreases k,
{
    if k <= 0 {
        0
    } else {
        let rest = nation_total_upto(cfg, store, records, players, nation, k - 1);
        if players[k - 1].nationality == Some(nation) {
            rest + player_total_of(cfg, store, records, players[k - 1].id)
        } else {
            rest
        }
    }
}

/// A nation's total: the sum of the totals of all its players.
pub open spec fn nation_total_of(cfg: &ScoreConfig, store: &RankStore, records: Seq<Record>, players: Seq<Player>, nation: u64) -> int {
    nation_total_upto(cfg, store, records, players, nation, players.len() as int)
}

/// The number of the first `k` players of nationality `nation`.
pub open spec fn nation_size_upto(players: Seq<Player>, nation: u64, k: int) -> int
    decreases k,
{
    if k <= 0 {
        0
    } else {
        nation_size_upto(players, nation, k - 1) + if players[k - 1].nationality == Some(nation) {
            1int
        } else {
            0int
        }
    }
}

/// `x`, or `u64::MAX` when it is larger.
pub open spec fn saturate(x: int) -> int {
    if x > u64::MAX {
        u64::MAX as int
    } else {
        x
    }
}

/// The highest progress among the approved records of `player` on `demon`.
pub fn best_progress_of(records: &Vec<Record>, player: u64, demon: u64) -> (r: Option<u64>)
    ensures
        match r {
            Some(p) => p == best_progress(records@, player, demon) && p >= 0,
            None => best_progress(records@, player, demon) == -1,
        },
{
    let mut best: Option<u64> = None;
    let mut i: usize = 0;
    while i < records.len()
        invariant
            i <= records@.len(),
            match best {
                Some(p) => p == best_progress(records@.subrange(0, i as int), player, demon),
                None => best_progress(records@.subrange(0, i as int), player, demon) == -1,
            },
            best_progress(records@.subrange(0, i as int), player, demon) >= -1,
        decreases records@.len() - i,
    {
        proof {
            let pre = records@.subrange(0, i as int);
            let post = records@.subrange(0, i + 1);
            assert(post.drop_last() =~= pre);
            assert(post.last() == records@[i as int]);
        }
        let r = &records[i];
        if r.status == RecordStatus::Approved && r.player == player && r.demon == demon {
            match best {
                Some(p) => {
                    if r.progress > p {
                        best = Some(r.progress);
                    }
                },
                None => {
                    best = Some(r.progress);
                },
            }
        }
        i = i + 1;
    }
    assert(records@.subrange(0, records@.len() as int) =~= records@);
    best
}

/// The record that keeps credit for `player` on `demon`: the approved one with the highest
/// progress, ties going to the earliest approval, then to the earliest entry.
pub fn best_record(records: &Vec<Record>, player: u64, demon: u64) -> (r: Option<usize>)
    ensures
        match r {
            Some(i) => is_best_record(records@, i as int, player, demon),
            None => forall|j: int| 0 <= j < records@.len() ==> !is_candidate(#[trigger] records@[j], player, demon),
        },
{
    let mut best: Option<usize> = None;
    let mut i: usize = 0;
    while i < records.len()
        invariant
            i <= records@.len(),
            match best {
                Some(b) => b < i && is_candidate(records@[b as int], player, demon) && forall|j: int|
                    0 <= j < i && is_candidate(#[trigger] records@[j], player, demon) ==> {
                        ||| records@[j].progress < records@[b as int].progress
                        ||| (records@[j].progress == records@[b as int].progress && records@[j].approved_at
                            > records@[b as int].approved_at)
                        ||| (records@[j].progress == records@[b as int].progress && records@[j].approved_at
                            == records@[b as int].approved_at && j >= b)
                    },
                None => forall|j: int| 0 <= j < i ==> !is_candidate(#[trigger] records@[j], player, demon),
            },
        decreases records@.len() - i,
    {
        let r = &records[i];
        if r.status == RecordStatus::Approved && r.player == player && r.demon == demon {
            match best {
                Some(b) => {
                    let cur = &records[b];
                    if r.progress > cur.progress || (r.progress == cur.progress && r.approved_at < cur.approved_at) {
                        best = Some(i);
                    }
                },
                None => {
                    best = Some(i);
                },
            }
        }
        i = i + 1;
    }
    best
}

proof fn lemma_best_progress_bounds(records: Seq<Record>, player: u64, demon: u64)
    requires
        records_ok(records),
    ensures
        -1 <= best_progress(records, player, demon) <= 100,
    decreases records.len(),
{
    if records.len() > 0 {
        let rest = records.drop_last();
        assert forall|i: int| 0 <= i < rest.len() implies (#[trigger] rest[i]).progress <= 100 by {
            assert(rest[i] == records[i]);
        }
        lemma_best_progress_bounds(rest, player, demon);
        assert(records.last() == records[records.len() - 1]);
    }
}

proof fn lemma_contribution_bounds(cfg: &ScoreConfig, store: &RankStore, records: Seq<Record>, player: u64, i: int)
    requires
        cfg.wf(),
        store.wf(),
        records_ok(records),
        0 <= i < store.spec_list().len(),
    ensures
        0 <= contribution(cfg, store, records, player, i) <= MAX_REFERENCE_SCORE,
{
    lemma_store_facts(store);
    let id = store.spec_list()[i];
    lemma_best_progress_bounds(records, player, id);
    let best = best_progress(records, player, id);
    if best >= 0 {
        lemma_score_bounds(cfg, i + 1, store.spec_demons()[id as int].requirement as int, best);
    }
}

proof fn lemma_total_nonnegative(cfg: &ScoreConfig, store: &RankStore, records: Seq<Record>, player: u64, k: int)
    requires
        cfg.wf(),
        store.wf(),
        records_ok(records),
        k <= store.spec_list().len(),
    ensures
        total_upto(cfg, store, records, player, k) >= 0,
    decreases k,
{
    if k > 0 {
        lemma_total_nonnegative(cfg, store, records, player, k - 1);
        lemma_contribution_bounds(cfg, store, records, player, k - 1);
    }
}

/// A player's total, saturating at `u64::MAX`.
pub fn player_total(store: &RankStore, cfg: &ScoreConfig, records: &Vec<Record>, player: u64) -> (r: u64)
    requires
        store.wf(),
        cfg.wf(),
        records_ok(records@),
    ensures
        r == saturate(player_total_of(cfg, store, records@, player)),
{
    let n = store.len();
    let mut acc: u64 = 0;
    let mut i: usize = 0;
    while i < n
        invariant
            store.wf(),
            cfg.wf(),
            records_ok(records@),
            n == store.spec_list().len(),
            i <= n,
            acc == saturate(total_upto(cfg, store, records@, player, i as int)),
        decreases n - i,
    {
        let demon = match store.by_position(i as u64 + 1) {
            Ok(d) => d,
            Err(_) => {
                return 0;
            },
        };
        proof {
            lemma_total_nonnegative(cfg, store, records@, player, i as int);
            lemma_contribution_bounds(cfg, store, records@, player, i as int);
            lemma_best_progress_bounds(records@, player, demon.id);
        }
        let earned: u64 = match best_progress_of(records, player, demon.id) {
            Some(p) => cfg.score(i as u64 + 1, demon.requirement, p),
            None => 0,
        };
        assert(earned == contribution(cfg, store, records@, player, i as int));
        if acc > u64::MAX - earned {
            acc = u64::MAX;
        } else {
            acc = acc + earned;
        }
        i = i + 1;
    }
    acc
}

proof fn lemma_nation_total_nonnegative(
    cfg: &ScoreConfig,
    store: &RankStore,
    records: Seq<Record>,
    players: Seq<Player>,
    nation: u64,
    k: int,
)
    requires
        cfg.wf(),
        store.wf(),
        records_ok(records),
    ensures
        nation_total_upto(cfg, store, records, players, nation, k) >= 0,
    decreases k,
{
    if k > 0 {
        lemma_nation_total_nonnegative(cfg, store, records, players, nation, k - 1);
        lemma_total_nonnegative(cfg, store, records, players[k - 1].id, store.spec_list().len() as int);
    }
}

/// The total of the nation `nation`: the sum of the totals of its players, saturating at
/// `u64::MAX`.
pub fn nation_total(
    store: &RankStore,
    cfg: &ScoreConfig,
    records: &Vec<Record>,
    players: &Vec<Player>,
    nation: u64,
) -> (r: u64)
    requires
        store.wf(),
        cfg.wf(),
        records_ok(records@),
    ensures
        r == saturate(nation_total_of(cfg, store, records@, players@, nation)),
{
    let mut acc: u64 = 0;
    let mut i: usize = 0;
    while i < players.len()
        invariant
            store.wf(),
            cfg.wf(),
            records_ok(records@),
            i <= players@.len(),
            acc == saturate(nation_total_upto(cfg, store, records@, players@, nation, i as int)),
        decreases players@.len() - i,
    {
        proof {
            lemma_nation_total_nonnegative(cfg, store, records@, players@, nation, i as int);
            lemma_total_nonnegative(cfg, store, records@, players@[i as int].id, store.spec_list().len() as int);
        }
        let p = &players[i];
        if p.nationality == Some(nation) {
            let t = player_total(store, cfg, records, p.id);
            if acc > u64::MAX - t {
                acc = u64::MAX;
            } else {
                acc = acc + t;
            }
        }
        i = i + 1;
    }
    acc
}

proof fn lemma_nation_size_bounds(players: Seq<Player>, nation: u64, k: int)
    requires
        0 <= k <= players.len(),
    ensures
        0 <= nation_size_upto(players, nation, k) <= k,
    decreases k,
{
    if k > 0 {
        lemma_nation_size_bounds(players, nation, k - 1);
    }
}

/// The average total of the players of `nation` (rounded down, over the saturated sum),
/// or 0 for a nation without players.
pub fn nation_average(
    store: &RankStore,
    cfg: &ScoreConfig,
    records: &Vec<Record>,
    players: &Vec<Player>,
    nation: u64,
) -> (r: u64)
    requires
        store.wf(),
        cfg.wf(),
        records_ok(records@),
    ensures
        ({
            let size = nation_size_upto(players@, nation, players@.len() as int);
            r == if size == 0 {
                0
            } else {
                saturate(nation_total_of(cfg, store, records@, players@, nation)) / size
            }
        }),
{
    let mut size: usize = 0;
    let mut i: usize = 0;
    while i < players.len()
        invariant
            i <= players@.len(),
            size == nation_size_upto(players@, nation, i as int),
        decreases players@.len() - i,
    {
        proof {
            lemma_nation_size_bounds(players@, nation, i as int);
        }
        if players[i].nationality == Some(nation) {
            size = size + 1;
        }
        i = i + 1;
    }
    if size == 0 {
        return 0;
    }
    let total = nation_total(store, cfg, records, players, nation);
    total / size as u64
}

} // verus!
