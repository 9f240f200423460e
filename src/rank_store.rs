//! The Rank Store: the ordered list of active demons, every demon ever added, and the
//! append-only movement log written together with each reordering.
use vstd::prelude::*;
use crate::history::{
    held, index_of, is_ranking, kept, lemma_ranking_len, lemma_ranking_unique, lemma_rewind_then_replay,
    lemma_rewind_to_present, replay, rewind, undo, lemma_rewind_pointwise, lemma_next_from_skip,
    lemma_kept_append, lemma_rewind_len, lemma_index_of, lemma_index_of_distinct, lemma_live_is_ranking,
    live_positions, log_in_range, DemonMovement,
};

verus! {

/// A demon as the list knows it; its position is held by the store.
#[derive(Debug)]
pub struct Demon {
    pub id: u64,
    pub name: String,
    /// Minimum progress (percent) that counts as a qualifying completion.
    pub requirement: u64,
    pub video: Option<String>,
    pub publisher: u64,
    pub verifier: u64,
}

/// The attributes of a demon about to be added to the list.
#[derive(Debug)]
pub struct NewDemon {
    pub name: String,
    pub requirement: u64,
    pub video: Option<String>,
    pub publisher: u64,
    pub verifier: u64,
}

/// Errors of the ranking core.
#[derive(Clone, Copy, Debug, PartialEq, Eq, Structural)]
pub enum ListError {
    /// A target position lies outside the list.
    InvalidPosition,
    /// No such demon, or no active demon with that identity.
    NotFound,
    /// A mutation is dated before the latest logged movement.
    StaleTimestamp,
    /// Replaying the log does not yield a list without gaps or duplicates.
    InconsistentHistory,
}

pub open spec fn demon_from(id: u64, d: NewDemon) -> Demon {
    Demon {
        id,
        name: d.name,
        requirement: d.requirement,
        video: d.video,
        publisher: d.publisher,
        verifier: d.verifier,
    }
}

/// A mutation at time `at` would be dated before the newest movement of `log`.
pub open spec fn is_stale(log: Seq<DemonMovement>, at: i64) -> bool {
    log.len() > 0 && at < log.last().at
}

/// Movements dated `at` for the demons `list[lo..hi]`, the first coming from position
/// `base`, the next from `base + 1`, and so on.
pub open spec fn run(list: Seq<u64>, lo: int, hi: int, base: int, at: i64) -> Seq<DemonMovement> {
    Seq::new((hi - lo) as nat, |j: int| DemonMovement { demon: list[lo + j], from_position: (base + j) as u64, at })
}

/// The movements of inserting `id` at `position` into `list`: the new demon comes from
/// nowhere (position 0), and every demon at `position` or below moves down by one.
pub open spec fn insert_batch(list: Seq<u64>, position: int, id: u64, at: i64) -> Seq<DemonMovement> {
    seq![DemonMovement { demon: id, from_position: 0, at }] + run(list, position - 1, list.len() as int, position, at)
}

/// The movements of removing the demon at `position` from `list`: it leaves its position
/// and every demon below it moves up by one.
pub open spec fn remove_batch(list: Seq<u64>, position: int, at: i64) -> Seq<DemonMovement> {
    seq![DemonMovement { demon: list[position - 1], from_position: position as u64, at }] + run(
        list,
        position,
        list.len() as int,
        position + 1,
        at,
    )
}

/// The movements of moving the demon at `from` to `to` in `list`: the demon itself, then
/// each demon that shifts by one toward `from`. Nothing moves when `from == to`.
pub open spec fn move_batch(list: Seq<u64>, from: int, to: int, at: i64) -> Seq<DemonMovement> {
    if from == to {
        Seq::empty()
    } else if from < to {
        seq![DemonMovement { demon: list[from - 1], from_position: from as u64, at }] + run(list, from, to, from + 1, at)
    } else {
        seq![DemonMovement { demon: list[from - 1], from_position: from as u64, at }] + run(list, to - 1, from - 1, to, at)
    }
}

/// A log sorted by time, followed by a batch dated no earlier than its newest entry, stays
/// sorted and names only known demons.
proof fn lemma_log_append(log: Seq<DemonMovement>, batch: Seq<DemonMovement>, at: i64, n: nat)
    requires
        forall|a: int, b: int| 0 <= a <= b < log.len() ==> (#[trigger] log[a]).at <= (#[trigger] log[b]).at,
        !is_stale(log, at),
        forall|k: int| 0 <= k < batch.len() ==> (#[trigger] batch[k]).at == at && batch[k].demon < n,
        log_in_range(log, n),
    ensures
        forall|a: int, b: int| 0 <= a <= b < (log + batch).len() ==> (#[trigger] (log + batch)[a]).at <= (#[trigger] (log + batch)[b]).at,
        log_in_range(log + batch, n),
{
    let all = log + batch;
    assert forall|a: int, b: int| 0 <= a <= b < all.len() implies (#[trigger] all[a]).at <= (#[trigger] all[b]).at by {
        if b >= log.len() {
            assert(all[b] == batch[b - log.len()]);
            if a < log.len() {
                assert(log[a].at <= log[log.len() - 1].at);
            } else {
                assert(all[a] == batch[a - log.len()]);
            }
        }
    }
    assert forall|k: int| 0 <= k < all.len() implies (#[trigger] all[k]).demon < n by {
        if k >= log.len() {
            assert(all[k] == batch[k - log.len()]);
        } else {
            assert(all[k] == log[k]);
        }
    }
}

/// Removing an entry keeps a list of known demons free of duplicates, and the removed
/// entry no longer occurs.
proof fn lemma_list_remove(list: Seq<u64>, i: int, n: nat)
    requires
        list.no_duplicates(),
        forall|k: int| 0 <= k < list.len() ==> (#[trigger] list[k]) < n,
        0 <= i < list.len(),
    ensures
        list.remove(i).no_duplicates(),
        forall|k: int| 0 <= k < list.remove(i).len() ==> (#[trigger] list.remove(i)[k]) < n && list.remove(i)[k] != list[i],
{
    list.remove_ensures(i);
    let r = list.remove(i);
    assert forall|k: int| 0 <= k < r.len() implies (#[trigger] r[k]) < n && r[k] != list[i] by {
        if k < i {
            assert(r[k] == list[k]);
        } else {
            assert(r[k] == list[k + 1]);
        }
    }
    assert forall|a: int, b: int| 0 <= a < r.len() && 0 <= b < r.len() && a != b implies r[a] != r[b] by {
        let a0 = if a < i { a } else { a + 1 };
        let b0 = if b < i { b } else { b + 1 };
        assert(r[a] == list[a0]);
        assert(r[b] == list[b0]);
    }
}

/// Inserting an entry that does not occur keeps a list of known demons free of duplicates.
proof fn lemma_list_insert(list: Seq<u64>, i: int, x: u64, n: nat)
    requires
        list.no_duplicates(),
        forall|k: int| 0 <= k < list.len() ==> (#[trigger] list[k]) < n && list[k] != x,
        x < n,
        0 <= i <= list.len(),
    ensures
        list.insert(i, x).no_duplicates(),
        forall|k: int| 0 <= k < list.insert(i, x).len() ==> (#[trigger] list.insert(i, x)[k]) < n,
{
    list.insert_ensures(i, x);
    let r = list.insert(i, x);
    assert forall|k: int| 0 <= k < r.len() implies (#[trigger] r[k]) < n by {
        if k < i {
            assert(r[k] == list[k]);
        } else if k > i {
            assert(r[k] == list[k - 1]);
        }
    }
    assert forall|a: int, b: int| 0 <= a < r.len() && 0 <= b < r.len() && a != b implies r[a] != r[b] by {
        if a != i && b != i {
            let a0 = if a < i { a } else { a - 1 };
            let b0 = if b < i { b } else { b - 1 };
            assert(r[a] == list[a0]);
            assert(r[b] == list[b0]);
        } else if a == i {
            let b0 = if b < i { b } else { b - 1 };
            assert(r[b] == list[b0]);
        } else {
            let a0 = if a < i { a } else { a - 1 };
            assert(r[a] == list[a0]);
        }
    }
}

/// A demon and the position it held at some past time.
#[derive(Clone, Copy, Debug, PartialEq, Eq, Structural)]
pub struct HistoricalPosition {
    pub demon: u64,
    pub position: u64,
}

/// The demons of a reconstructed list, in order.
pub open spec fn ids_of(v: Seq<HistoricalPosition>) -> Seq<u64> {
    v.map_values(|h: HistoricalPosition| h.demon)
}

/// The ordered list, the arena of every demon ever added (indexed by identity) and the
/// movement log.
pub struct RankStore {
    demons: Vec<Demon>,
    list: Vec<u64>,
    log: Vec<DemonMovement>,
}

impl RankStore {
    /// Every demon ever added, indexed by identity.
    pub closed spec fn spec_demons(&self) -> Seq<Demon> {
        self.demons@
    }

    /// Identities of the active demons, by position: position `i + 1` is held by entry `i`.
    pub closed spec fn spec_list(&self) -> Seq<u64> {
        self.list@
    }

    /// The movement log, oldest first.
    pub closed spec fn spec_log(&self) -> Seq<DemonMovement> {
        self.log@
    }

    /// The live position of every known demon (0 for one no longer on the list).
    pub open spec fn positions(&self) -> Seq<u64> {
        live_positions(self.spec_list(), self.spec_demons().len())
    }

    /// Well-formedness: each demon's identity is its index and its requirement a
    /// percentage; the list names known demons, each at most once; the log names known
    /// demons and is ordered by time.
    pub closed spec fn wf(&self) -> bool {
        &&& forall|d: int| 0 <= d < self.demons@.len() ==> (#[trigger] self.demons@[d]).id == d
            && self.demons@[d].requirement <= 100
        &&& forall|i: int| 0 <= i < self.list@.len() ==> (#[trigger] self.list@[i]) < self.demons@.len()
        &&& self.list@.no_duplicates()
        &&& self.demons@.len() <= u64::MAX
        &&& self.list@.len() <= u64::MAX
        &&& log_in_range(self.log@, self.demons@.len())
        &&& forall|a: int, b: int| 0 <= a <= b < self.log@.len() ==> (#[trigger] self.log@[a]).at <= (#[trigger] self.log@[b]).at
    }

    /// The store with no demons and an empty log.
    pub fn new() -> (r: RankStore)
        ensures
            r.wf(),
            r.spec_demons().len() == 0,
            r.spec_list().len() == 0,
            r.spec_log().len() == 0,
    {
        RankStore { demons: Vec::new(), list: Vec::new(), log: Vec::new() }
    }

    /// Number of active demons.
    pub fn len(&self) -> (r: usize)
        ensures
            r == self.spec_list().len(),
    {
        self.list.len()
    }

    /// The movement log, oldest first.
    pub fn movements(&self) -> (r: &Vec<DemonMovement>)
        ensures
            r@ == self.spec_log(),
    {
        &self.log
    }

    /// Identities of the active demons in list order.
    pub fn ranked_ids(&self) -> (r: &Vec<u64>)
        ensures
            r@ == self.spec_list(),
    {
        &self.list
    }

    /// The movements of demon `id`, oldest first.
    pub fn movements_of(&self, id: u64) -> (r: Vec<DemonMovement>)
        ensures
            r@ == self.spec_log().filter(|m: DemonMovement| m.demon == id),
    {
        let mut out: Vec<DemonMovement> = Vec::new();
        let mut i: usize = 0;
        while i < self.log.len()
            invariant
                i <= self.log@.len(),
                out@ == self.log@.subrange(0, i as int).filter(|m: DemonMovement| m.demon == id),
            decreases self.log@.len() - i,
        {
            let m = self.log[i];
            proof {
                let pre = self.log@.subrange(0, i as int);
                assert(self.log@.subrange(0, i + 1) =~= pre.push(m));
                pre.lemma_filter_push(m, |m: DemonMovement| m.demon == id);
            }
            if m.demon == id {
                out.push(m);
            }
            i = i + 1;
        }
        assert(self.log@.subrange(0, self.log@.len() as int) =~= self.log@);
        out
    }

    /// The demon at `position`.
    pub fn by_position(&self, position: u64) -> (r: Result<&Demon, ListError>)
        requires
            self.wf(),
        ensures
            match r {
                Ok(d) => {
                    &&& 1 <= position <= self.spec_list().len()
                    &&& *d == self.spec_demons()[self.spec_list()[position - 1] as int]
                    &&& d.id == self.spec_list()[position - 1]
                    &&& d.requirement <= 100
                },
                Err(e) => e == ListError::NotFound && (position < 1 || position > self.spec_list().len()),
            },
    {
        if position < 1 || position - 1 >= self.list.len() as u64 {
            return Err(ListError::NotFound);
        }
        let id = self.list[(position - 1) as usize];
        let n = self.demons.len();
        assert(id < n);
        Ok(&self.demons[id as usize])
    }

    /// The demon with identity `id`, whether or not it is still on the list.
    pub fn by_id(&self, id: u64) -> (r: Result<&Demon, ListError>)
        requires
            self.wf(),
        ensures
            match r {
                Ok(d) => id < self.spec_demons().len() && *d == self.spec_demons()[id as int],
                Err(e) => e == ListError::NotFound && id >= self.spec_demons().len(),
            },
    {
        if id >= self.demons.len() as u64 {
            return Err(ListError::NotFound);
        }
        let n = self.demons.len();
        assert(id < n);
        Ok(&self.demons[id as usize])
    }

    /// Appends to the log the movements `run(list, lo, hi, base, at)`.
    fn append_run(&mut self, lo: usize, hi: usize, base: u64, at: i64)
        requires
            lo <= hi <= old(self).list@.len(),
            base + (hi - lo) <= u64::MAX + 1,
        ensures
            final(self).list@ == old(self).list@,
            final(self).demons@ == old(self).demons@,
            final(self).log@ == old(self).log@ + run(old(self).list@, lo as int, hi as int, base as int, at),
    {
        let ghost log0 = self.log@;
        let mut j: usize = lo;
        while j < hi
            invariant
                lo <= j <= hi <= self.list@.len(),
                base + (hi - lo) <= u64::MAX + 1,
                self.list@ == old(self).list@,
                self.demons@ == old(self).demons@,
                self.log@ == log0 + run(self.list@, lo as int, j as int, base as int, at),
            decreases hi - j,
        {
            let m = DemonMovement { demon: self.list[j], from_position: base + (j - lo) as u64, at };
            self.log.push(m);
            assert(run(self.list@, lo as int, j as int, base as int, at).push(m) =~= run(self.list@, lo as int, j + 1, base as int, at));
            assert(self.log@ =~= log0 + run(self.list@, lo as int, j + 1, base as int, at));
            j = j + 1;
        }
    }

    /// Whether a mutation dated `at` would come before the newest logged movement.
    fn stale(&self, at: i64) -> (r: bool)
        ensures
            r == is_stale(self.log@, at),
    {
        let n = self.log.len();
        n > 0 && at < self.log[n - 1].at
    }

    /// Inserts a new demon at `at_position`, shifting every demon at that position or
    /// below down by one. Returns the new demon's identity.
    pub fn insert(&mut self, demon: NewDemon, at_position: u64, at: i64) -> (r: Result<u64, ListError>)
        requires
            old(self).wf(),
            demon.requirement <= 100,
        ensures
            final(self).wf(),
            match r {
                Ok(id) => {
                    &&& 1 <= at_position <= old(self).spec_list().len() + 1
                    &&& !is_stale(old(self).spec_log(), at)
                    &&& id == old(self).spec_demons().len()
                    &&& final(self).spec_demons() == old(self).spec_demons().push(demon_from(id, demon))
                    &&& final(self).spec_list() == old(self).spec_list().insert(at_position - 1, id)
                    &&& final(self).spec_log() == old(self).spec_log() + insert_batch(
                        old(self).spec_list(),
                        at_position as int,
                        id,
                        at,
                    )
                },
                Err(ListError::InvalidPosition) => {
                    &&& (at_position < 1 || at_position > old(self).spec_list().len() + 1)
                    &&& *final(self) == *old(self)
                },
                Err(ListError::StaleTimestamp) => {
                    &&& 1 <= at_position <= old(self).spec_list().len() + 1
                    &&& is_stale(old(self).spec_log(), at)
                    &&& *final(self) == *old(self)
                },
                Err(_) => false,
            },
    {
        let n = self.list.len();
        if at_position < 1 || at_position - 1 > n as u64 {
            return Err(ListError::InvalidPosition);
        }
        if self.stale(at) {
            return Err(ListError::StaleTimestamp);
        }
        let ghost list0 = self.list@;
        let ghost log0 = self.log@;
        let ghost demons0 = self.demons@;
        let id = self.demons.len() as u64;
        let first = DemonMovement { demon: id, from_position: 0, at };
        self.log.push(first);
        let idx = (at_position - 1) as usize;
        self.append_run(idx, n, at_position, at);
        self.list.insert(idx, id);
        self.demons.push(
            Demon {
                id,
                name: demon.name,
                requirement: demon.requirement,
                video: demon.video,
                publisher: demon.publisher,
                verifier: demon.verifier,
            },
        );
        // The grown vectors' lengths fit in usize, hence in u64; reading them tells Verus so.
        let arena_len = self.demons.len();
        let list_len = self.list.len();
        proof {
            assert(arena_len == self.demons@.len() && list_len == self.list@.len());
            let batch = insert_batch(list0, at_position as int, id, at);
            assert(log0.push(first) + run(list0, idx as int, n as int, at_position as int, at) =~= log0 + batch);
            assert forall|k: int| 0 <= k < batch.len() implies (#[trigger] batch[k]).at == at && batch[k].demon < self.demons@.len() by {
                if k > 0 {
                    assert(batch[k] == run(list0, idx as int, n as int, at_position as int, at)[k - 1]);
                }
            }
            lemma_log_append(log0, batch, at, self.demons@.len());
            assert forall|k: int| 0 <= k < list0.len() implies (#[trigger] list0[k]) < self.demons@.len() && list0[k] != id by {}
            lemma_list_insert(list0, idx as int, id, self.demons@.len());
            assert forall|d: int| 0 <= d < self.demons@.len() implies (#[trigger] self.demons@[d]).id == d
                && self.demons@[d].requirement <= 100 by {
                if d < demons0.len() {
                    assert(self.demons@[d] == demons0[d]);
                }
            }
        }
        Ok(id)
    }

    /// Removes the active demon `id` from the list, shifting every demon below it up by one.
    /// The demon stays known, so that history before its removal can be reconstructed.
    /// Returns the position it held.
    pub fn remove(&mut self, id: u64, at: i64) -> (r: Result<u64, ListError>)
        requires
            old(self).wf(),
        ensures
            final(self).wf(),
            match r {
                Ok(p) => {
                    &&& index_of(old(self).spec_list(), id) >= 0
                    &&& p == index_of(old(self).spec_list(), id) + 1
                    &&& !is_stale(old(self).spec_log(), at)
                    &&& final(self).spec_demons() == old(self).spec_demons()
                    &&& final(self).spec_list() == old(self).spec_list().remove(p - 1)
                    &&& final(self).spec_log() == old(self).spec_log() + remove_batch(old(self).spec_list(), p as int, at)
                },
                Err(ListError::NotFound) => {
                    &&& index_of(old(self).spec_list(), id) == -1
                    &&& *final(self) == *old(self)
                },
                Err(ListError::StaleTimestamp) => {
                    &&& index_of(old(self).spec_list(), id) >= 0
                    &&& is_stale(old(self).spec_log(), at)
                    &&& *final(self) == *old(self)
                },
                Err(_) => false,
            },
    {
        let i = match self.find(id) {
            Some(i) => i,
            None => {
                return Err(ListError::NotFound);
            },
        };
        if self.stale(at) {
            return Err(ListError::StaleTimestamp);
        }
        proof {
            lemma_index_of(self.list@, id);
        }
        let ghost list0 = self.list@;
        let ghost log0 = self.log@;
        let n = self.list.len();
        let p = i as u64 + 1;
        let first = DemonMovement { demon: id, from_position: p, at };
        self.log.push(first);
        if i + 1 < n {
            self.append_run(i + 1, n, p + 1, at);
        }
        self.list.remove(i);
        proof {
            let batch = remove_batch(list0, p as int, at);
            let tail = run(list0, i + 1, n as int, p + 1, at);
            if i + 1 >= n {
                assert(log0.push(first) + tail =~= log0.push(first));
            }
            assert(log0.push(first) + tail =~= log0 + batch);
            assert forall|k: int| 0 <= k < batch.len() implies (#[trigger] batch[k]).at == at && batch[k].demon < self.demons@.len() by {
                if k > 0 {
                    assert(batch[k] == tail[k - 1]);
                }
            }
            lemma_log_append(log0, batch, at, self.demons@.len());
            lemma_list_remove(list0, i as int, self.demons@.len());
        }
        Ok(p)
    }

    /// Moves the active demon `id` to position `to`, shifting every demon between its old
    /// and new position by one toward the old one. Returns the position it held.
    pub fn move_to(&mut self, id: u64, to: u64, at: i64) -> (r: Result<u64, ListError>)
        requires
            old(self).wf(),
        ensures
            final(self).wf(),
            match r {
                Ok(p) => {
                    &&& index_of(old(self).spec_list(), id) >= 0
                    &&& p == index_of(old(self).spec_list(), id) + 1
                    &&& 1 <= to <= old(self).spec_list().len()
                    &&& !is_stale(old(self).spec_log(), at)
                    &&& final(self).spec_demons() == old(self).spec_demons()
                    &&& final(self).spec_list() == old(self).spec_list().remove(p - 1).insert(to - 1, id)
                    &&& final(self).spec_log() == old(self).spec_log() + move_batch(
                        old(self).spec_list(),
                        p as int,
                        to as int,
                        at,
                    )
                },
                Err(ListError::NotFound) => {
                    &&& index_of(old(self).spec_list(), id) == -1
                    &&& *final(self) == *old(self)
                },
                Err(ListError::InvalidPosition) => {
                    &&& index_of(old(self).spec_list(), id) >= 0
                    &&& (to < 1 || to > old(self).spec_list().len())
                    &&& *final(self) == *old(self)
                },
                Err(ListError::StaleTimestamp) => {
                    &&& index_of(old(self).spec_list(), id) >= 0
                    &&& 1 <= to <= old(self).spec_list().len()
                    &&& is_stale(old(self).spec_log(), at)
                    &&& *final(self) == *old(self)
                },
                Err(_) => false,
            },
    {
        let i = match self.find(id) {
            Some(i) => i,
            None => {
                return Err(ListError::NotFound);
            },
        };
        let n = self.list.len();
        if to < 1 || to > n as u64 {
            return Err(ListError::InvalidPosition);
        }
        if self.stale(at) {
            return Err(ListError::StaleTimestamp);
        }
        proof {
            lemma_index_of(self.list@, id);
        }
        let ghost list0 = self.list@;
        let ghost log0 = self.log@;
        let p = i as u64 + 1;
        if p == to {
            proof {
                list0.remove_ensures(i as int);
                list0.insert_ensures(i as int, id);
                list0.remove(i as int).insert_ensures(i as int, id);
                assert(list0.remove(i as int).insert(i as int, id) =~= list0);
                assert(log0 + move_batch(list0, p as int, to as int, at) =~= log0);
            }
            return Ok(p);
        }
        let t = (to - 1) as usize;
        let first = DemonMovement { demon: id, from_position: p, at };
        self.log.push(first);
        if p < to {
            self.append_run(i + 1, t + 1, p + 1, at);
        } else {
            self.append_run(t, i, to, at);
        }
        self.list.remove(i);
        self.list.insert(t, id);
        proof {
            let batch = move_batch(list0, p as int, to as int, at);
            let tail = if p < to {
                run(list0, i + 1, t + 1, p + 1, at)
            } else {
                run(list0, t as int, i as int, to as int, at)
            };
            assert(log0.push(first) + tail =~= log0 + batch);
            assert forall|k: int| 0 <= k < batch.len() implies (#[trigger] batch[k]).at == at && batch[k].demon < self.demons@.len() by {
                if k > 0 {
                    assert(batch[k] == tail[k - 1]);
                }
            }
            lemma_log_append(log0, batch, at, self.demons@.len());
            lemma_list_remove(list0, i as int, self.demons@.len());
            lemma_list_insert(list0.remove(i as int), t as int, id, self.demons@.len());
        }
        Ok(p)
    }

    /// The position every known demon held at time `t`: the live positions with every
    /// movement after `t` undone, newest first.
    pub open spec fn positions_at(&self, t: i64) -> Seq<u64> {
        rewind(self.positions(), self.spec_log(), t)
    }

    /// The live positions, as a vector indexed by identity.
    fn live_state(&self) -> (r: Vec<u64>)
        requires
            self.wf(),
        ensures
            r@ == self.positions(),
    {
        let n = self.demons.len();
        let mut cur: Vec<u64> = Vec::new();
        let mut d: usize = 0;
        while d < n
            invariant
                n == self.demons@.len(),
                d <= n,
                cur@.len() == d,
                forall|e: int| 0 <= e < d ==> cur@[e] == 0,
            decreases n - d,
        {
            cur.push(0);
            d = d + 1;
        }
        let mut i: usize = 0;
        while i < self.list.len()
            invariant
                self.wf(),
                n == self.demons@.len(),
                i <= self.list@.len(),
                cur@ == live_positions(self.list@.subrange(0, i as int), n as nat),
            decreases self.list@.len() - i,
        {
            let id = self.list[i];
            proof {
                let pre = self.list@.subrange(0, i as int);
                let post = self.list@.subrange(0, i + 1);
                assert(post.drop_last() =~= pre);
                assert(post.last() == id);
            }
            cur.set(id as usize, i as u64 + 1);
            assert(cur@ =~= live_positions(self.list@.subrange(0, i + 1), n as nat));
            i = i + 1;
        }
        assert(self.list@.subrange(0, self.list@.len() as int) =~= self.list@);
        cur
    }

    /// The list as it stood at time `t`: every demon that was on the list then, with the
    /// position it held, in order of position. Fails with `InconsistentHistory` when
    /// undoing the movements after `t` does not give a list without gaps or duplicates.
    pub fn reconstruct(&self, t: i64) -> (r: Result<Vec<HistoricalPosition>, ListError>)
        requires
            self.wf(),
        ensures
            match r {
                Ok(v) => {
                    &&& is_ranking(self.positions_at(t), ids_of(v@))
                    &&& forall|i: int| 0 <= i < v@.len() ==> (#[trigger] v@[i]).position == i + 1
                },
                Err(e) => {
                    &&& e == ListError::InconsistentHistory
                    &&& !exists|o: Seq<u64>| is_ranking(self.positions_at(t), o)
                },
            },
    {
        let n = self.demons.len();
        let mut cur = self.live_state();
        let mut k: usize = self.log.len();
        assert(self.log@.subrange(0, k as int) =~= self.log@);
        while k > 0 && self.log[k - 1].at > t
            invariant
                self.wf(),
                n == self.demons@.len(),
                cur@.len() == n,
                k <= self.log@.len(),
                rewind(cur@, self.log@.subrange(0, k as int), t) == self.positions_at(t),
            decreases k,
        {
            let m = self.log[k - 1];
            proof {
                let pre = self.log@.subrange(0, k as int);
                assert(pre.drop_last() =~= self.log@.subrange(0, k - 1));
                assert(pre.last() == m);
                assert(m.demon < n);
            }
            let ghost before = cur@;
            cur.set(m.demon as usize, m.from_position);
            assert(cur@ == undo(before, m));
            k = k - 1;
        }
        proof {
            assert(rewind(cur@, self.log@.subrange(0, k as int), t) == cur@);
        }
        // cur@ is now the state at time t; place each demon at its position.
        let ghost st = cur@;
        let mut slots: Vec<Option<u64>> = Vec::new();
        let mut q: usize = 0;
        while q < n
            invariant
                q <= n,
                slots@.len() == q,
                forall|x: int| 0 <= x < q ==> slots@[x] is None,
            decreases n - q,
        {
            slots.push(None);
            q = q + 1;
        }
        let mut top: u64 = 0;
        let mut top_demon: usize = 0;
        let mut d: usize = 0;
        while d < n
            invariant
                st == self.positions_at(t),
                cur@ == st,
                st.len() == n,
                n <= u64::MAX,
                d <= n,
                slots@.len() == n,
                top <= n,
                top == 0 || (top_demon < d && st[top_demon as int] == top),
                forall|x: int| 0 <= x < n ==> match #[trigger] slots@[x] {
                    Some(e) => e < d && st[e as int] == x + 1,
                    None => true,
                },
                forall|e: int| 0 <= e < d ==> (#[trigger] st[e]) <= top && (st[e] != 0 ==> slots@[st[e] - 1] == Some(e as u64)),
            decreases n - d,
        {
            let p = cur[d];
            if p != 0 {
                if p > n as u64 {
                    proof {
                        assert forall|o: Seq<u64>| !is_ranking(st, o) by {
                            if is_ranking(st, o) {
                                lemma_ranking_len(st, o);
                                assert(st[d as int] <= o.len());
                            }
                        }
                    }
                    return Err(ListError::InconsistentHistory);
                }
                match slots[(p - 1) as usize] {
                    Some(e) => {
                        proof {
                            assert(st[e as int] == p);
                            assert forall|o: Seq<u64>| !is_ranking(st, o) by {
                                if is_ranking(st, o) {
                                    assert(o[p - 1] == d);
                                    assert(o[p - 1] == e);
                                }
                            }
                        }
                        return Err(ListError::InconsistentHistory);
                    },
                    None => {},
                }
                slots.set((p - 1) as usize, Some(d as u64));
                if p > top {
                    top = p;
                    top_demon = d;
                }
            }
            d = d + 1;
        }
        let mut out: Vec<HistoricalPosition> = Vec::new();
        let mut q: usize = 0;
        while q < top as usize
            invariant
                st == self.positions_at(t),
                st.len() == n,
                top <= n,
                top == 0 || (top_demon < n && st[top_demon as int] == top),
                slots@.len() == n,
                q <= top,
                forall|x: int| 0 <= x < n ==> match #[trigger] slots@[x] {
                    Some(e) => e < n && st[e as int] == x + 1,
                    None => true,
                },
                forall|e: int| 0 <= e < n ==> (#[trigger] st[e]) <= top && (st[e] != 0 ==> slots@[st[e] - 1] == Some(e as u64)),
                out@.len() == q,
                forall|i: int| 0 <= i < q ==> slots@[i] == Some((#[trigger] out@[i]).demon) && out@[i].position == i + 1,
            decreases top - q,
        {
            match slots[q] {
                Some(e) => {
                    out.push(HistoricalPosition { demon: e, position: q as u64 + 1 });
                },
                None => {
                    proof {
                        assert forall|o: Seq<u64>| !is_ranking(st, o) by {
                            if is_ranking(st, o) {
                                assert(st[top_demon as int] <= o.len());
                                let e = o[q as int];
                                assert(st[e as int] == q + 1);
                            }
                        }
                    }
                    return Err(ListError::InconsistentHistory);
                },
            }
            q = q + 1;
        }
        proof {
            let o = ids_of(out@);
            assert forall|i: int| 0 <= i < o.len() implies (#[trigger] o[i]) < st.len() && st[o[i] as int] == i + 1 by {
                assert(slots@[i] == Some(out@[i].demon));
            }
            assert forall|e: int| 0 <= e < st.len() implies (#[trigger] st[e]) <= o.len() && (st[e] != 0 ==> o[st[e] - 1] == e) by {
                if st[e] != 0 {
                    assert(slots@[st[e] - 1] == Some(e as u64));
                    assert(slots@[st[e] - 1] == Some(out@[st[e] - 1].demon));
                }
            }
        }
        Ok(out)
    }

    /// Index in the list of the active demon `id`, if it is on the list.
    fn find(&self, id: u64) -> (r: Option<usize>)
        requires
            self.wf(),
        ensures
            match r {
                Some(i) => i == index_of(self.spec_list(), id) && 0 <= i < self.spec_list().len(),
                None => index_of(self.spec_list(), id) == -1,
            },
    {
        let mut i: usize = 0;
        while i < self.list.len()
            invariant
                self.wf(),
                0 <= i <= self.list@.len(),
                forall|k: int| 0 <= k < i ==> self.list@[k] != id,
            decreases self.list@.len() - i,
        {
            if self.list[i] == id {
                proof {
                    lemma_index_of_distinct(self.list@, i as int);
                }
                return Some(i);
            }
            i = i + 1;
        }
        proof {
            lemma_index_of(self.list@, id);
        }
        None
    }

    /// Live position of the active demon `id`.
    pub fn position_of(&self, id: u64) -> (r: Result<u64, ListError>)
        requires
            self.wf(),
        ensures
            match r {
                Ok(p) => index_of(self.spec_list(), id) >= 0 && p == index_of(self.spec_list(), id) + 1,
                Err(e) => e == ListError::NotFound && index_of(self.spec_list(), id) == -1,
            },
    {
        match self.find(id) {
            Some(i) => Ok(i as u64 + 1),
            None => Err(ListError::NotFound),
        }
    }
}

/// The live positions of the active demons are exactly `1..=N`, each held by one demon,
/// in every well-formed store; every store that the mutations produce is well-formed.
pub proof fn lemma_positions_dense(store: &RankStore)
    requires
        store.wf(),
    ensures
        is_ranking(store.positions(), store.spec_list()),
        forall|p: int| 1 <= p ==> (p <= store.spec_list().len() <==> #[trigger] held(store.positions(), p)),
        forall|d1: int, d2: int|
            0 <= d1 < store.positions().len() && 0 <= d2 < store.positions().len() && d1 != d2
                && store.positions()[d1] != 0 ==> store.positions()[d1] != store.positions()[d2],
{
    let list = store.spec_list();
    let st = store.positions();
    lemma_live_is_ranking(list, store.spec_demons().len());
    assert forall|p: int| 1 <= p implies (p <= list.len() <==> #[trigger] held(st, p)) by {
        if 1 <= p <= list.len() {
            let d = list[p - 1] as int;
            assert(0 <= d < st.len() && st[d] == p);
            assert(held(st, p));
        }
        if held(st, p) {
            let d = choose|d: int| 0 <= d < st.len() && #[trigger] st[d] == p;
            assert(st[d] <= list.len());
        }
    }
}

/// The facts of well-formedness that callers of the store rely on: every listed demon is
/// known, and every known demon carries its own identity and a percentage requirement.
pub proof fn lemma_store_facts(store: &RankStore)
    requires
        store.wf(),
    ensures
        forall|i: int| 0 <= i < store.spec_list().len() ==> (#[trigger] store.spec_list()[i]) < store.spec_demons().len(),
        forall|d: int| 0 <= d < store.spec_demons().len() ==> (#[trigger] store.spec_demons()[d]).id == d
            && store.spec_demons()[d].requirement <= 100,
        store.spec_list().no_duplicates(),
{
}

/// Reconstructing the list at a time no earlier than every logged movement gives the live
/// list: the state is the live one, and the live order is its only ranking.
pub proof fn lemma_reconstruct_at_present(store: &RankStore, t: i64)
    requires
        store.wf(),
        forall|k: int| 0 <= k < store.spec_log().len() ==> (#[trigger] store.spec_log()[k]).at <= t,
    ensures
        store.positions_at(t) == store.positions(),
        is_ranking(store.positions_at(t), store.spec_list()),
        forall|o: Seq<u64>| is_ranking(store.positions_at(t), o) ==> o == store.spec_list(),
{
    lemma_rewind_to_present(store.positions(), store.spec_log(), t);
    lemma_live_is_ranking(store.spec_list(), store.spec_demons().len());
    assert forall|o: Seq<u64>| is_ranking(store.positions_at(t), o) implies o == store.spec_list() by {
        lemma_ranking_unique(store.positions_at(t), o, store.spec_list());
    }
}

/// Rewinding the store's log back to any time `t` and replaying forward the movements that
/// were undone gives back the live positions exactly.
pub proof fn lemma_history_round_trip(store: &RankStore, t: i64)
    requires
        store.wf(),
    ensures
        replay(store.positions_at(t), store.spec_log(), kept(store.spec_log(), t) as int, store.positions())
            == store.positions(),
{
    lemma_rewind_then_replay(store.positions(), store.spec_log(), t);
}

/// Index in `list` of the demon that entry `j` of a move batch from `from` to `to` names.
spec fn batch_index(from: int, to: int, j: int) -> int {
    if j == 0 {
        from - 1
    } else if from < to {
        from - 1 + j
    } else {
        to - 2 + j
    }
}

proof fn lemma_move_batch_entries(list: Seq<u64>, from: int, to: int, at: i64)
    requires
        1 <= from <= list.len(),
        1 <= to <= list.len(),
        from != to,
    ensures
        ({
            let b = move_batch(list, from, to, at);
            let lo = if from < to { from - 1 } else { to - 1 };
            let hi = if from < to { to - 1 } else { from - 1 };
            &&& b.len() == hi - lo + 1
            &&& forall|j: int| 0 <= j < b.len() ==> lo <= batch_index(from, to, j) <= hi
                && #[trigger] b[j] == DemonMovement {
                    demon: list[batch_index(from, to, j)],
                    from_position: (batch_index(from, to, j) + 1) as u64,
                    at,
                }
            &&& forall|j: int, k: int| 0 <= j < b.len() && 0 <= k < b.len() && j != k ==> batch_index(from, to, j)
                != batch_index(from, to, k)
            &&& forall|m: int| lo <= m <= hi ==> 0 <= #[trigger] inverse_index(from, to, m) < b.len()
                && batch_index(from, to, inverse_index(from, to, m)) == m
        }),
{
    let b = move_batch(list, from, to, at);
    if from < to {
        let r = run(list, from, to, from + 1, at);
        assert forall|j: int| 0 < j < b.len() implies b[j] == r[j - 1] by {}
    } else {
        let r = run(list, to - 1, from - 1, to, at);
        assert forall|j: int| 0 < j < b.len() implies b[j] == r[j - 1] by {}
    }
}

/// Entry of a move batch from `from` to `to` that names list index `m`.
spec fn inverse_index(from: int, to: int, m: int) -> int {
    if m == from - 1 {
        0
    } else if from < to {
        m - from + 1
    } else {
        m - to + 2
    }
}

/// Moving a demon does not change the past: reconstructing the list at any time `t` after
/// every earlier movement and before the move gives the positions, and so the order, from
/// before the move.
pub proof fn lemma_rewind_before_move(before: &RankStore, after: &RankStore, id: u64, from: int, to: int, at: i64, t: i64)
    requires
        before.wf(),
        after.wf(),
        index_of(before.spec_list(), id) >= 0,
        from == index_of(before.spec_list(), id) + 1,
        1 <= to <= before.spec_list().len(),
        after.spec_demons() == before.spec_demons(),
        after.spec_list() == before.spec_list().remove(from - 1).insert(to - 1, id),
        after.spec_log() == before.spec_log() + move_batch(before.spec_list(), from, to, at),
        forall|k: int| 0 <= k < before.spec_log().len() ==> (#[trigger] before.spec_log()[k]).at <= t,
        t < at,
    ensures
        after.positions_at(t) == before.positions(),
        is_ranking(after.positions_at(t), before.spec_list()),
        forall|o: Seq<u64>| is_ranking(after.positions_at(t), o) ==> o == before.spec_list(),
{
    lemma_reconstruct_at_present(before, t);
    let list0 = before.spec_list();
    let list1 = after.spec_list();
    let log0 = before.spec_log();
    let live0 = before.positions();
    let live1 = after.positions();
    let n = before.spec_demons().len();
    lemma_index_of(list0, id);
    lemma_rewind_to_present(live0, log0, t);
    list0.remove_ensures(from - 1);
    list0.remove(from - 1).insert_ensures(to - 1, id);
    if from == to {
        assert(list1 =~= list0);
        assert(log0 + move_batch(list0, from, to, at) =~= log0);
        return;
    }
    let b = move_batch(list0, from, to, at);
    let all = log0 + b;
    let lo = if from < to { from - 1 } else { to - 1 };
    let hi = if from < to { to - 1 } else { from - 1 };
    lemma_move_batch_entries(list0, from, to, at);
    assert forall|k: int| 0 <= k < b.len() implies (#[trigger] b[k]).at > t by {}
    lemma_kept_append(log0, b, t);
    let start = log0.len() as int;
    assert forall|k: int| 0 <= k < b.len() implies all[start + k] == #[trigger] b[k] by {}
    assert forall|d: int| 0 <= d < n implies #[trigger] after.positions_at(t)[d] == live0[d] by {
        lemma_rewind_pointwise(live1, all, t, d as u64);
        if exists|m: int| lo <= m <= hi && list0[m] == d {
            let m = choose|m: int| lo <= m <= hi && list0[m] == d;
            let j = inverse_index(from, to, m);
            assert(b[j].demon == d);
            assert forall|k: int| start <= k < start + j implies (#[trigger] all[k]).demon != d by {
                assert(all[k] == b[k - start]);
                assert(batch_index(from, to, k - start) != m);
            }
            lemma_next_from_skip(all, start, start + j, d as u64, live1);
            assert(all[start + j] == b[j]);
            lemma_index_of_distinct(list0, m);
        } else {
            assert forall|k: int| start <= k < all.len() implies (#[trigger] all[k]).demon != d by {
                assert(all[k] == b[k - start]);
                let bi = batch_index(from, to, k - start);
                assert(lo <= bi <= hi);
            }
            lemma_next_from_skip(all, start, all.len() as int, d as u64, live1);
            lemma_index_of(list0, d as u64);
            lemma_index_of(list1, d as u64);
            let i0 = index_of(list0, d as u64);
            let i1 = index_of(list1, d as u64);
            if i0 >= 0 {
                assert(list1[i0] == list0[i0]);
                lemma_index_of_distinct(list1, i0);
            } else if i1 >= 0 {
                if i1 < to - 1 {
                    if i1 < from - 1 {
                        assert(list1[i1] == list0[i1]);
                    } else {
                        assert(list1[i1] == list0[i1 + 1]);
                    }
                } else if i1 > to - 1 {
                    if i1 - 1 < from - 1 {
                        assert(list1[i1] == list0[i1 - 1]);
                    } else {
                        assert(list1[i1] == list0[i1]);
                    }
                } else {
                    assert(list1[i1] == list0[from - 1]);
                }
            }
        }
    }
    lemma_rewind_len(live1, all, t);
    assert(after.positions_at(t) =~= live0);
}

} // verus!
