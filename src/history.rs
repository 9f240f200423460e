//! Position states over demon identities and the replay of the movement log over them.
//!
//! A state is a sequence indexed by demon identity; entry `d` is the position demon `d`
//! holds, or 0 when it is not on the list.
use vstd::prelude::*;

verus! {

/// One change of a demon's position: the position it held immediately before the
/// change (0 when it was not on the list) and when the change happened.
#[derive(Clone, Copy, Debug, PartialEq, Eq, Structural)]
pub struct DemonMovement {
    pub demon: u64,
    pub from_position: u64,
    pub at: i64,
}

/// Index of the last occurrence of `d` in `list`, or -1.
pub open spec fn index_of(list: Seq<u64>, d: u64) -> int
    decreases list.len(),
{
    if list.len() == 0 {
        -1
    } else if list.last() == d {
        list.len() - 1
    } else {
        index_of(list.drop_last(), d)
    }
}

/// The state in which the demons of `list` hold positions 1, 2, ... in list order, out of
/// `n` known demons.
pub open spec fn live_positions(list: Seq<u64>, n: nat) -> Seq<u64> {
    Seq::new(n, |d: int| (index_of(list, d as u64) + 1) as u64)
}

/// `order` lists the demons of `state` by position: position `i + 1` is held by
/// `order[i]`, and every demon with a nonzero position is listed at that position.
pub open spec fn is_ranking(state: Seq<u64>, order: Seq<u64>) -> bool {
    &&& forall|i: int| 0 <= i < order.len() ==> (#[trigger] order[i]) < state.len() && state[order[i] as int] == i + 1
    &&& forall|d: int| 0 <= d < state.len() ==> (#[trigger] state[d]) <= order.len()
        && (state[d] != 0 ==> order[state[d] - 1] == d)
}

/// Some demon holds position `p` in `state`.
pub open spec fn held(state: Seq<u64>, p: int) -> bool {
    exists|d: int| 0 <= d < state.len() && #[trigger] state[d] == p
}

/// Undoes one movement: its demon goes back to the position it came from.
pub open spec fn undo(state: Seq<u64>, m: DemonMovement) -> Seq<u64> {
    if m.demon < state.len() {
        state.update(m.demon as int, m.from_position)
    } else {
        state
    }
}

/// Undoes, newest first, the movements of `log` that happened after `t`.
pub open spec fn rewind(state: Seq<u64>, log: Seq<DemonMovement>, t: i64) -> Seq<u64>
    decreases log.len(),
{
    if log.len() == 0 || log.last().at <= t {
        state
    } else {
        rewind(undo(state, log.last()), log.drop_last(), t)
    }
}

/// Number of leading movements of `log` that `rewind` keeps for time `t`.
pub open spec fn kept(log: Seq<DemonMovement>, t: i64) -> nat
    decreases log.len(),
{
    if log.len() == 0 || log.last().at <= t {
        log.len()
    } else {
        kept(log.drop_last(), t)
    }
}

/// The position demon `d` takes when a movement at or before index `i` is replayed
/// forward: the position recorded by its next movement from index `i` on, or its position
/// in `now` when it has none.
pub open spec fn next_from(log: Seq<DemonMovement>, i: int, d: u64, now: Seq<u64>) -> u64
    decreases log.len() - i,
{
    if i < 0 || i >= log.len() {
        now[d as int]
    } else if log[i].demon == d {
        log[i].from_position
    } else {
        next_from(log, i + 1, d, now)
    }
}

/// Whether demon `d` has a movement at index `i` or later.
pub open spec fn moved_from(log: Seq<DemonMovement>, i: int, d: u64) -> bool
    decreases log.len() - i,
{
    if i < 0 || i >= log.len() {
        false
    } else if log[i].demon == d {
        true
    } else {
        moved_from(log, i + 1, d)
    }
}

/// Replays the movements of `log` from index `i` on, oldest first, each setting its
/// demon to the position it holds next.
pub open spec fn replay(state: Seq<u64>, log: Seq<DemonMovement>, i: int, now: Seq<u64>) -> Seq<u64>
    decreases log.len() - i,
{
    if i < 0 || i >= log.len() {
        state
    } else {
        let m = log[i];
        replay(undo(state, DemonMovement { demon: m.demon, from_position: next_from(log, i + 1, m.demon, now), at: m.at }), log, i + 1, now)
    }
}

/// Every movement of `log` names a demon of a state of length `n`.
pub open spec fn log_in_range(log: Seq<DemonMovement>, n: nat) -> bool {
    forall|k: int| 0 <= k < log.len() ==> (#[trigger] log[k]).demon < n
}

pub proof fn lemma_index_of(list: Seq<u64>, d: u64)
    ensures
        -1 <= index_of(list, d) < list.len(),
        index_of(list, d) >= 0 ==> list[index_of(list, d)] == d,
        index_of(list, d) == -1 ==> forall|i: int| 0 <= i < list.len() ==> list[i] != d,
    decreases list.len(),
{
    if list.len() > 0 && list.last() != d {
        lemma_index_of(list.drop_last(), d);
        if index_of(list, d) == -1 {
            assert forall|i: int| 0 <= i < list.len() implies list[i] != d by {
                if i < list.len() - 1 {
                    assert(list.drop_last()[i] == list[i]);
                }
            }
        }
    }
}

pub proof fn lemma_index_of_distinct(list: Seq<u64>, i: int)
    requires
        list.no_duplicates(),
        0 <= i < list.len(),
    ensures
        index_of(list, list[i]) == i,
    decreases list.len(),
{
    if i < list.len() - 1 {
        assert(list.last() != list[i]);
        assert(list.drop_last()[i] == list[i]);
        lemma_index_of_distinct(list.drop_last(), i);
    }
}

/// A list without duplicates ranks its own live state.
pub proof fn lemma_live_is_ranking(list: Seq<u64>, n: nat)
    requires
        list.no_duplicates(),
        forall|i: int| 0 <= i < list.len() ==> (#[trigger] list[i]) < n,
        list.len() <= u64::MAX,
        n <= u64::MAX,
    ensures
        is_ranking(live_positions(list, n), list),
{
    let st = live_positions(list, n);
    assert forall|i: int| 0 <= i < list.len() implies (#[trigger] list[i]) < st.len() && st[list[i] as int] == i + 1 by {
        lemma_index_of_distinct(list, i);
    }
    assert forall|d: int| 0 <= d < st.len() implies (#[trigger] st[d]) <= list.len() && (st[d] != 0 ==> list[st[d] - 1] == d) by {
        lemma_index_of(list, d as u64);
    }
}

/// A ranking lists each demon at most once, so it is no longer than the state.
pub proof fn lemma_ranking_len(state: Seq<u64>, order: Seq<u64>)
    requires
        is_ranking(state, order),
    ensures
        order.len() <= state.len(),
{
    let s = order.map_values(|x: u64| x as int);
    assert forall|a: int, b: int| 0 <= a < s.len() && 0 <= b < s.len() && a != b implies s[a] != s[b] by {
        assert(state[order[a] as int] == a + 1);
        assert(state[order[b] as int] == b + 1);
    }
    s.unique_seq_to_set();
    let range = vstd::set_lib::set_int_range(0, state.len() as int);
    vstd::set_lib::lemma_int_range(0, state.len() as int);
    assert forall|x: int| s.to_set().contains(x) implies range.contains(x) by {
        let i = choose|i: int| 0 <= i < s.len() && s[i] == x;
        assert(order[i] < state.len());
    }
    vstd::set_lib::lemma_len_subset(s.to_set(), range);
}

/// A state has at most one ranking.
pub proof fn lemma_ranking_unique(state: Seq<u64>, a: Seq<u64>, b: Seq<u64>)
    requires
        is_ranking(state, a),
        is_ranking(state, b),
    ensures
        a == b,
{
    if a.len() > 0 {
        assert(state[a[a.len() - 1] as int] == a.len());
    }
    if b.len() > 0 {
        assert(state[b[b.len() - 1] as int] == b.len());
    }
    assert(a.len() == b.len());
    assert forall|i: int| 0 <= i < a.len() implies a[i] == b[i] by {
        assert(state[a[i] as int] == i + 1);
    }
    assert(a =~= b);
}

proof fn lemma_next_from_drop_last(log: Seq<DemonMovement>, i: int, d: u64, state: Seq<u64>)
    requires
        log.len() > 0,
        0 <= i < log.len(),
        log.last().demon < state.len(),
        d < state.len(),
    ensures
        next_from(log.drop_last(), i, d, undo(state, log.last())) == next_from(log, i, d, state),
    decreases log.len() - i,
{
    if i < log.len() - 1 {
        assert(log.drop_last()[i] == log[i]);
        if log[i].demon != d {
            lemma_next_from_drop_last(log, i + 1, d, state);
        }
    } else {
        assert(next_from(log, i + 1, d, state) == state[d as int]);
    }
}

pub proof fn lemma_rewind_pointwise(state: Seq<u64>, log: Seq<DemonMovement>, t: i64, d: u64)
    requires
        log_in_range(log, state.len()),
        d < state.len(),
    ensures
        rewind(state, log, t).len() == state.len(),
        kept(log, t) <= log.len(),
        rewind(state, log, t)[d as int] == next_from(log, kept(log, t) as int, d, state),
    decreases log.len(),
{
    if log.len() == 0 || log.last().at <= t {
    } else {
        let s2 = undo(state, log.last());
        let l2 = log.drop_last();
        assert(log.last() == log[log.len() - 1]);
        assert forall|k: int| 0 <= k < l2.len() implies (#[trigger] l2[k]).demon < s2.len() by {
            assert(l2[k] == log[k]);
        }
        lemma_rewind_pointwise(s2, l2, t, d);
        lemma_next_from_drop_last(log, kept(l2, t) as int, d, state);
    }
}

/// Skipping movements of other demons does not change where `d` goes next.
pub proof fn lemma_next_from_skip(log: Seq<DemonMovement>, i: int, j: int, d: u64, now: Seq<u64>)
    requires
        0 <= i <= j <= log.len(),
        forall|k: int| i <= k < j ==> (#[trigger] log[k]).demon != d,
    ensures
        next_from(log, i, d, now) == next_from(log, j, d, now),
    decreases j - i,
{
    if i < j {
        lemma_next_from_skip(log, i + 1, j, d, now);
    }
}

/// A log whose entries are dated at or before `t`, followed by a batch dated after `t`:
/// rewinding to `t` keeps exactly the first part.
pub proof fn lemma_kept_append(log: Seq<DemonMovement>, batch: Seq<DemonMovement>, t: i64)
    requires
        forall|k: int| 0 <= k < log.len() ==> (#[trigger] log[k]).at <= t,
        forall|k: int| 0 <= k < batch.len() ==> (#[trigger] batch[k]).at > t,
    ensures
        kept(log + batch, t) == log.len(),
    decreases batch.len(),
{
    if batch.len() == 0 {
        assert(log + batch =~= log);
        if log.len() > 0 {
            assert(log.last() == log[log.len() - 1]);
        }
    } else {
        let b2 = batch.drop_last();
        assert((log + batch).drop_last() =~= log + b2);
        assert((log + batch).last() == batch[batch.len() - 1]);
        assert forall|k: int| 0 <= k < b2.len() implies (#[trigger] b2[k]).at > t by {
            assert(b2[k] == batch[k]);
        }
        lemma_kept_append(log, b2, t);
    }
}

pub proof fn lemma_rewind_len(state: Seq<u64>, log: Seq<DemonMovement>, t: i64)
    ensures
        rewind(state, log, t).len() == state.len(),
        kept(log, t) <= log.len(),
    decreases log.len(),
{
    if log.len() > 0 && log.last().at > t {
        lemma_rewind_len(undo(state, log.last()), log.drop_last(), t);
    }
}

proof fn lemma_replay_len(state: Seq<u64>, log: Seq<DemonMovement>, i: int, now: Seq<u64>)
    ensures
        replay(state, log, i, now).len() == state.len(),
    decreases log.len() - i,
{
    if 0 <= i < log.len() {
        let m = log[i];
        lemma_replay_len(undo(state, DemonMovement { demon: m.demon, from_position: next_from(log, i + 1, m.demon, now), at: m.at }), log, i + 1, now);
    }
}

proof fn lemma_next_from_unmoved(log: Seq<DemonMovement>, i: int, d: u64, now: Seq<u64>)
    requires
        0 <= i,
        !moved_from(log, i, d),
    ensures
        next_from(log, i, d, now) == now[d as int],
    decreases log.len() - i,
{
    if i < log.len() {
        lemma_next_from_unmoved(log, i + 1, d, now);
    }
}

proof fn lemma_replay_pointwise(state: Seq<u64>, log: Seq<DemonMovement>, i: int, now: Seq<u64>, d: u64)
    requires
        log_in_range(log, state.len()),
        0 <= i,
        d < state.len(),
    ensures
        replay(state, log, i, now).len() == state.len(),
        replay(state, log, i, now)[d as int] == if moved_from(log, i, d) {
            now[d as int]
        } else {
            state[d as int]
        },
    decreases log.len() - i,
{
    if i < log.len() {
        let m = log[i];
        let s2 = undo(state, DemonMovement { demon: m.demon, from_position: next_from(log, i + 1, m.demon, now), at: m.at });
        lemma_replay_pointwise(s2, log, i + 1, now, d);
        if m.demon == d && !moved_from(log, i + 1, d) {
            lemma_next_from_unmoved(log, i + 1, d, now);
        }
    }
}

/// Rewinding the log from `now` back to any time `t` and then replaying forward the
/// movements that were undone gives back `now` exactly.
pub proof fn lemma_rewind_then_replay(now: Seq<u64>, log: Seq<DemonMovement>, t: i64)
    requires
        log_in_range(log, now.len()),
        now.len() <= u64::MAX,
    ensures
        replay(rewind(now, log, t), log, kept(log, t) as int, now) == now,
{
    let back = rewind(now, log, t);
    let k = kept(log, t) as int;
    lemma_rewind_len(now, log, t);
    let fwd = replay(back, log, k, now);
    assert forall|d: int| 0 <= d < now.len() implies fwd[d] == now[d] by {
        lemma_rewind_pointwise(now, log, t, d as u64);
        lemma_replay_pointwise(back, log, k, now, d as u64);
        if !moved_from(log, k, d as u64) {
            lemma_next_from_unmoved(log, k, d as u64, now);
        }
    }
    lemma_replay_len(back, log, k, now);
    assert(fwd =~= now);
}

/// When no movement of the log is later than `t`, rewinding to `t` changes nothing.
pub proof fn lemma_rewind_to_present(state: Seq<u64>, log: Seq<DemonMovement>, t: i64)
    requires
        forall|k: int| 0 <= k < log.len() ==> (#[trigger] log[k]).at <= t,
    ensures
        rewind(state, log, t) == state,
        kept(log, t) == log.len(),
{
}

} // verus!
