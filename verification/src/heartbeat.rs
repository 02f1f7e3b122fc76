//! The heartbeat cycle: on a fixed period the master writes one `Ping`
//! to every registered agent, then evicts in one pass every entry whose
//! write failed and every entry that has not answered for longer than
//! the staleness deadline.
//!
//! Marking is separated from removal so one tick can evict many agents
//! without mutating the table while it is being scanned.
use crate::registry::EntryView;
use crate::registry::contains_id;
use crate::registry::unique_ids;
use vstd::prelude::*;

verus! {

/// How often the master pings every registered agent, in milliseconds.
pub const HEARTBEAT_PERIOD_MS: u64 = 5000;

/// How long an agent may go without a heartbeat before it is evicted,
/// in milliseconds.
pub const STALE_TIMEOUT_MS: u64 = 10000;

/// Whether an entry has gone silent past the deadline: more than the
/// staleness timeout has elapsed since its last heartbeat.
pub open spec fn is_stale(e: EntryView, now: u64) -> bool {
    now - e.last_heartbeat > STALE_TIMEOUT_MS
}

/// The entries that survive one heartbeat tick, keeping their table
/// order: entry `i` of `s` stays exactly when its ping write succeeded
/// (`!f[i]`) and it is not stale.
pub open spec fn tick_result(s: Seq<EntryView>, f: Seq<bool>, now: u64) -> Seq<EntryView>
    decreases s.len(),
{
    if s.len() == 0 {
        Seq::empty()
    } else {
        let rest = tick_result(s.drop_first(), f.drop_first(), now);
        let failed = f.len() > 0 && f[0];
        if failed || is_stale(s[0], now) {
            rest
        } else {
            seq![s[0]] + rest
        }
    }
}

/// A tick never invents entries, and keeps identities unique.
pub proof fn lemma_tick_ids(s: Seq<EntryView>, f: Seq<bool>, now: u64)
    ensures
        forall|id: Seq<char>|
            contains_id(tick_result(s, f, now), id) ==> contains_id(s, id),
        unique_ids(s) ==> unique_ids(tick_result(s, f, now)),
    decreases s.len(),
{
    if s.len() > 0 {
        lemma_tick_ids(s.drop_first(), f.drop_first(), now);
        let rest = tick_result(s.drop_first(), f.drop_first(), now);
        let t = tick_result(s, f, now);
        assert forall|id: Seq<char>| contains_id(s.drop_first(), id) implies contains_id(
            s,
            id,
        ) by {
            let k = choose|k: int|
                0 <= k < s.drop_first().len() && s.drop_first()[k].id == id;
            assert(s[k + 1].id == id);
        }
        if unique_ids(s) {
            assert forall|i: int, j: int|
                0 <= i < j < s.drop_first().len() implies s.drop_first()[i].id
                != s.drop_first()[j].id by {
                assert(s[i + 1].id != s[j + 1].id);
            }
            let failed = f.len() > 0 && f[0];
            if !(failed || is_stale(s[0], now)) {
                if contains_id(rest, s[0].id) {
                    assert(contains_id(s.drop_first(), s[0].id));
                    let k = choose|k: int|
                        0 <= k < s.drop_first().len() && s.drop_first()[k].id == s[0].id;
                    assert(s[k + 1].id == s[0].id);
                    assert(false);
                }
                assert forall|i: int, j: int| 0 <= i < j < t.len() implies t[i].id
                    != t[j].id by {
                    if i == 0 {
                        assert(t[j] == rest[j - 1]);
                        assert(contains_id(rest, rest[j - 1].id));
                    } else {
                        assert(t[i] == rest[i - 1]);
                        assert(t[j] == rest[j - 1]);
                    }
                }
            }
        }
    }
}

/// Every entry marked by the tick — its ping write failed, or it went
/// stale — is gone from the table afterwards.
pub proof fn lemma_tick_evicts(s: Seq<EntryView>, f: Seq<bool>, now: u64, i: int)
    requires
        unique_ids(s),
        f.len() == s.len(),
        0 <= i < s.len(),
        f[i] || is_stale(s[i], now),
    ensures
        !contains_id(tick_result(s, f, now), s[i].id),
    decreases s.len(),
{
    let rest = tick_result(s.drop_first(), f.drop_first(), now);
    let t = tick_result(s, f, now);
    assert forall|a: int, b: int|
        0 <= a < b < s.drop_first().len() implies s.drop_first()[a].id != s.drop_first()[b].id by {
        assert(s[a + 1].id != s[b + 1].id);
    }
    if i == 0 {
        lemma_tick_ids(s.drop_first(), f.drop_first(), now);
        if contains_id(rest, s[0].id) {
            assert(contains_id(s.drop_first(), s[0].id));
            let k = choose|k: int|
                0 <= k < s.drop_first().len() && s.drop_first()[k].id == s[0].id;
            assert(s[k + 1].id == s[0].id);
            assert(false);
        }
    } else {
        assert(s.drop_first()[i - 1] == s[i]);
        assert(f.drop_first()[i - 1] == f[i]);
        lemma_tick_evicts(s.drop_first(), f.drop_first(), now, i - 1);
        let failed = f.len() > 0 && f[0];
        if !(failed || is_stale(s[0], now)) {
            if contains_id(t, s[i].id) {
                let k = choose|k: int| 0 <= k < t.len() && t[k].id == s[i].id;
                if k == 0 {
                    assert(s[0].id != s[i].id);
                    assert(false);
                } else {
                    assert(t[k] == rest[k - 1]);
                    assert(contains_id(rest, s[i].id));
                    assert(false);
                }
            }
        }
    }
}

/// Every entry the tick did not mark survives it unchanged.
pub proof fn lemma_tick_retains(s: Seq<EntryView>, f: Seq<bool>, now: u64, i: int)
    requires
        f.len() == s.len(),
        0 <= i < s.len(),
        !f[i],
        !is_stale(s[i], now),
    ensures
        contains_id(tick_result(s, f, now), s[i].id),
        exists|k: int|
            0 <= k < tick_result(s, f, now).len() && tick_result(s, f, now)[k] == s[i],
    decreases s.len(),
{
    let rest = tick_result(s.drop_first(), f.drop_first(), now);
    let t = tick_result(s, f, now);
    if i == 0 {
        assert(t[0] == s[0]);
    } else {
        assert(s.drop_first()[i - 1] == s[i]);
        assert(f.drop_first()[i - 1] == f[i]);
        lemma_tick_retains(s.drop_first(), f.drop_first(), now, i - 1);
        let k = choose|k: int| 0 <= k < rest.len() && rest[k] == s[i];
        let failed = f.len() > 0 && f[0];
        if failed || is_stale(s[0], now) {
            assert(t[k] == s[i]);
        } else {
            assert(t[k + 1] == s[i]);
        }
    }
}

/// An agent that has sent nothing for longer than the staleness deadline
/// — whatever its ping write did — is out of the registry after the next
/// heartbeat tick.
pub proof fn lemma_silent_agent_evicted(s: Seq<EntryView>, f: Seq<bool>, now: u64, i: int)
    requires
        unique_ids(s),
        f.len() == s.len(),
        0 <= i < s.len(),
        now - s[i].last_heartbeat > STALE_TIMEOUT_MS,
    ensures
        !contains_id(tick_result(s, f, now), s[i].id),
{
    lemma_tick_evicts(s, f, now, i);
}

} // verus!
