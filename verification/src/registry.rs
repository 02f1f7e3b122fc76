//! The connection registry: the master's shared table of live agent
//! connections, keyed by a connection identity that is stable for one
//! session and never reused while that session is registered.
//!
//! The table's invariant: at most one entry per connection identity.
//! Callers guard the whole structure with one lock; every method here is
//! one atomic step of the table.
use crate::heartbeat::STALE_TIMEOUT_MS;
use crate::heartbeat::is_stale;
use crate::heartbeat::lemma_tick_ids;
use crate::heartbeat::tick_result;
use vstd::prelude::*;

verus! {

/// What the master knows about one live agent connection: when it last
/// proved it was alive, and the hostname it announced, unset until its
/// `Identify` arrives.
#[derive(Debug, Clone)]
pub struct AgentRecord {
    pub last_heartbeat: u64,
    pub hostname: Option<String>,
}

/// The mathematical value of one registry entry: the connection identity
/// and the record's fields, strings taken as character sequences.
pub struct EntryView {
    pub id: Seq<char>,
    pub last_heartbeat: u64,
    pub hostname: Option<Seq<char>>,
}

/// One registry entry: a connection identity and its record.
#[derive(Debug, Clone)]
pub struct Entry {
    pub id: String,
    pub record: AgentRecord,
}

impl AgentRecord {
    /// The record a freshly accepted connection starts with: alive as of
    /// now, hostname not yet announced.
    pub fn new(now: u64) -> (r: AgentRecord)
        ensures
            r.last_heartbeat == now,
            r.hostname is None,
    {
        AgentRecord { last_heartbeat: now, hostname: None }
    }

    /// The announced hostname as a character sequence, if any.
    pub open spec fn hostname_view(&self) -> Option<Seq<char>> {
        match self.hostname {
            Some(h) => Some(h@),
            None => None,
        }
    }
}

impl View for Entry {
    type V = EntryView;

    open spec fn view(&self) -> EntryView {
        EntryView {
            id: self.id@,
            last_heartbeat: self.record.last_heartbeat,
            hostname: self.record.hostname_view(),
        }
    }
}

/// Whether some entry carries the given connection identity.
pub open spec fn contains_id(s: Seq<EntryView>, id: Seq<char>) -> bool {
    exists|i: int| 0 <= i < s.len() && s[i].id == id
}

/// Whether no two entries share a connection identity.
pub open spec fn unique_ids(s: Seq<EntryView>) -> bool {
    forall|i: int, j: int| 0 <= i < j < s.len() ==> s[i].id != s[j].id
}

/// How a table changes when the entry with identity `id` has its
/// liveness stamp set to `now`: everything else is untouched, and a
/// missing identity changes nothing.
pub open spec fn refreshed_at(
    oldm: Seq<EntryView>,
    newm: Seq<EntryView>,
    id: Seq<char>,
    now: u64,
) -> bool {
    &&& newm.len() == oldm.len()
    &&& forall|i: int| 0 <= i < oldm.len() && oldm[i].id != id ==> newm[i] == oldm[i]
    &&& forall|i: int|
        0 <= i < oldm.len() && oldm[i].id == id ==> newm[i] == (EntryView {
            last_heartbeat: now,
            ..oldm[i]
        })
}

/// How a table changes when the entry with identity `id` is bound to an
/// announced hostname: the first announcement wins, everything else is
/// untouched, and a missing identity changes nothing.
pub open spec fn hostname_bound_at(
    oldm: Seq<EntryView>,
    newm: Seq<EntryView>,
    id: Seq<char>,
    h: Seq<char>,
) -> bool {
    &&& newm.len() == oldm.len()
    &&& forall|i: int| 0 <= i < oldm.len() && oldm[i].id != id ==> newm[i] == oldm[i]
    &&& forall|i: int|
        0 <= i < oldm.len() && oldm[i].id == id ==> newm[i] == (EntryView {
            hostname: match oldm[i].hostname {
                Some(prev) => Some(prev),
                None => Some(h),
            },
            ..oldm[i]
        })
}

/// The master's table of live agent connections.
#[derive(Debug)]
pub struct Registry {
    entries: Vec<Entry>,
}

impl View for Registry {
    type V = Seq<EntryView>;

    closed spec fn view(&self) -> Seq<EntryView> {
        self.entries@.map(|i: int, e: Entry| e@)
    }
}

/// A burst of accepts loses nothing and duplicates nothing: when each of
/// `adds` registers a distinct identity not yet live over `base`, the
/// table afterwards holds exactly one entry per accepted connection —
/// every identity of `base` and of `adds`, and nothing else — and its
/// identities are still unique. Each accept appends one entry under the
/// registry's lock, so the table after the burst is `base + adds`.
pub proof fn lemma_concurrent_accepts(base: Seq<EntryView>, adds: Seq<EntryView>)
    requires
        unique_ids(base),
        unique_ids(adds),
        forall|k: int| 0 <= k < adds.len() ==> !contains_id(base, adds[k].id),
    ensures
        (base + adds).len() == base.len() + adds.len(),
        unique_ids(base + adds),
        forall|k: int| 0 <= k < adds.len() ==> contains_id(base + adds, adds[k].id),
        forall|id: Seq<char>|
            contains_id(base + adds, id) <==> contains_id(base, id) || contains_id(adds, id),
{
    let all = base + adds;
    assert forall|i: int, j: int| 0 <= i < j < all.len() implies all[i].id != all[j].id by {
        if j < base.len() {
        } else if i >= base.len() {
            assert(all[i] == adds[i - base.len()]);
            assert(all[j] == adds[j - base.len()]);
        } else {
            assert(all[i] == base[i]);
            assert(all[j] == adds[j - base.len()]);
            if base[i].id == adds[j - base.len()].id {
                assert(contains_id(base, adds[j - base.len()].id));
                assert(false);
            }
        }
    }
    assert forall|k: int| 0 <= k < adds.len() implies contains_id(all, adds[k].id) by {
        assert(all[base.len() + k].id == adds[k].id);
    }
    assert forall|id: Seq<char>|
        contains_id(all, id) <==> contains_id(base, id) || contains_id(adds, id) by {
        if contains_id(all, id) {
            let i = choose|i: int| 0 <= i < all.len() && all[i].id == id;
            if i < base.len() {
                assert(base[i].id == id);
            } else {
                assert(adds[i - base.len()].id == id);
            }
        }
        if contains_id(base, id) {
            let i = choose|i: int| 0 <= i < base.len() && base[i].id == id;
            assert(all[i].id == id);
        }
        if contains_id(adds, id) {
            let k = choose|k: int| 0 <= k < adds.len() && adds[k].id == id;
            assert(all[base.len() + k].id == id);
        }
    }
}

fn entry_mut(v: &mut Vec<Entry>, i: usize) -> (e: &mut Entry)
    requires
        i < old(v).len(),
    ensures
        *e == old(v)@[i as int],
        final(v)@ == old(v)@.update(i as int, *final(e)),
{
    &mut v[i]
}

impl Registry {
    /// No two live entries share a connection identity.
    pub open spec fn wf(&self) -> bool {
        unique_ids(self@)
    }

    /// The empty registry every master process starts from.
    pub fn new() -> (r: Registry)
        ensures
            r@ =~= Seq::<EntryView>::empty(),
            r.wf(),
    {
        Registry { entries: Vec::new() }
    }

    pub fn len(&self) -> (n: usize)
        ensures
            n == self@.len(),
    {
        self.entries.len()
    }

    /// A shared look at one entry.
    pub fn entry_at(&self, i: usize) -> (e: &Entry)
        requires
            i < self@.len(),
        ensures
            e@ == self@[i as int],
    {
        &self.entries[i]
    }

    /// The position of the entry with this identity, if one is live.
    pub fn index_of(&self, id: &String) -> (r: Option<usize>)
        ensures
            match r {
                Some(i) => i < self@.len() && self@[i as int].id == id@,
                None => !contains_id(self@, id@),
            },
    {
        let n = self.entries.len();
        let mut i: usize = 0;
        while i < n
            invariant
                i <= n,
                n == self@.len(),
                forall|j: int| 0 <= j < i ==> self@[j].id != id@,
            decreases n - i,
        {
            if self.entries[i].id.eq(id) {
                return Some(i);
            }
            i = i + 1;
        }
        None
    }

    pub fn contains(&self, id: &String) -> (b: bool)
        ensures
            b == contains_id(self@, id@),
    {
        self.index_of(id).is_some()
    }

    /// Registers a fresh connection. The identity must not be live: the
    /// transport hands out one identity per session and never reuses it
    /// while the session is registered.
    pub fn insert(&mut self, id: String, record: AgentRecord)
        requires
            old(self).wf(),
            !contains_id(old(self)@, id@),
        ensures
            final(self).wf(),
            final(self)@ =~= old(self)@.push(
                EntryView {
                    id: id@,
                    last_heartbeat: record.last_heartbeat,
                    hostname: record.hostname_view(),
                },
            ),
    {
        let ghost ev = EntryView {
            id: id@,
            last_heartbeat: record.last_heartbeat,
            hostname: record.hostname_view(),
        };
        self.entries.push(Entry { id, record });
        proof {
            assert(self@ =~= old(self)@.push(ev));
            assert forall|i: int, j: int| 0 <= i < j < self@.len() implies self@[i].id
                != self@[j].id by {
                if j == self@.len() - 1 {
                    assert(self@[i] == old(self)@[i]);
                    assert(self@[j] == ev);
                    if old(self)@[i].id == ev.id {
                        assert(contains_id(old(self)@, ev.id));
                        assert(false);
                    }
                } else {
                    assert(self@[i] == old(self)@[i]);
                    assert(self@[j] == old(self)@[j]);
                }
            }
        }
    }

    /// The accept loop's registration step: a fresh connection enters
    /// the table alive as of `now` and not yet identified. A connection
    /// identity that is already live is refused, so no accept can
    /// overwrite or duplicate an entry; the transport never hands out a
    /// live identity again, so this does not happen in a running master.
    pub fn accept_connection(&mut self, id: String, now: u64) -> (fresh: bool)
        requires
            old(self).wf(),
        ensures
            final(self).wf(),
            fresh == !contains_id(old(self)@, id@),
            fresh ==> final(self)@ =~= old(self)@.push(
                EntryView { id: id@, last_heartbeat: now, hostname: None },
            ),
            !fresh ==> final(self)@ == old(self)@,
    {
        if self.contains(&id) {
            false
        } else {
            self.insert(id, AgentRecord::new(now));
            true
        }
    }

    /// Drops the entry with this identity, if one is live; reports
    /// whether one was.
    pub fn remove(&mut self, id: &String) -> (found: bool)
        requires
            old(self).wf(),
        ensures
            final(self).wf(),
            found == contains_id(old(self)@, id@),
            !contains_id(final(self)@, id@),
            !found ==> final(self)@ == old(self)@,
            found ==> exists|i: int|
                0 <= i < old(self)@.len() && old(self)@[i].id == id@ && final(self)@ =~= old(
                    self,
                )@.remove(i),
    {
        match self.index_of(id) {
            Some(i) => {
                self.entries.remove(i);
                proof {
                    assert(self@ =~= old(self)@.remove(i as int));
                    assert forall|j: int| 0 <= j < self@.len() implies self@[j].id != id@ by {
                        if j < i {
                            assert(self@[j] == old(self)@[j]);
                        } else {
                            assert(self@[j] == old(self)@[j + 1]);
                        }
                    }
                }
                true
            },
            None => false,
        }
    }

    /// Refreshes the liveness stamp of the entry with this identity, if
    /// one is live; nothing else changes.
    pub fn refresh_heartbeat(&mut self, id: &String, now: u64) -> (found: bool)
        requires
            old(self).wf(),
        ensures
            final(self).wf(),
            found == contains_id(old(self)@, id@),
            refreshed_at(old(self)@, final(self)@, id@, now),
    {
        match self.index_of(id) {
            Some(i) => {
                let e = entry_mut(&mut self.entries, i);
                e.record.last_heartbeat = now;
                proof {
                    assert forall|j: int|
                        0 <= j < old(self)@.len() && old(self)@[j].id == id@ implies self@[j]
                        == (EntryView { last_heartbeat: now, ..old(self)@[j] }) by {
                        assert(j == i);
                    }
                }
                true
            },
            None => false,
        }
    }

    /// Binds the announced hostname to the entry with this identity, if
    /// one is live. The first announcement wins: a hostname, once set,
    /// is never overwritten for the same connection.
    pub fn set_hostname(&mut self, id: &String, hostname: String) -> (found: bool)
        requires
            old(self).wf(),
        ensures
            final(self).wf(),
            found == contains_id(old(self)@, id@),
            hostname_bound_at(old(self)@, final(self)@, id@, hostname@),
    {
        match self.index_of(id) {
            Some(i) => {
                let e = entry_mut(&mut self.entries, i);
                match &e.record.hostname {
                    Some(_) => {
                        proof {
                            assert(self@ =~= old(self)@.update(i as int, old(self)@[i as int]));
                            assert(self@ =~= old(self)@);
                        }
                    },
                    None => {
                        e.record.hostname = Some(hostname);
                    },
                }
                proof {
                    assert forall|j: int|
                        0 <= j < old(self)@.len() && old(self)@[j].id == id@ implies self@[j]
                        == (EntryView {
                        hostname: match old(self)@[j].hostname {
                            Some(h) => Some(h),
                            None => Some(hostname@),
                        },
                        ..old(self)@[j]
                    }) by {
                        assert(j == i);
                    }
                }
                true
            },
            None => false,
        }
    }

    /// One heartbeat tick's bookkeeping, after the caller has tried to
    /// write a ping to every entry's connection: drops, in one pass,
    /// every entry whose write failed (`write_failed[i]` for entry `i`)
    /// and every entry that has gone silent past the staleness deadline.
    /// All other entries stay, unchanged and in order.
    pub fn heartbeat_tick(&mut self, now: u64, write_failed: &Vec<bool>)
        requires
            old(self).wf(),
            write_failed@.len() == old(self)@.len(),
        ensures
            final(self).wf(),
            final(self)@ =~= tick_result(old(self)@, write_failed@, now),
    {
        let ghost oldm = old(self)@;
        let ghost olde = old(self).entries@;
        let ghost f = write_failed@;
        let mut kept: Vec<Entry> = Vec::new();
        let n = write_failed.len();
        let mut i: usize = 0;
        proof {
            assert(oldm.skip(0) =~= oldm);
            assert(f.skip(0) =~= f);
            assert(kept@.map(|k: int, e: Entry| e@) =~= Seq::<EntryView>::empty());
        }
        while i < n
            invariant
                i <= n,
                n == oldm.len(),
                f.len() == n,
                f == write_failed@,
                oldm == olde.map(|k: int, e: Entry| e@),
                self.entries@ =~= olde.skip(i as int),
                tick_result(oldm, f, now) =~= kept@.map(|k: int, e: Entry| e@) + tick_result(
                    oldm.skip(i as int),
                    f.skip(i as int),
                    now,
                ),
            decreases n - i,
        {
            let e = self.entries.remove(0);
            let failed = write_failed[i];
            let lh = e.record.last_heartbeat;
            let stale = now > lh && now - lh > STALE_TIMEOUT_MS;
            proof {
                assert(olde.skip(i as int)[0] == olde[i as int]);
                assert(e@ == oldm[i as int]);
                assert(stale == is_stale(oldm[i as int], now));
                assert(oldm.skip(i as int)[0] == oldm[i as int]);
                assert(f.skip(i as int)[0] == f[i as int]);
                assert(oldm.skip(i as int).drop_first() =~= oldm.skip(i + 1));
                assert(f.skip(i as int).drop_first() =~= f.skip(i + 1));
                assert(self.entries@ =~= olde.skip(i + 1));
            }
            if !failed && !stale {
                let ghost keptm = kept@.map(|k: int, e: Entry| e@);
                kept.push(e);
                proof {
                    assert(kept@.map(|k: int, e: Entry| e@) =~= keptm.push(oldm[i as int]));
                    assert(keptm + (seq![oldm[i as int]] + tick_result(
                        oldm.skip(i + 1),
                        f.skip(i + 1),
                        now,
                    )) =~= keptm.push(oldm[i as int]) + tick_result(
                        oldm.skip(i + 1),
                        f.skip(i + 1),
                        now,
                    ));
                }
            }
            i = i + 1;
        }
        self.entries = kept;
        proof {
            assert(oldm.skip(n as int) =~= Seq::<EntryView>::empty());
            assert(f.skip(n as int) =~= Seq::<bool>::empty());
            assert(self@ =~= tick_result(oldm, f, now));
            lemma_tick_ids(oldm, f, now);
        }
    }

    /// The position of the first live entry that announced this
    /// hostname, if any did. Hostnames are not required to be unique;
    /// when two agents announce the same one, the earlier entry is found.
    pub fn find_by_hostname(&self, name: &String) -> (r: Option<usize>)
        ensures
            match r {
                Some(i) => i < self@.len() && self@[i as int].hostname == Some(name@) && (forall|
                    j: int,
                |
                    0 <= j < i ==> self@[j].hostname != Some(name@)),
                None => forall|j: int| 0 <= j < self@.len() ==> self@[j].hostname != Some(name@),
            },
    {
        let n = self.entries.len();
        let mut i: usize = 0;
        while i < n
            invariant
                i <= n,
                n == self@.len(),
                forall|j: int| 0 <= j < i ==> self@[j].hostname != Some(name@),
            decreases n - i,
        {
            let matched = match &self.entries[i].record.hostname {
                Some(h) => h.eq(name),
                None => false,
            };
            if matched {
                return Some(i);
            }
            i = i + 1;
        }
        None
    }
}

} // verus!
