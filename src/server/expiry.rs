//! The scheduler's queue of pending expirations: one deadline per key, the
//! earliest taken first. A key scheduled again replaces its pending entry,
//! so a later deadline set by a new SET supersedes an earlier one.

use vstd::prelude::*;

use crate::server::types::{Database, ExpiryEvent, RedisKey};

verus! {

/// The (deadline, key) pairs that `s` holds.
pub open spec fn pending_of(s: Seq<ExpiryEvent>) -> Set<(u64, Seq<u8>)> {
    Set::new(|p: (u64, Seq<u8>)| exists|i: int| 0 <= i < s.len() && s[i].0 == p.0 && s[i].1@ == p.1)
}

/// Latest deadline first, and no key twice.
pub open spec fn queue_wf(s: Seq<ExpiryEvent>) -> bool {
    &&& forall|i: int, j: int| 0 <= i < j < s.len() ==> s[i].0 >= s[j].0
    &&& forall|i: int, j: int| 0 <= i < j < s.len() ==> s[i].1@ != s[j].1@
}

/// `pending` after `(deadline, key)` is scheduled: any pending entry for
/// `key` gives way to the new one.
pub open spec fn rescheduled(pending: Set<(u64, Seq<u8>)>, deadline: u64, key: Seq<u8>) -> Set<
    (u64, Seq<u8>),
> {
    pending.filter(|p: (u64, Seq<u8>)| p.1 != key).insert((deadline, key))
}

/// The pending expirations, ordered for the scheduler.
pub struct ExpiryQueue {
    /// Latest deadline first, so that the earliest is last.
    entries: Vec<ExpiryEvent>,
}

/// Whether `a` and `b` hold the same bytes.
fn same_bytes(a: &[u8], b: &[u8]) -> (r: bool)
    ensures
        r == (a@ == b@),
{
    if a.len() != b.len() {
        return false;
    }
    let mut i: usize = 0;
    while i < a.len()
        invariant
            a@.len() == b@.len(),
            0 <= i <= a@.len(),
            forall|j: int| 0 <= j < i ==> a@[j] == b@[j],
        decreases a.len() - i,
    {
        if a[i] != b[i] {
            return false;
        }
        i = i + 1;
    }
    assert(a@ =~= b@);
    true
}

/// The index of the entry for `key`, if there is one.
fn position_of(entries: &Vec<ExpiryEvent>, key: &[u8]) -> (r: Option<usize>)
    ensures
        match r {
            Some(f) => f < entries@.len() && entries@[f as int].1@ == key@,
            None => forall|j: int| 0 <= j < entries@.len() ==> entries@[j].1@ != key@,
        },
{
    let mut i: usize = 0;
    while i < entries.len()
        invariant
            0 <= i <= entries@.len(),
            forall|j: int| 0 <= j < i ==> entries@[j].1@ != key@,
        decreases entries.len() - i,
    {
        if same_bytes(entries[i].1.as_slice(), key) {
            return Some(i);
        }
        i = i + 1;
    }
    None
}

impl ExpiryQueue {
    pub closed spec fn entries(&self) -> Seq<ExpiryEvent> {
        self.entries@
    }

    /// The number of entries waiting.
    pub closed spec fn size(&self) -> nat {
        self.entries().len()
    }

    /// The key of the entry taken next.
    pub closed spec fn earliest_key(&self) -> Seq<u8> {
        self.entries().last().1@
    }

    /// The (deadline, key) pairs waiting.
    pub open spec fn pending(&self) -> Set<(u64, Seq<u8>)> {
        pending_of(self.entries())
    }

    pub open spec fn wf(&self) -> bool {
        queue_wf(self.entries())
    }

    pub fn new() -> (r: ExpiryQueue)
        ensures
            r.wf(),
            r.pending() == Set::<(u64, Seq<u8>)>::empty(),
    {
        let r = ExpiryQueue { entries: Vec::new() };
        assert(r.pending() =~= Set::<(u64, Seq<u8>)>::empty());
        r
    }

    /// The earliest pending deadline.
    pub fn next_deadline(&self) -> (r: Option<u64>)
        requires
            self.wf(),
        ensures
            r is None <==> self.pending() == Set::<(u64, Seq<u8>)>::empty(),
            r matches Some(t) ==> self.pending().contains((t, self.earliest_key())),
            r matches Some(t) ==> forall|p: (u64, Seq<u8>)| #[trigger]
                self.pending().contains(p) ==> t <= p.0,
    {
        let n = self.entries.len();
        if n == 0 {
            assert(self.pending() =~= Set::<(u64, Seq<u8>)>::empty());
            None
        } else {
            let t = self.entries[n - 1].0;
            let ghost last = self.entries@[n - 1];
            assert(self.pending().contains((t, last.1@)));
            assert(self.pending() != Set::<(u64, Seq<u8>)>::empty());
            assert forall|p: (u64, Seq<u8>)| self.pending().contains(p) implies t <= p.0 by {
                let s = self.entries@;
                let j = choose|j: int| 0 <= j < s.len() && s[j].0 == p.0 && s[j].1@ == p.1;
                assert(j == n - 1 || s[j].0 >= s[n - 1].0);
            }
            Some(t)
        }
    }

    /// Schedules `key` to expire at `deadline`, dropping the entry that `key`
    /// had pending.
    pub fn schedule(&mut self, deadline: u64, key: RedisKey)
        requires
            old(self).wf(),
        ensures
            final(self).wf(),
            final(self).pending() == rescheduled(old(self).pending(), deadline, key@),
    {
        let ghost s0 = self.entries@;
        let ghost k = key@;
        let found = position_of(&self.entries, key.as_slice());
        if let Some(f) = found {
            self.entries.remove(f);
        }
        let ghost s1 = self.entries@;
        assert(queue_wf(s1)) by {
            if let Some(f) = found {
                assert forall|a: int, b: int| 0 <= a < b < s1.len() implies s1[a].0 >= s1[b].0
                    && s1[a].1@ != s1[b].1@ by {
                    let a0 = if a < f { a } else { a + 1 };
                    let b0 = if b < f { b } else { b + 1 };
                    assert(s1[a] == s0[a0]);
                    assert(s1[b] == s0[b0]);
                }
            }
        }
        assert forall|j: int| 0 <= j < s1.len() implies s1[j].1@ != k by {
            if let Some(f) = found {
                let j0 = if j < f { j } else { j + 1 };
                assert(s1[j] == s0[j0]);
            }
        }
        assert(pending_of(s1) =~= pending_of(s0).filter(|p: (u64, Seq<u8>)| p.1 != k)) by {
            assert forall|p: (u64, Seq<u8>)| pending_of(s1).contains(p) implies pending_of(
                s0,
            ).filter(|p: (u64, Seq<u8>)| p.1 != k).contains(p) by {
                let j = choose|j: int| 0 <= j < s1.len() && s1[j].0 == p.0 && s1[j].1@ == p.1;
                if let Some(f) = found {
                    let j0 = if j < f { j } else { j + 1 };
                    assert(s1[j] == s0[j0]);
                }
            }
            assert forall|p: (u64, Seq<u8>)| pending_of(s0).filter(|p: (u64, Seq<u8>)| p.1 != k).contains(
                p,
            ) implies pending_of(s1).contains(p) by {
                let j = choose|j: int| 0 <= j < s0.len() && s0[j].0 == p.0 && s0[j].1@ == p.1;
                if let Some(f) = found {
                    assert(j != f);
                    let j1 = if j < f { j } else { j - 1 };
                    assert(s1[j1] == s0[j]);
                } else {
                    assert(s1[j] == s0[j]);
                }
            }
        }
        let mut pos: usize = 0;
        while pos < self.entries.len() && self.entries[pos].0 >= deadline
            invariant
                self.entries@ == s1,
                0 <= pos <= s1.len(),
                forall|j: int| 0 <= j < pos ==> s1[j].0 >= deadline,
            decreases self.entries.len() - pos,
        {
            pos = pos + 1;
        }
        assert forall|j: int| pos <= j < s1.len() implies s1[j].0 < deadline by {
            assert(s1[pos as int].0 >= s1[j].0 || j == pos);
        }
        self.entries.insert(pos, (deadline, key));
        let ghost s2 = self.entries@;
        assert forall|j: int| 0 <= j < s2.len() && j != pos implies #[trigger] s2[j] == (if j < pos {
            s1[j]
        } else {
            s1[j - 1]
        }) by {}
        assert(queue_wf(s2)) by {
            assert forall|a: int, b: int| 0 <= a < b < s2.len() implies s2[a].0 >= s2[b].0
                && s2[a].1@ != s2[b].1@ by {
                if a != pos && b != pos {
                    let a1 = if a < pos { a } else { a - 1 };
                    let b1 = if b < pos { b } else { b - 1 };
                    assert(s2[a] == s1[a1]);
                    assert(s2[b] == s1[b1]);
                } else if a == pos {
                    assert(s2[b] == s1[b - 1]);
                } else {
                    assert(s2[a] == s1[a]);
                }
            }
        }
        assert(pending_of(s2) =~= pending_of(s1).insert((deadline, k))) by {
            assert forall|p: (u64, Seq<u8>)| pending_of(s2).contains(p) implies pending_of(
                s1,
            ).insert((deadline, k)).contains(p) by {
                let j = choose|j: int| 0 <= j < s2.len() && s2[j].0 == p.0 && s2[j].1@ == p.1;
                if j < pos {
                    assert(s2[j] == s1[j]);
                } else if j > pos {
                    assert(s2[j] == s1[j - 1]);
                }
            }
            assert forall|p: (u64, Seq<u8>)| pending_of(s1).insert((deadline, k)).contains(
                p,
            ) implies pending_of(s2).contains(p) by {
                if p == (deadline, k) {
                    assert(s2[pos as int].0 == p.0 && s2[pos as int].1@ == p.1);
                } else {
                    let j = choose|j: int| 0 <= j < s1.len() && s1[j].0 == p.0 && s1[j].1@ == p.1;
                    let j2 = if j < pos { j } else { j + 1 };
                    assert(s2[j2] == s1[j]);
                }
            }
        }
    }

    /// Takes the earliest pending expiration if its deadline is at or before
    /// `now`.
    pub fn pop_due(&mut self, now: u64) -> (r: Option<ExpiryEvent>)
        requires
            old(self).wf(),
        ensures
            final(self).wf(),
            match r {
                Some(e) => {
                    &&& e.0 <= now
                    &&& old(self).pending().contains((e.0, e.1@))
                    &&& forall|p: (u64, Seq<u8>)| old(self).pending().contains(p) ==> e.0 <= p.0
                    &&& final(self).pending() == old(self).pending().remove((e.0, e.1@))
                },
                None => {
                    &&& forall|p: (u64, Seq<u8>)| old(self).pending().contains(p) ==> now < p.0
                    &&& final(self).pending() == old(self).pending()
                },
            },
            r is Some ==> final(self).size() < old(self).size(),
    {
        let ghost s0 = self.entries@;
        let n = self.entries.len();
        if n == 0 || self.entries[n - 1].0 > now {
            return None;
        }
        let e = self.entries.pop().unwrap();
        let ghost s1 = self.entries@;
        assert(s1 =~= s0.subrange(0, n - 1));
        assert(pending_of(s1) =~= pending_of(s0).remove((e.0, e.1@))) by {
            assert forall|p: (u64, Seq<u8>)| pending_of(s1).contains(p) implies pending_of(
                s0,
            ).remove((e.0, e.1@)).contains(p) by {
                let j = choose|j: int| 0 <= j < s1.len() && s1[j].0 == p.0 && s1[j].1@ == p.1;
                assert(s0[j] == s1[j]);
                assert(s0[j].1@ != s0[n - 1].1@);
            }
            assert forall|p: (u64, Seq<u8>)| pending_of(s0).remove((e.0, e.1@)).contains(
                p,
            ) implies pending_of(s1).contains(p) by {
                let j = choose|j: int| 0 <= j < s0.len() && s0[j].0 == p.0 && s0[j].1@ == p.1;
                assert(j != n - 1);
                assert(s1[j] == s0[j]);
            }
        }
        assert(pending_of(s0).contains((e.0, e.1@)));
        Some(e)
    }
}

/// The scheduler's work when its timer fires at `now`: takes every pending
/// expiration that is due, earliest first, and removes each key whose stored
/// deadline is still the one scheduled. A key that was set again since keeps
/// its new entry. Returns how many were taken from the queue.
pub fn expire_due(db: &Database, queue: &mut ExpiryQueue, now: u64) -> (r: usize)
    requires
        old(queue).wf(),
    ensures
        final(queue).wf(),
        final(queue).pending() == old(queue).pending().filter(|p: (u64, Seq<u8>)| now < p.0),
{
    let ghost start = queue.pending();
    let mut taken: usize = 0;
    loop
        invariant
            start == old(queue).pending(),
            queue.wf(),
            queue.pending().subset_of(start),
            forall|p: (u64, Seq<u8>)| #[trigger] start.contains(p) && now < p.0 ==> queue.pending().contains(p),
        decreases queue.size(),
    {
        match queue.pop_due(now) {
            Some((deadline, key)) => {
                db.remove_if_expires_at(&key, deadline);
                taken = if taken < usize::MAX {
                    taken + 1
                } else {
                    taken
                };
            },
            None => {
                assert(queue.pending() =~= start.filter(|p: (u64, Seq<u8>)| now < p.0));
                return taken;
            },
        }
    }
}

/// Scheduling a key again supersedes its earlier deadline: after
/// `(first, key)` and then `(second, key)`, the queue holds what scheduling
/// `(second, key)` alone would give, and `(first, key)` is no longer pending
/// unless the two deadlines are the same.
pub proof fn lemma_reschedule_supersedes(
    pending: Set<(u64, Seq<u8>)>,
    key: Seq<u8>,
    first: u64,
    second: u64,
)
    ensures
        rescheduled(rescheduled(pending, first, key), second, key) == rescheduled(
            pending,
            second,
            key,
        ),
        first != second ==> !rescheduled(rescheduled(pending, first, key), second, key).contains(
            (first, key),
        ),
        rescheduled(rescheduled(pending, first, key), second, key).contains((second, key)),
{
    assert(rescheduled(rescheduled(pending, first, key), second, key) =~= rescheduled(
        pending,
        second,
        key,
    ));
}

/// A key has at most one pending expiration.
pub proof fn lemma_one_deadline_per_key(q: &ExpiryQueue, key: Seq<u8>, a: u64, b: u64)
    requires
        q.wf(),
        q.pending().contains((a, key)),
        q.pending().contains((b, key)),
    ensures
        a == b,
{
    let s = q.entries();
    let i = choose|i: int| 0 <= i < s.len() && s[i].0 == a && s[i].1@ == key;
    let j = choose|j: int| 0 <= j < s.len() && s[j].0 == b && s[j].1@ == key;
    if i < j {
        assert(s[i].1@ != s[j].1@);
    } else if j < i {
        assert(s[j].1@ != s[i].1@);
    }
}

} // verus!
