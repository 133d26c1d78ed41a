use vstd::prelude::*;

verus! {

/// The deadline recorded for `key`, if any.
pub open spec fn deadline_of(s: Seq<(Seq<char>, u64)>, key: Seq<char>) -> Option<u64>
    decreases s.len(),
{
    if s.len() == 0 {
        None
    } else if s.last().0 == key {
        Some(s.last().1)
    } else {
        deadline_of(s.drop_last(), key)
    }
}

/// The entries whose deadline is still ahead of `now`, in order.
pub open spec fn pending(s: Seq<(Seq<char>, u64)>, now: u64) -> Seq<(Seq<char>, u64)>
    decreases s.len(),
{
    if s.len() == 0 {
        s
    } else if s.last().1 > now {
        pending(s.drop_last(), now).push(s.last())
    } else {
        pending(s.drop_last(), now)
    }
}

/// The keys of the entries whose deadline has come by `now`, in order.
pub open spec fn due(s: Seq<(Seq<char>, u64)>, now: u64) -> Seq<Seq<char>>
    decreases s.len(),
{
    if s.len() == 0 {
        Seq::empty()
    } else if s.last().1 > now {
        due(s.drop_last(), now)
    } else {
        due(s.drop_last(), now).push(s.last().0)
    }
}

/// The entries after arming `key` at `deadline`: its entry is updated in place, or
/// appended where it had none.
pub open spec fn scheduled(s: Seq<(Seq<char>, u64)>, key: Seq<char>, deadline: u64) -> Seq<(Seq<char>, u64)> {
    if deadline_of(s, key) is None {
        s.push((key, deadline))
    } else {
        rearm_all(s, key, deadline)
    }
}

/// Every entry for `key` given the deadline `deadline`; the others as they were.
pub open spec fn rearm_all(s: Seq<(Seq<char>, u64)>, key: Seq<char>, deadline: u64) -> Seq<(Seq<char>, u64)>
    decreases s.len(),
{
    if s.len() == 0 {
        s
    } else {
        rearm_all(s.drop_last(), key, deadline).push(
            if s.last().0 == key { (key, deadline) } else { s.last() },
        )
    }
}

/// Position by position, what re-arming a key does to a sequence of entries.
pub proof fn lemma_rearm_all_index(s: Seq<(Seq<char>, u64)>, key: Seq<char>, deadline: u64)
    ensures
        rearm_all(s, key, deadline).len() == s.len(),
        forall|j: int| 0 <= j < s.len() ==> #[trigger] rearm_all(s, key, deadline)[j] == if s[j].0 == key { (key, deadline) } else { s[j] },
    decreases s.len(),
{
    if s.len() > 0 {
        lemma_rearm_all_index(s.drop_last(), key, deadline);
    }
}

pub open spec fn keys_unique(s: Seq<(Seq<char>, u64)>) -> bool {
    forall|i: int, j: int| 0 <= i < j < s.len() ==> s[i].0 != s[j].0
}

/// One-shot deadlines keyed by name; scheduling a key again replaces its deadline.
pub struct ExpiryTable {
    entries: Vec<(String, u64)>,
}

impl View for ExpiryTable {
    type V = Seq<(Seq<char>, u64)>;

    closed spec fn view(&self) -> Seq<(Seq<char>, u64)> {
        self.entries@.map_values(|e: (String, u64)| (e.0@, e.1))
    }
}

proof fn lemma_deadline_found(s: Seq<(Seq<char>, u64)>, k: int)
    requires
        keys_unique(s),
        0 <= k < s.len(),
    ensures
        deadline_of(s, s[k].0) == Some(s[k].1),
    decreases s.len(),
{
    if k < s.len() - 1 {
        lemma_deadline_found(s.drop_last(), k);
    }
}

/// A key that no entry holds has no deadline.
pub proof fn lemma_deadline_absent(s: Seq<(Seq<char>, u64)>, key: Seq<char>)
    requires
        forall|i: int| 0 <= i < s.len() ==> s[i].0 != key,
    ensures
        deadline_of(s, key) is None,
    decreases s.len(),
{
    if s.len() > 0 {
        lemma_deadline_absent(s.drop_last(), key);
    }
}

proof fn lemma_deadline_update(s: Seq<(Seq<char>, u64)>, k: int, d: u64, key: Seq<char>)
    requires
        0 <= k < s.len(),
        key != s[k].0,
    ensures
        deadline_of(s.update(k, (s[k].0, d)), key) == deadline_of(s, key),
    decreases s.len(),
{
    if k < s.len() - 1 {
        assert(s.update(k, (s[k].0, d)).drop_last() =~= s.drop_last().update(k, (s[k].0, d)));
        lemma_deadline_update(s.drop_last(), k, d, key);
    } else {
        assert(s.update(k, (s[k].0, d)).drop_last() =~= s.drop_last());
    }
}

impl ExpiryTable {
    /// Keys are unique.
    pub closed spec fn wf(&self) -> bool {
        keys_unique(self@)
    }

    pub fn new() -> (r: ExpiryTable)
        ensures
            r.wf(),
            r@ == Seq::<(Seq<char>, u64)>::empty(),
    {
        let r = ExpiryTable { entries: Vec::new() };
        assert(r@ =~= Seq::<(Seq<char>, u64)>::empty());
        r
    }

    /// The keys currently armed, in the order they were first scheduled.
    pub fn keys(&self) -> (r: Vec<String>)
        ensures
            r@.len() == self@.len(),
            forall|i: int| 0 <= i < r@.len() ==> #[trigger] r@[i]@ == self@[i].0,
    {
        let mut r: Vec<String> = Vec::new();
        let mut i: usize = 0;
        while i < self.entries.len()
            invariant
                i <= self.entries.len(),
                self@ == self.entries@.map_values(|e: (String, u64)| (e.0@, e.1)),
                r@.len() == i,
                forall|j: int| 0 <= j < i ==> #[trigger] r@[j]@ == self@[j].0,
            decreases self.entries.len() - i,
        {
            r.push(self.entries[i].0.clone());
            i = i + 1;
        }
        r
    }

    /// Arms `key` to expire at `deadline`, replacing any deadline it had.
    pub fn schedule(&mut self, key: String, deadline: u64)
        requires
            old(self).wf(),
        ensures
            final(self).wf(),
            final(self)@ == scheduled(old(self)@, key@, deadline),
            deadline_of(final(self)@, key@) == Some(deadline),
            forall|k: Seq<char>| k != key@ ==> deadline_of(final(self)@, k) == deadline_of(old(self)@, k),
            forall|i: int| 0 <= i < old(self)@.len() ==> (#[trigger] old(self)@[i]).0 == final(self)@[i].0,
            final(self)@.len() == old(self)@.len() + if deadline_of(old(self)@, key@) is Some { 0int } else { 1int },
            deadline_of(old(self)@, key@) is None ==> final(self)@ == old(self)@.push((key@, deadline)),
    {
        let ghost s0 = self@;
        let mut i: usize = 0;
        while i < self.entries.len()
            invariant
                i <= self.entries.len(),
                self@ == s0,
                s0 == old(self)@,
                keys_unique(s0),
                self@ == self.entries@.map_values(|e: (String, u64)| (e.0@, e.1)),
                forall|j: int| 0 <= j < i ==> self@[j].0 != key@,
            decreases self.entries.len() - i,
        {
            if self.entries[i].0 == key {
                self.entries.set(i, (key, deadline));
                proof {
                    assert(self@ =~= s0.update(i as int, (s0[i as int].0, deadline)));
                    assert(forall|j: int| 0 <= j < s0.len() ==> #[trigger] self@[j].0 == s0[j].0);
                    lemma_deadline_found(s0, i as int);
                    lemma_rearm_all_index(s0, key@, deadline);
                    assert(self@ =~= scheduled(s0, key@, deadline));
                    assert(keys_unique(self@));
                    lemma_deadline_found(self@, i as int);
                    assert forall|k: Seq<char>| k != key@ implies deadline_of(self@, k) == deadline_of(s0, k) by {
                        lemma_deadline_update(s0, i as int, deadline, k);
                    }
                    lemma_deadline_found(s0, i as int);
                    assert forall|j: int| 0 <= j < s0.len() implies (#[trigger] s0[j]).0 == self@[j].0 by {}
                }
                return;
            }
            i = i + 1;
        }
        proof {
            lemma_deadline_absent(s0, key@);
        }
        self.entries.push((key, deadline));
        proof {
            assert(self@ =~= s0.push((key@, deadline)));
            assert(self@.drop_last() =~= s0);
            assert forall|k: Seq<char>| k != key@ implies deadline_of(self@, k) == deadline_of(s0, k) by {
                assert(self@.last().0 == key@);
            }
            assert forall|j: int| 0 <= j < s0.len() implies (#[trigger] s0[j]).0 == self@[j].0 by {}
        }
    }

    /// Removes every entry whose deadline has come by `now` and returns their keys.
    pub fn take_due(&mut self, now: u64) -> (r: Vec<String>)
        requires
            old(self).wf(),
        ensures
            final(self).wf(),
            final(self)@ == pending(old(self)@, now),
            r@.map_values(|x: String| x@) == due(old(self)@, now),
    {
        let ghost s0 = self@;
        let mut kept: Vec<(String, u64)> = Vec::new();
        let mut gone: Vec<String> = Vec::new();
        let mut i: usize = 0;
        while i < self.entries.len()
            invariant
                i <= self.entries.len(),
                s0 == self@,
                s0 == old(self)@,
                keys_unique(s0),
                self@ == self.entries@.map_values(|e: (String, u64)| (e.0@, e.1)),
                kept@.map_values(|e: (String, u64)| (e.0@, e.1)) == pending(s0.take(i as int), now),
                gone@.map_values(|x: String| x@) == due(s0.take(i as int), now),
            decreases self.entries.len() - i,
        {
            proof {
                assert(s0.take(i as int + 1).drop_last() =~= s0.take(i as int));
            }
            let name = self.entries[i].0.clone();
            let d = self.entries[i].1;
            if d > now {
                kept.push((name, d));
                assert(kept@.map_values(|e: (String, u64)| (e.0@, e.1)) =~= pending(s0.take(i as int + 1), now));
            } else {
                gone.push(name);
                assert(gone@.map_values(|x: String| x@) =~= due(s0.take(i as int + 1), now));
            }
            i = i + 1;
        }
        assert(s0.take(i as int) =~= s0);
        self.entries = kept;
        proof {
            lemma_pending_unique(s0, now);
        }
        gone
    }
}

proof fn lemma_pending_unique(s: Seq<(Seq<char>, u64)>, now: u64)
    requires
        keys_unique(s),
    ensures
        keys_unique(pending(s, now)),
        forall|i: int| 0 <= i < pending(s, now).len() ==> exists|j: int| 0 <= j < s.len() && #[trigger] pending(s, now)[i] == s[j],
    decreases s.len(),
{
    if s.len() > 0 {
        lemma_pending_unique(s.drop_last(), now);
        let p = pending(s.drop_last(), now);
        if s.last().1 > now {
            assert forall|i: int| 0 <= i < p.len() implies p[i].0 != s.last().0 by {
                let j = choose|j: int| 0 <= j < s.drop_last().len() && p[i] == s.drop_last()[j];
                assert(s[j] == p[i]);
            }
            assert forall|i: int| 0 <= i < pending(s, now).len() implies exists|j: int| 0 <= j < s.len() && #[trigger] pending(s, now)[i] == s[j] by {
                if i < p.len() {
                    let j = choose|j: int| 0 <= j < s.drop_last().len() && p[i] == s.drop_last()[j];
                    assert(pending(s, now)[i] == s[j]);
                } else {
                    assert(pending(s, now)[i] == s[s.len() - 1]);
                }
            }
        } else {
            assert forall|i: int| 0 <= i < pending(s, now).len() implies exists|j: int| 0 <= j < s.len() && #[trigger] pending(s, now)[i] == s[j] by {
                let j = choose|j: int| 0 <= j < s.drop_last().len() && p[i] == s.drop_last()[j];
                assert(pending(s, now)[i] == s[j]);
            }
        }
    }
}

} // verus!
