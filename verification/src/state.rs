//! The deduplication state: for each repository, the id of the release last
//! notified about.

use vstd::prelude::*;

verus! {

/// One repository's entry: its identifier in `owner/name` form and the id
/// of the release last notified about.
pub struct StateEntry {
    pub repo: String,
    pub id: u32,
}

impl View for StateEntry {
    type V = (Seq<char>, u32);

    open spec fn view(&self) -> (Seq<char>, u32) {
        (self.repo@, self.id)
    }
}

/// A state as a mathematical value: repository keys paired with release
/// ids, in storage order.
pub type StateModel = Seq<(Seq<char>, u32)>;

/// No repository key occurs twice.
pub open spec fn keys_distinct(m: StateModel) -> bool {
    forall|i: int, j: int| 0 <= i < j < m.len() ==> (#[trigger] m[i]).0 != (#[trigger] m[j]).0
}

/// Whether the state holds an entry for `k`.
pub open spec fn has_key(m: StateModel, k: Seq<char>) -> bool {
    exists|i: int| 0 <= i < m.len() && (#[trigger] m[i]).0 == k
}

/// The id stored for `k`; a repository without an entry counts as id 0,
/// which no host-assigned release carries.
pub open spec fn stored_id(m: StateModel, k: Seq<char>) -> u32
    decreases m.len(),
{
    if m.len() == 0 {
        0
    } else if m[0].0 == k {
        m[0].1
    } else {
        stored_id(m.subrange(1, m.len() as int), k)
    }
}

/// The state after recording id `id` for `k`: the entry for `k` replaced
/// where one exists, appended otherwise.
pub open spec fn record_id(m: StateModel, k: Seq<char>, id: u32) -> StateModel {
    if has_key(m, k) {
        m.map_values(|p: (Seq<char>, u32)| if p.0 == k { (k, id) } else { p })
    } else {
        m.push((k, id))
    }
}

/// Recording `id` for `k` makes `id` the stored id of `k`, touches no other
/// key, and keeps the keys distinct.
pub proof fn lemma_record_id(m: StateModel, k: Seq<char>, id: u32)
    requires
        keys_distinct(m),
    ensures
        keys_distinct(record_id(m, k, id)),
        stored_id(record_id(m, k, id), k) == id,
        forall|k2: Seq<char>| k2 != k ==> stored_id(#[trigger] record_id(m, k, id), k2)
            == stored_id(m, k2),
        forall|k2: Seq<char>| #[trigger] has_key(record_id(m, k, id), k2)
            <==> has_key(m, k2) || k2 == k,
    decreases m.len(),
{
    let r = record_id(m, k, id);
    if m.len() == 0 {
        assert(r =~= seq![(k, id)]);
        assert(r.subrange(1, 1) =~= Seq::<(Seq<char>, u32)>::empty());
        assert forall|k2: Seq<char>| k2 != k implies stored_id(r, k2) == stored_id(m, k2) by {
            assert(stored_id(r, k2) == stored_id(r.subrange(1, 1), k2));
            assert(stored_id(m, k2) == 0);
        }
        assert forall|k2: Seq<char>| #[trigger] has_key(r, k2) implies has_key(m, k2) || k2 == k by {
            let i = choose|i: int| 0 <= i < r.len() && (#[trigger] r[i]).0 == k2;
            assert(r[i] == (k, id));
        }
    } else {
        let tail = m.subrange(1, m.len() as int);
        assert(keys_distinct(tail)) by {
            assert forall|i: int, j: int| 0 <= i < j < tail.len() implies (#[trigger] tail[i]).0
                != (#[trigger] tail[j]).0 by {
                assert(tail[i] == m[i + 1] && tail[j] == m[j + 1]);
            }
        }
        lemma_record_id(tail, k, id);
        if m[0].0 == k {
            assert(has_key(m, k));
            assert(!has_key(tail, k)) by {
                if has_key(tail, k) {
                    let i = choose|i: int| 0 <= i < tail.len() && (#[trigger] tail[i]).0 == k;
                    assert(tail[i] == m[i + 1]);
                }
            }
            assert(r =~= seq![(k, id)] + tail.map_values(
                |p: (Seq<char>, u32)| if p.0 == k { (k, id) } else { p },
            ));
            assert(tail.map_values(|p: (Seq<char>, u32)| if p.0 == k { (k, id) } else { p })
                =~= tail) by {
                assert forall|i: int| 0 <= i < tail.len() implies (#[trigger] tail[i]).0 != k by {
                    assert(tail[i] == m[i + 1]);
                }
            }
            assert(r =~= seq![(k, id)] + tail);
            assert(r.subrange(1, r.len() as int) =~= tail);
            assert forall|k2: Seq<char>| k2 != k implies stored_id(r, k2) == stored_id(m, k2) by {
                assert(r.subrange(1, r.len() as int) =~= tail);
            }
            assert forall|k2: Seq<char>| #[trigger] has_key(r, k2) implies has_key(m, k2) || k2
                == k by {
                let i = choose|i: int| 0 <= i < r.len() && (#[trigger] r[i]).0 == k2;
                if i > 0 {
                    assert(r[i] == tail[i - 1] && tail[i - 1] == m[i]);
                }
            }
            assert forall|k2: Seq<char>| has_key(m, k2) || k2 == k implies #[trigger] has_key(
                r,
                k2,
            ) by {
                if k2 == k {
                    assert(r[0].0 == k);
                } else {
                    let i = choose|i: int| 0 <= i < m.len() && (#[trigger] m[i]).0 == k2;
                    assert(i > 0 && r[i] == tail[i - 1] && tail[i - 1] == m[i]);
                }
            }
        } else {
            if has_key(m, k) {
                assert(has_key(tail, k)) by {
                    let i = choose|i: int| 0 <= i < m.len() && (#[trigger] m[i]).0 == k;
                    assert(tail[i - 1] == m[i]);
                }
                assert(r =~= seq![m[0]] + record_id(tail, k, id)) by {
                    assert(r =~= seq![m[0]] + tail.map_values(
                        |p: (Seq<char>, u32)| if p.0 == k { (k, id) } else { p },
                    ));
                }
            } else {
                assert(!has_key(tail, k)) by {
                    if has_key(tail, k) {
                        let i = choose|i: int| 0 <= i < tail.len() && (#[trigger] tail[i]).0 == k;
                        assert(m[i + 1] == tail[i]);
                    }
                }
                assert(r =~= seq![m[0]] + record_id(tail, k, id)) by {
                    assert(r =~= m.push((k, id)));
                    assert(record_id(tail, k, id) =~= tail.push((k, id)));
                }
            }
            let rt = record_id(tail, k, id);
            assert(r =~= seq![m[0]] + rt);
            assert(r.subrange(1, r.len() as int) =~= rt);
            assert(keys_distinct(r)) by {
                assert forall|i: int, j: int| 0 <= i < j < r.len() implies (#[trigger] r[i]).0
                    != (#[trigger] r[j]).0 by {
                    if i > 0 {
                        assert(r[i] == rt[i - 1] && r[j] == rt[j - 1]);
                    } else {
                        assert(r[j] == rt[j - 1]);
                        assert(has_key(rt, r[j].0)) by {
                            assert(rt[j - 1].0 == r[j].0);
                        }
                        if r[j].0 == m[0].0 {
                            assert(has_key(rt, m[0].0));
                            if m[0].0 == k {
                            } else {
                                assert(has_key(tail, m[0].0));
                                let t = choose|t: int|
                                    0 <= t < tail.len() && (#[trigger] tail[t]).0 == m[0].0;
                                assert(m[t + 1] == tail[t]);
                            }
                        }
                    }
                }
            }
            assert(stored_id(r, k) == id);
            assert forall|k2: Seq<char>| k2 != k implies stored_id(r, k2) == stored_id(m, k2) by {
                assert(r[0] == m[0]);
                assert(r.subrange(1, r.len() as int) =~= rt);
                assert(m.subrange(1, m.len() as int) =~= tail);
                if m[0].0 == k2 {
                    assert(stored_id(r, k2) == m[0].1);
                    assert(stored_id(m, k2) == m[0].1);
                } else {
                    assert(stored_id(r, k2) == stored_id(rt, k2));
                    assert(stored_id(rt, k2) == stored_id(tail, k2));
                    assert(stored_id(m, k2) == stored_id(tail, k2));
                }
            }
            assert forall|k2: Seq<char>| #[trigger] has_key(r, k2) <==> has_key(m, k2) || k2
                == k by {
                if has_key(r, k2) {
                    let i = choose|i: int| 0 <= i < r.len() && (#[trigger] r[i]).0 == k2;
                    if i > 0 {
                        assert(rt[i - 1].0 == k2);
                        assert(has_key(rt, k2));
                        if k2 != k {
                            assert(has_key(tail, k2));
                            let t = choose|t: int|
                                0 <= t < tail.len() && (#[trigger] tail[t]).0 == k2;
                            assert(m[t + 1] == tail[t]);
                        }
                    } else {
                        assert(m[0].0 == k2);
                    }
                }
                if has_key(m, k2) {
                    let i = choose|i: int| 0 <= i < m.len() && (#[trigger] m[i]).0 == k2;
                    if i == 0 {
                        assert(r[0].0 == k2);
                    } else {
                        assert(tail[i - 1] == m[i]);
                        assert(has_key(tail, k2));
                        assert(has_key(rt, k2));
                        let t = choose|t: int| 0 <= t < rt.len() && (#[trigger] rt[t]).0 == k2;
                        assert(r[t + 1] == rt[t]);
                    }
                }
                if k2 == k {
                    assert(has_key(rt, k));
                    let t = choose|t: int| 0 <= t < rt.len() && (#[trigger] rt[t]).0 == k;
                    assert(r[t + 1] == rt[t]);
                }
            }
        }
    }
}

/// The durable record of the last release id notified per repository.
pub struct NotificationState {
    pub entries: Vec<StateEntry>,
}

impl View for NotificationState {
    type V = StateModel;

    open spec fn view(&self) -> StateModel {
        self.entries@.map_values(|e: StateEntry| e@)
    }
}

impl NotificationState {
    /// The state never lists a repository twice.
    pub open spec fn wf(&self) -> bool {
        keys_distinct(self@)
    }

    /// The empty state: no repository has been notified about.
    pub fn new() -> (s: Self)
        ensures
            s@ =~= Seq::<(Seq<char>, u32)>::empty(),
            s.wf(),
    {
        let s = NotificationState { entries: Vec::new() };
        proof {
            assert(s@ =~= Seq::<(Seq<char>, u32)>::empty());
        }
        s
    }

    /// How many repositories have an entry.
    pub fn len(&self) -> (n: usize)
        ensures
            n == self@.len(),
    {
        self.entries.len()
    }

    /// The entry at a storage position, as plain values.
    pub fn entry_at(&self, i: usize) -> (e: (&String, u32))
        requires
            i < self@.len(),
        ensures
            (e.0@, e.1) == self@[i as int],
    {
        (&self.entries[i].repo, self.entries[i].id)
    }

    /// The id stored for `repo`, 0 where no entry exists.
    pub fn get(&self, repo: &String) -> (id: u32)
        ensures
            id == stored_id(self@, repo@),
    {
        let mut k: usize = 0;
        proof {
            assert(self@.subrange(0, self@.len() as int) =~= self@);
        }
        while k < self.entries.len()
            invariant
                k <= self@.len(),
                stored_id(self@, repo@) == stored_id(self@.subrange(k as int, self@.len() as int), repo@),
                forall|i: int| 0 <= i < k ==> (#[trigger] self@[i]).0 != repo@,
            decreases self@.len() - k,
        {
            if self.entries[k].repo == *repo {
                proof {
                    let suf = self@.subrange(k as int, self@.len() as int);
                    assert(suf[0] == self@[k as int]);
                }
                return self.entries[k].id;
            }
            k = k + 1;
            proof {
                let pre = self@.subrange(k - 1, self@.len() as int);
                assert(pre[0] == self@[k - 1]);
                assert(pre.subrange(1, pre.len() as int) =~= self@.subrange(
                    k as int,
                    self@.len() as int,
                ));
            }
        }
        proof {
            assert(self@.subrange(self@.len() as int, self@.len() as int) =~= Seq::<
                (Seq<char>, u32),
            >::empty());
        }
        0
    }

    /// Record that `repo` was notified about release `id`.
    pub fn record(&mut self, repo: &String, id: u32)
        requires
            old(self).wf(),
        ensures
            final(self).wf(),
            final(self)@ == record_id(old(self)@, repo@, id),
    {
        let ghost m = self@;
        let mut k: usize = 0;
        while k < self.entries.len()
            invariant
                self@ == m,
                old(self)@ == m,
                keys_distinct(m),
                k <= m.len(),
                forall|i: int| 0 <= i < k ==> (#[trigger] m[i]).0 != repo@,
            decreases m.len() - k,
        {
            if self.entries[k].repo == *repo {
                let entry = StateEntry { repo: repo.clone(), id };
                self.entries.set(k, entry);
                proof {
                    assert(has_key(m, repo@)) by {
                        assert(m[k as int].0 == repo@);
                    }
                    assert(self@ =~= record_id(m, repo@, id)) by {
                        assert forall|i: int| 0 <= i < m.len() implies self@[i] == record_id(
                            m,
                            repo@,
                            id,
                        )[i] by {
                            if i < k {
                                assert(m[i].0 != repo@);
                            } else if i > k {
                                assert(m[k as int].0 == repo@ && m[k as int].0 != m[i].0);
                            }
                        }
                    }
                    lemma_record_id(m, repo@, id);
                }
                return ;
            }
            k = k + 1;
        }
        let entry = StateEntry { repo: repo.clone(), id };
        self.entries.push(entry);
        proof {
            assert(!has_key(m, repo@));
            assert(self@ =~= record_id(m, repo@, id)) by {
                assert(self@ =~= m.push((repo@, id)));
            }
            lemma_record_id(m, repo@, id);
        }
    }
}

} // verus!
