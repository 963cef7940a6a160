//! Jobs handed to a provider and not yet answered, by job id.
use vstd::prelude::*;
use crate::hub::IsValid;
use crate::ids::JobId;

verus! {

/// Independently locked tables that the job ids are spread over.
pub const ONGOING_SHARDS: usize = 128;

pub open spec fn has_key<R>(e: Seq<(Seq<char>, R)>, k: Seq<char>) -> bool {
    exists|j: int| 0 <= j < e.len() && e[j].0 == k
}

pub open spec fn distinct_keys<R>(e: Seq<(Seq<char>, R)>) -> bool {
    forall|a: int, b: int| 0 <= a < b < e.len() ==> e[a].0 != e[b].0
}

/// The map that a list of entries with distinct keys stands for.
pub open spec fn as_map<R>(e: Seq<(Seq<char>, R)>) -> Map<Seq<char>, R> {
    Map::new(
        |k: Seq<char>| has_key(e, k),
        |k: Seq<char>| e[choose|j: int| 0 <= j < e.len() && e[j].0 == k].1,
    )
}

/// With distinct keys, the value of a key is the one stored with it.
proof fn lemma_as_map_at<R>(e: Seq<(Seq<char>, R)>, j: int)
    requires
        distinct_keys(e),
        0 <= j < e.len(),
    ensures
        as_map(e).contains_key(e[j].0),
        as_map(e)[e[j].0] == e[j].1,
{
    let k = e[j].0;
    assert(has_key(e, k));
    let c = choose|i: int| 0 <= i < e.len() && e[i].0 == k;
    if c != j {
        if c < j {
            assert(e[c].0 != e[j].0);
        } else {
            assert(e[j].0 != e[c].0);
        }
    }
}

/// The table of jobs in progress.
pub struct Ongoing<R> {
    entries: Vec<(JobId, R)>,
}

impl<R> Ongoing<R> {
    pub closed spec fn entries(&self) -> Seq<(Seq<char>, R)> {
        entries_of(self.entries@)
    }

    /// Job ids are distinct.
    pub open spec fn wf(&self) -> bool {
        distinct_keys(self.entries())
    }

    /// The jobs by id.
    pub open spec fn view(&self) -> Map<Seq<char>, R> {
        as_map(self.entries())
    }

    pub fn new() -> (r: Ongoing<R>)
        ensures
            r.wf(),
            r.view() == Map::<Seq<char>, R>::empty(),
    {
        let r = Ongoing { entries: Vec::new() };
        assert(r.view() =~= Map::<Seq<char>, R>::empty());
        r
    }

    fn find(&self, id: &JobId) -> (r: Option<usize>)
        ensures
            match r {
                Some(i) => i < self.entries().len() && self.entries()[i as int].0 == id@,
                None => !has_key(self.entries(), id@),
            },
    {
        let mut i: usize = 0;
        while i < self.entries.len()
            invariant
                i <= self.entries@.len(),
                forall|j: int| 0 <= j < i ==> self.entries()[j].0 != id@,
            decreases self.entries.len() - i,
        {
            if self.entries[i].0 == *id {
                return Some(i);
            }
            i = i + 1;
        }
        None
    }

    /// Files `item` under `id`, replacing what was there.
    pub fn add(&mut self, id: JobId, item: R)
        requires
            old(self).wf(),
        ensures
            final(self).wf(),
            final(self).view() == old(self).view().insert(id@, item),
    {
        let ghost e = self.entries();
        let ghost k = id@;
        match self.find(&id) {
            Some(i) => {
                self.entries.set(i, (id, item));
                proof {
                    let f = e.update(i as int, (k, item));
                    assert(self.entries() =~= f);
                    assert(distinct_keys(f)) by {
                        assert forall|a: int, b: int| 0 <= a < b < f.len() implies f[a].0 != f[b].0 by {
                            assert(e[a].0 != e[b].0);
                        }
                    }
                    lemma_as_map_at(f, i as int);
                    assert forall|x: Seq<char>| #[trigger] as_map(f).contains_key(x) == as_map(e).insert(k, item).contains_key(x) by {
                        if has_key(e, x) {
                            let j = choose|j: int| 0 <= j < e.len() && e[j].0 == x;
                            assert(f[j].0 == x);
                        }
                        if has_key(f, x) {
                            let j = choose|j: int| 0 <= j < f.len() && f[j].0 == x;
                            assert(j == i || e[j].0 == x);
                        }
                    }
                    assert forall|x: Seq<char>| #[trigger] as_map(f).contains_key(x) && x != k implies as_map(f)[x] == as_map(e)[x] by {
                        let j = choose|j: int| 0 <= j < f.len() && f[j].0 == x;
                        assert(j != i);
                        lemma_as_map_at(f, j);
                        lemma_as_map_at(e, j);
                    }
                    assert(as_map(f) =~= as_map(e).insert(k, item));
                }
            },
            None => {
                self.entries.push((id, item));
                proof {
                    let f = e.push((k, item));
                    assert(self.entries() =~= f);
                    assert(distinct_keys(f)) by {
                        assert forall|a: int, b: int| 0 <= a < b < f.len() implies f[a].0 != f[b].0 by {
                            if b < e.len() {
                                assert(e[a].0 != e[b].0);
                            } else {
                                assert(e[a].0 != k);
                            }
                        }
                    }
                    lemma_as_map_at(f, e.len() as int);
                    assert forall|x: Seq<char>| #[trigger] as_map(f).contains_key(x) == as_map(e).insert(k, item).contains_key(x) by {
                        if has_key(e, x) {
                            let j = choose|j: int| 0 <= j < e.len() && e[j].0 == x;
                            assert(f[j].0 == x);
                        }
                        if has_key(f, x) && x != k {
                            let j = choose|j: int| 0 <= j < f.len() && f[j].0 == x;
                            assert(e[j].0 == x);
                        }
                    }
                    assert forall|x: Seq<char>| #[trigger] as_map(f).contains_key(x) && x != k implies as_map(f)[x] == as_map(e)[x] by {
                        let j = choose|j: int| 0 <= j < f.len() && f[j].0 == x;
                        assert(j < e.len());
                        lemma_as_map_at(f, j);
                        lemma_as_map_at(e, j);
                    }
                    assert(as_map(f) =~= as_map(e).insert(k, item));
                }
            },
        }
    }

    /// Takes the job filed under `id`, if any.
    pub fn remove(&mut self, id: &JobId) -> (r: Option<R>)
        requires
            old(self).wf(),
        ensures
            final(self).wf(),
            r == (if old(self).view().contains_key(id@) {
                Some(old(self).view()[id@])
            } else {
                None::<R>
            }),
            final(self).view() == old(self).view().remove(id@),
    {
        let ghost e = self.entries();
        let ghost k = id@;
        match self.find(id) {
            Some(i) => {
                proof {
                    lemma_as_map_at(e, i as int);
                }
                let (_, item) = self.entries.remove(i);
                proof {
                    let f = e.remove(i as int);
                    assert(self.entries() =~= f);
                    assert(distinct_keys(f)) by {
                        assert forall|a: int, b: int| 0 <= a < b < f.len() implies f[a].0 != f[b].0 by {
                            if b < i {
                                assert(e[a].0 != e[b].0);
                            } else if a < i {
                                assert(e[a].0 != e[b + 1].0);
                            } else {
                                assert(e[a + 1].0 != e[b + 1].0);
                            }
                        }
                    }
                    assert forall|x: Seq<char>| #[trigger] as_map(f).contains_key(x) == as_map(e).remove(k).contains_key(x) by {
                        if has_key(f, x) {
                            let j = choose|j: int| 0 <= j < f.len() && f[j].0 == x;
                            if j < i {
                                assert(e[j].0 == x);
                                assert(e[j].0 != e[i as int].0);
                            } else {
                                assert(e[j + 1].0 == x);
                                assert(e[i as int].0 != e[j + 1].0);
                            }
                        }
                        if has_key(e, x) && x != k {
                            let j = choose|j: int| 0 <= j < e.len() && e[j].0 == x;
                            if j < i {
                                assert(f[j].0 == x);
                            } else {
                                assert(j != i);
                                assert(f[j - 1].0 == x);
                            }
                        }
                    }
                    assert forall|x: Seq<char>| #[trigger] as_map(f).contains_key(x) implies as_map(f)[x] == as_map(e)[x] by {
                        let j = choose|j: int| 0 <= j < f.len() && f[j].0 == x;
                        lemma_as_map_at(f, j);
                        if j < i {
                            lemma_as_map_at(e, j);
                        } else {
                            lemma_as_map_at(e, j + 1);
                        }
                    }
                    assert(as_map(f) =~= as_map(e).remove(k));
                }
                Some(item)
            },
            None => {
                assert(as_map(e).remove(k) =~= as_map(e));
                None
            },
        }
    }
}

pub open spec fn entries_of<R>(v: Seq<(JobId, R)>) -> Seq<(Seq<char>, R)> {
    v.map_values(|e: (JobId, R)| (e.0@, e.1))
}

/// The entries of `e` whose job is still valid, as a map.
pub open spec fn live_map<R: IsValid>(m: Map<Seq<char>, R>) -> Map<Seq<char>, R> {
    m.restrict(m.dom().filter(|k: Seq<char>| m[k].valid()))
}

impl<R: IsValid> Ongoing<R> {
    /// Drops every job that is no longer valid.
    pub fn garbage_collect(&mut self)
        requires
            old(self).wf(),
        ensures
            final(self).wf(),
            final(self).view() == live_map(old(self).view()),
    {
        let ghost e = self.entries();
        let n = self.entries.len();
        let mut kept: Vec<(JobId, R)> = Vec::new();
        let ghost mut src: Seq<int> = Seq::empty();
        while self.entries.len() > 0
            invariant
                n == e.len(),
                distinct_keys(e),
                self.entries@.len() <= n,
                entries_of(self.entries@) == e.subrange(0, self.entries@.len() as int),
                distinct_keys(entries_of(kept@)),
                src.len() == kept@.len(),
                forall|a: int|
                    0 <= a < kept@.len() ==> self.entries@.len() <= #[trigger] src[a] < n
                        && entries_of(kept@)[a] == e[src[a]] && e[src[a]].1.valid(),
                forall|j: int|
                    self.entries@.len() <= j < n && (#[trigger] e[j]).1.valid() ==> has_key(
                        entries_of(kept@),
                        e[j].0,
                    ),
            decreases self.entries@.len(),
        {
            let ghost m = self.entries@.len() as int;
            let ghost kv = entries_of(kept@);
            let ghost before = self.entries@;
            let (id, item) = match self.entries.pop() {
                Some(x) => x,
                None => {
                    proof {
                        assert(false);
                    }
                    return;
                },
            };
            proof {
                assert(entries_of(before)[m - 1] == (id@, item));
                assert(e.subrange(0, m)[m - 1] == e[m - 1]);
                assert(e[m - 1] == (id@, item));
                assert(entries_of(self.entries@) =~= e.subrange(0, m - 1));
            }
            if item.is_valid() {
                let ghost key = id@;
                kept.push((id, item));
                proof {
                    let kv2 = entries_of(kept@);
                    assert(kv2 =~= kv.push((key, item)));
                    assert(distinct_keys(kv2)) by {
                        assert forall|a: int, b: int| 0 <= a < b < kv2.len() implies kv2[a].0
                            != kv2[b].0 by {
                            if b < kv.len() {
                                assert(kv[a].0 != kv[b].0);
                            } else {
                                assert(kv2[a] == kv[a]);
                                assert(kv[a] == e[src[a]]);
                                assert(e[src[a]].0 != e[m - 1].0);
                            }
                        }
                    }
                    assert forall|j: int| m - 1 <= j < n && (#[trigger] e[j]).1.valid() implies has_key(
                        kv2,
                        e[j].0,
                    ) by {
                        if j == m - 1 {
                            assert(kv2[kv.len() as int].0 == e[j].0);
                        } else {
                            let a = choose|a: int| 0 <= a < kv.len() && kv[a].0 == e[j].0;
                            assert(kv2[a].0 == e[j].0);
                        }
                    }
                    src = src.push(m - 1);
                    assert forall|a: int| 0 <= a < kept@.len() implies m - 1 <= #[trigger] src[a]
                        < n && entries_of(kept@)[a] == e[src[a]] && e[src[a]].1.valid() by {
                        if a < kv.len() {
                            assert(kv2[a] == kv[a]);
                        }
                    }
                }
            }
        }
        let ghost kv = entries_of(kept@);
        self.entries = kept;
        proof {
            assert(self.entries() == kv);
            let target = live_map(as_map(e));
            assert forall|x: Seq<char>| #[trigger] as_map(kv).contains_key(x)
                == target.contains_key(x) by {
                if has_key(kv, x) {
                    let a = choose|a: int| 0 <= a < kv.len() && kv[a].0 == x;
                    lemma_as_map_at(e, src[a]);
                }
                if target.contains_key(x) {
                    let j = choose|j: int| 0 <= j < e.len() && e[j].0 == x;
                    lemma_as_map_at(e, j);
                    assert(e[j].1.valid());
                }
            }
            assert forall|x: Seq<char>| #[trigger] as_map(kv).contains_key(x) implies as_map(kv)[x]
                == target[x] by {
                let a = choose|a: int| 0 <= a < kv.len() && kv[a].0 == x;
                lemma_as_map_at(kv, a);
                lemma_as_map_at(e, src[a]);
            }
            assert(as_map(kv) =~= target);
        }
    }
}

} // verus!
