//! Pending jobs, one FIFO queue per provider selector.
use vstd::prelude::*;
use std::collections::VecDeque;
use crate::ids::ProviderSelector;

verus! {

/// Most jobs waiting under one selector; more are dropped.
pub const MAX_ITEMS: usize = 1024;

/// Independently locked hubs that the selectors are spread over.
pub const HUB_SHARDS: usize = 64;

/// The shard that a key with hash `hash` belongs to, of `shards`.
pub fn shard_of(hash: u64, shards: usize) -> (r: usize)
    requires
        shards > 0,
    ensures
        r == hash % (shards as u64),
        r < shards,
{
    (hash % (shards as u64)) as usize
}

/// Whether a queued item is still wanted (its requester has not gone away).
/// `valid` is the predicate the contracts speak of; `is_valid` must return it.
pub trait IsValid {
    spec fn valid(&self) -> bool;

    fn is_valid(&self) -> (r: bool)
        ensures
            r == self.valid(),
    ;
}

/// The items still valid, in order.
pub open spec fn live<R: IsValid>(q: Seq<R>) -> Seq<R> {
    q.filter(|x: R| x.valid())
}

/// Index of the first valid item, or the length.
pub open spec fn first_valid<R: IsValid>(q: Seq<R>) -> int
    decreases q.len(),
{
    if q.len() == 0 {
        0
    } else if q[0].valid() {
        0
    } else {
        1 + first_valid(q.drop_first())
    }
}

/// The queue after offering `item`: appended below the cap, else unchanged.
pub open spec fn submit_spec<R>(q: Seq<R>, item: R) -> Seq<R> {
    if q.len() < MAX_ITEMS {
        q.push(item)
    } else {
        q
    }
}

/// What acquiring returns, and the queue left: invalid items at the front
/// are dropped, the first valid one is taken.
pub open spec fn acquire_spec<R: IsValid>(q: Seq<R>) -> (Option<R>, Seq<R>) {
    let i = first_valid(q);
    if i < q.len() {
        (Some(q[i]), q.subrange(i + 1, q.len() as int))
    } else {
        (None, Seq::empty())
    }
}

pub proof fn lemma_first_valid<R: IsValid>(q: Seq<R>)
    ensures
        0 <= first_valid(q) <= q.len(),
        first_valid(q) < q.len() ==> q[first_valid(q)].valid(),
        forall|j: int| 0 <= j < first_valid(q) ==> !(#[trigger] q[j]).valid(),
    decreases q.len(),
{
    if q.len() > 0 && !q[0].valid() {
        lemma_first_valid(q.drop_first());
        assert forall|j: int| 0 <= j < first_valid(q) implies !(#[trigger] q[j]).valid() by {
            if j > 0 {
                assert(q[j] == q.drop_first()[j - 1]);
            }
        }
    }
}

/// Jobs waiting under one selector, oldest first.
pub struct Queue<R> {
    items: VecDeque<R>,
}

impl<R: IsValid> Queue<R> {
    pub closed spec fn view(&self) -> Seq<R> {
        self.items@
    }

    pub fn new() -> (r: Queue<R>)
        ensures
            r.view() == Seq::<R>::empty(),
    {
        Queue { items: VecDeque::new() }
    }

    pub fn len(&self) -> (r: usize)
        ensures
            r == self.view().len(),
    {
        self.items.len()
    }

    /// Appends `item` unless the queue is full; says whether it did.
    pub fn submit(&mut self, item: R) -> (r: bool)
        ensures
            r == (old(self).view().len() < MAX_ITEMS),
            final(self).view() == submit_spec(old(self).view(), item),
    {
        if self.items.len() < MAX_ITEMS {
            self.items.push_back(item);
            true
        } else {
            false
        }
    }

    /// Takes the oldest valid item, dropping the invalid ones before it.
    pub fn acquire(&mut self) -> (r: Option<R>)
        ensures
            (r, final(self).view()) == acquire_spec(old(self).view()),
            r matches Some(x) ==> x.valid(),
            final(self).view().len() <= old(self).view().len(),
    {
        let ghost q = self.view();
        proof {
            lemma_first_valid(q);
        }
        loop
            invariant
                q == old(self).view(),
                0 <= q.len() - self.view().len() <= first_valid(q),
                self.view() == q.subrange(q.len() - self.view().len(), q.len() as int),
                0 <= first_valid(q) <= q.len(),
                first_valid(q) < q.len() ==> q[first_valid(q)].valid(),
                forall|j: int| 0 <= j < first_valid(q) ==> !(#[trigger] q[j]).valid(),
            decreases self.view().len(),
        {
            let ghost taken = q.len() - self.view().len();
            match self.items.pop_front() {
                Some(item) => {
                    assert(item == q[taken]);
                    if item.is_valid() {
                        assert(taken == first_valid(q));
                        assert(self.view() =~= q.subrange(taken + 1, q.len() as int));
                        return Some(item);
                    }
                    assert(self.view() =~= q.subrange(taken + 1, q.len() as int));
                },
                None => {
                    assert(self.view() =~= Seq::<R>::empty());
                    return None;
                },
            }
        }
    }

    /// Drops every invalid item, keeping the order of the rest.
    pub fn garbage_collect(&mut self)
        ensures
            final(self).view() == live(old(self).view()),
            final(self).view().len() <= old(self).view().len(),
    {
        let ghost q = self.view();
        let n = self.items.len();
        let mut i: usize = 0;
        while i < n
            invariant
                i <= n,
                n == q.len(),
                self.view() == q.subrange(i as int, n as int) + live(q.subrange(0, i as int)),
            decreases n - i,
        {
            let item = match self.items.pop_front() {
                Some(item) => item,
                None => {
                    proof {
                        assert(false) by {
                            assert(self.view().len() > 0);
                        }
                    }
                    return;
                },
            };
            proof {
                assert(item == q[i as int]);
                let kept = live(q.subrange(0, i as int));
                assert(q.subrange(0, i as int + 1).drop_last() =~= q.subrange(0, i as int));
                reveal(Seq::filter);
                assert(live(q.subrange(0, i as int + 1)) == if item.valid() {
                    kept.push(item)
                } else {
                    kept
                });
            }
            if item.is_valid() {
                self.items.push_back(item);
            }
            proof {
                assert(self.view() =~= q.subrange(i as int + 1, n as int) + live(q.subrange(0, i as int + 1)));
            }
            i = i + 1;
        }
        assert(q.subrange(0, n as int) =~= q);
        assert(self.view() =~= live(q));
        proof {
            q.lemma_filter_len(|x: R| x.valid());
        }
    }
}

/// An operation on one selector's queue.
pub enum QueueOp<R> {
    Submit(R),
    Acquire,
}

/// The queue after `ops` run on `q`, and what each acquire returned.
pub open spec fn run<R: IsValid>(q: Seq<R>, ops: Seq<QueueOp<R>>) -> (Seq<R>, Seq<Option<R>>)
    decreases ops.len(),
{
    if ops.len() == 0 {
        (q, Seq::empty())
    } else {
        let (q1, outs) = run(q, ops.drop_last());
        match ops.last() {
            QueueOp::Submit(x) => (submit_spec(q1, x), outs),
            QueueOp::Acquire => {
                let (r, q2) = acquire_spec(q1);
                (q2, outs.push(r))
            },
        }
    }
}

/// The jobs submitted by `ops`, in order.
pub open spec fn submitted<R>(ops: Seq<QueueOp<R>>) -> Seq<R>
    decreases ops.len(),
{
    if ops.len() == 0 {
        Seq::empty()
    } else {
        match ops.last() {
            QueueOp::Submit(x) => submitted(ops.drop_last()).push(x),
            QueueOp::Acquire => submitted(ops.drop_last()),
        }
    }
}

/// The jobs that acquires returned, in order.
pub open spec fn somes<R>(outs: Seq<Option<R>>) -> Seq<R>
    decreases outs.len(),
{
    if outs.len() == 0 {
        Seq::empty()
    } else {
        match outs.last() {
            Some(x) => somes(outs.drop_last()).push(x),
            None => somes(outs.drop_last()),
        }
    }
}

/// First in, first out: starting from an empty queue, with valid jobs only
/// and no more than `MAX_ITEMS` submitted, the jobs acquires return are the
/// submitted ones in submission order, and the queue holds the rest.
pub proof fn lemma_fifo<R: IsValid>(ops: Seq<QueueOp<R>>)
    requires
        submitted(ops).len() <= MAX_ITEMS,
        forall|k: int| 0 <= k < submitted(ops).len() ==> (#[trigger] submitted(ops)[k]).valid(),
    ensures
        somes(run(Seq::empty(), ops).1).len() <= submitted(ops).len(),
        somes(run(Seq::empty(), ops).1) == submitted(ops).take(
            somes(run(Seq::empty(), ops).1).len() as int,
        ),
        run(Seq::empty(), ops).0 == submitted(ops).skip(somes(run(Seq::empty(), ops).1).len() as int),
    decreases ops.len(),
{
    if ops.len() > 0 {
        let prev = ops.drop_last();
        let sub = submitted(ops);
        let psub = submitted(prev);
        assert(psub.len() <= sub.len());
        assert forall|k: int| 0 <= k < psub.len() implies (#[trigger] psub[k]).valid() by {
            assert(psub[k] == sub[k]);
        }
        lemma_fifo(prev);
        let (q1, outs) = run(Seq::empty(), prev);
        let got = somes(outs);
        match ops.last() {
            QueueOp::Submit(x) => {
                assert(sub == psub.push(x));
                assert(q1.len() == psub.len() - got.len());
                assert(q1.len() < MAX_ITEMS);
                assert(got =~= sub.take(got.len() as int));
                assert(q1.push(x) =~= sub.skip(got.len() as int));
            },
            QueueOp::Acquire => {
                assert(sub == psub);
                if q1.len() == 0 {
                    assert(first_valid(q1) == 0);
                    assert(somes(outs.push(None)) == got) by {
                        assert(outs.push(None).drop_last() =~= outs);
                    }
                } else {
                    assert(q1.len() == psub.len() - got.len());
                    assert(q1[0] == sub[got.len() as int]);
                    assert(first_valid(q1) == 0);
                    assert(somes(outs.push(Some(q1[0]))) == got.push(q1[0])) by {
                        assert(outs.push(Some(q1[0])).drop_last() =~= outs);
                    }
                    assert(got.push(q1[0]) =~= sub.take(got.len() as int + 1));
                    assert(q1.subrange(1, q1.len() as int) =~= sub.skip(got.len() as int + 1));
                }
            },
        }
    }
}

/// Offering a valid job to an empty queue and acquiring at once gives that
/// job back and leaves the queue empty.
pub proof fn lemma_submit_then_acquire<R: IsValid>(item: R)
    requires
        item.valid(),
    ensures
        acquire_spec(submit_spec(Seq::<R>::empty(), item)) == (Some(item), Seq::<R>::empty()),
{
    let q = submit_spec(Seq::<R>::empty(), item);
    assert(q =~= seq![item]);
    assert(first_valid(q) == 0);
    assert(q.subrange(1, 1) =~= Seq::<R>::empty());
}

/// The queue of `s` among `e`: empty where `s` has no entry.
pub open spec fn lookup<R>(e: Seq<(Seq<char>, Seq<R>)>, s: Seq<char>) -> Seq<R> {
    let i = entry_index(e, s);
    if 0 <= i < e.len() {
        e[i].1
    } else {
        Seq::empty()
    }
}

pub open spec fn keys_distinct<R>(e: Seq<(Seq<char>, Seq<R>)>) -> bool {
    forall|a: int, b: int| 0 <= a < b < e.len() ==> e[a].0 != e[b].0
}

/// The pending jobs of all selectors. A selector without an entry has an
/// empty queue.
pub struct Hub<R> {
    queues: Vec<(ProviderSelector, Queue<R>)>,
}

impl<R: IsValid> Hub<R> {
    /// Selectors are distinct and no queue is over the cap.
    pub open spec fn wf(&self) -> bool {
        &&& keys_distinct(self.entries())
        &&& forall|a: int|
            0 <= a < self.entries().len() ==> (#[trigger] self.entries()[a]).1.len() <= MAX_ITEMS
    }

    /// The selectors and their queues.
    pub closed spec fn entries(&self) -> Seq<(Seq<char>, Seq<R>)> {
        self.queues@.map_values(|e: (ProviderSelector, Queue<R>)| (e.0@, e.1.view()))
    }

    /// The queue of selector `s`.
    pub open spec fn queue(&self, s: Seq<char>) -> Seq<R> {
        lookup(self.entries(), s)
    }

    pub fn new() -> (r: Hub<R>)
        ensures
            r.wf(),
            forall|s: Seq<char>| r.queue(s) == Seq::<R>::empty(),
    {
        let r = Hub { queues: Vec::new() };
        assert(r.entries() =~= Seq::<(Seq<char>, Seq<R>)>::empty());
        r
    }

    fn find(&self, selector: &ProviderSelector) -> (r: Option<usize>)
        ensures
            match r {
                Some(i) => i < self.entries().len() && self.entries()[i as int].0 == selector@,
                None => forall|j: int|
                    0 <= j < self.entries().len() ==> self.entries()[j].0 != selector@,
            },
    {
        let mut i: usize = 0;
        while i < self.queues.len()
            invariant
                i <= self.queues@.len(),
                forall|j: int| 0 <= j < i ==> self.entries()[j].0 != selector@,
            decreases self.queues.len() - i,
        {
            if self.queues[i].0 == *selector {
                return Some(i);
            }
            i = i + 1;
        }
        None
    }

    /// Offers `item` to the queue of `selector`; says whether it was taken
    /// (it is not when that queue holds `MAX_ITEMS` jobs).
    pub fn submit(&mut self, selector: ProviderSelector, item: R) -> (r: bool)
        requires
            old(self).wf(),
        ensures
            final(self).wf(),
            r == (old(self).queue(selector@).len() < MAX_ITEMS),
            final(self).queue(selector@) == submit_spec(old(self).queue(selector@), item),
            forall|s: Seq<char>| s != selector@ ==> final(self).queue(s) == old(self).queue(s),
    {
        let ghost e = self.entries();
        match self.find(&selector) {
            Some(i) => {
                let ghost before = e[i as int].1;
                proof {
                    lemma_lookup_at(e, i as int);
                }
                let mut entry = self.queues.remove(i);
                let taken = entry.1.submit(item);
                self.queues.insert(i, entry);
                proof {
                    let f = e.update(i as int, (selector@, submit_spec(before, item)));
                    assert(self.entries() =~= f);
                    lemma_update_entry(e, i as int, submit_spec(before, item));
                }
                taken
            },
            None => {
                proof {
                    lemma_lookup_absent(e, selector@);
                }
                let mut q = Queue::new();
                q.submit(item);
                let ghost s = selector@;
                self.queues.push((selector, q));
                proof {
                    assert(seq![item] =~= Seq::<R>::empty().push(item));
                    assert(self.entries() =~= e.push((s, seq![item])));
                    lemma_push_entry(e, s, seq![item]);
                }
                true
            },
        }
    }

    /// Takes the oldest valid job of `selector`, dropping invalid ones before
    /// it; `None` when no valid job is waiting.
    pub fn acquire(&mut self, selector: &ProviderSelector) -> (r: Option<R>)
        requires
            old(self).wf(),
        ensures
            final(self).wf(),
            (r, final(self).queue(selector@)) == acquire_spec(old(self).queue(selector@)),
            r matches Some(x) ==> x.valid(),
            forall|s: Seq<char>| s != selector@ ==> final(self).queue(s) == old(self).queue(s),
    {
        let ghost e = self.entries();
        match self.find(selector) {
            Some(i) => {
                proof {
                    lemma_lookup_at(e, i as int);
                }
                let mut entry = self.queues.remove(i);
                let r = entry.1.acquire();
                let ghost after = entry.1.view();
                self.queues.insert(i, entry);
                proof {
                    assert(self.entries() =~= e.update(i as int, (selector@, after)));
                    lemma_update_entry(e, i as int, after);
                }
                r
            },
            None => {
                proof {
                    lemma_lookup_absent(e, selector@);
                    lemma_first_valid(Seq::<R>::empty());
                }
                None
            },
        }
    }

    /// Drops the invalid jobs of every queue, then the queues left empty.
    pub fn garbage_collect(&mut self)
        requires
            old(self).wf(),
        ensures
            final(self).wf(),
            forall|s: Seq<char>|
                final(self).queue(s) == live(old(self).queue(s)),
            forall|a: int|
                0 <= a < final(self).entries().len() ==> (#[trigger] final(self).entries()[a]).1.len()
                    > 0,
    {
        let ghost e = self.entries();
        let n = self.queues.len();
        let mut i: usize = 0;
        while i < n
            invariant
                i <= n,
                n == e.len(),
                self.entries().len() == n,
                keys_distinct(e),
                e == old(self).entries(),
                forall|j: int| 0 <= j < n ==> (#[trigger] self.entries()[j]).1.len() <= MAX_ITEMS,
                forall|j: int| 0 <= j < n ==> (#[trigger] e[j]).1.len() <= MAX_ITEMS,
                forall|j: int| 0 <= j < n ==> (#[trigger] self.entries()[j]).0 == e[j].0,
                forall|j: int|
                    0 <= j < n ==> (#[trigger] self.entries()[j]).1 == if j < i {
                        live(e[j].1)
                    } else {
                        e[j].1
                    },
            decreases n - i,
        {
            let ghost before = self.entries();
            let mut entry = self.queues.remove(i);
            let ghost key = entry.0@;
            entry.1.garbage_collect();
            let ghost after = entry.1.view();
            self.queues.insert(i, entry);
            proof {
                assert(key == before[i as int].0);
                assert(self.entries() =~= before.update(i as int, (key, after)));
                assert forall|j: int| 0 <= j < n implies (#[trigger] self.entries()[j]).0 == e[j].0
                    && self.entries()[j].1.len() <= MAX_ITEMS by {
                    if j != i {
                        assert(self.entries()[j] == before[j]);
                    }
                }
            }
            i = i + 1;
        }
        let ghost filtered = self.entries();
        proof {
            assert forall|s: Seq<char>| lookup(filtered, s) == live(lookup(e, s))
                by {
                lemma_filter_lookup(e, filtered, s);
            }
        }
        let mut j: usize = n;
        while j > 0
            invariant
                j <= self.entries().len(),
                e == old(self).entries(),
                forall|s: Seq<char>| lookup(filtered, s) == live(lookup(e, s)),
                keys_distinct(self.entries()),
                forall|s: Seq<char>| lookup(self.entries(), s) == lookup(filtered, s),
                forall|a: int| j <= a < self.entries().len() ==> (#[trigger] self.entries()[a]).1.len() > 0,
                forall|a: int|
                    0 <= a < self.entries().len() ==> (#[trigger] self.entries()[a]).1.len()
                        <= MAX_ITEMS,
            decreases j,
        {
            j = j - 1;
            if self.queues[j].1.len() == 0 {
                let ghost before = self.entries();
                self.queues.remove(j);
                proof {
                    assert(self.entries() =~= before.remove(j as int));
                    lemma_remove_empty_entry(before, j as int);
                }
            }
        }
        assert forall|s: Seq<char>| self.queue(s) == live(old(self).queue(s)) by {
            assert(lookup(self.entries(), s) == lookup(filtered, s));
            assert(lookup(filtered, s) == live(lookup(e, s)));
        }
    }
}

/// Index of the entry for `s` at or after `i`, or -1.
pub open spec fn entry_index_from<R>(e: Seq<(Seq<char>, Seq<R>)>, s: Seq<char>, i: int) -> int
    decreases e.len() - i,
{
    if i < 0 || i >= e.len() {
        -1
    } else if e[i].0 == s {
        i
    } else {
        entry_index_from(e, s, i + 1)
    }
}

pub open spec fn entry_index<R>(e: Seq<(Seq<char>, Seq<R>)>, s: Seq<char>) -> int {
    entry_index_from(e, s, 0)
}

proof fn lemma_entry_index_from<R>(e: Seq<(Seq<char>, Seq<R>)>, s: Seq<char>, i: int)
    requires
        0 <= i,
    ensures
        entry_index_from(e, s, i) == -1 || (i <= entry_index_from(e, s, i) < e.len() && e[entry_index_from(e, s, i)].0 == s),
        entry_index_from(e, s, i) == -1 ==> forall|j: int| i <= j < e.len() ==> e[j].0 != s,
    decreases e.len() - i,
{
    if i < e.len() && e[i].0 != s {
        lemma_entry_index_from(e, s, i + 1);
    }
}

/// With distinct keys, the queue of a key is the one stored with it.
proof fn lemma_lookup_at<R>(e: Seq<(Seq<char>, Seq<R>)>, j: int)
    requires
        0 <= j < e.len(),
        keys_distinct(e),
    ensures
        lookup(e, e[j].0) == e[j].1,
{
    lemma_entry_index_from(e, e[j].0, 0);
    let i = entry_index(e, e[j].0);
    if i != j && i >= 0 {
        if i < j {
            assert(e[i].0 != e[j].0);
        } else {
            assert(e[j].0 != e[i].0);
        }
    }
}

/// A key without an entry has the empty queue.
proof fn lemma_lookup_absent<R>(e: Seq<(Seq<char>, Seq<R>)>, s: Seq<char>)
    requires
        forall|j: int| 0 <= j < e.len() ==> e[j].0 != s,
    ensures
        lookup(e, s) == Seq::<R>::empty(),
{
    lemma_entry_index_from(e, s, 0);
}

/// Where distinct keys are found, and only those.
proof fn lemma_lookup_cases<R>(e: Seq<(Seq<char>, Seq<R>)>, s: Seq<char>)
    requires
        keys_distinct(e),
    ensures
        (exists|j: int| 0 <= j < e.len() && e[j].0 == s) || lookup(e, s) == Seq::<R>::empty(),
        forall|j: int| 0 <= j < e.len() && e[j].0 == s ==> lookup(e, s) == e[j].1,
{
    assert forall|j: int| 0 <= j < e.len() && e[j].0 == s implies lookup(e, s) == e[j].1 by {
        lemma_lookup_at(e, j);
    }
    if !(exists|j: int| 0 <= j < e.len() && e[j].0 == s) {
        lemma_lookup_absent(e, s);
    }
}

proof fn lemma_update_entry<R>(e: Seq<(Seq<char>, Seq<R>)>, i: int, q: Seq<R>)
    requires
        0 <= i < e.len(),
        keys_distinct(e),
    ensures
        keys_distinct(e.update(i, (e[i].0, q))),
        lookup(e.update(i, (e[i].0, q)), e[i].0) == q,
        forall|t: Seq<char>| t != e[i].0 ==> lookup(e.update(i, (e[i].0, q)), t) == lookup(e, t),
{
    let f = e.update(i, (e[i].0, q));
    assert(keys_distinct(f)) by {
        assert forall|a: int, b: int| 0 <= a < b < f.len() implies f[a].0 != f[b].0 by {
            assert(e[a].0 != e[b].0);
        }
    }
    lemma_lookup_at(f, i);
    assert forall|t: Seq<char>| t != e[i].0 implies lookup(f, t) == lookup(e, t) by {
        lemma_lookup_cases(e, t);
        lemma_lookup_cases(f, t);
        if exists|j: int| 0 <= j < e.len() && e[j].0 == t {
            let j = choose|j: int| 0 <= j < e.len() && e[j].0 == t;
            assert(f[j] == e[j]);
        } else {
            assert forall|j: int| 0 <= j < f.len() implies f[j].0 != t by {
                if j != i {
                    assert(f[j] == e[j]);
                }
            }
            lemma_lookup_absent(f, t);
        }
    }
}

proof fn lemma_push_entry<R>(e: Seq<(Seq<char>, Seq<R>)>, s: Seq<char>, q: Seq<R>)
    requires
        forall|j: int| 0 <= j < e.len() ==> e[j].0 != s,
        keys_distinct(e),
    ensures
        keys_distinct(e.push((s, q))),
        lookup(e.push((s, q)), s) == q,
        forall|t: Seq<char>| t != s ==> lookup(e.push((s, q)), t) == lookup(e, t),
{
    let f = e.push((s, q));
    assert(keys_distinct(f)) by {
        assert forall|a: int, b: int| 0 <= a < b < f.len() implies f[a].0 != f[b].0 by {
            if b < e.len() {
                assert(e[a].0 != e[b].0);
            } else {
                assert(e[a].0 != s);
            }
        }
    }
    lemma_lookup_at(f, e.len() as int);
    assert forall|t: Seq<char>| t != s implies lookup(f, t) == lookup(e, t) by {
        lemma_lookup_cases(e, t);
        lemma_lookup_cases(f, t);
        if exists|j: int| 0 <= j < e.len() && e[j].0 == t {
            let j = choose|j: int| 0 <= j < e.len() && e[j].0 == t;
            assert(f[j] == e[j]);
        } else {
            assert forall|j: int| 0 <= j < f.len() implies f[j].0 != t by {
                if j < e.len() {
                    assert(f[j] == e[j]);
                }
            }
            lemma_lookup_absent(f, t);
        }
    }
}

/// Filtering every queue in place filters the queue of every key.
proof fn lemma_filter_lookup<R: IsValid>(
    e: Seq<(Seq<char>, Seq<R>)>,
    f: Seq<(Seq<char>, Seq<R>)>,
    s: Seq<char>,
)
    requires
        keys_distinct(e),
        f.len() == e.len(),
        forall|j: int| 0 <= j < e.len() ==> (#[trigger] f[j]).0 == e[j].0,
        forall|j: int| 0 <= j < e.len() ==> (#[trigger] f[j]).1 == live(e[j].1),
    ensures
        keys_distinct(f),
        lookup(f, s) == live(lookup(e, s)),
{
    assert(keys_distinct(f)) by {
        assert forall|a: int, b: int| 0 <= a < b < f.len() implies f[a].0 != f[b].0 by {
            assert(e[a].0 != e[b].0);
        }
    }
    lemma_lookup_cases(e, s);
    lemma_lookup_cases(f, s);
    if exists|j: int| 0 <= j < e.len() && e[j].0 == s {
        let j = choose|j: int| 0 <= j < e.len() && e[j].0 == s;
        assert(f[j].0 == s);
    } else {
        assert forall|j: int| 0 <= j < f.len() implies f[j].0 != s by {
            assert(f[j].0 == e[j].0);
        }
        lemma_lookup_absent(f, s);
        assert(live(Seq::<R>::empty()) =~= Seq::<R>::empty()) by {
            reveal(Seq::filter);
        }
    }
}

/// Dropping an entry whose queue is empty changes no queue.
proof fn lemma_remove_empty_entry<R>(e: Seq<(Seq<char>, Seq<R>)>, j: int)
    requires
        0 <= j < e.len(),
        keys_distinct(e),
        e[j].1.len() == 0,
    ensures
        keys_distinct(e.remove(j)),
        forall|s: Seq<char>| lookup(e.remove(j), s) == lookup(e, s),
{
    let f = e.remove(j);
    assert(keys_distinct(f)) by {
        assert forall|a: int, b: int| 0 <= a < b < f.len() implies f[a].0 != f[b].0 by {
            if b < j {
                assert(e[a].0 != e[b].0);
            } else if a < j {
                assert(e[a].0 != e[b + 1].0);
            } else {
                assert(e[a + 1].0 != e[b + 1].0);
            }
        }
    }
    assert forall|s: Seq<char>| lookup(f, s) == lookup(e, s) by {
        lemma_lookup_cases(e, s);
        lemma_lookup_cases(f, s);
        if exists|k: int| 0 <= k < f.len() && f[k].0 == s {
            let k = choose|k: int| 0 <= k < f.len() && f[k].0 == s;
            if k < j {
                assert(f[k] == e[k]);
            } else {
                assert(f[k] == e[k + 1]);
            }
        } else {
            if exists|k: int| 0 <= k < e.len() && e[k].0 == s {
                let k = choose|k: int| 0 <= k < e.len() && e[k].0 == s;
                if k < j {
                    assert(f[k] == e[k]);
                } else if k > j {
                    assert(f[k - 1] == e[k]);
                }
                assert(e[k].1 =~= Seq::<R>::empty());
            }
        }
    }
}

} // verus!
