//! The state that the workers share: a work queue that hands out each input
//! exactly once, and the record of what became of every item. Each operation
//! is one atomic step; callers that run workers in parallel serialise the steps
//! behind a lock.
use vstd::prelude::*;
use crate::invoke::Outcome;

verus! {

/// What became of the item at `index` of the input list.
#[derive(Debug)]
pub struct ItemRecord {
    pub index: usize,
    pub outcome: Outcome,
}

/// Number of `true` entries.
pub open spec fn count_true(s: Seq<bool>) -> nat
    decreases s.len(),
{
    if s.len() == 0 {
        0
    } else {
        count_true(s.drop_last()) + if s.last() {
            1nat
        } else {
            0nat
        }
    }
}

/// Number of records whose outcome is a success.
pub open spec fn count_success(rs: Seq<ItemRecord>) -> nat
    decreases rs.len(),
{
    if rs.len() == 0 {
        0
    } else {
        count_success(rs.drop_last()) + if rs.last().outcome.is_success() {
            1nat
        } else {
            0nat
        }
    }
}

pub open spec fn views(v: Seq<String>) -> Seq<Seq<char>> {
    v.map_values(|s: String| s@)
}

/// The work queue over a fixed list of inputs, handed out in order and each
/// exactly once, together with the outcome records of the items.
pub struct Dispatcher {
    items: Vec<String>,
    next: usize,
    done: Vec<bool>,
    records: Vec<ItemRecord>,
}

impl Dispatcher {
    /// The inputs, in the order given.
    pub closed spec fn items(&self) -> Seq<Seq<char>> {
        views(self.items@)
    }

    /// How many items the queue has handed out: exactly those below this index.
    pub closed spec fn taken(&self) -> nat {
        self.next as nat
    }

    /// Which items have a recorded outcome.
    pub closed spec fn done(&self) -> Seq<bool> {
        self.done@
    }

    /// The outcome records, in the order they were made.
    pub closed spec fn records(&self) -> Seq<ItemRecord> {
        self.records@
    }

    pub closed spec fn wf(&self) -> bool {
        &&& self.done@.len() == self.items@.len()
        &&& self.next <= self.items@.len()
        &&& count_true(self.done@) == self.records@.len()
        &&& forall|k: int|
            0 <= k < self.records@.len() ==> {
                &&& #[trigger] self.records@[k].index < self.next
                &&& self.done@[self.records@[k].index as int]
            }
        &&& forall|k1: int, k2: int|
            0 <= k1 < self.records@.len() && 0 <= k2 < self.records@.len() && k1 != k2
                ==> #[trigger] self.records@[k1].index != #[trigger] self.records@[k2].index
        &&& forall|i: int|
            0 <= i < self.items@.len() && #[trigger] self.done@[i] ==> exists|k: int|
                0 <= k < self.records@.len() && #[trigger] self.records@[k].index == i
    }

    /// Taken from the queue but without an outcome yet.
    pub open spec fn in_flight(&self, i: int) -> bool {
        0 <= i < self.taken() && !self.done()[i]
    }

    /// A fresh dispatcher whose queue holds all `items`.
    pub fn new(items: Vec<String>) -> (r: Dispatcher)
        ensures
            r.wf(),
            r.items() == views(items@),
            r.taken() == 0,
            r.records().len() == 0,
            r.done() == Seq::new(items@.len(), |i: int| false),
    {
        let n = items.len();
        let mut done: Vec<bool> = Vec::new();
        let mut k: usize = 0;
        while k < n
            invariant
                k <= n,
                done@ == Seq::new(k as nat, |i: int| false),
            decreases n - k,
        {
            done.push(false);
            k = k + 1;
            proof {
                assert(done@ =~= Seq::new(k as nat, |i: int| false));
            }
        }
        proof {
            lemma_count_all_false(done@);
        }
        Dispatcher { items, next: 0, done, records: Vec::new() }
    }

    /// Takes the next item from the queue, with its index, or `None` once every
    /// item has been handed out. No item is ever handed out twice.
    pub fn take(&mut self) -> (r: Option<(usize, String)>)
        requires
            old(self).wf(),
        ensures
            final(self).wf(),
            final(self).items() == old(self).items(),
            final(self).done() == old(self).done(),
            final(self).records() == old(self).records(),
            match r {
                Some((i, s)) => took(*old(self), *final(self), i as nat) && s@ == old(self).items()[i as int],
                None => old(self).taken() == old(self).items().len() && final(self).taken() == old(self).taken(),
            },
    {
        if self.next < self.items.len() {
            let i = self.next;
            let s = self.items[i].clone();
            self.next = self.next + 1;
            proof {
                assert(self.items()[i as int] == self.items@[i as int]@);
            }
            Some((i, s))
        } else {
            None
        }
    }

    /// Whether item `index` has been handed out and still awaits its outcome.
    pub fn is_in_flight(&self, index: usize) -> (r: bool)
        requires
            self.wf(),
        ensures
            r == self.in_flight(index as int),
    {
        index < self.next && !self.done[index]
    }

    /// Records the outcome of an item that was handed out and has none yet.
    pub fn complete(&mut self, index: usize, outcome: Outcome)
        requires
            old(self).wf(),
            old(self).in_flight(index as int),
        ensures
            final(self).wf(),
            final(self).items() == old(self).items(),
            final(self).taken() == old(self).taken(),
            final(self).done() == old(self).done().update(index as int, true),
            final(self).records() == old(self).records().push(ItemRecord { index, outcome }),
    {
        proof {
            lemma_count_set_true(self.done@, index as int);
        }
        self.done.set(index, true);
        self.records.push(ItemRecord { index, outcome });
        proof {
            let n = self.records@.len() - 1;
            assert(self.records@[n as int].index == index);
            assert forall|k1: int, k2: int|
                0 <= k1 < self.records@.len() && 0 <= k2 < self.records@.len() && k1 != k2
                    implies #[trigger] self.records@[k1].index != #[trigger] self.records@[k2].index by {
                if k1 == n {
                    assert(old(self).done@[self.records@[k2].index as int]);
                } else if k2 == n {
                    assert(old(self).done@[self.records@[k1].index as int]);
                }
            }
            assert forall|i: int|
                0 <= i < self.items@.len() && #[trigger] self.done@[i] implies exists|k: int|
                    0 <= k < self.records@.len() && #[trigger] self.records@[k].index == i by {
                if i == index {
                    assert(self.records@[n as int].index == i);
                } else {
                    assert(old(self).done@[i]);
                    let k = choose|k: int|
                        0 <= k < old(self).records@.len() && #[trigger] old(self).records@[k].index == i;
                    assert(self.records@[k].index == i);
                }
            }
        }
    }

    /// Number of inputs.
    pub fn total(&self) -> (r: usize)
        ensures
            r == self.items().len(),
    {
        self.items.len()
    }

    /// Number of items with a recorded outcome.
    pub fn completed(&self) -> (r: usize)
        ensures
            r == self.records().len(),
    {
        self.records.len()
    }
}

/// Summary of a finished run.
pub struct JobResult {
    /// The inputs, in the order given.
    pub inputs: Vec<String>,
    /// One record per input, in the order the outcomes arrived.
    pub records: Vec<ItemRecord>,
    pub total: usize,
    pub successes: usize,
    pub failures: usize,
    /// Wall-clock time of the whole run, in milliseconds.
    pub elapsed_ms: u64,
}

/// How a finished run went as a whole.
#[derive(Clone, Copy, Debug, PartialEq, Eq, Structural)]
pub enum JobStatus {
    AllSucceeded,
    /// Some items failed; how many.
    CompletedWithFailures(usize),
    /// Every item failed because the transcoder could not be started.
    ToolUnavailable,
}

pub open spec fn all_launch_failed(rs: Seq<ItemRecord>) -> bool {
    forall|k: int| 0 <= k < rs.len() ==> #[trigger] rs[k].outcome is LaunchFailed
}

pub open spec fn status_of(r: JobResult) -> JobStatus {
    if r.failures == 0 {
        JobStatus::AllSucceeded
    } else if all_launch_failed(r.records@) {
        JobStatus::ToolUnavailable
    } else {
        JobStatus::CompletedWithFailures(r.failures)
    }
}

/// Item indices of the records that are not successes, in record order.
pub open spec fn failed_of(rs: Seq<ItemRecord>) -> Seq<usize>
    decreases rs.len(),
{
    if rs.len() == 0 {
        Seq::empty()
    } else if rs.last().outcome.is_success() {
        failed_of(rs.drop_last())
    } else {
        failed_of(rs.drop_last()).push(rs.last().index)
    }
}

impl JobResult {
    /// The items that failed, by index into the inputs; their records carry
    /// the diagnostic text.
    pub fn failed_items(&self) -> (r: Vec<usize>)
        ensures
            r@ == failed_of(self.records@),
    {
        let n = self.records.len();
        let mut out: Vec<usize> = Vec::new();
        let mut k: usize = 0;
        while k < n
            invariant
                n == self.records@.len(),
                k <= n,
                out@ == failed_of(self.records@.take(k as int)),
            decreases n - k,
        {
            proof {
                assert(self.records@.take(k + 1).drop_last() =~= self.records@.take(k as int));
            }
            if !self.records[k].outcome.succeeded() {
                out.push(self.records[k].index);
            }
            k = k + 1;
        }
        assert(self.records@.take(n as int) =~= self.records@);
        out
    }

    /// Overall status: full success, a systemic launch failure when every
    /// item failed to start the transcoder, or completion with failures.
    pub fn status(&self) -> (r: JobStatus)
        ensures
            r == status_of(*self),
    {
        if self.failures == 0 {
            return JobStatus::AllSucceeded;
        }
        let n = self.records.len();
        let mut k: usize = 0;
        while k < n
            invariant
                n == self.records@.len(),
                k <= n,
                self.failures != 0,
                forall|j: int| 0 <= j < k ==> #[trigger] self.records@[j].outcome is LaunchFailed,
            decreases n - k,
        {
            if !self.records[k].outcome.is_launch_failure() {
                assert(!all_launch_failed(self.records@)) by {
                    if all_launch_failed(self.records@) {
                        assert(self.records@[k as int].outcome is LaunchFailed);
                    }
                }
                return JobStatus::CompletedWithFailures(self.failures);
            }
            k = k + 1;
        }
        JobStatus::ToolUnavailable
    }
}

impl Dispatcher {
    /// Every item has a recorded outcome.
    pub fn all_recorded(&self) -> (r: bool)
        ensures
            r == (self.records().len() == self.items().len()),
    {
        self.records.len() == self.items.len()
    }

    /// Ends the run: counts successes and failures over the records.
    pub fn finish(self, elapsed_ms: u64) -> (r: JobResult)
        requires
            self.wf(),
            self.records().len() == self.items().len(),
        ensures
            views(r.inputs@) == self.items(),
            r.records@ == self.records(),
            r.total == self.items().len(),
            r.successes == count_success(self.records()),
            r.failures == r.total - r.successes,
            r.elapsed_ms == elapsed_ms,
    {
        let n = self.records.len();
        let mut successes: usize = 0;
        let mut k: usize = 0;
        while k < n
            invariant
                n == self.records@.len(),
                k <= n,
                successes == count_success(self.records@.take(k as int)),
                successes <= k,
            decreases n - k,
        {
            proof {
                assert(self.records@.take(k + 1).drop_last() =~= self.records@.take(k as int));
            }
            if self.records[k].outcome.succeeded() {
                successes = successes + 1;
            }
            k = k + 1;
        }
        assert(self.records@.take(n as int) =~= self.records@);
        let total = self.items.len();
        JobResult {
            inputs: self.items,
            records: self.records,
            total,
            successes,
            failures: total - successes,
            elapsed_ms,
        }
    }
}

/// After the join, with every item handed out and none still in flight, the
/// completed count equals the number of items and every item has exactly one
/// outcome record: no duplicates, no omissions.
pub proof fn lemma_join_accounts_every_item(d: Dispatcher)
    requires
        d.wf(),
        d.taken() == d.items().len(),
        forall|i: int| 0 <= i < d.items().len() ==> !#[trigger] d.in_flight(i),
    ensures
        d.records().len() == d.items().len(),
        forall|i: int| 0 <= i < d.items().len() ==> #[trigger] recorded(d.records(), i),
        forall|k1: int, k2: int|
            0 <= k1 < d.records().len() && 0 <= k2 < d.records().len() && k1 != k2
                ==> #[trigger] d.records()[k1].index != #[trigger] d.records()[k2].index,
{
    assert forall|i: int| 0 <= i < d.done@.len() implies d.done@[i] by {
        assert(!d.in_flight(i));
    }
    lemma_count_all_true(d.done@);
    assert forall|i: int| 0 <= i < d.items().len() implies #[trigger] recorded(d.records(), i) by {
        assert(!d.in_flight(i));
        assert(d.done@[i]);
    }
}

/// Some record is about item `i`.
pub open spec fn recorded(rs: Seq<ItemRecord>, i: int) -> bool {
    exists|k: int| 0 <= k < rs.len() && #[trigger] rs[k].index == i
}

/// A step of a run: a take that handed out `t`'s item, or (with `t` empty) a
/// take on a drained queue or the recording of an outcome.
pub open spec fn run_step(a: Dispatcher, b: Dispatcher, t: Option<nat>) -> bool {
    match t {
        Some(i) => took(a, b, i),
        None => b.taken() == a.taken() && b.items() == a.items(),
    }
}

/// However the steps of the workers interleave, no item is handed out twice,
/// and every item handed out is one of the inputs.
pub proof fn lemma_takes_distinct(ds: Seq<Dispatcher>, ts: Seq<Option<nat>>)
    requires
        ds.len() == ts.len() + 1,
        forall|k: int| 0 <= k < ts.len() ==> run_step(ds[k], ds[k + 1], #[trigger] ts[k]),
    ensures
        forall|k: int| 0 <= k < ts.len() && #[trigger] ts[k] is Some ==> ts[k].unwrap() < ds[0].items().len(),
        forall|k1: int, k2: int|
            0 <= k1 < ts.len() && 0 <= k2 < ts.len() && k1 != k2 && #[trigger] ts[k1] is Some
                && #[trigger] ts[k2] is Some ==> ts[k1].unwrap() != ts[k2].unwrap(),
{
    lemma_run_monotone(ds, ts);
    assert forall|k1: int, k2: int|
        0 <= k1 < ts.len() && 0 <= k2 < ts.len() && k1 != k2 && #[trigger] ts[k1] is Some
            && #[trigger] ts[k2] is Some implies ts[k1].unwrap() != ts[k2].unwrap() by {
        assert(run_step(ds[k1], ds[k1 + 1], ts[k1]));
        assert(run_step(ds[k2], ds[k2 + 1], ts[k2]));
        if k1 < k2 {
            assert(ds[k1 + 1].taken() <= ds[k2].taken());
        } else {
            assert(ds[k2 + 1].taken() <= ds[k1].taken());
        }
    }
    assert forall|k: int| 0 <= k < ts.len() && #[trigger] ts[k] is Some implies ts[k].unwrap()
        < ds[0].items().len() by {
        assert(run_step(ds[k], ds[k + 1], ts[k]));
        assert(ds[0].taken() <= ds[k].taken());
    }
}

proof fn lemma_run_monotone(ds: Seq<Dispatcher>, ts: Seq<Option<nat>>)
    requires
        ds.len() == ts.len() + 1,
        forall|k: int| 0 <= k < ts.len() ==> run_step(ds[k], ds[k + 1], #[trigger] ts[k]),
    ensures
        forall|j1: int, j2: int|
            0 <= j1 <= j2 < ds.len() ==> #[trigger] ds[j1].taken() <= #[trigger] ds[j2].taken()
                && ds[j1].items() == ds[j2].items(),
    decreases ts.len(),
{
    if ts.len() > 0 {
        let m = ts.len() - 1;
        lemma_run_monotone(ds.take(ds.len() - 1), ts.take(m));
        assert(run_step(ds[m], ds[m + 1], ts[m]));
        assert forall|j1: int, j2: int| 0 <= j1 <= j2 < ds.len() implies #[trigger] ds[j1].taken()
            <= #[trigger] ds[j2].taken() && ds[j1].items() == ds[j2].items() by {
            if j2 == ds.len() - 1 && j1 < j2 {
                assert(ds.take(ds.len() - 1)[j1] == ds[j1]);
                assert(ds.take(ds.len() - 1)[m] == ds[m]);
            } else if j2 < ds.len() - 1 {
                assert(ds.take(ds.len() - 1)[j1] == ds[j1]);
                assert(ds.take(ds.len() - 1)[j2] == ds[j2]);
            }
        }
    }
}

proof fn lemma_count_all_true(s: Seq<bool>)
    requires
        forall|i: int| 0 <= i < s.len() ==> s[i],
    ensures
        count_true(s) == s.len(),
    decreases s.len(),
{
    if s.len() > 0 {
        lemma_count_all_true(s.drop_last());
    }
}

/// One take moved the queue from `a` to `b`, handing out item `i`.
pub open spec fn took(a: Dispatcher, b: Dispatcher, i: nat) -> bool {
    &&& a.taken() == i
    &&& i < a.items().len()
    &&& b.taken() == i + 1
    &&& b.items() == a.items()
}

proof fn lemma_count_all_false(s: Seq<bool>)
    requires
        forall|i: int| 0 <= i < s.len() ==> !s[i],
    ensures
        count_true(s) == 0,
    decreases s.len(),
{
    if s.len() > 0 {
        lemma_count_all_false(s.drop_last());
    }
}

proof fn lemma_count_set_true(s: Seq<bool>, i: int)
    requires
        0 <= i < s.len(),
        !s[i],
    ensures
        count_true(s.update(i, true)) == count_true(s) + 1,
    decreases s.len(),
{
    let t = s.update(i, true);
    if i < s.len() - 1 {
        assert(t.drop_last() =~= s.drop_last().update(i, true));
        lemma_count_set_true(s.drop_last(), i);
    } else {
        assert(t.drop_last() =~= s.drop_last());
    }
}

} // verus!
