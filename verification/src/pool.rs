//! The pool of workers that run one task after another: each task is numbered, and
//! the one who hands it out waits until every worker has finished it.
use vstd::prelude::*;

verus! {

/// What the pool's lock guards: the number of the newest task, and how many
/// workers have yet to finish it.
#[derive(Clone, Copy, Debug)]
pub struct PoolState {
    pub seq: u64,
    pub remaining: usize,
}

impl PoolState {
    /// A pool that has had no task.
    pub fn new() -> (p: PoolState)
        ensures
            p.seq == 0,
            p.remaining == 0,
    {
        PoolState { seq: 0, remaining: 0 }
    }

    /// Hands out a task to all workers.
    pub fn submit(&mut self, workers: usize)
        requires
            old(self).remaining == 0,
            old(self).seq < u64::MAX,
        ensures
            final(self).seq == old(self).seq + 1,
            final(self).remaining == workers,
    {
        self.seq = self.seq + 1;
        self.remaining = workers;
    }

    /// Whether there is a task newer than the one that a worker has seen; if so,
    /// the worker takes it.
    pub fn take(&self, seen: &mut u64) -> (r: bool)
        ensures
            r == (self.seq != *old(seen)),
            *final(seen) == self.seq,
    {
        let newer: bool = self.seq != *seen;
        *seen = self.seq;
        newer
    }

    /// A worker has finished the task; whether it was the last to do so.
    pub fn finish(&mut self) -> (last: bool)
        requires
            old(self).remaining > 0,
        ensures
            final(self).seq == old(self).seq,
            final(self).remaining == old(self).remaining - 1,
            last == (final(self).remaining == 0),
    {
        self.remaining = self.remaining - 1;
        self.remaining == 0
    }

    /// Whether all workers have finished the task.
    pub fn done(&self) -> (r: bool)
        ensures
            r == (self.remaining == 0),
    {
        self.remaining == 0
    }
}

// ------------------------------------------------------------------ all workers

/// A worker: the newest task that it has taken, whether it runs it, and the
/// number of tasks that it has finished.
pub struct PoolWorker {
    pub seen: int,
    pub running: bool,
    pub finished: int,
}

/// The pool and its workers.
pub struct Pool {
    pub seq: int,
    pub remaining: int,
    pub workers: Seq<PoolWorker>,
}

/// A worker has yet to finish task `seq`.
pub open spec fn owes(w: PoolWorker, seq: int) -> bool {
    w.running || w.seen < seq
}

/// The number of the first `n` workers that have yet to finish task `seq`.
pub open spec fn owing(ws: Seq<PoolWorker>, seq: int, n: int) -> int
    decreases n,
{
    if n <= 0 {
        0
    } else {
        owing(ws, seq, n - 1) + if owes(ws[n - 1], seq) {
            1int
        } else {
            0int
        }
    }
}

/// A worker stands well in a pool whose newest task is `seq`: it has taken that
/// task or the one before, runs only the newest, and has finished each task that
/// it does not owe.
pub open spec fn pool_worker_is_well(w: PoolWorker, seq: int) -> bool {
    &&& seq - 1 <= w.seen <= seq
    &&& w.running ==> w.seen == seq
    &&& w.finished == if owes(w, seq) {
        seq - 1
    } else {
        seq
    }
}

/// A pool in order.
pub open spec fn pool_is_well(p: Pool) -> bool {
    &&& forall|i: int| 0 <= i < p.workers.len() ==> pool_worker_is_well(#[trigger] p.workers[i], p.seq)
    &&& p.remaining == owing(p.workers, p.seq, p.workers.len() as int)
}

/// The pool after a task was handed out.
pub open spec fn submitted(p: Pool) -> Pool {
    Pool { seq: p.seq + 1, remaining: p.workers.len() as int, workers: p.workers }
}

/// The pool after worker `i` took the newest task.
pub open spec fn taken(p: Pool, i: int) -> Pool {
    let w = p.workers[i];
    Pool {
        seq: p.seq,
        remaining: p.remaining,
        workers: p.workers.update(
            i,
            PoolWorker { seen: p.seq, running: true, finished: w.finished },
        ),
    }
}

/// The pool after worker `i` finished its task.
pub open spec fn finished(p: Pool, i: int) -> Pool {
    let w = p.workers[i];
    Pool {
        seq: p.seq,
        remaining: p.remaining - 1,
        workers: p.workers.update(
            i,
            PoolWorker { seen: w.seen, running: false, finished: w.finished + 1 },
        ),
    }
}

proof fn lemma_owing(ws: Seq<PoolWorker>, seq: int, n: int)
    requires
        0 <= n <= ws.len(),
    ensures
        0 <= owing(ws, seq, n) <= n,
        owing(ws, seq, n) == 0 ==> forall|i: int| 0 <= i < n ==> !owes(#[trigger] ws[i], seq),
        (forall|i: int| 0 <= i < n ==> owes(#[trigger] ws[i], seq)) ==> owing(ws, seq, n) == n,
    decreases n,
{
    if n > 0 {
        lemma_owing(ws, seq, n - 1);
        assert(ws[n - 1] == ws[n - 1]);
    }
}

proof fn lemma_owing_update(ws: Seq<PoolWorker>, seq: int, n: int, i: int, w: PoolWorker)
    requires
        0 <= i < ws.len(),
        0 <= n <= ws.len(),
    ensures
        owing(ws.update(i, w), seq, n) == owing(ws, seq, n) + if i < n {
            (if owes(w, seq) {
                1int
            } else {
                0int
            }) - (if owes(ws[i], seq) {
                1int
            } else {
                0int
            })
        } else {
            0int
        },
    decreases n,
{
    if n > 0 {
        lemma_owing_update(ws, seq, n - 1, i, w);
        assert(ws.update(i, w)[n - 1] == if i == n - 1 {
            w
        } else {
            ws[n - 1]
        });
    }
}

/// A pool of `n` workers that has had no task.
pub open spec fn fresh(n: nat) -> Pool {
    Pool {
        seq: 0,
        remaining: 0,
        workers: Seq::new(n, |i: int| PoolWorker { seen: 0, running: false, finished: 0 }),
    }
}

/// A pool that has had no task is in order.
pub proof fn fresh_is_well(n: nat)
    ensures
        pool_is_well(fresh(n)),
{
    lemma_none_owe(fresh(n).workers, 0, n as int);
}

proof fn lemma_none_owe(ws: Seq<PoolWorker>, seq: int, n: int)
    requires
        0 <= n <= ws.len(),
        forall|i: int| 0 <= i < n ==> !owes(#[trigger] ws[i], seq),
    ensures
        owing(ws, seq, n) == 0,
    decreases n,
{
    if n > 0 {
        lemma_none_owe(ws, seq, n - 1);
        assert(!owes(ws[n - 1], seq));
    }
}

/// Handing out a task, once the last one is finished, keeps the pool in order.
pub proof fn submit_keeps_well(p: Pool)
    requires
        pool_is_well(p),
        p.remaining == 0,
    ensures
        pool_is_well(submitted(p)),
{
    let n = p.workers.len() as int;
    lemma_owing(p.workers, p.seq, n);
    lemma_owing(p.workers, p.seq + 1, n);
    assert forall|i: int| 0 <= i < n implies owes(#[trigger] p.workers[i], p.seq + 1)
        && pool_worker_is_well(p.workers[i], p.seq + 1) by {
        assert(pool_worker_is_well(p.workers[i], p.seq));
        assert(!owes(p.workers[i], p.seq));
    }
}

/// A worker that takes a task which it has not seen keeps the pool in order.
pub proof fn take_keeps_well(p: Pool, i: int)
    requires
        pool_is_well(p),
        0 <= i < p.workers.len(),
        !p.workers[i].running,
        p.workers[i].seen != p.seq,
    ensures
        pool_is_well(taken(p, i)),
{
    let n = p.workers.len() as int;
    assert(pool_worker_is_well(p.workers[i], p.seq));
    lemma_owing_update(p.workers, p.seq, n, i, taken(p, i).workers[i]);
    assert forall|j: int| 0 <= j < n implies pool_worker_is_well(
        #[trigger] taken(p, i).workers[j],
        p.seq,
    ) by {
        if j != i {
            assert(taken(p, i).workers[j] == p.workers[j]);
        }
    }
}

/// A worker that finishes its task keeps the pool in order, and there was a worker
/// to wait for.
pub proof fn finish_keeps_well(p: Pool, i: int)
    requires
        pool_is_well(p),
        0 <= i < p.workers.len(),
        p.workers[i].running,
    ensures
        p.remaining > 0,
        pool_is_well(finished(p, i)),
{
    let n = p.workers.len() as int;
    assert(pool_worker_is_well(p.workers[i], p.seq));
    lemma_owing_update(p.workers, p.seq, n, i, finished(p, i).workers[i]);
    lemma_owing(finished(p, i).workers, p.seq, n);
    assert forall|j: int| 0 <= j < n implies pool_worker_is_well(
        #[trigger] finished(p, i).workers[j],
        p.seq,
    ) by {
        if j != i {
            assert(finished(p, i).workers[j] == p.workers[j]);
        }
    }
}

/// Once no worker remains, every worker has finished every task exactly once and
/// runs none: what a task borrowed is free again.
pub proof fn done_means_all_finished(p: Pool, i: int)
    requires
        pool_is_well(p),
        p.remaining == 0,
        0 <= i < p.workers.len(),
    ensures
        !p.workers[i].running,
        p.workers[i].finished == p.seq,
{
    lemma_owing(p.workers, p.seq, p.workers.len() as int);
    assert(pool_worker_is_well(p.workers[i], p.seq));
    assert(!owes(p.workers[i], p.seq));
}

} // verus!
