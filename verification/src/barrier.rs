//! The barrier between phases: workers count themselves in, the last one resets
//! the count and turns the shared sense, and the others wait for that turn.
use vstd::prelude::*;

verus! {

// ----------------------------------------------------------------- single steps

/// Turns a worker's own sense as it comes to the barrier.
pub fn turn(sense: &mut bool)
    ensures
        *final(sense) == !*old(sense),
{
    *sense = !*sense;
}

/// A worker that found `before` others counted in is the last of `workers`.
pub open spec fn is_last(before: int, workers: int) -> bool {
    before + 1 == workers
}

/// Whether a worker that found `before` others counted in is the last.
pub fn last_in(before: usize, workers: usize) -> (r: bool)
    requires
        0 < workers,
    ensures
        r == is_last(before as int, workers as int),
{
    before == workers - 1
}

/// A waiting worker may go on once the shared sense is its own.
pub fn may_pass(shared: bool, own: bool) -> (r: bool)
    ensures
        r == (shared == own),
{
    shared == own
}

/// What a waiting worker does in a round of its loop.
#[derive(Clone, Copy, Debug, PartialEq, Eq, Structural)]
pub enum Wait {
    Spin,
    Yield,
}

/// A waiting worker gives up its core in every 1024th round of its loop.
pub fn wait(n: u32) -> (w: Wait)
    ensures
        w == if n % 1024 == 0 {
            Wait::Yield
        } else {
            Wait::Spin
        },
{
    assert(n & 1023 == n % 1024) by (bit_vector);
    if n & 1023 != 0 {
        Wait::Spin
    } else {
        Wait::Yield
    }
}

// ------------------------------------------------------------------ all workers

/// Where a worker stands with respect to the barrier.
pub enum Stage {
    /// It works on a phase.
    Working,
    /// It has counted itself in and waits.
    Waiting,
    /// It was the last to count itself in, and will reset the count.
    Closing,
    /// It has reset the count, and will turn the shared sense.
    Opening,
}

/// A worker: its stage, its own sense, and the number of barriers it has passed.
pub struct Worker {
    pub stage: Stage,
    pub sense: bool,
    pub passed: int,
}

/// The barrier and its workers.
pub struct Barrier {
    pub count: int,
    pub sense: bool,
    pub workers: Seq<Worker>,
}

/// The number of barriers that a worker has come to.
pub open spec fn come(w: Worker) -> int {
    if w.stage is Working {
        w.passed
    } else {
        w.passed + 1
    }
}

/// The number of the first `n` workers that have come to barrier `round`, counted
/// from one, and not passed it.
pub open spec fn counted(ws: Seq<Worker>, round: int, n: int) -> int
    decreases n,
{
    if n <= 0 {
        0
    } else {
        counted(ws, round, n - 1) + if !(ws[n - 1].stage is Working) && ws[n - 1].passed + 1 == round {
            1int
        } else {
            0int
        }
    }
}

/// At the start all workers work, and nobody is counted.
pub open spec fn start(n: nat) -> Barrier {
    Barrier {
        count: 0,
        sense: false,
        workers: Seq::new(n, |i: int| Worker { stage: Stage::Working, sense: false, passed: 0 }),
    }
}

/// Worker `i` turns its sense and counts itself in.
pub open spec fn count_in(b: Barrier, i: int) -> Barrier {
    let w = b.workers[i];
    let stage = if is_last(b.count, b.workers.len() as int) {
        Stage::Closing
    } else {
        Stage::Waiting
    };
    Barrier {
        count: b.count + 1,
        sense: b.sense,
        workers: b.workers.update(i, Worker { stage, sense: !w.sense, passed: w.passed }),
    }
}

/// Worker `i`, the last, resets the count.
pub open spec fn reset(b: Barrier, i: int) -> Barrier {
    let w = b.workers[i];
    Barrier {
        count: 0,
        sense: b.sense,
        workers: b.workers.update(
            i,
            Worker { stage: Stage::Opening, sense: w.sense, passed: w.passed },
        ),
    }
}

/// Worker `i` goes on past the barrier.
pub open spec fn past(w: Worker) -> Worker {
    Worker { stage: Stage::Working, sense: w.sense, passed: w.passed + 1 }
}

/// Worker `i`, the last, sets the shared sense to its own and goes on.
pub open spec fn open_up(b: Barrier, i: int) -> Barrier {
    Barrier {
        count: b.count,
        sense: b.workers[i].sense,
        workers: b.workers.update(i, past(b.workers[i])),
    }
}

/// Worker `i`, which waited, goes on.
pub open spec fn pass(b: Barrier, i: int) -> Barrier {
    Barrier {
        count: b.count,
        sense: b.sense,
        workers: b.workers.update(i, past(b.workers[i])),
    }
}

/// One worker takes one step.
pub open spec fn steps(b: Barrier, c: Barrier, i: int) -> bool {
    &&& 0 <= i < b.workers.len()
    &&& match b.workers[i].stage {
        Stage::Working => c == count_in(b, i),
        Stage::Waiting => b.sense == b.workers[i].sense && c == pass(b, i),
        Stage::Closing => c == reset(b, i),
        Stage::Opening => c == open_up(b, i),
    }
}

/// The sense that a barrier has after it has been opened `n` times.
pub open spec fn sense_after(n: int) -> bool {
    n % 2 == 1
}

/// Worker `w` stands well at a barrier that was opened `opened` times.
pub open spec fn worker_is_well(w: Worker, opened: int) -> bool {
    &&& w.sense == sense_after(come(w))
    &&& match w.stage {
        Stage::Working => w.passed == opened,
        Stage::Waiting => w.passed == opened || w.passed == opened - 1,
        Stage::Closing => w.passed == opened,
        Stage::Opening => w.passed == opened,
    }
}

/// A barrier that was opened `opened` times is in order.
pub open spec fn is_well(b: Barrier, opened: int) -> bool {
    let n = b.workers.len() as int;
    &&& 0 <= opened
    &&& 0 < n
    &&& b.sense == sense_after(opened)
    &&& forall|i: int| 0 <= i < n ==> worker_is_well(#[trigger] b.workers[i], opened)
    &&& forall|i: int|
        0 <= i < n && ((#[trigger] b.workers[i]).stage is Closing) ==> b.count == n && counted(
            b.workers,
            opened + 1,
            n,
        ) == n
    &&& forall|i: int|
        0 <= i < n && ((#[trigger] b.workers[i]).stage is Opening) ==> b.count == 0 && counted(
            b.workers,
            opened + 1,
            n,
        ) == n
    &&& forall|i: int, j: int|
        0 <= i < n && 0 <= j < n && i != j && ((#[trigger] b.workers[i]).stage is Closing
            || b.workers[i].stage is Opening) ==> (#[trigger] b.workers[j]).stage is Waiting
    &&& (forall|i: int|
        0 <= i < n ==> !((#[trigger] b.workers[i]).stage is Closing || b.workers[i].stage
            is Opening)) ==> b.count == counted(b.workers, opened + 1, n) && b.count < n
}

/// The count is at most the number of workers, and reaches it only where all of
/// them count.
proof fn lemma_counted_all(ws: Seq<Worker>, round: int, n: int)
    requires
        0 <= n <= ws.len(),
    ensures
        0 <= counted(ws, round, n) <= n,
        counted(ws, round, n) == n ==> forall|i: int|
            0 <= i < n ==> !((#[trigger] ws[i]).stage is Working) && ws[i].passed + 1 == round,
        (forall|i: int|
            0 <= i < n ==> !((#[trigger] ws[i]).stage is Working) && ws[i].passed + 1 == round)
            ==> counted(ws, round, n) == n,
        (forall|i: int|
            0 <= i < n ==> ((#[trigger] ws[i]).stage is Working) || ws[i].passed + 1 != round)
            ==> counted(ws, round, n) == 0,
    decreases n,
{
    if n > 0 {
        lemma_counted_all(ws, round, n - 1);
        assert(ws[n - 1] == ws[n - 1]);
    }
}

/// Another state of one worker changes the count by that worker alone.
proof fn lemma_counted_update(ws: Seq<Worker>, round: int, n: int, i: int, w: Worker)
    requires
        0 <= i < ws.len(),
        0 <= n <= ws.len(),
    ensures
        counted(ws.update(i, w), round, n) == counted(ws, round, n) + if i < n {
            (if !(w.stage is Working) && w.passed + 1 == round {
                1int
            } else {
                0int
            }) - (if !(ws[i].stage is Working) && ws[i].passed + 1 == round {
                1int
            } else {
                0int
            })
        } else {
            0int
        },
    decreases n,
{
    if n > 0 {
        lemma_counted_update(ws, round, n - 1, i, w);
        assert(ws.update(i, w)[n - 1] == if i == n - 1 {
            w
        } else {
            ws[n - 1]
        });
    }
}

/// At the start the barrier is in order.
pub proof fn start_is_well(n: nat)
    requires
        0 < n,
    ensures
        is_well(start(n), 0),
{
    lemma_counted_all(start(n).workers, 1, n as int);
}

/// Every step of every worker keeps the barrier in order; it is opened once more
/// exactly where the last worker turns the shared sense.
pub proof fn step_keeps_well(b: Barrier, c: Barrier, i: int, opened: int)
    requires
        is_well(b, opened),
        steps(b, c, i),
    ensures
        is_well(
            c,
            if b.workers[i].stage is Opening {
                opened + 1
            } else {
                opened
            },
        ),
{
    let n = b.workers.len() as int;
    let w = b.workers[i];
    assert(worker_is_well(w, opened));
    lemma_counted_all(b.workers, opened + 1, n);
    match w.stage {
        Stage::Working => {
            // While this worker works nobody is closing or opening.
            assert forall|j: int| 0 <= j < n implies !((#[trigger] b.workers[j]).stage is Closing
                || b.workers[j].stage is Opening) by {
                if b.workers[j].stage is Closing || b.workers[j].stage is Opening {
                    assert(j != i);
                    assert(b.workers[i].stage is Waiting);
                }
            }
            lemma_counted_update(b.workers, opened + 1, n, i, c.workers[i]);
            lemma_counted_all(c.workers, opened + 1, n);
            assert forall|j: int| 0 <= j < n implies worker_is_well(
                #[trigger] c.workers[j],
                opened,
            ) by {
                if j != i {
                    assert(c.workers[j] == b.workers[j]);
                }
            }
            if is_last(b.count, n) {
                assert(c.workers[i].stage is Closing);
                assert forall|j: int| 0 <= j < n && j != i implies (#[trigger] c.workers[j]).stage
                    is Waiting by {
                    assert(c.workers[j] == b.workers[j]);
                }
            } else {
                assert forall|j: int|
                    0 <= j < n implies !((#[trigger] c.workers[j]).stage is Closing
                    || c.workers[j].stage is Opening) by {
                    if j != i {
                        assert(c.workers[j] == b.workers[j]);
                    }
                }
            }
        },
        Stage::Waiting => {
            lemma_counted_update(b.workers, opened + 1, n, i, c.workers[i]);
            assert forall|j: int| 0 <= j < n implies worker_is_well(
                #[trigger] c.workers[j],
                opened,
            ) by {
                if j != i {
                    assert(c.workers[j] == b.workers[j]);
                }
            }
            // Nobody closes or opens while this worker has yet to leave.
            assert forall|j: int| 0 <= j < n implies !((#[trigger] b.workers[j]).stage is Closing
                || b.workers[j].stage is Opening) by {
            }
            assert forall|j: int| 0 <= j < n implies !((#[trigger] c.workers[j]).stage is Closing
                || c.workers[j].stage is Opening) by {
                if j != i {
                    assert(c.workers[j] == b.workers[j]);
                }
            }
        },
        Stage::Closing => {
            lemma_counted_update(b.workers, opened + 1, n, i, c.workers[i]);
            assert forall|j: int| 0 <= j < n && j != i implies c.workers[j] == b.workers[j]
                && b.workers[j].stage is Waiting by {
            }
        },
        Stage::Opening => {
            lemma_counted_all(c.workers, opened + 2, n);
            assert forall|j: int| 0 <= j < n implies worker_is_well(
                #[trigger] c.workers[j],
                opened + 1,
            ) && (c.workers[j].stage is Working || c.workers[j].passed + 1 != opened + 2)
                && !(c.workers[j].stage is Closing || c.workers[j].stage is Opening) by {
                if j != i {
                    assert(c.workers[j] == b.workers[j]);
                    assert(b.workers[j].stage is Waiting);
                    assert(b.workers[j].passed + 1 == opened + 1);
                }
            }
        },
    }
}

/// No worker passes a barrier before all have come to it: what one worker wrote
/// before the barrier, every other may read after it.
pub proof fn none_passes_before_all_come(b: Barrier, opened: int, i: int, j: int)
    requires
        is_well(b, opened),
        0 <= i < b.workers.len(),
        0 <= j < b.workers.len(),
    ensures
        b.workers[i].passed <= come(b.workers[j]),
        b.workers[i].passed <= b.workers[j].passed + 1,
{
    assert(worker_is_well(b.workers[i], opened));
    assert(worker_is_well(b.workers[j], opened));
}

/// The workers never all wait in vain: some worker can take a step.
pub proof fn some_worker_can_step(b: Barrier, opened: int) -> (i: int)
    requires
        is_well(b, opened),
    ensures
        0 <= i < b.workers.len(),
        b.workers[i].stage is Waiting ==> b.sense == b.workers[i].sense,
{
    let n = b.workers.len() as int;
    if forall|i: int|
        0 <= i < n ==> (#[trigger] b.workers[i]).stage is Waiting && b.workers[i].sense != b.sense {
        assert forall|i: int| 0 <= i < n implies !((#[trigger] b.workers[i]).stage is Working)
            && b.workers[i].passed + 1 == opened + 1 by {
            assert(worker_is_well(b.workers[i], opened));
        }
        lemma_counted_all(b.workers, opened + 1, n);
        assert(false);
        0
    } else {
        choose|i: int|
            0 <= i < n && !((#[trigger] b.workers[i]).stage is Waiting && b.workers[i].sense
                != b.sense)
    }
}

} // verus!
