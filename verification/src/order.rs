//! What the shared buffers hold after work items have run one after another, and
//! why the order of the items does not matter.
use crate::access::{held, Place, Span, Store};
use crate::analytic::Analytic;
use crate::piece::{Cell, Piece};
use crate::schedule::Phase;
use vstd::prelude::*;

verus! {

/// The items of the phase rewrite what they find: the numbers of a head, or those
/// of the stream.
pub open spec fn rewrites(phase: Phase) -> bool {
    phase == Phase::Rope || phase == Phase::Project || phase == Phase::Down
}

/// The items of the phase go by the experts that the router has chosen.
pub open spec fn chooses(phase: Phase) -> bool {
    phase == Phase::GateUp || phase == Phase::Down
}

/// The first `n` numbers of a buffer.
pub open spec fn reals_in<S: Analytic>(
    mem: spec_fn(Place) -> Cell<S>,
    store: Store,
    n: int,
) -> Seq<S> {
    Seq::new(
        n as nat,
        |i: int|
            match mem(Place { store, at: i }) {
                Cell::Real(v) => v,
                _ => S::zero_spec(),
            },
    )
}

/// The first `n` levels of a buffer.
pub open spec fn levels_in<S>(mem: spec_fn(Place) -> Cell<S>, store: Store, n: int) -> Seq<i8> {
    Seq::new(
        n as nat,
        |i: int|
            match mem(Place { store, at: i }) {
                Cell::Level(v) => v,
                _ => 0,
            },
    )
}

/// Two buffers hold the same at place `i`, where both have it.
pub open spec fn same_in<T>(x: Seq<T>, y: Seq<T>, i: int) -> bool {
    0 <= i < x.len() && i < y.len() ==> x[i] == y[i]
}

/// What a buffer of numbers holds at place `i`, where it has it.
pub open spec fn real_in<S>(x: Seq<S>, i: int) -> Option<Cell<S>> {
    if 0 <= i < x.len() {
        Some(Cell::Real(x[i]))
    } else {
        None
    }
}

/// What a buffer of levels holds at place `i`, where it has it.
pub open spec fn level_in<S>(x: Seq<i8>, i: int) -> Option<Cell<S>> {
    if 0 <= i < x.len() {
        Some(Cell::Level(x[i]))
    } else {
        None
    }
}

/// What a buffer of sums holds at place `i`, where it has it.
pub open spec fn sum_in<S>(x: Seq<i32>, i: int) -> Option<Cell<S>> {
    if 0 <= i < x.len() {
        Some(Cell::Sum(x[i]))
    } else {
        None
    }
}

/// The contents of the buffers after an item has written the pieces `out` to its
/// runs: all other places stay.
pub open spec fn is_left<S>(
    before: spec_fn(Place) -> Cell<S>,
    after: spec_fn(Place) -> Cell<S>,
    spans: Seq<Span>,
    out: Seq<Piece<S>>,
) -> bool {
    &&& forall|i: int, p: Place|
        0 <= i < spans.len() && #[trigger] spans[i].holds(p) ==> after(p) == out[i].cell(
            p.at - spans[i].at,
        )
    &&& forall|p: Place| !held(spans, p) ==> #[trigger] after(p) == before(p)
}

/// The contents `mems` follow one another as the items `tasks` run: `leaves` says
/// what an item may leave behind of what it finds.
pub open spec fn is_course<T, S>(
    tasks: Seq<T>,
    mems: Seq<spec_fn(Place) -> Cell<S>>,
    leaves: spec_fn(T, spec_fn(Place) -> Cell<S>, spec_fn(Place) -> Cell<S>) -> bool,
) -> bool {
    &&& mems.len() == tasks.len() + 1
    &&& forall|i: int| 0 <= i < tasks.len() ==> leaves(#[trigger] tasks[i], mems[i], mems[i + 1])
}

/// An item changes no place but those that it writes.
pub open spec fn keeps_the_rest<T, S>(
    task: T,
    leaves: spec_fn(T, spec_fn(Place) -> Cell<S>, spec_fn(Place) -> Cell<S>) -> bool,
    writes: spec_fn(T, Place) -> bool,
) -> bool {
    forall|m: spec_fn(Place) -> Cell<S>, n: spec_fn(Place) -> Cell<S>, p: Place|
        #![trigger leaves(task, m, n), n(p)]
        leaves(task, m, n) && !writes(task, p) ==> n(p) == m(p)
}

/// What an item writes depends on nothing but the places that it reads.
pub open spec fn goes_by_its_reads<T, S>(
    task: T,
    leaves: spec_fn(T, spec_fn(Place) -> Cell<S>, spec_fn(Place) -> Cell<S>) -> bool,
    writes: spec_fn(T, Place) -> bool,
    reads: spec_fn(T, Place) -> bool,
) -> bool {
    forall|
        m: spec_fn(Place) -> Cell<S>,
        n: spec_fn(Place) -> Cell<S>,
        u: spec_fn(Place) -> Cell<S>,
        v: spec_fn(Place) -> Cell<S>,
        p: Place,
    |
        #![trigger leaves(task, m, n), leaves(task, u, v), n(p)]
        leaves(task, m, n) && leaves(task, u, v) && (forall|q: Place|
            reads(task, q) ==> #[trigger] m(q) == u(q)) && writes(task, p) ==> n(p) == v(p)
}

/// What one item writes the other neither writes nor reads.
pub open spec fn apart<T>(
    a: T,
    b: T,
    writes: spec_fn(T, Place) -> bool,
    reads: spec_fn(T, Place) -> bool,
) -> bool {
    forall|p: Place| #[trigger] writes(a, p) ==> !writes(b, p) && !reads(b, p)
}

/// A place that no item from number `a` to number `b` writes stays.
proof fn lemma_stays<T, S>(
    tasks: Seq<T>,
    mems: Seq<spec_fn(Place) -> Cell<S>>,
    leaves: spec_fn(T, spec_fn(Place) -> Cell<S>, spec_fn(Place) -> Cell<S>) -> bool,
    writes: spec_fn(T, Place) -> bool,
    a: int,
    b: int,
    p: Place,
)
    requires
        is_course(tasks, mems, leaves),
        0 <= a <= b <= tasks.len(),
        forall|i: int| a <= i < b ==> keeps_the_rest(#[trigger] tasks[i], leaves, writes),
        forall|i: int| a <= i < b ==> !writes(#[trigger] tasks[i], p),
    ensures
        mems[a](p) == mems[b](p),
    decreases b - a,
{
    if a < b {
        lemma_stays(tasks, mems, leaves, writes, a, b - 1, p);
        assert(leaves(tasks[b - 1], mems[b - 1], mems[b - 1 + 1]));
        assert(mems[b](p) == mems[b - 1](p));
    }
}

/// No item runs before one that must come first.
pub open spec fn respects<T>(tasks: Seq<T>, first: spec_fn(T, T) -> bool) -> bool {
    forall|i: int, j: int|
        0 <= i < tasks.len() && 0 <= j < tasks.len() && #[trigger] first(tasks[i], tasks[j]) ==> i
            < j
}

/// Of two items, one must come first, or what the first writes the other neither writes
/// nor reads.
pub open spec fn settled<T>(
    a: T,
    b: T,
    writes: spec_fn(T, Place) -> bool,
    reads: spec_fn(T, Place) -> bool,
    first: spec_fn(T, T) -> bool,
) -> bool {
    first(a, b) || first(b, a) || apart(a, b, writes, reads)
}

/// Two orders of the same items, and what the buffers hold before and after each.
pub struct Courses<T, S> {
    pub one: Seq<T>,
    pub ones: Seq<spec_fn(Place) -> Cell<S>>,
    pub other: Seq<T>,
    pub others: Seq<spec_fn(Place) -> Cell<S>>,
}

impl<T, S> Courses<T, S> {
    /// Both orders hold the same items, each once, start from the same contents, and
    /// put first what must come first.
    pub open spec fn are_two(
        self,
        leaves: spec_fn(T, spec_fn(Place) -> Cell<S>, spec_fn(Place) -> Cell<S>) -> bool,
        first: spec_fn(T, T) -> bool,
    ) -> bool {
        &&& is_course(self.one, self.ones, leaves)
        &&& is_course(self.other, self.others, leaves)
        &&& self.one.no_duplicates()
        &&& self.other.no_duplicates()
        &&& forall|t: T| #[trigger] self.one.contains(t) <==> self.other.contains(t)
        &&& self.ones[0] == self.others[0]
        &&& respects(self.one, first)
        &&& respects(self.other, first)
    }

    /// The items change what they write alone, by what they read alone, and any two of
    /// them are settled.
    pub open spec fn are_settled(
        self,
        leaves: spec_fn(T, spec_fn(Place) -> Cell<S>, spec_fn(Place) -> Cell<S>) -> bool,
        writes: spec_fn(T, Place) -> bool,
        reads: spec_fn(T, Place) -> bool,
        first: spec_fn(T, T) -> bool,
    ) -> bool {
        &&& forall|t: T| #[trigger] self.one.contains(t) ==> keeps_the_rest(t, leaves, writes)
        &&& forall|t: T| #[trigger]
            self.one.contains(t) ==> goes_by_its_reads(t, leaves, writes, reads)
        &&& forall|t: T, u: T| #[trigger]
            self.one.contains(t) && #[trigger] self.one.contains(u) && t != u ==> settled(
                t,
                u,
                writes,
                reads,
                first,
            )
    }

    /// Where item number `i` of the one order stands in the other.
    spec fn across(self, i: int) -> int {
        self.other.index_of(self.one[i])
    }

    /// Where item number `j` of the other order stands in the one.
    spec fn back(self, j: int) -> int {
        self.one.index_of(self.other[j])
    }

    proof fn lemma_across(
        self,
        leaves: spec_fn(T, spec_fn(Place) -> Cell<S>, spec_fn(Place) -> Cell<S>) -> bool,
        first: spec_fn(T, T) -> bool,
    )
        requires
            self.are_two(leaves, first),
        ensures
            forall|i: int|
                0 <= i < self.one.len() ==> 0 <= #[trigger] self.across(i) < self.other.len()
                    && self.other[self.across(i)] == self.one[i],
            forall|j: int|
                0 <= j < self.other.len() ==> 0 <= #[trigger] self.back(j) < self.one.len()
                    && self.one[self.back(j)] == self.other[j] && self.across(self.back(j)) == j,
    {
        assert forall|i: int| 0 <= i < self.one.len() implies 0 <= #[trigger] self.across(i)
            < self.other.len() && self.other[self.across(i)] == self.one[i] by {
            assert(self.one.contains(self.one[i]));
            assert(self.other.contains(self.one[i]));
        }
        assert forall|j: int| 0 <= j < self.other.len() implies 0 <= #[trigger] self.back(j)
            < self.one.len() && self.one[self.back(j)] == self.other[j] && self.across(
            self.back(j),
        ) == j by {
            assert(self.other.contains(self.other[j]));
            assert(self.one.contains(self.other[j]));
            let i = self.back(j);
            assert(self.one[i] == self.other[j]);
            assert(self.other[self.across(i)] == self.other[j]);
            assert(self.across(i) == j);
        }
    }

    /// Two items of which one writes what the other writes or reads stand in the same
    /// order in both.
    proof fn lemma_same_way(
        self,
        leaves: spec_fn(T, spec_fn(Place) -> Cell<S>, spec_fn(Place) -> Cell<S>) -> bool,
        writes: spec_fn(T, Place) -> bool,
        reads: spec_fn(T, Place) -> bool,
        first: spec_fn(T, T) -> bool,
        a: int,
        b: int,
        p: Place,
    )
        requires
            self.are_two(leaves, first),
            self.are_settled(leaves, writes, reads, first),
            0 <= a < self.one.len(),
            0 <= b < self.one.len(),
            a != b,
            writes(self.one[a], p),
            writes(self.one[b], p) || reads(self.one[b], p),
        ensures
            a < b <==> self.across(a) < self.across(b),
    {
        let (t, u) = (self.one[a], self.one[b]);
        self.lemma_across(leaves, first);
        assert(self.one.contains(t) && self.one.contains(u));
        assert(settled(t, u, writes, reads, first));
        let (i, j) = (self.across(a), self.across(b));
        assert(self.other[i] == t && self.other[j] == u);
        if first(t, u) {
            assert(first(self.one[a], self.one[b]));
            assert(first(self.other[i], self.other[j]));
        } else {
            assert(first(u, t));
            assert(first(self.one[b], self.one[a]));
            assert(first(self.other[j], self.other[i]));
        }
    }

    /// Before item `n` of the one order and item `k` of the other the same items have
    /// written the place: then it holds the same.
    proof fn lemma_holds_the_same(
        self,
        leaves: spec_fn(T, spec_fn(Place) -> Cell<S>, spec_fn(Place) -> Cell<S>) -> bool,
        writes: spec_fn(T, Place) -> bool,
        reads: spec_fn(T, Place) -> bool,
        first: spec_fn(T, T) -> bool,
        n: int,
        k: int,
        p: Place,
    )
        requires
            self.are_two(leaves, first),
            self.are_settled(leaves, writes, reads, first),
            0 <= n <= self.one.len(),
            0 <= k <= self.other.len(),
            forall|i: int|
                0 <= i < self.one.len() && writes(self.one[i], p) ==> (i < n
                    <==> #[trigger] self.across(i) < k),
        ensures
            self.ones[n](p) == self.others[k](p),
        decreases n,
    {
        self.lemma_across(leaves, first);
        self.lemma_kept(leaves, writes, reads, first);
        let i = last_writer(self.one, writes, n, p);
        lemma_last_writer(self.one, writes, n, p);
        if i < 0 {
            assert forall|l: int| 0 <= l < k implies !writes(#[trigger] self.other[l], p) by {
                let a = self.back(l);
                assert(self.across(a) == l);
            }
            lemma_stays(self.one, self.ones, leaves, writes, 0, n, p);
            lemma_stays(self.other, self.others, leaves, writes, 0, k, p);
        } else {
            let (t, j) = (self.one[i], self.across(i));
            assert(self.one.contains(t));
            assert forall|l: int| j + 1 <= l < k implies !writes(#[trigger] self.other[l], p) by {
                let a = self.back(l);
                if writes(self.other[l], p) {
                    assert(a < n);
                    self.lemma_same_way(leaves, writes, reads, first, a, i, p);
                }
            }
            lemma_stays(self.one, self.ones, leaves, writes, i + 1, n, p);
            lemma_stays(self.other, self.others, leaves, writes, j + 1, k, p);
            let (m, u) = (self.ones[i], self.others[j]);
            assert forall|q: Place| reads(t, q) implies #[trigger] m(q) == u(q) by {
                assert forall|a: int| 0 <= a < self.one.len() && writes(self.one[a], q) implies (a
                    < i <==> #[trigger] self.across(a) < j) by {
                    if a != i {
                        self.lemma_same_way(leaves, writes, reads, first, a, i, q);
                    }
                }
                self.lemma_holds_the_same(leaves, writes, reads, first, i, j, q);
            }
            assert(leaves(self.one[i], self.ones[i], self.ones[i + 1]));
            assert(leaves(self.other[j], self.others[j], self.others[j + 1]));
            assert(goes_by_its_reads(t, leaves, writes, reads));
            let (x, y) = (self.ones[i + 1], self.others[j + 1]);
            assert(leaves(t, m, x) && leaves(t, u, y));
            assert(x(p) == y(p));
        }
    }

    /// The items of both orders change what they write alone.
    proof fn lemma_kept(
        self,
        leaves: spec_fn(T, spec_fn(Place) -> Cell<S>, spec_fn(Place) -> Cell<S>) -> bool,
        writes: spec_fn(T, Place) -> bool,
        reads: spec_fn(T, Place) -> bool,
        first: spec_fn(T, T) -> bool,
    )
        requires
            self.are_two(leaves, first),
            self.are_settled(leaves, writes, reads, first),
        ensures
            forall|i: int|
                0 <= i < self.one.len() ==> keeps_the_rest(#[trigger] self.one[i], leaves, writes),
            forall|i: int|
                0 <= i < self.other.len() ==> keeps_the_rest(
                    #[trigger] self.other[i],
                    leaves,
                    writes,
                ),
    {
        assert forall|i: int| 0 <= i < self.one.len() implies keeps_the_rest(
            #[trigger] self.one[i],
            leaves,
            writes,
        ) by {
            assert(self.one.contains(self.one[i]));
        }
        assert forall|i: int| 0 <= i < self.other.len() implies keeps_the_rest(
            #[trigger] self.other[i],
            leaves,
            writes,
        ) by {
            assert(self.other.contains(self.other[i]));
            assert(self.one.contains(self.other[i]));
        }
    }
}

/// The last of the first `n` items that writes the place, or -1.
spec fn last_writer<T>(
    tasks: Seq<T>,
    writes: spec_fn(T, Place) -> bool,
    n: int,
    p: Place,
) -> int
    decreases n,
{
    if n <= 0 {
        -1
    } else if writes(tasks[n - 1], p) {
        n - 1
    } else {
        last_writer(tasks, writes, n - 1, p)
    }
}

proof fn lemma_last_writer<T>(
    tasks: Seq<T>,
    writes: spec_fn(T, Place) -> bool,
    n: int,
    p: Place,
)
    requires
        0 <= n,
    ensures
        ({
            let i = last_writer(tasks, writes, n, p);
            &&& -1 <= i < n
            &&& i >= 0 ==> writes(tasks[i], p)
            &&& forall|k: int| i < k < n ==> !writes(#[trigger] tasks[k], p)
        }),
    decreases n,
{
    if n > 0 {
        lemma_last_writer(tasks, writes, n - 1, p);
    }
}

/// Two orders of items that agree on what must come first leave the buffers with the
/// same contents, where of any two items one must come first or neither writes what the
/// other writes or reads.
pub proof fn orders_agree<T, S>(
    courses: Courses<T, S>,
    leaves: spec_fn(T, spec_fn(Place) -> Cell<S>, spec_fn(Place) -> Cell<S>) -> bool,
    writes: spec_fn(T, Place) -> bool,
    reads: spec_fn(T, Place) -> bool,
    first: spec_fn(T, T) -> bool,
)
    requires
        courses.are_two(leaves, first),
        courses.are_settled(leaves, writes, reads, first),
    ensures
        courses.ones.last() == courses.others.last(),
{
    let (n, k) = (courses.one.len() as int, courses.other.len() as int);
    let (x, y) = (courses.ones[n], courses.others[k]);
    courses.lemma_across(leaves, first);
    assert forall|p: Place| #[trigger] x(p) == y(p) by {
        courses.lemma_holds_the_same(leaves, writes, reads, first, n, k, p);
    }
    assert(x =~= y);
}

/// Items of which none writes what another writes or reads leave the buffers with
/// the same contents in whatever order they run.
pub proof fn order_is_free<T, S>(
    one: Seq<T>,
    ones: Seq<spec_fn(Place) -> Cell<S>>,
    other: Seq<T>,
    others: Seq<spec_fn(Place) -> Cell<S>>,
    leaves: spec_fn(T, spec_fn(Place) -> Cell<S>, spec_fn(Place) -> Cell<S>) -> bool,
    writes: spec_fn(T, Place) -> bool,
    reads: spec_fn(T, Place) -> bool,
)
    requires
        is_course(one, ones, leaves),
        is_course(other, others, leaves),
        one.no_duplicates(),
        other.no_duplicates(),
        forall|t: T| #[trigger] one.contains(t) <==> other.contains(t),
        ones[0] == others[0],
        forall|t: T| #[trigger] one.contains(t) ==> keeps_the_rest(t, leaves, writes),
        forall|t: T| #[trigger] one.contains(t) ==> goes_by_its_reads(t, leaves, writes, reads),
        forall|t: T, u: T| #[trigger]
            one.contains(t) && #[trigger] one.contains(u) && t != u ==> apart(t, u, writes, reads),
    ensures
        ones.last() == others.last(),
{
    let courses = Courses { one, ones, other, others };
    orders_agree(courses, leaves, writes, reads, |t: T, u: T| false);
}

/// Among items of which none writes what another writes or reads, each finds what it
/// reads as it was before the first, and what it writes stays to the end.
pub proof fn items_are_undisturbed<T, S>(
    tasks: Seq<T>,
    mems: Seq<spec_fn(Place) -> Cell<S>>,
    leaves: spec_fn(T, spec_fn(Place) -> Cell<S>, spec_fn(Place) -> Cell<S>) -> bool,
    writes: spec_fn(T, Place) -> bool,
    reads: spec_fn(T, Place) -> bool,
    i: int,
)
    requires
        is_course(tasks, mems, leaves),
        tasks.no_duplicates(),
        0 <= i < tasks.len(),
        forall|t: T| #[trigger] tasks.contains(t) ==> keeps_the_rest(t, leaves, writes),
        forall|t: T, u: T| #[trigger]
            tasks.contains(t) && #[trigger] tasks.contains(u) && t != u ==> apart(
                t,
                u,
                writes,
                reads,
            ),
    ensures
        forall|p: Place|
            reads(tasks[i], p) ==> #[trigger] mems[i](p) == mems[0](p),
        forall|p: Place|
            writes(tasks[i], p) ==> #[trigger] mems[i + 1](p) == mems.last()(p),
{
    let n = tasks.len() as int;
    assert forall|k: int| 0 <= k < n implies keeps_the_rest(#[trigger] tasks[k], leaves, writes) by {
        assert(tasks.contains(tasks[k]));
    }
    assert forall|k: int| 0 <= k < n && k != i implies apart(
        #[trigger] tasks[k],
        tasks[i],
        writes,
        reads,
    ) && apart(tasks[i], tasks[k], writes, reads) by {
        assert(tasks.contains(tasks[k]) && tasks.contains(tasks[i]));
    }
    assert forall|p: Place| reads(tasks[i], p) implies #[trigger] mems[i](p) == mems[0](p) by {
        lemma_stays(tasks, mems, leaves, writes, 0, i, p);
    }
    assert forall|p: Place| writes(tasks[i], p) implies #[trigger] mems[i + 1](p) == mems.last()(
        p,
    ) by {
        lemma_stays(tasks, mems, leaves, writes, i + 1, n, p);
    }
}

/// A place that no item writes stays.
pub proof fn unwritten_places_stay<T, S>(
    tasks: Seq<T>,
    mems: Seq<spec_fn(Place) -> Cell<S>>,
    leaves: spec_fn(T, spec_fn(Place) -> Cell<S>, spec_fn(Place) -> Cell<S>) -> bool,
    writes: spec_fn(T, Place) -> bool,
    p: Place,
)
    requires
        is_course(tasks, mems, leaves),
        forall|t: T| #[trigger] tasks.contains(t) ==> keeps_the_rest(t, leaves, writes),
        forall|t: T| #[trigger] tasks.contains(t) ==> !writes(t, p),
    ensures
        mems.last()(p) == mems[0](p),
{
    let n = tasks.len() as int;
    assert forall|k: int| 0 <= k < n implies keeps_the_rest(#[trigger] tasks[k], leaves, writes)
        && !writes(tasks[k], p) by {
        assert(tasks.contains(tasks[k]));
    }
    lemma_stays(tasks, mems, leaves, writes, 0, n, p);
}

} // verus!
