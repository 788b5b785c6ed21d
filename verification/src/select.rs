//! Choices by score: the next token, the best tokens, the experts. Scores are
//! single-precision numbers, given as their bits and ordered as numbers are.
use vstd::prelude::*;

verus! {

/// The bits of a NaN, which compares with nothing.
pub open spec fn is_nan(bits: u32) -> bool {
    bits as int % 0x8000_0000 > 0x7f80_0000
}

/// A number that grows with the single's value; both zeros have the same.
pub open spec fn order(bits: u32) -> int {
    if bits < 0x8000_0000 {
        bits as int
    } else {
        0x8000_0000 - bits
    }
}

/// The bits of the least finite single.
pub const LEAST: u32 = 0xff7f_ffff;

/// `a` is greater than `b`.
pub open spec fn above(a: u32, b: u32) -> bool {
    !is_nan(a) && !is_nan(b) && order(a) > order(b)
}

/// `order` as an executable function.
fn order_of(bits: u32) -> (r: i64)
    ensures
        r == order(bits),
{
    if bits < 0x8000_0000 {
        bits as i64
    } else {
        0x8000_0000 - bits as i64
    }
}

/// Whether `a` is greater than `b`.
pub fn greater(a: u32, b: u32) -> (r: bool)
    ensures
        r == above(a, b),
{
    a % 0x8000_0000 <= 0x7f80_0000 && b % 0x8000_0000 <= 0x7f80_0000 && order_of(a) > order_of(b)
}

// ------------------------------------------------------------------- best score

/// Score `i` is greater than the least finite single.
pub open spec fn counts(scores: Seq<u32>, i: int) -> bool {
    above(scores[i], LEAST)
}

/// `best` is the first greatest of the scores `lo .. hi` and its index, or the
/// least single and index 0 where no score is greater than that.
pub open spec fn is_best(scores: Seq<u32>, lo: int, hi: int, best: (u32, u32)) -> bool {
    if exists|i: int| lo <= i < hi && #[trigger] counts(scores, i) {
        &&& lo <= best.1 < hi
        &&& counts(scores, best.1 as int)
        &&& best.0 == scores[best.1 as int]
        &&& forall|i: int|
            lo <= i < hi && #[trigger] counts(scores, i) ==> order(scores[i]) <= order(best.0) && (
            order(scores[i]) == order(best.0) ==> best.1 <= i)
    } else {
        best == (LEAST, 0u32)
    }
}

/// The first greatest of the scores `lo .. hi`, with its index.
pub fn best_in(scores: &[u32], lo: usize, hi: usize) -> (best: (u32, u32))
    requires
        lo <= hi <= scores.len(),
        hi <= 0x1_0000_0000,
    ensures
        is_best(scores@, lo as int, hi as int, best),
{
    let mut best: (u32, u32) = (LEAST, 0);
    for i in lo..hi
        invariant
            lo <= hi <= scores.len(),
            hi <= 0x1_0000_0000,
            is_best(scores@, lo as int, i as int, best),
    {
        let ghost before = best;
        if greater(scores[i], best.0) {
            best = (scores[i], i as u32);
        }
        proof {
            if exists|j: int| lo <= j < i && #[trigger] counts(scores@, j) {
                assert(counts(scores@, before.1 as int));
            }
            if counts(scores@, i as int) {
                assert(lo <= i < i + 1 && counts(scores@, i as int));
            }
        }
    }
    best
}

/// The scores where the first of them has index `first`; those before it are not
/// given.
pub open spec fn placed(scores: Seq<u32>, first: int) -> Seq<u32> {
    Seq::new((first + scores.len()) as nat, |i: int| scores[i - first])
}

/// The first greatest of the scores, with its index, where the first of them has
/// index `first`.
pub fn best_from(scores: &[u32], first: usize) -> (best: (u32, u32))
    requires
        first + scores.len() <= 0x1_0000_0000,
    ensures
        is_best(placed(scores@, first as int), first as int, first + scores.len(), best),
{
    let ghost all = placed(scores@, first as int);
    let mut best: (u32, u32) = (LEAST, 0);
    for k in 0..scores.len()
        invariant
            first + scores.len() <= 0x1_0000_0000,
            all == placed(scores@, first as int),
            is_best(all, first as int, first + k, best),
    {
        let ghost before = best;
        let i: u64 = first as u64 + k as u64;
        assert(all[i as int] == scores@[k as int]);
        if greater(scores[k], best.0) {
            best = (scores[k], i as u32);
        }
        proof {
            if exists|j: int| first <= j < i && #[trigger] counts(all, j) {
                assert(counts(all, before.1 as int));
            }
            if counts(all, i as int) {
                assert(first <= i < i + 1 && counts(all, i as int));
            }
        }
    }
    best
}

/// `r` is the index of the first greatest of all scores, or 0 where no score is
/// greater than the least finite single.
pub open spec fn is_choice(scores: Seq<u32>, r: u32) -> bool {
    exists|b: u32| #[trigger] is_best(scores, 0, scores.len() as int, (b, r))
}

/// The index of the greatest score, the first where several are; 0 where no score
/// is greater than the least finite single.
pub fn greedy(scores: &[u32]) -> (r: u32)
    requires
        scores.len() <= 0x1_0000_0000,
    ensures
        is_choice(scores@, r),
{
    let (b, r) = best_in(scores, 0, scores.len());
    assert(is_best(scores@, 0, scores.len() as int, (b, r)));
    r
}

/// A score and its index in one word.
pub fn pack_best(best: (u32, u32)) -> (w: u64)
    ensures
        word_best(w) == best,
{
    let (s, i): (u64, u64) = (best.0 as u64, best.1 as u64);
    assert((s << 32) | i == s * 0x1_0000_0000 + i) by (bit_vector)
        requires
            s <= 0xffff_ffff,
            i <= 0xffff_ffff,
    ;
    (s << 32) | i
}

/// The score and the index of a packed word.
pub fn unpack_best(w: u64) -> (best: (u32, u32))
    ensures
        best == word_best(w),
{
    assert(w >> 32 == w / 0x1_0000_0000 && w >> 32 <= 0xffff_ffff && w as u32 == w % 0x1_0000_0000)
        by (bit_vector);
    ((w >> 32) as u32, w as u32)
}

/// The score and the index of a packed word.
pub open spec fn word_best(w: u64) -> (u32, u32) {
    ((w as int / 0x1_0000_0000) as u32, (w as int % 0x1_0000_0000) as u32)
}

/// The best of the first `n` words: a later one counts only where it is greater.
pub open spec fn merged(packed: Seq<u64>, n: int) -> (u32, u32)
    decreases n,
{
    if n <= 0 {
        (LEAST, 0u32)
    } else {
        let (before, last) = (merged(packed, n - 1), word_best(packed[n - 1]));
        if above(last.0, before.0) {
            last
        } else {
            before
        }
    }
}

/// The index of the best of the workers' best scores.
pub fn merge_best(packed: &[u64]) -> (r: u32)
    ensures
        r == merged(packed@, packed.len() as int).1,
{
    let mut best: (u32, u32) = (LEAST, 0);
    for w in 0..packed.len()
        invariant
            best == merged(packed@, w as int),
    {
        let part = unpack_best(packed[w]);
        if greater(part.0, best.0) {
            best = part;
        }
    }
    best.1
}

/// Where each worker's word holds the best score between its cut and the next,
/// the merged best is the best of all scores: splitting the scores among workers
/// does not change the choice.
pub proof fn merged_is_best(packed: Seq<u64>, scores: Seq<u32>, cut: spec_fn(int) -> int, n: int)
    requires
        0 <= n <= packed.len(),
        cut(0) == 0,
        forall|w: int| 0 <= w < n ==> #[trigger] cut(w) <= cut(w + 1),
        forall|w: int|
            0 <= w < n ==> is_best(
                scores,
                cut(w),
                cut(w + 1),
                word_best(#[trigger] packed[w]),
            ),
    ensures
        0 <= cut(n),
        is_best(scores, 0, cut(n), merged(packed, n)),
    decreases n,
{
    if n > 0 {
        merged_is_best(packed, scores, cut, n - 1);
        assert(cut(n - 1) <= cut(n - 1 + 1));
        assert(is_best(scores, cut(n - 1), cut(n - 1 + 1), word_best(packed[n - 1])));
        lemma_join_best(
            scores,
            cut(n - 1),
            cut(n),
            merged(packed, n - 1),
            word_best(packed[n - 1]),
            merged(packed, n),
        );
    }
}

/// The better of the bests of two neighbouring runs of scores is the best of
/// both, the first where they are equal.
proof fn lemma_join_best(
    scores: Seq<u32>,
    mid: int,
    hi: int,
    first: (u32, u32),
    second: (u32, u32),
    joined: (u32, u32),
)
    requires
        0 <= mid <= hi,
        is_best(scores, 0, mid, first),
        is_best(scores, mid, hi, second),
        joined == if above(second.0, first.0) {
            second
        } else {
            first
        },
    ensures
        is_best(scores, 0, hi, joined),
{
    let a = exists|i: int| 0 <= i < mid && #[trigger] counts(scores, i);
    let b = exists|i: int| mid <= i < hi && #[trigger] counts(scores, i);
    if a {
        assert(counts(scores, first.1 as int));
    }
    if b {
        assert(counts(scores, second.1 as int));
    }
    if exists|i: int| 0 <= i < hi && #[trigger] counts(scores, i) {
        let k = choose|i: int| 0 <= i < hi && #[trigger] counts(scores, i);
        assert(a || b) by {
            if k < mid {
                assert(0 <= k < mid && counts(scores, k));
            } else {
                assert(mid <= k < hi && counts(scores, k));
            }
        }
    } else {
        assert(!a && !b);
    }
}

// ---------------------------------------------------------------- best k scores

/// No score is a NaN.
pub open spec fn numbers(scores: Seq<u32>) -> bool {
    forall|i: int| 0 <= i < scores.len() ==> !is_nan(#[trigger] scores[i])
}

/// How many entries, from the front, have a score greater than `score`.
pub open spec fn ahead(top: Seq<(u32, u32)>, score: u32) -> int
    decreases top.len(),
{
    if top.len() == 0 || !above(top[0].0, score) {
        0
    } else {
        1 + ahead(top.drop_first(), score)
    }
}

/// The list after a score is offered to it: a list of fewer than `k` entries takes
/// it, a full one takes it only where it is greater than the last entry's; it
/// goes behind all greater ones, and what is then beyond `k` is dropped.
pub open spec fn offered(top: Seq<(u32, u32)>, k: int, score: u32, id: u32) -> Seq<(u32, u32)> {
    if top.len() < k || above(score, top.last().0) {
        let longer = top.insert(ahead(top, score), (score, id));
        if longer.len() > k {
            longer.drop_last()
        } else {
            longer
        }
    } else {
        top
    }
}

/// The list after the first `n` scores have been offered.
pub open spec fn top_list(scores: Seq<u32>, k: int, n: int) -> Seq<(u32, u32)>
    decreases n,
{
    if n <= 0 {
        seq![]
    } else {
        offered(top_list(scores, k, n - 1), k, scores[n - 1], (n - 1) as u32)
    }
}

/// The entries fall from the greatest score to the least; of equal scores the
/// later one comes first. Each entry is a score with its index, of the first `n`.
pub open spec fn is_falling(top: Seq<(u32, u32)>, scores: Seq<u32>, n: int) -> bool {
    &&& forall|i: int|
        0 <= i < top.len() ==> (#[trigger] top[i]).1 < n && top[i].0 == scores[top[i].1 as int]
    &&& forall|i: int, j: int|
        0 <= i < j < top.len() ==> order((#[trigger] top[i]).0) > order((#[trigger] top[j]).0) || (
        order(top[i].0) == order(top[j].0) && top[i].1 > top[j].1)
}

/// Index `i` has an entry in the list.
pub open spec fn listed(top: Seq<(u32, u32)>, i: int) -> bool {
    exists|a: int| 0 <= a < top.len() && (#[trigger] top[a]).1 == i
}

proof fn lemma_ahead(top: Seq<(u32, u32)>, score: u32)
    ensures
        0 <= ahead(top, score) <= top.len(),
        forall|i: int| 0 <= i < ahead(top, score) ==> above((#[trigger] top[i]).0, score),
        ahead(top, score) < top.len() ==> !above(top[ahead(top, score)].0, score),
    decreases top.len(),
{
    if top.len() > 0 && above(top[0].0, score) {
        let rest = top.drop_first();
        lemma_ahead(rest, score);
        assert forall|i: int| 0 <= i < ahead(top, score) implies above((#[trigger] top[i]).0, score) by {
            if i > 0 {
                assert(above(rest[i - 1].0, score));
            }
        }
        if ahead(top, score) < top.len() {
            assert(rest[ahead(rest, score)] == top[ahead(top, score)]);
        }
    }
}

/// Inserting the next score behind all greater ones keeps the list falling.
proof fn lemma_insert_falling(top: Seq<(u32, u32)>, scores: Seq<u32>, n: int)
    requires
        numbers(scores),
        0 <= n < scores.len(),
        n < 0x1_0000_0000,
        is_falling(top, scores, n),
    ensures
        is_falling(
            top.insert(ahead(top, scores[n]), (scores[n], n as u32)),
            scores,
            n + 1,
        ),
{
    let (score, id) = (scores[n], n as u32);
    lemma_ahead(top, score);
    let at = ahead(top, score);
    let longer = top.insert(at, (score, id));
    assert forall|i: int| 0 <= i < longer.len() implies (#[trigger] longer[i]).1 < n + 1
        && longer[i].0 == scores[longer[i].1 as int] by {
        if i < at {
            assert(longer[i] == top[i]);
        } else if i > at {
            assert(longer[i] == top[i - 1]);
        }
    }
    assert forall|i: int, j: int| 0 <= i < j < longer.len() implies order((#[trigger] longer[i]).0)
        > order((#[trigger] longer[j]).0) || (order(longer[i].0) == order(longer[j].0)
        && longer[i].1 > longer[j].1) by {
        if i == at {
            assert(longer[j] == top[j - 1]);
            assert(!is_nan(top[at].0)) by {
                assert(top[at].0 == scores[top[at].1 as int]);
            }
            assert(order(top[at].0) <= order(score));
            if j - 1 > at {
                assert(order(top[at].0) >= order(top[j - 1].0));
            }
        } else if j == at {
            assert(longer[i] == top[i]);
            assert(above(top[i].0, score));
        } else {
            let (a, b) = (
                if i < at {
                    i
                } else {
                    i - 1
                },
                if j < at {
                    j
                } else {
                    j - 1
                },
            );
            assert(longer[i] == top[a] && longer[j] == top[b]);
        }
    }
}

/// What inserting leaves outside is no greater than the last entry.
proof fn lemma_insert_outside(
    top: Seq<(u32, u32)>,
    next: Seq<(u32, u32)>,
    scores: Seq<u32>,
    k: int,
    n: int,
    i: int,
)
    requires
        numbers(scores),
        0 <= n < scores.len(),
        n < 0x1_0000_0000,
        0 < k,
        top.len() == if n < k {
            n
        } else {
            k
        },
        is_falling(top, scores, n),
        top.len() < k || above(scores[n], top.last().0),
        next == offered(top, k, scores[n], n as u32),
        0 <= i <= n,
        !listed(next, i),
        i < n && !listed(top, i) ==> order(scores[i]) <= order(top.last().0),
    ensures
        order(scores[i]) <= order(next.last().0),
{
    let score = scores[n];
    lemma_ahead(top, score);
    lemma_insert_falling(top, scores, n);
    let at = ahead(top, score);
    let longer = top.insert(at, (score, n as u32));
    if i == n {
        assert(longer[at].1 == i);
        if at < next.len() {
            assert(next[at].1 == i);
        } else {
            assert(top.len() == k && at == k);
            assert(above(top[k - 1].0, score));
        }
    } else if listed(top, i) {
        let a = choose|a: int| 0 <= a < top.len() && (#[trigger] top[a]).1 == i;
        let b = if a < at {
            a
        } else {
            a + 1
        };
        assert(longer[b] == top[a]);
        if b < next.len() {
            assert(next[b].1 == i);
        } else {
            assert(b == k && next[k - 1] == longer[k - 1]);
            assert(order(longer[k - 1].0) >= order(longer[b].0));
        }
    } else if top.len() < k {
        lemma_all_listed(top, scores, n);
    } else {
        assert(longer.len() == k + 1);
        assert(at < k) by {
            if at == k {
                assert(above(top[k - 1].0, score));
            }
        }
        assert(longer[k] == top[k - 1]);
        assert(order(longer[k - 1].0) >= order(longer[k].0));
    }
}

/// Whatever the scores, even where some are no numbers, the list has `k` entries,
/// or as many as there are scores, and each is a score with its index.
pub proof fn top_list_is_of_scores(scores: Seq<u32>, k: int, n: int)
    requires
        0 < k,
        0 <= n <= scores.len() <= 0x1_0000_0000,
    ensures
        top_list(scores, k, n).len() == if n < k {
            n
        } else {
            k
        },
        forall|i: int|
            0 <= i < top_list(scores, k, n).len() ==> (#[trigger] top_list(scores, k, n)[i]).1 < n
                && top_list(scores, k, n)[i].0 == scores[top_list(scores, k, n)[i].1 as int],
    decreases n,
{
    if n > 0 {
        top_list_is_of_scores(scores, k, n - 1);
        let top = top_list(scores, k, n - 1);
        lemma_ahead(top, scores[n - 1]);
        let longer = top.insert(ahead(top, scores[n - 1]), (scores[n - 1], (n - 1) as u32));
        let next = top_list(scores, k, n);
        assert(next == offered(top, k, scores[n - 1], (n - 1) as u32));
        assert forall|i: int| 0 <= i < next.len() implies (#[trigger] next[i]).1 < n && next[i].0
            == scores[next[i].1 as int] by {
            let at = ahead(top, scores[n - 1]);
            if next == top {
                assert(top[i].1 < n - 1);
            } else if i < at {
                assert(longer[i] == top[i]);
            } else if i > at {
                assert(longer[i] == top[i - 1]);
            }
        }
    }
}

/// The list holds the best scores: it has `k` entries, or all where there are
/// fewer; it falls; and no score outside it is greater than its last entry's.
pub proof fn top_list_is_best(scores: Seq<u32>, k: int, n: int)
    requires
        numbers(scores),
        0 < k,
        0 <= n <= scores.len(),
        n <= 0x1_0000_0000,
    ensures
        top_list(scores, k, n).len() == if n < k {
            n
        } else {
            k
        },
        is_falling(top_list(scores, k, n), scores, n),
        forall|i: int|
            0 <= i < n && !listed(top_list(scores, k, n), i) ==> order(#[trigger] scores[i])
                <= order(top_list(scores, k, n).last().0),
    decreases n,
{
    if n > 0 {
        top_list_is_best(scores, k, n - 1);
        let top = top_list(scores, k, n - 1);
        let next = top_list(scores, k, n);
        let score = scores[n - 1];
        lemma_ahead(top, score);
        if top.len() < k || above(score, top.last().0) {
            lemma_insert_falling(top, scores, n - 1);
            let longer = top.insert(ahead(top, score), (score, (n - 1) as u32));
            assert forall|i: int, j: int| 0 <= i < j < next.len() implies order((#[trigger] next[i]).0)
                > order((#[trigger] next[j]).0) || (order(next[i].0) == order(next[j].0)
                && next[i].1 > next[j].1) by {
                assert(next[i] == longer[i] && next[j] == longer[j]);
            }
            assert forall|i: int| 0 <= i < next.len() implies (#[trigger] next[i]).1 < n && next[i].0
                == scores[next[i].1 as int] by {
                assert(next[i] == longer[i]);
            }
            assert forall|i: int| 0 <= i < n && !listed(next, i) implies order(#[trigger] scores[i])
                <= order(next.last().0) by {
                lemma_insert_outside(top, next, scores, k, n - 1, i);
            }
        } else {
            assert(!is_nan(top.last().0)) by {
                assert(top.last().0 == scores[top.last().1 as int]);
            }
        }
    }
}

/// A falling list of as many entries as there are scores lists them all.
proof fn lemma_all_listed(top: Seq<(u32, u32)>, scores: Seq<u32>, n: int)
    requires
        is_falling(top, scores, n),
        top.len() == n,
    ensures
        forall|i: int| 0 <= i < n ==> #[trigger] listed(top, i),
{
    let ids = top.map_values(|e: (u32, u32)| e.1 as int);
    assert(ids.no_duplicates()) by {
        assert forall|i: int, j: int| 0 <= i < ids.len() && 0 <= j < ids.len() && i != j implies ids[i]
            != ids[j] by {
            assert(ids[i] == top[i].1 && ids[j] == top[j].1);
            if i < j {
                assert(order(top[i].0) > order(top[j].0) || top[i].1 > top[j].1);
            } else {
                assert(order(top[j].0) > order(top[i].0) || top[j].1 > top[i].1);
            }
        }
    }
    ids.unique_seq_to_set();
    let full = vstd::set_lib::set_int_range(0, n);
    vstd::set_lib::lemma_int_range(0, n);
    assert(ids.to_set().subset_of(full)) by {
        assert forall|x: int| ids.to_set().contains(x) implies full.contains(x) by {
            let a = choose|a: int| 0 <= a < ids.len() && ids[a] == x;
            assert(top[a].1 < n);
        }
    }
    vstd::set_lib::lemma_subset_equality(ids.to_set(), full);
    assert forall|i: int| 0 <= i < n implies #[trigger] listed(top, i) by {
        assert(full.contains(i));
        let a = choose|a: int| 0 <= a < ids.len() && ids[a] == i;
        assert(top[a].1 == i);
    }
}

/// The `k` best scores with their indices, as the list that takes them one by one.
pub fn top_k(scores: &[u32], k: usize) -> (top: Vec<(u32, u32)>)
    requires
        scores.len() <= 0x1_0000_0000,
        0 < k < usize::MAX,
    ensures
        top@ == top_list(scores@, k as int, scores.len() as int),
{
    let mut top: Vec<(u32, u32)> = Vec::new();
    for n in 0..scores.len()
        invariant
            scores.len() <= 0x1_0000_0000,
            0 < k < usize::MAX,
            top@.len() <= k,
            top@ == top_list(scores@, k as int, n as int),
    {
        let score: u32 = scores[n];
        let wanted: bool = if top.len() < k {
            true
        } else {
            greater(score, top[top.len() - 1].0)
        };
        let ghost before = top@;
        if wanted {
            let mut at: usize = 0;
            proof {
                lemma_ahead(before, score);
                assert(before.skip(0) =~= before);
            }
            while at < top.len() && greater(top[at].0, score)
                invariant
                    top@ == before,
                    at <= top@.len(),
                    ahead(before, score) == at + ahead(before.skip(at as int), score),
                decreases top@.len() - at,
            {
                proof {
                    let rest = before.skip(at as int);
                    assert(rest[0] == before[at as int]);
                    assert(rest.drop_first() =~= before.skip(at + 1));
                }
                at = at + 1;
            }
            proof {
                let rest = before.skip(at as int);
                if at < before.len() {
                    assert(rest[0] == before[at as int]);
                }
                assert(at == ahead(before, score));
            }
            top.insert(at, (score, n as u32));
            if top.len() > k {
                top.pop();
            }
        }
    }
    top
}

// --------------------------------------------------------------------- experts

/// Expert `a` comes before expert `b`: by the greater score, then by the lower
/// number.
pub open spec fn before(scores: Seq<u32>, a: int, b: int) -> bool {
    order(scores[a]) > order(scores[b]) || (order(scores[a]) == order(scores[b]) && a < b)
}

/// `top` holds the first experts in that order.
pub open spec fn are_first(top: Seq<usize>, scores: Seq<u32>) -> bool {
    &&& forall|i: int| 0 <= i < top.len() ==> (#[trigger] top[i]) < scores.len()
    &&& forall|i: int, j: int|
        0 <= i < j < top.len() ==> before(
            scores,
            (#[trigger] top[i]) as int,
            (#[trigger] top[j]) as int,
        )
    &&& forall|i: int, e: int|
        0 <= i < top.len() && 0 <= e < scores.len() && !top.contains(e as usize)
            ==> #[trigger] before(scores, top[i] as int, e)
}

/// The `topk` experts with the greatest scores, the greatest first; of equal
/// scores the lower number comes first.
pub fn top_experts(scores: &[u32], topk: usize) -> (top: Vec<usize>)
    requires
        topk <= scores.len(),
        numbers(scores@),
    ensures
        top.len() == topk,
        are_first(top@, scores@),
{
    let ne: usize = scores.len();
    let mut used: Vec<bool> = Vec::new();
    for e in 0..ne
        invariant
            used@.len() == e,
            forall|i: int| 0 <= i < e ==> !(#[trigger] used@[i]),
    {
        used.push(false);
    }
    let mut top: Vec<usize> = Vec::new();
    for n in 0..topk
        invariant
            ne == scores.len(),
            topk <= ne,
            used@.len() == ne,
            top@.len() == n,
            forall|e: int| 0 <= e < ne ==> (#[trigger] used@[e]) == top@.contains(e as usize),
            are_first(top@, scores@),
    {
        proof {
            lemma_unused(top@, ne as int);
        }
        let mut best: usize = ne;
        for e in 0..ne
            invariant
                ne == scores.len(),
                used@.len() == ne,
                best <= ne,
                best < ne ==> best < e && !used@[best as int],
                best == ne ==> forall|i: int| 0 <= i < e ==> #[trigger] used@[i],
                best < ne ==> forall|i: int|
                    0 <= i < e && !(#[trigger] used@[i]) && i != best ==> before(
                        scores@,
                        best as int,
                        i,
                    ),
        {
            if !used[e] && (best == ne || order_of(scores[e]) > order_of(scores[best])) {
                best = e;
            }
        }
        proof {
            assert(best < ne) by {
                let e = choose|e: int| 0 <= e < ne && !(#[trigger] top@.contains(e as usize));
                assert(used@[e] == top@.contains(e as usize));
            }
            assert(used@[best as int] == top@.contains(best));
        }
        let ghost last = top@;
        used[best] = true;
        top.push(best);
        proof {
            assert forall|e: int| 0 <= e < ne implies (#[trigger] used@[e]) == top@.contains(
                e as usize,
            ) by {
                if e == best {
                    assert(top@[n as int] == best);
                } else if last.contains(e as usize) {
                    let i = choose|i: int| 0 <= i < last.len() && last[i] == e as usize;
                    assert(top@[i] == e as usize);
                } else if top@.contains(e as usize) {
                    let i = choose|i: int| 0 <= i < top@.len() && top@[i] == e as usize;
                    assert(last[i] == e as usize);
                }
            }
            assert forall|i: int, e: int|
                0 <= i < top@.len() && 0 <= e < ne && !top@.contains(
                    e as usize,
                ) implies #[trigger] before(scores@, top@[i] as int, e) by {
                assert(!used@[e]);
                assert(!last.contains(e as usize)) by {
                    if last.contains(e as usize) {
                        let j = choose|j: int| 0 <= j < last.len() && last[j] == e as usize;
                        assert(top@[j] == e as usize);
                    }
                }
                if i < n {
                    assert(before(scores@, last[i] as int, e));
                } else {
                    assert(top@[n as int] == best);
                    assert(e != best);
                }
            }
            assert forall|i: int, j: int| 0 <= i < j < top@.len() implies before(
                scores@,
                (#[trigger] top@[i]) as int,
                (#[trigger] top@[j]) as int,
            ) by {
                if j == n {
                    assert(!last.contains(best));
                    assert(before(scores@, last[i] as int, best as int));
                } else {
                    assert(top@[i] == last[i] && top@[j] == last[j]);
                }
            }
        }
    }
    top
}

/// Which experts come first is settled by the scores: there is one list of a length.
pub proof fn first_experts_are_one(one: Seq<usize>, other: Seq<usize>, scores: Seq<u32>)
    requires
        are_first(one, scores),
        are_first(other, scores),
        one.len() == other.len(),
    ensures
        one == other,
{
    lemma_firsts_agree(one, other, scores, one.len() as int);
    assert(one =~= other);
}

proof fn lemma_firsts_agree(one: Seq<usize>, other: Seq<usize>, scores: Seq<u32>, n: int)
    requires
        are_first(one, scores),
        are_first(other, scores),
        one.len() == other.len(),
        0 <= n <= one.len(),
    ensures
        forall|i: int| 0 <= i < n ==> one[i] == other[i],
    decreases n,
{
    if n > 0 {
        let k = n - 1;
        lemma_firsts_agree(one, other, scores, k);
        if one[k] != other[k] {
            lemma_comes_first(one, other, scores, k);
            lemma_comes_first(other, one, scores, k);
        }
    }
}

/// Of two lists that agree up to place `k`, the first has the earlier expert there.
proof fn lemma_comes_first(one: Seq<usize>, other: Seq<usize>, scores: Seq<u32>, k: int)
    requires
        are_first(one, scores),
        are_first(other, scores),
        0 <= k < one.len() == other.len(),
        forall|i: int| 0 <= i < k ==> one[i] == other[i],
        one[k] != other[k],
    ensures
        before(scores, one[k] as int, other[k] as int),
{
    let e = other[k];
    assert(e < scores.len());
    if one.contains(e) {
        let j = one.index_of(e);
        assert(one[j] == e);
        if j < k {
            assert(other[j] == e);
            assert(before(scores, other[j] as int, other[k] as int));
        }
        assert(before(scores, one[k] as int, one[j] as int));
    } else {
        assert(!one.contains((e as int) as usize));
        assert(before(scores, one[k] as int, e as int));
    }
}

/// Fewer than `n` different numbers leave one below `n` out.
proof fn lemma_unused(top: Seq<usize>, n: int)
    requires
        top.len() < n <= usize::MAX,
        forall|i: int| 0 <= i < top.len() ==> (#[trigger] top[i]) < n,
    ensures
        exists|e: int| 0 <= e < n && !(#[trigger] top.contains(e as usize)),
{
    if forall|e: int| 0 <= e < n ==> #[trigger] top.contains(e as usize) {
        let ids = top.map_values(|e: usize| e as int);
        let full = vstd::set_lib::set_int_range(0, n);
        vstd::set_lib::lemma_int_range(0, n);
        assert(full.subset_of(ids.to_set())) by {
            assert forall|x: int| full.contains(x) implies ids.to_set().contains(x) by {
                assert(top.contains(x as usize));
                let a = choose|a: int| 0 <= a < top.len() && top[a] == x as usize;
                assert(ids[a] == x);
            }
        }
        ids.lemma_cardinality_of_set();
        vstd::set_lib::lemma_len_subset(full, ids.to_set());
    }
}

/// The tokens that chose expert `e`, among the first `n` choices: choice `f` is
/// place `f % topk` of token `f / topk`.
pub open spec fn members(chosen: Seq<usize>, topk: int, e: int, n: int) -> Seq<(usize, usize)>
    decreases n,
{
    if n <= 0 {
        seq![]
    } else {
        let rest = members(chosen, topk, e, n - 1);
        if chosen[n - 1] == e {
            rest.push((((n - 1) / topk) as usize, ((n - 1) % topk) as usize))
        } else {
            rest
        }
    }
}

/// Groups the choices of a batch by expert: `chosen` holds the `topk` experts of
/// each token, token after token.
pub fn group_by_expert(chosen: &[usize], topk: usize, ne: usize) -> (groups: Vec<
    Vec<(usize, usize)>,
>)
    requires
        0 < topk,
    ensures
        groups.len() == ne,
        forall|e: int|
            0 <= e < ne ==> (#[trigger] groups@[e])@ == members(
                chosen@,
                topk as int,
                e,
                chosen.len() as int,
            ),
{
    let mut groups: Vec<Vec<(usize, usize)>> = Vec::new();
    for e in 0..ne
        invariant
            0 < topk,
            groups@.len() == e,
            forall|k: int|
                0 <= k < e ==> (#[trigger] groups@[k])@ == members(
                    chosen@,
                    topk as int,
                    k,
                    chosen.len() as int,
                ),
    {
        let mut group: Vec<(usize, usize)> = Vec::new();
        for f in 0..chosen.len()
            invariant
                0 < topk,
                group@ == members(chosen@, topk as int, e as int, f as int),
        {
            if chosen[f] == e {
                group.push((f / topk, f % topk));
            }
        }
        groups.push(group);
    }
    groups
}

/// The experts that at least one token chose, in rising order.
pub fn active_experts(groups: &Vec<Vec<(usize, usize)>>) -> (active: Vec<usize>)
    ensures
        forall|i: int, j: int| 0 <= i < j < active.len() ==> active@[i] < active@[j],
        forall|e: int|
            0 <= e < groups.len() ==> (active@.contains(e as usize) <==> (#[trigger] groups@[e])@.len()
                > 0),
        forall|i: int| 0 <= i < active.len() ==> (#[trigger] active@[i]) < groups.len(),
{
    let mut active: Vec<usize> = Vec::new();
    for e in 0..groups.len()
        invariant
            forall|i: int, j: int| 0 <= i < j < active.len() ==> active@[i] < active@[j],
            forall|k: int|
                0 <= k < e ==> (active@.contains(k as usize) <==> (#[trigger] groups@[k])@.len() > 0),
            forall|i: int| 0 <= i < active.len() ==> (#[trigger] active@[i]) < e,
    {
        let ghost last = active@;
        if groups[e].len() > 0 {
            active.push(e);
            assert(active@[last.len() as int] == e);
        }
        assert forall|k: int| 0 <= k < e + 1 implies (active@.contains(k as usize) <==> (
        #[trigger] groups@[k])@.len() > 0) by {
            if k < e {
                if last.contains(k as usize) {
                    let i = choose|i: int| 0 <= i < last.len() && last[i] == k as usize;
                    assert(active@[i] == k as usize);
                } else if active@.contains(k as usize) {
                    let i = choose|i: int| 0 <= i < active@.len() && active@[i] == k as usize;
                    assert(last[i] == k as usize);
                }
            } else if last.contains(k as usize) {
                let i = choose|i: int| 0 <= i < last.len() && last[i] == k as usize;
                assert(last[i] < e);
            }
        }
    }
    active
}

/// Every choice of a batch is in the group of the expert that it names, and in no
/// other group.
pub proof fn groups_partition_choices(chosen: Seq<usize>, topk: int, e: int, f: int, n: int)
    requires
        0 < topk,
        0 <= f < chosen.len(),
        0 <= n <= chosen.len() <= usize::MAX,
    ensures
        members(chosen, topk, e, n).contains(((f / topk) as usize, (f % topk) as usize)) <==> f < n
            && chosen[f] == e,
    decreases n,
{
    let entry = ((f / topk) as usize, (f % topk) as usize);
    if n > 0 {
        groups_partition_choices(chosen, topk, e, f, n - 1);
        let rest = members(chosen, topk, e, n - 1);
        let g = n - 1;
        vstd::arithmetic::div_mod::lemma_fundamental_div_mod(f, topk);
        vstd::arithmetic::div_mod::lemma_fundamental_div_mod(g, topk);
        vstd::arithmetic::div_mod::lemma_mod_bound(f, topk);
        vstd::arithmetic::div_mod::lemma_mod_bound(g, topk);
        vstd::arithmetic::div_mod::lemma_div_is_ordered_by_denominator(f, 1, topk);
        vstd::arithmetic::div_mod::lemma_div_is_ordered_by_denominator(g, 1, topk);
        vstd::arithmetic::div_mod::lemma_div_pos_is_pos(f, topk);
        vstd::arithmetic::div_mod::lemma_div_pos_is_pos(g, topk);
        let other = ((g / topk) as usize, (g % topk) as usize);
        assert(entry == other ==> f == g);
        if chosen[g] == e {
            let all = rest.push(other);
            if rest.contains(entry) {
                let i = choose|i: int| 0 <= i < rest.len() && rest[i] == entry;
                assert(all[i] == entry);
            }
            if f == g {
                assert(all[rest.len() as int] == entry);
            }
            if all.contains(entry) && !rest.contains(entry) {
                let i = choose|i: int| 0 <= i < all.len() && all[i] == entry;
                assert(i == rest.len()) by {
                    if i < rest.len() {
                        assert(rest[i] == entry);
                    }
                }
            }
        }
    }
}

} // verus!
