//! The vocabulary, and the encoding of text into tokens by longest match.
use crate::bits::{u16_le, u32_le};
use vstd::prelude::*;
use vstd::slice::slice_subrange;

verus! {

/// The bytes of each token.
pub open spec fn views(v: Seq<Vec<u8>>) -> Seq<Seq<u8>> {
    Seq::new(v.len(), |i: int| v[i]@)
}

// ------------------------------------------------------------------- the file

/// The two bytes at place `i`, least significant first.
pub open spec fn le16(b: Seq<u8>, i: int) -> int {
    b[i] + 256 * b[i + 1]
}

/// The four bytes at place `i`, least significant first.
pub open spec fn le32(b: Seq<u8>, i: int) -> int {
    b[i] + 0x100 * b[i + 1] + 0x1_0000 * b[i + 2] + 0x100_0000 * b[i + 3]
}

/// The `n` tokens that stand in `b` from place `at` on: each is its length in two
/// bytes and then its bytes.
pub open spec fn tokens_from(b: Seq<u8>, at: int, n: int) -> Option<Seq<Seq<u8>>>
    decreases n,
{
    if n <= 0 {
        Some(seq![])
    } else if at + 2 > b.len() || at + 2 + le16(b, at) > b.len() {
        None
    } else {
        let end = at + 2 + le16(b, at);
        match tokens_from(b, end, n - 1) {
            Some(rest) => Some(seq![b.subrange(at + 2, end)] + rest),
            None => None,
        }
    }
}

/// The tokens of a file: their number in four bytes, and then the tokens.
pub open spec fn tokens_of(b: Seq<u8>) -> Option<Seq<Seq<u8>>> {
    if b.len() < 4 {
        None
    } else {
        tokens_from(b, 4, le32(b, 0))
    }
}

/// A copy of a run of bytes.
fn copied_bytes(s: &[u8]) -> (v: Vec<u8>)
    ensures
        v@ == s@,
{
    let mut v: Vec<u8> = Vec::new();
    for i in 0..s.len()
        invariant
            v@ == s@.take(i as int),
    {
        v.push(s[i]);
    }
    assert(s@.take(s@.len() as int) =~= s@);
    v
}

/// Reads the tokens of a file, or none where it ends too early.
pub fn parse_tokens(b: &[u8]) -> (r: Option<Vec<Vec<u8>>>)
    ensures
        r is Some <==> tokens_of(b@) is Some,
        r matches Some(toks) ==> tokens_of(b@) == Some(views(toks@)) && toks@.len() <= u32::MAX,
{
    if b.len() < 4 {
        return None;
    }
    assert(b@.len() == b.len());
    let n: u32 = u32_le(b[0], b[1], b[2], b[3]);
    let mut toks: Vec<Vec<u8>> = Vec::new();
    let mut at: usize = 4;
    let mut i: u32 = 0;
    proof {
        let rest = tokens_from(b@, 4, n as int);
        if rest is Some {
            assert(views(toks@) + rest->Some_0 =~= rest->Some_0);
        }
    }
    while i < n
        invariant
            b@.len() == b.len(),
            4 <= at <= b.len(),
            i <= n,
            n == le32(b@, 0),
            toks@.len() == i,
            match tokens_from(b@, at as int, n - i) {
                Some(rest) => tokens_from(b@, 4, n as int) == Some(views(toks@) + rest),
                None => tokens_from(b@, 4, n as int) is None,
            },
        decreases n - i,
    {
        if b.len() - at < 2 {
            return None;
        }
        let l: usize = u16_le(b[at], b[at + 1]) as usize;
        if b.len() - at - 2 < l {
            return None;
        }
        let ghost before = views(toks@);
        let t = copied_bytes(slice_subrange(b, at + 2, at + 2 + l));
        toks.push(t);
        proof {
            assert(views(toks@) =~= before.push(t@));
            let rest = tokens_from(b@, at + 2 + l, n - i - 1);
            if rest is Some {
                assert(before + (seq![t@] + rest->Some_0) =~= views(toks@) + rest->Some_0);
            }
        }
        at = at + 2 + l;
        i = i + 1;
    }
    proof {
        assert(views(toks@) + seq![] =~= views(toks@));
    }
    Some(toks)
}

/// The tokens from number `from` on, as they are written.
pub open spec fn written_from(toks: Seq<Seq<u8>>, from: int) -> Seq<u8>
    decreases toks.len() - from,
{
    if from >= toks.len() {
        seq![]
    } else {
        let l = toks[from].len();
        seq![(l % 256) as u8, (l / 256) as u8] + toks[from] + written_from(toks, from + 1)
    }
}

/// The file of a vocabulary.
pub open spec fn written(toks: Seq<Seq<u8>>) -> Seq<u8> {
    let n = toks.len() as int;
    seq![
        (n % 256) as u8,
        (n / 0x100 % 256) as u8,
        (n / 0x1_0000 % 256) as u8,
        (n / 0x100_0000) as u8,
    ] + written_from(toks, 0)
}

/// A vocabulary whose file can be written: lengths fit two bytes, and the number
/// of tokens fits four.
pub open spec fn writable(toks: Seq<Seq<u8>>) -> bool {
    &&& toks.len() <= u32::MAX
    &&& forall|i: int| 0 <= i < toks.len() ==> (#[trigger] toks[i]).len() <= u16::MAX
}

proof fn lemma_written_from(front: Seq<u8>, toks: Seq<Seq<u8>>, from: int, back: Seq<u8>)
    requires
        writable(toks),
        0 <= from <= toks.len(),
    ensures
        tokens_from(
            front + written_from(toks, from) + back,
            front.len() as int,
            toks.len() - from,
        ) == Some(toks.skip(from)),
    decreases toks.len() - from,
{
    let b = front + written_from(toks, from) + back;
    if from < toks.len() {
        let t = toks[from];
        let l = t.len();
        let head = seq![(l % 256) as u8, (l / 256) as u8];
        let next = front + head + t;
        lemma_written_from(next, toks, from + 1, back);
        assert(b =~= next + written_from(toks, from + 1) + back);
        let at = front.len() as int;
        assert(b[at] == (l % 256) as u8 && b[at + 1] == (l / 256) as u8);
        assert(le16(b, at) == l);
        assert(b.subrange(at + 2, at + 2 + l) =~= t);
        assert(toks.skip(from) =~= seq![t] + toks.skip(from + 1));
    } else {
        assert(toks.skip(from) =~= seq![]);
    }
}

/// What is written is read back, whatever follows it.
pub proof fn tokens_are_read_back(toks: Seq<Seq<u8>>, back: Seq<u8>)
    requires
        writable(toks),
    ensures
        tokens_of(written(toks) + back) == Some(toks),
{
    let n = toks.len() as int;
    let front = seq![
        (n % 256) as u8,
        (n / 0x100 % 256) as u8,
        (n / 0x1_0000 % 256) as u8,
        (n / 0x100_0000) as u8,
    ];
    let b = written(toks) + back;
    lemma_written_from(front, toks, 0, back);
    assert(b =~= front + written_from(toks, 0) + back);
    assert(b[0] == front[0] && b[1] == front[1] && b[2] == front[2] && b[3] == front[3]);
    assert(le32(b, 0) == n);
    assert(toks.skip(0) =~= toks);
}

// ----------------------------------------------------------------- the lookup

/// A control token: it starts with `<|`.
pub open spec fn is_special(t: Seq<u8>) -> bool {
    t.len() >= 2 && t[0] == 60 && t[1] == 124
}

/// A token that text is encoded into: not empty, and no control token.
pub open spec fn is_plain(t: Seq<u8>) -> bool {
    t.len() > 0 && !is_special(t)
}

/// The first token from `from` on that is `t`.
pub open spec fn first_id(toks: Seq<Seq<u8>>, t: Seq<u8>, from: int) -> Option<int>
    decreases toks.len() - from,
{
    if from >= toks.len() {
        None
    } else if toks[from] == t {
        Some(from)
    } else {
        first_id(toks, t, from + 1)
    }
}

/// The token of a plain text: the first with these bytes.
pub open spec fn plain_id(toks: Seq<Seq<u8>>, t: Seq<u8>) -> Option<int> {
    if is_plain(t) {
        first_id(toks, t, 0)
    } else {
        None
    }
}

/// The last of the first `n` tokens that is `t`.
pub open spec fn last_id(toks: Seq<Seq<u8>>, t: Seq<u8>, n: int) -> Option<int>
    decreases n,
{
    if n <= 0 {
        None
    } else if toks[n - 1] == t {
        Some(n - 1)
    } else {
        last_id(toks, t, n - 1)
    }
}

/// The token of a control text: the last with these bytes.
pub open spec fn special_id(toks: Seq<Seq<u8>>, t: Seq<u8>) -> Option<int> {
    if is_special(t) {
        last_id(toks, t, toks.len() as int)
    } else {
        None
    }
}

proof fn lemma_first_id(toks: Seq<Seq<u8>>, t: Seq<u8>, from: int)
    requires
        0 <= from,
    ensures
        first_id(toks, t, from) matches Some(i) ==> from <= i < toks.len() && toks[i] == t
            && forall|j: int| from <= j < i ==> #[trigger] toks[j] != t,
        first_id(toks, t, from) is None ==> forall|j: int|
            from <= j < toks.len() ==> #[trigger] toks[j] != t,
    decreases toks.len() - from,
{
    if from < toks.len() && toks[from] != t {
        lemma_first_id(toks, t, from + 1);
    }
}

/// A plain text has at most one token, and it has the bytes of the text; none
/// before it has.
pub proof fn plain_id_is_first(toks: Seq<Seq<u8>>, t: Seq<u8>)
    ensures
        plain_id(toks, t) matches Some(i) ==> 0 <= i < toks.len() && toks[i] == t && is_plain(t)
            && forall|j: int| 0 <= j < i ==> #[trigger] toks[j] != t,
        plain_id(toks, t) is None ==> !is_plain(t) || !toks.contains(t),
{
    lemma_first_id(toks, t, 0);
}

/// Whether two runs of bytes are the same.
fn same_bytes(a: &[u8], b: &[u8]) -> (r: bool)
    ensures
        r == (a@ == b@),
{
    if a.len() != b.len() {
        return false;
    }
    for i in 0..a.len()
        invariant
            a.len() == b.len(),
            forall|k: int| 0 <= k < i ==> a@[k] == b@[k],
    {
        if a[i] != b[i] {
            return false;
        }
    }
    assert(a@ =~= b@);
    true
}

/// Whether a token is a control token.
fn special(t: &[u8]) -> (r: bool)
    ensures
        r == is_special(t@),
{
    t.len() >= 2 && t[0] == 60 && t[1] == 124
}

/// The number of buckets of the lookup.
const BUCKETS: usize = 0x1_0000;

/// The bucket of a text.
spec fn bucket(t: Seq<u8>) -> int
    decreases t.len(),
{
    if t.len() == 0 {
        0
    } else {
        (31 * bucket(t.drop_last()) + t.last()) % (BUCKETS as int)
    }
}

/// The bucket of a text.
fn bucket_of(t: &[u8]) -> (r: usize)
    ensures
        r == bucket(t@),
        r < BUCKETS,
{
    let mut h: usize = 0;
    assert(t@.take(0) =~= seq![]);
    for i in 0..t.len()
        invariant
            h == bucket(t@.take(i as int)),
            h < BUCKETS,
    {
        assert(t@.take(i + 1).drop_last() =~= t@.take(i as int));
        h = (31 * h + t[i] as usize) % BUCKETS;
    }
    assert(t@.take(t@.len() as int) =~= t@);
    h
}

/// Rising numbers.
spec fn rising(s: Seq<usize>) -> bool {
    forall|i: int, j: int| 0 <= i < j < s.len() ==> s[i] < s[j]
}

/// A vocabulary with its lookup.
pub struct Vocab {
    toks: Vec<Vec<u8>>,
    buckets: Vec<Vec<usize>>,
}

impl View for Vocab {
    type V = Seq<Seq<u8>>;

    closed spec fn view(&self) -> Seq<Seq<u8>> {
        views(self.toks@)
    }
}

impl Vocab {
    /// Every plain token among the first `n` stands in its bucket, and the numbers
    /// in a bucket rise.
    spec fn is_filed(toks: Seq<Seq<u8>>, buckets: Seq<Vec<usize>>, n: int) -> bool {
        &&& buckets.len() == BUCKETS
        &&& forall|k: int| 0 <= k < BUCKETS ==> rising((#[trigger] buckets[k])@)
        &&& forall|k: int, i: int|
            0 <= k < BUCKETS && 0 <= i < buckets[k]@.len() ==> (#[trigger] buckets[k]@[i]) < n
        &&& forall|i: int|
            0 <= i < n && is_plain(#[trigger] toks[i]) ==> buckets[bucket(toks[i])]@.contains(
                i as usize,
            )
    }

    /// The tokens can be numbered, and the lookup is in order.
    #[verifier::type_invariant]
    spec fn is_well(&self) -> bool {
        &&& self.toks@.len() <= u32::MAX
        &&& Vocab::is_filed(views(self.toks@), self.buckets@, self.toks@.len() as int)
    }

    /// The vocabulary of these tokens.
    pub fn new(toks: Vec<Vec<u8>>) -> (v: Vocab)
        requires
            toks@.len() <= u32::MAX,
        ensures
            v@ == views(toks@),
    {
        let mut buckets: Vec<Vec<usize>> = Vec::new();
        for k in 0..BUCKETS
            invariant
                buckets@.len() == k,
                forall|j: int| 0 <= j < k ==> (#[trigger] buckets@[j])@.len() == 0,
        {
            let empty: Vec<usize> = Vec::new();
            buckets.push(empty);
        }
        let count: usize = toks.len();
        for i in 0..count
            invariant
                count == toks@.len(),
                Vocab::is_filed(views(toks@), buckets@, i as int),
        {
            assert(views(toks@)[i as int] == toks@[i as int]@);
            let ghost before = buckets@;
            if toks[i].len() > 0 && !special(&toks[i]) {
                let k: usize = bucket_of(&toks[i]);
                let mut list = buckets[k].clone();
                assert(list@ =~= before[k as int]@);
                list.push(i);
                let ghost pushed = list@;
                buckets.set(k, list);
                proof {
                    Vocab::lemma_filed(
                        views(toks@),
                        before,
                        buckets@,
                        i as int,
                        k as int,
                        pushed,
                    );
                }
            }
        }
        Vocab { toks, buckets }
    }

    proof fn lemma_filed(
        toks: Seq<Seq<u8>>,
        before: Seq<Vec<usize>>,
        after: Seq<Vec<usize>>,
        n: int,
        k: int,
        pushed: Seq<usize>,
    )
        requires
            Vocab::is_filed(toks, before, n),
            0 <= n < toks.len(),
            n <= usize::MAX,
            0 <= k < BUCKETS,
            k == bucket(toks[n]),
            after.len() == before.len(),
            after[k]@ == pushed,
            pushed == before[k]@.push(n as usize),
            forall|j: int| 0 <= j < BUCKETS && j != k ==> #[trigger] after[j] == before[j],
        ensures
            Vocab::is_filed(toks, after, n + 1),
    {
        assert forall|j: int| 0 <= j < BUCKETS implies rising((#[trigger] after[j])@) by {
            assert(rising(before[j]@));
            if j == k {
                assert forall|x: int, y: int| 0 <= x < y < pushed.len() implies pushed[x]
                    < pushed[y] by {
                    if y == before[k]@.len() {
                        assert(before[k]@[x] < n);
                    } else {
                        assert(before[k]@[x] < before[k]@[y]);
                    }
                }
            }
        }
        assert forall|j: int, i: int| 0 <= j < BUCKETS && 0 <= i < after[j]@.len() implies (
        #[trigger] after[j]@[i]) < n + 1 by {
            if j == k {
                if i < before[k]@.len() {
                    assert(before[k]@[i] < n);
                }
            } else {
                assert(before[j]@[i] < n);
            }
        }
        assert forall|i: int| 0 <= i < n + 1 && is_plain(#[trigger] toks[i]) implies after[bucket(
            toks[i],
        )]@.contains(i as usize) by {
            lemma_bucket(toks[i]);
            if i == n {
                assert(pushed[before[k]@.len() as int] == n as usize);
            } else {
                let list = before[bucket(toks[i])]@;
                assert(list.contains(i as usize));
                let x = choose|x: int| 0 <= x < list.len() && list[x] == i as usize;
                if bucket(toks[i]) == k {
                    assert(pushed[x] == i as usize);
                }
            }
        }
    }

    /// The token of a plain text.
    pub fn lookup(&self, t: &[u8]) -> (r: Option<u32>)
        ensures
            match r {
                Some(id) => plain_id(self@, t@) == Some(id as int) && id < self@.len(),
                None => plain_id(self@, t@) is None,
            },
    {
        proof {
            use_type_invariant(self);
            plain_id_is_first(self@, t@);
        }
        if t.len() == 0 || special(t) {
            return None;
        }
        let k: usize = bucket_of(t);
        let ghost list = self.buckets@[k as int]@;
        let count: usize = self.buckets[k].len();
        for x in 0..count
            invariant
                count == list.len(),
                k < BUCKETS,
                k == bucket(t@),
                is_plain(t@),
                self.toks@.len() <= u32::MAX,
                Vocab::is_filed(views(self.toks@), self.buckets@, self.toks@.len() as int),
                list == self.buckets@[k as int]@,
                self@ == views(self.toks@),
                plain_id(self@, t@) matches Some(i) ==> 0 <= i < self@.len() && self@[i] == t@
                    && forall|j: int| 0 <= j < i ==> #[trigger] self@[j] != t@,
                plain_id(self@, t@) is None ==> !self@.contains(t@),
                forall|y: int| 0 <= y < x ==> views(self.toks@)[#[trigger] list[y] as int] != t@,
        {
            let id: usize = self.buckets[k][x];
            assert(self.buckets@[k as int]@[x as int] < self.toks@.len());
            assert(views(self.toks@)[id as int] == self.toks@[id as int]@);
            if same_bytes(&self.toks[id], t) {
                proof {
                    assert(self@.contains(t@));
                    let first = plain_id(self@, t@)->Some_0;
                    if first < id {
                        assert(is_plain(views(self.toks@)[first]));
                        assert(list.contains(first as usize));
                        let y = choose|y: int| 0 <= y < list.len() && list[y] == first as usize;
                        assert(rising(list));
                        assert(list[x as int] == id);
                        if y >= x {
                            if y > x {
                                assert(list[x as int] < list[y]);
                            }
                            assert(false);
                        }
                        assert(views(self.toks@)[list[y] as int] != t@);
                        assert(false);
                    }
                }
                return Some(id as u32);
            }
        }
        proof {
            if plain_id(self@, t@) is Some {
                let first = plain_id(self@, t@)->Some_0;
                assert(is_plain(views(self.toks@)[first]));
                assert(list.contains(first as usize));
                let y = choose|y: int| 0 <= y < list.len() && list[y] == first as usize;
                assert(views(self.toks@)[list[y] as int] != t@);
            }
        }
        None
    }

    /// The token of a control text.
    pub fn special(&self, t: &[u8]) -> (r: Option<u32>)
        ensures
            match r {
                Some(id) => special_id(self@, t@) == Some(id as int) && id < self@.len(),
                None => special_id(self@, t@) is None,
            },
    {
        proof {
            use_type_invariant(self);
        }
        if !special(t) {
            return None;
        }
        let mut n: usize = self.toks.len();
        while n > 0
            invariant
                n <= self.toks@.len(),
                self.toks@.len() <= u32::MAX,
                self@ == views(self.toks@),
                is_special(t@),
                special_id(self@, t@) == last_id(self@, t@, n as int),
            decreases n,
        {
            assert(self@[n - 1] == self.toks@[n - 1]@);
            if same_bytes(&self.toks[n - 1], t) {
                return Some((n - 1) as u32);
            }
            n = n - 1;
        }
        None
    }

    /// The number of tokens.
    pub fn len(&self) -> (n: usize)
        ensures
            n == self@.len(),
    {
        self.toks.len()
    }

    /// The bytes of a token.
    pub fn bytes(&self, id: u32) -> (r: Option<&[u8]>)
        ensures
            match r {
                Some(t) => id < self@.len() && t@ == self@[id as int],
                None => id >= self@.len(),
            },
    {
        if (id as usize) < self.toks.len() {
            Some(self.toks[id as usize].as_slice())
        } else {
            None
        }
    }
}

proof fn lemma_bucket(t: Seq<u8>)
    ensures
        0 <= bucket(t) < BUCKETS,
{
}

// --------------------------------------------------------------- the encoding

/// The longest of the first `l` bytes from place `at` on that are a plain token, or
/// zero.
pub open spec fn longest(toks: Seq<Seq<u8>>, b: Seq<u8>, at: int, l: int) -> int
    decreases l,
{
    if l <= 0 {
        0
    } else if plain_id(toks, b.subrange(at, at + l)) is Some {
        l
    } else {
        longest(toks, b, at, l - 1)
    }
}

/// How many bytes a token at place `at` may have.
pub open spec fn room(b: Seq<u8>, at: int, max: int) -> int {
    if b.len() - at < max {
        b.len() - at
    } else {
        max
    }
}

/// The tokens of `b` from place `at` on, each the longest plain token of at most
/// `max` bytes; or the place where no token fits.
pub open spec fn encoded(toks: Seq<Seq<u8>>, b: Seq<u8>, at: int, max: int) -> Result<
    Seq<u32>,
    int,
>
    decreases b.len() - at,
    when 0 <= at <= b.len()
    via encoded_ends
{
    let l = longest(toks, b, at, room(b, at, max));
    if at >= b.len() {
        Ok(seq![])
    } else if l <= 0 {
        Err(at)
    } else {
        match encoded(toks, b, at + l, max) {
            Ok(rest) => Ok(
                seq![plain_id(toks, b.subrange(at, at + l))->Some_0 as u32] + rest,
            ),
            Err(e) => Err(e),
        }
    }
}

#[via_fn]
proof fn encoded_ends(toks: Seq<Seq<u8>>, b: Seq<u8>, at: int, max: int) {
    lemma_longest(toks, b, at, room(b, at, max));
}

proof fn lemma_longest(toks: Seq<Seq<u8>>, b: Seq<u8>, at: int, l: int)
    ensures
        0 <= longest(toks, b, at, l),
        0 <= l ==> longest(toks, b, at, l) <= l,
        longest(toks, b, at, l) > 0 ==> plain_id(
            toks,
            b.subrange(at, at + longest(toks, b, at, l)),
        ) is Some,
        forall|k: int|
            longest(toks, b, at, l) < k <= l && 0 < k ==> plain_id(
                toks,
                #[trigger] b.subrange(at, at + k),
            ) is None,
    decreases l,
{
    if l > 0 && plain_id(toks, b.subrange(at, at + l)) is None {
        lemma_longest(toks, b, at, l - 1);
    }
}

impl Vocab {
    /// Encodes bytes by longest match with tokens of at most `max` bytes, or gives
    /// the place of the first byte that no token fits.
    pub fn encode(&self, b: &[u8], max: usize) -> (r: Result<Vec<u32>, usize>)
        ensures
            match r {
                Ok(ids) => encoded(self@, b@, 0, max as int) == Ok::<Seq<u32>, int>(ids@),
                Err(at) => encoded(self@, b@, 0, max as int) == Err::<Seq<u32>, int>(at as int)
                    && at < b.len(),
            },
    {
        let mut ids: Vec<u32> = Vec::new();
        let mut at: usize = 0;
        assert(b@.len() == b.len());
        proof {
            if encoded(self@, b@, 0, max as int) is Ok {
                let rest = encoded(self@, b@, 0, max as int)->Ok_0;
                assert(ids@ + rest =~= rest);
            }
        }
        while at < b.len()
            invariant
                at <= b.len(),
                b@.len() == b.len(),
                match encoded(self@, b@, at as int, max as int) {
                    Ok(rest) => encoded(self@, b@, 0, max as int) == Ok::<Seq<u32>, int>(
                        ids@ + rest,
                    ),
                    Err(e) => encoded(self@, b@, 0, max as int) == Err::<Seq<u32>, int>(e),
                },
            decreases b.len() - at,
        {
            let mut l: usize = b.len() - at;
            if max < l {
                l = max;
            }
            let ghost full = room(b@, at as int, max as int);
            let mut found: Option<u32> = None;
            while l > 0 && found.is_none()
                invariant
                    at < b.len(),
                    b@.len() == b.len(),
                    0 <= l <= full <= b.len() - at,
                    full == room(b@, at as int, max as int),
                    match found {
                        None => longest(self@, b@, at as int, full) == longest(
                            self@,
                            b@,
                            at as int,
                            l as int,
                        ),
                        Some(id) => l > 0 && longest(self@, b@, at as int, full) == l && plain_id(
                            self@,
                            b@.subrange(at as int, at + l),
                        ) == Some(id as int),
                    },
                decreases
                        l,
                        if found is None {
                            1int
                        } else {
                            0int
                        },
            {
                match self.lookup(slice_subrange(b, at, at + l)) {
                    Some(id) => {
                        found = Some(id);
                    },
                    None => {
                        l = l - 1;
                    },
                }
            }
            match found {
                None => {
                    return Err(at);
                },
                Some(id) => {
                    let ghost before = ids@;
                    ids.push(id);
                    proof {
                        let next = encoded(self@, b@, at + l, max as int);
                        if next is Ok {
                            let rest = next->Ok_0;
                            assert(before + (seq![id] + rest) =~= ids@ + rest);
                        }
                    }
                    at = at + l;
                },
            }
        }
        proof {
            assert(ids@ + seq![] =~= ids@);
        }
        Ok(ids)
    }
}

/// The bytes of a run of tokens.
pub open spec fn decoded(toks: Seq<Seq<u8>>, ids: Seq<u32>) -> Seq<u8>
    decreases ids.len(),
{
    if ids.len() == 0 {
        seq![]
    } else {
        toks[ids[0] as int] + decoded(toks, ids.drop_first())
    }
}

/// The tokens of a text, put together, are the text.
pub proof fn encoding_is_undone(toks: Seq<Seq<u8>>, b: Seq<u8>, at: int, max: int)
    requires
        toks.len() <= u32::MAX,
        0 <= at <= b.len(),
    ensures
        encoded(toks, b, at, max) matches Ok(ids) ==> decoded(toks, ids) == b.skip(at),
    decreases b.len() - at,
{
    let l = longest(toks, b, at, room(b, at, max));
    lemma_longest(toks, b, at, room(b, at, max));
    if at >= b.len() {
        assert(b.skip(at) =~= seq![]);
    } else if l > 0 {
        encoding_is_undone(toks, b, at + l, max);
        let t = b.subrange(at, at + l);
        plain_id_is_first(toks, t);
        if encoded(toks, b, at + l, max) is Ok {
            let rest = encoded(toks, b, at + l, max)->Ok_0;
            let id = plain_id(toks, t)->Some_0;
            let ids = seq![id as u32] + rest;
            assert(ids.drop_first() =~= rest);
            assert(t + b.skip(at + l) =~= b.skip(at));
        }
    }
}

/// The first token of a text is as long as a plain token of at most `max` bytes
/// that the text starts with can be.
pub proof fn encoding_takes_the_longest(
    toks: Seq<Seq<u8>>,
    b: Seq<u8>,
    at: int,
    max: int,
    t: Seq<u8>,
)
    requires
        toks.len() <= u32::MAX,
        0 <= at < b.len(),
        encoded(toks, b, at, max) is Ok,
        is_plain(t),
        toks.contains(t),
        t.len() <= max,
        at + t.len() <= b.len(),
        b.subrange(at, at + t.len()) == t,
    ensures
        encoded(toks, b, at, max)->Ok_0.len() > 0,
        t.len() <= toks[encoded(toks, b, at, max)->Ok_0[0] as int].len(),
{
    let l = longest(toks, b, at, room(b, at, max));
    lemma_longest(toks, b, at, room(b, at, max));
    plain_id_is_first(toks, t);
    plain_id_is_first(toks, b.subrange(at, at + l));
    if l < t.len() {
        assert(plain_id(toks, b.subrange(at, at + t.len())) is None);
    }
}

/// Where every single byte is a plain token, every text can be encoded.
pub proof fn single_bytes_are_enough(toks: Seq<Seq<u8>>, b: Seq<u8>, at: int, max: int)
    requires
        0 <= at <= b.len(),
        0 < max,
        forall|c: u8| toks.contains(#[trigger] seq![c]),
    ensures
        encoded(toks, b, at, max) is Ok,
    decreases b.len() - at,
{
    if at < b.len() {
        let l = longest(toks, b, at, room(b, at, max));
        lemma_longest(toks, b, at, room(b, at, max));
        let one = b.subrange(at, at + 1);
        assert(one =~= seq![b[at]]);
        assert(toks.contains(seq![b[at]]));
        plain_id_is_first(toks, one);
        single_bytes_are_enough(toks, b, at + l, max);
    }
}

/// A control text stands for the last token that has its bytes, and for none where no token
/// has them or it is no control text.
pub proof fn special_id_is_last(toks: Seq<Seq<u8>>, t: Seq<u8>)
    ensures
        special_id(toks, t) matches Some(i) ==> is_special(t) && 0 <= i < toks.len() && toks[i] == t
            && forall|j: int| i < j < toks.len() ==> #[trigger] toks[j] != t,
        special_id(toks, t) is None && is_special(t) ==> forall|j: int|
            0 <= j < toks.len() ==> #[trigger] toks[j] != t,
{
    lemma_last_id(toks, t, toks.len() as int);
}

proof fn lemma_last_id(toks: Seq<Seq<u8>>, t: Seq<u8>, n: int)
    requires
        0 <= n <= toks.len(),
    ensures
        last_id(toks, t, n) matches Some(i) ==> 0 <= i < n && toks[i] == t && forall|j: int|
            i < j < n ==> #[trigger] toks[j] != t,
        last_id(toks, t, n) is None ==> forall|j: int| 0 <= j < n ==> #[trigger] toks[j] != t,
    decreases n,
{
    if n > 0 && toks[n - 1] != t {
        lemma_last_id(toks, t, n - 1);
    }
}

} // verus!
