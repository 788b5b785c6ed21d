//! The tensors of a model file: a manifest of names, types and places, and the
//! bytes at those places.
use crate::bits::{u16_le, u32_le};
use crate::half::bf16_to_f32_bits;
use crate::ideal::{adds, series};
use crate::ideal_dense::bf16_dot_is_the_inner_product;
use crate::lanes::paired;
use crate::number::{
    parse_u32, parse_usize, unsigned, within, written, written_numbers_are_read_back,
};
use crate::scalar::Scalar;
use crate::text::{
    copied, is_word, lemma_written_is_word, lines, same, split_lines, split_words, texts, to_chars,
    unbroken_text_is_one_word, white_space_parts_words, words,
};
use crate::tokenizer::{le16, le32};
use vstd::prelude::*;
use vstd::slice::slice_subrange;

verus! {

/// The type of a tensor of 32-bit floats.
pub const TYPE_F32: u32 = 0;

/// The type of a tensor of 16-bit floats with 8 bits of exponent.
pub const TYPE_BF16: u32 = 30;

/// The type of a tensor of four-bit floats in blocks of 32.
pub const TYPE_MXFP4: u32 = 39;

/// A tensor: its type, its place in the file, and the number of its elements.
#[derive(Clone, Copy, Debug, PartialEq, Eq, Structural)]
pub struct Entry {
    pub ttype: u32,
    pub off: usize,
    pub n: usize,
}

// -------------------------------------------------------------------- manifest

/// The place where the tensors' data starts: the second word of the first line.
pub open spec fn data_start(ls: Seq<Seq<char>>) -> Option<int> {
    if ls.len() == 0 || words(ls[0]).len() < 2 {
        None
    } else {
        within(unsigned(words(ls[0])[1]), 0, usize::MAX as int)
    }
}

/// The tensor that a line describes: its name, its type, its place from the start
/// of the data on, and the number of its elements.
pub open spec fn entry_of(line: Seq<char>, start: int) -> Option<(Seq<char>, Entry)> {
    let w = words(line);
    if w.len() < 4 {
        None
    } else {
        match (
            within(unsigned(w[1]), 0, u32::MAX as int),
            within(unsigned(w[2]), 0, usize::MAX - start),
            within(unsigned(w[3]), 0, usize::MAX as int),
        ) {
            (Some(t), Some(off), Some(n)) => Some(
                (w[0], Entry { ttype: t as u32, off: (start + off) as usize, n: n as usize }),
            ),
            _ => None,
        }
    }
}

/// Line `i + 1` of a manifest, counted from zero, describes entry `i`.
pub open spec fn describes(
    ls: Seq<Seq<char>>,
    start: int,
    names: Seq<Seq<char>>,
    entries: Seq<Entry>,
    i: int,
) -> bool {
    entry_of(ls[i + 1], start) == Some((names[i], entries[i]))
}

/// All lines from the second on describe tensors.
pub open spec fn is_manifest(ls: Seq<Seq<char>>) -> bool {
    &&& data_start(ls) is Some
    &&& forall|i: int|
        1 <= i < ls.len() ==> entry_of(#[trigger] ls[i], data_start(ls)->Some_0) is Some
}

/// The names and places of a model's tensors.
pub struct Index {
    pub names: Vec<Vec<char>>,
    pub entries: Vec<Entry>,
}

/// The last tensor among the first `n` that has this name.
pub open spec fn named(
    names: Seq<Seq<char>>,
    entries: Seq<Entry>,
    name: Seq<char>,
    n: int,
) -> Option<Entry>
    decreases n,
{
    if n <= 0 {
        None
    } else if names[n - 1] == name {
        Some(entries[n - 1])
    } else {
        named(names, entries, name, n - 1)
    }
}

/// Reads the tensor that a line describes.
fn read_entry(line: &[char], start: usize) -> (r: Option<(Vec<char>, Entry)>)
    ensures
        match r {
            Some((name, e)) => entry_of(line@, start as int) == Some((name@, e)),
            None => entry_of(line@, start as int) is None,
        },
{
    let w = split_words(line);
    assert(texts(w@).len() == w@.len());
    if w.len() < 4 {
        return None;
    }
    assert(texts(w@)[0] == w@[0]@ && texts(w@)[1] == w@[1]@ && texts(w@)[2] == w@[2]@ && texts(
        w@,
    )[3] == w@[3]@);
    let t: u32 = match parse_u32(&w[1]) {
        Some(t) => t,
        None => {
            return None;
        },
    };
    let off: usize = match parse_usize(&w[2]) {
        Some(o) => o,
        None => {
            return None;
        },
    };
    if off > usize::MAX - start {
        return None;
    }
    let n: usize = match parse_usize(&w[3]) {
        Some(n) => n,
        None => {
            return None;
        },
    };
    Some((copied(&w[0]), Entry { ttype: t, off: start + off, n }))
}

impl Index {
    /// The names and places belong together.
    pub open spec fn is_well(&self) -> bool {
        self.names@.len() == self.entries@.len()
    }

    /// The tensor with this name.
    pub open spec fn entry(&self, name: Seq<char>) -> Option<Entry> {
        named(texts(self.names@), self.entries@, name, self.entries@.len() as int)
    }

    /// Reads a manifest, or gives none where a line describes no tensor.
    pub fn parse(text: &[char]) -> (r: Option<Index>)
        ensures
            r is Some <==> is_manifest(lines(text@, 0)),
            r matches Some(index) ==> ({
                let ls = lines(text@, 0);
                &&& index.is_well()
                &&& index.entries@.len() == ls.len() - 1
                &&& forall|i: int|
                    0 <= i < index.entries@.len() ==> #[trigger] describes(
                        ls,
                        data_start(ls)->Some_0,
                        texts(index.names@),
                        index.entries@,
                        i,
                    )
            }),
    {
        let ls = split_lines(text);
        let ghost all = lines(text@, 0);
        assert(texts(ls@).len() == ls@.len());
        if ls.len() == 0 {
            return None;
        }
        assert(all[0] == ls@[0]@);
        let w = split_words(&ls[0]);
        assert(texts(w@).len() == w@.len());
        if w.len() < 2 {
            return None;
        }
        assert(texts(w@)[1] == w@[1]@);
        let start: usize = match parse_usize(&w[1]) {
            Some(s) => s,
            None => {
                return None;
            },
        };
        let mut names: Vec<Vec<char>> = Vec::new();
        let mut entries: Vec<Entry> = Vec::new();
        for i in 1..ls.len()
            invariant
                all == lines(text@, 0),
                texts(ls@) == all,
                data_start(all) == Some(start as int),
                names@.len() == i - 1,
                entries@.len() == i - 1,
                forall|k: int| 1 <= k < i ==> entry_of(#[trigger] all[k], start as int) is Some,
                forall|k: int|
                    0 <= k < i - 1 ==> #[trigger] describes(
                        all,
                        start as int,
                        texts(names@),
                        entries@,
                        k,
                    ),
        {
            assert(all[i as int] == ls@[i as int]@);
            match read_entry(&ls[i], start) {
                Some((name, e)) => {
                    let ghost before = (texts(names@), entries@);
                    names.push(name);
                    entries.push(e);
                    proof {
                        assert(texts(names@) =~= before.0.push(name@));
                        assert forall|k: int| 0 <= k < i implies #[trigger] describes(
                            all,
                            start as int,
                            texts(names@),
                            entries@,
                            k,
                        ) by {
                            if k < i - 1 {
                                assert(describes(all, start as int, before.0, before.1, k));
                            }
                        }
                    }
                },
                None => {
                    assert(entry_of(all[i as int], start as int) is None);
                    return None;
                },
            }
        }
        Some(Index { names, entries })
    }

    /// The tensor with this name: the last, where the manifest has several.
    pub fn find(&self, name: &[char]) -> (r: Option<Entry>)
        requires
            self.is_well(),
        ensures
            r == self.entry(name@),
    {
        let mut n: usize = self.entries.len();
        while n > 0
            invariant
                n <= self.entries@.len(),
                self.is_well(),
                self.entry(name@) == named(texts(self.names@), self.entries@, name@, n as int),
            decreases n,
        {
            assert(texts(self.names@)[n - 1] == self.names@[n - 1]@);
            if same(&self.names[n - 1], name) {
                return Some(self.entries[n - 1]);
            }
            n = n - 1;
        }
        None
    }

    /// The tensor of the output head: its own, or where there is none the
    /// embedding, which then serves for both.
    pub fn head(&self) -> (r: Option<Entry>)
        requires
            self.is_well(),
        ensures
            r == match self.entry("output.weight"@) {
                Some(e) => Some(e),
                None => self.entry("token_embd.weight"@),
            },
    {
        match self.find(&to_chars("output.weight")) {
            Some(e) => Some(e),
            None => self.find(&to_chars("token_embd.weight")),
        }
    }
}

/// What stops a tensor from being read.
#[derive(Clone, Copy, Debug, PartialEq, Eq, Structural)]
pub enum TensorError {
    /// The tensor has this type, and another was asked for.
    WrongType(u32),
    /// The tensor does not end before the file does.
    OutOfFile,
}

/// The bits of the 32-bit floats of a tensor.
pub fn f32_bits(blob: &[u8], e: &Entry) -> (r: Result<Vec<u32>, TensorError>)
    ensures
        match r {
            Ok(v) => {
                &&& e.ttype == TYPE_F32
                &&& e.off + 4 * e.n <= blob.len()
                &&& v@.len() == e.n
                &&& forall|i: int|
                    0 <= i < e.n ==> #[trigger] v@[i] == le32(blob@, e.off + 4 * i)
            },
            Err(TensorError::WrongType(t)) => t == e.ttype && t != TYPE_F32,
            Err(TensorError::OutOfFile) => e.ttype == TYPE_F32 && e.off + 4 * e.n > blob.len(),
        },
{
    if e.ttype != TYPE_F32 {
        return Err(TensorError::WrongType(e.ttype));
    }
    if e.off > blob.len() || e.n > (blob.len() - e.off) / 4 {
        return Err(TensorError::OutOfFile);
    }
    assert(blob@.len() == blob.len());
    let mut v: Vec<u32> = Vec::new();
    for i in 0..e.n
        invariant
            e.off + 4 * e.n <= blob.len(),
            blob@.len() == blob.len(),
            v@.len() == i,
            forall|k: int| 0 <= k < i ==> #[trigger] v@[k] == le32(blob@, e.off + 4 * k),
    {
        let at: usize = e.off + 4 * i;
        v.push(u32_le(blob[at], blob[at + 1], blob[at + 2], blob[at + 3]));
    }
    Ok(v)
}

/// The place of a tensor of 16-bit floats that has at least `n` elements.
pub fn bf16_place(blob: &[u8], e: &Entry, n: usize) -> (r: Result<usize, TensorError>)
    ensures
        match r {
            Ok(at) => e.ttype == TYPE_BF16 && at == e.off && at + 2 * n <= blob.len(),
            Err(TensorError::WrongType(t)) => t == e.ttype && t != TYPE_BF16,
            Err(TensorError::OutOfFile) => e.ttype == TYPE_BF16 && e.off + 2 * n > blob.len(),
        },
{
    if e.ttype != TYPE_BF16 {
        return Err(TensorError::WrongType(e.ttype));
    }
    if e.off > blob.len() || n > (blob.len() - e.off) / 2 {
        return Err(TensorError::OutOfFile);
    }
    Ok(e.off)
}

/// The bits of `n` 16-bit floats from element `from` on, widened to 32 bits; the
/// first element stands at place `at`.
pub fn bf16_run(blob: &[u8], at: usize, from: usize, n: usize) -> (r: Vec<u32>)
    requires
        at + 2 * (from + n) <= blob.len(),
    ensures
        r@.len() == n,
        forall|i: int|
            0 <= i < n ==> #[trigger] r@[i] == 0x1_0000 * le16(blob@, at + 2 * (from + i)),
{
    assert(blob@.len() == blob.len());
    let mut v: Vec<u32> = Vec::new();
    for i in 0..n
        invariant
            at + 2 * (from + n) <= blob.len(),
            blob@.len() == blob.len(),
            v@.len() == i,
            forall|k: int|
                0 <= k < i ==> #[trigger] v@[k] == 0x1_0000 * le16(blob@, at + 2 * (from + k)),
    {
        let p: usize = at + 2 * (from + i);
        v.push(bf16_to_f32_bits(u16_le(blob[p], blob[p + 1])));
    }
    v
}

/// Element `i` of a run of 16-bit floats that starts at place `at`.
pub open spec fn bf16_value<S: Scalar>(blob: Seq<u8>, at: int, i: int) -> S {
    S::of_bits_spec((0x1_0000 * le16(blob, at + 2 * i)) as u32)
}

/// One of eight running sums: the products at every eighth place from `l` on, each
/// added in one step.
pub open spec fn bf16_lane<S: Scalar>(blob: Seq<u8>, at: int, x: Seq<S>, l: int, n: int) -> S
    decreases n,
{
    if n <= 0 {
        S::zero_spec()
    } else {
        bf16_lane(blob, at, x, l, n - 1).fma_spec(
            bf16_value(blob, at, 8 * (n - 1) + l),
            x[8 * (n - 1) + l],
        )
    }
}

/// Running sums `l` and `l + 4` together.
pub open spec fn bf16_pair<S: Scalar>(blob: Seq<u8>, at: int, x: Seq<S>, l: int, n: int) -> S {
    bf16_lane(blob, at, x, l, n).plus_spec(bf16_lane(blob, at, x, l + 4, n))
}

/// The run of `n` 16-bit floats that starts at place `at`, times the numbers `x`.
/// Elements beyond the last eight whole ones are left out.
pub fn dot_bf16<S: Scalar>(blob: &[u8], at: usize, x: &[S], n: usize) -> (r: S)
    requires
        at + 2 * n <= blob.len(),
        n <= x.len(),
    ensures
        ({
            let steps = n as int / 8;
            r == paired(
                bf16_pair(blob@, at as int, x@, 0, steps),
                bf16_pair(blob@, at as int, x@, 1, steps),
                bf16_pair(blob@, at as int, x@, 2, steps),
                bf16_pair(blob@, at as int, x@, 3, steps),
            )
        }),
        forall|v: spec_fn(S) -> real| #[trigger]
            adds(v) ==> v(r) == series(
                n as int / 8 * 8,
                |j: int|
                    v(
                        S::of_bits_spec(
                            (0x1_0000 * (blob@[at + 2 * j] + 256 * blob@[at + 2 * j + 1])) as u32,
                        ),
                    ) * v(x@[j]),
            ),
{
    proof {
        let steps = n as int / 8;
        assert forall|v: spec_fn(S) -> real| #[trigger] adds(v) implies v(
            paired(
                bf16_pair(blob@, at as int, x@, 0, steps),
                bf16_pair(blob@, at as int, x@, 1, steps),
                bf16_pair(blob@, at as int, x@, 2, steps),
                bf16_pair(blob@, at as int, x@, 3, steps),
            ),
        ) == series(
            n as int / 8 * 8,
            |j: int|
                v(
                    S::of_bits_spec(
                        (0x1_0000 * (blob@[at + 2 * j] + 256 * blob@[at + 2 * j + 1])) as u32,
                    ),
                ) * v(x@[j]),
        ) by {
            bf16_dot_is_the_inner_product(v, blob@, at as int, x@, steps);
        }
    }
    assert(blob@.len() == blob.len());
    let mut lanes: Vec<S> = Vec::new();
    for l in 0..8
        invariant
            lanes@.len() == l,
            forall|i: int|
                0 <= i < l ==> #[trigger] lanes@[i] == bf16_lane(blob@, at as int, x@, i, 0),
    {
        lanes.push(S::zero());
    }
    for k in 0..n / 8
        invariant
            at + 2 * n <= blob.len(),
            n <= x.len(),
            blob@.len() == blob.len(),
            lanes@.len() == 8,
            forall|i: int|
                0 <= i < 8 ==> #[trigger] lanes@[i] == bf16_lane(
                    blob@,
                    at as int,
                    x@,
                    i,
                    k as int,
                ),
    {
        for l in 0..8usize
            invariant
                k < n / 8,
                at + 2 * n <= blob.len(),
                n <= x.len(),
                blob@.len() == blob.len(),
                lanes@.len() == 8,
                forall|i: int|
                    0 <= i < 8 ==> #[trigger] lanes@[i] == bf16_lane(
                        blob@,
                        at as int,
                        x@,
                        i,
                        if i < l {
                            k + 1
                        } else {
                            k as int
                        },
                    ),
        {
            let i: usize = 8 * k + l;
            let p: usize = at + 2 * i;
            let w: S = S::of_bits(bf16_to_f32_bits(u16_le(blob[p], blob[p + 1])));
            let sum: S = lanes[l].fma(w, x[i]);
            lanes.set(l, sum);
        }
    }
    let (s0, s1): (S, S) = (lanes[0].plus(lanes[4]), lanes[1].plus(lanes[5]));
    let (s2, s3): (S, S) = (lanes[2].plus(lanes[6]), lanes[3].plus(lanes[7]));
    s0.plus(s1).plus(s2.plus(s3))
}

/// The bytes of a tensor of four-bit floats with `rows` rows of `blocks` blocks.
pub fn mxfp4_bytes<'a>(blob: &'a [u8], e: &Entry, rows: usize, blocks: usize) -> (r: Result<
    &'a [u8],
    TensorError,
>)
    ensures
        match r {
            Ok(raw) => {
                &&& e.ttype == TYPE_MXFP4
                &&& e.off + 17 * (rows * blocks) <= blob.len()
                &&& raw@ == blob@.subrange(e.off as int, e.off + 17 * (rows * blocks))
            },
            Err(TensorError::WrongType(t)) => t == e.ttype && t != TYPE_MXFP4,
            Err(TensorError::OutOfFile) => e.ttype == TYPE_MXFP4 && e.off + 17 * (rows * blocks)
                > blob.len(),
        },
{
    if e.ttype != TYPE_MXFP4 {
        return Err(TensorError::WrongType(e.ttype));
    }
    assert(blob@.len() == blob.len());
    proof {
        assert(0 <= rows * blocks) by (nonlinear_arith);
    }
    match rows.checked_mul(blocks) {
        Some(count) => {
            if e.off > blob.len() || count > (blob.len() - e.off) / 17 {
                Err(TensorError::OutOfFile)
            } else {
                Ok(slice_subrange(blob, e.off, e.off + 17 * count))
            }
        },
        None => Err(TensorError::OutOfFile),
    }
}

// ------------------------------------------------------------------- reading back

/// A line of a manifest that is written out is read back: the name, the type, the place
/// from the start of the data on and the number of elements.
pub proof fn entries_are_read_back(name: Seq<char>, e: Entry, start: int)
    requires
        is_word(name),
        0 <= start <= e.off,
    ensures
        entry_of(
            name + seq![' '] + (written(e.ttype as nat) + seq![' '] + (written(
                (e.off - start) as nat,
            ) + seq![' '] + written(e.n as nat))),
            start,
        ) == Some((name, e)),
{
    let (t, off, n) = (
        written(e.ttype as nat),
        written((e.off - start) as nat),
        written(e.n as nat),
    );
    lemma_written_is_word(e.ttype as nat);
    lemma_written_is_word((e.off - start) as nat);
    lemma_written_is_word(e.n as nat);
    written_numbers_are_read_back(e.ttype as nat);
    written_numbers_are_read_back((e.off - start) as nat);
    written_numbers_are_read_back(e.n as nat);
    unbroken_text_is_one_word(name);
    unbroken_text_is_one_word(t);
    unbroken_text_is_one_word(off);
    unbroken_text_is_one_word(n);
    let last = off + seq![' '] + n;
    let rest = t + seq![' '] + last;
    let line = name + seq![' '] + rest;
    white_space_parts_words(name, ' ', rest);
    white_space_parts_words(t, ' ', last);
    white_space_parts_words(off, ' ', n);
    assert(words(last) =~= seq![off, n]);
    assert(words(rest) =~= seq![t, off, n]);
    assert(words(line) =~= seq![name, t, off, n]);
}

/// The first line of a manifest gives the place where the data starts.
pub proof fn data_start_is_read_back(word: Seq<char>, start: usize, rest: Seq<Seq<char>>)
    requires
        is_word(word),
    ensures
        data_start(seq![word + seq![' '] + written(start as nat)] + rest) == Some(start as int),
{
    let n = written(start as nat);
    lemma_written_is_word(start as nat);
    written_numbers_are_read_back(start as nat);
    unbroken_text_is_one_word(word);
    unbroken_text_is_one_word(n);
    white_space_parts_words(word, ' ', n);
    assert(words(word + seq![' '] + n) =~= seq![word, n]);
    let ls = seq![word + seq![' '] + n] + rest;
    assert(ls[0] == word + seq![' '] + n);
}

/// A name stands for the last tensor that has it, and for none where no tensor has it.
pub proof fn last_entry_counts(
    names: Seq<Seq<char>>,
    entries: Seq<Entry>,
    name: Seq<char>,
    n: int,
    i: int,
)
    requires
        0 <= n,
        forall|k: int| i < k < n ==> #[trigger] names[k] != name,
        -1 <= i < n,
        i >= 0 ==> names[i] == name,
    ensures
        named(names, entries, name, n) == if i >= 0 {
            Some(entries[i])
        } else {
            None
        },
    decreases n,
{
    if n > 0 && i < n - 1 {
        assert(names[n - 1] != name);
        last_entry_counts(names, entries, name, n - 1, i);
    }
}

} // verus!
