//! Requests to a serving engine: a line is either a prompt, or a temperature, a
//! seed, a number of tokens and an escaped prompt with tabs between them.
use crate::attention::MAXSEQ;
use crate::number::{
    is_digit, parse_u64, parse_usize, unsigned, within, written, written_numbers_are_read_back,
};
use crate::rng::{mix, seed_state};
use crate::text::{copied, find_char, next_of, trim, trimmed_back, trimmed_front};
use vstd::prelude::*;
use vstd::slice::slice_subrange;

verus! {

// -------------------------------------------------------------------- escaping

/// A text with its escapes resolved: a backslash stands with the character after
/// it for a line feed, a tab or a backslash, and for itself before any other.
pub open spec fn unescaped(s: Seq<char>) -> Seq<char>
    decreases s.len(),
{
    if s.len() == 0 {
        seq![]
    } else if s[0] != '\\' {
        seq![s[0]] + unescaped(s.skip(1))
    } else if s.len() == 1 {
        seq!['\\']
    } else if s[1] == 'n' {
        seq!['\n'] + unescaped(s.skip(2))
    } else if s[1] == 't' {
        seq!['\t'] + unescaped(s.skip(2))
    } else if s[1] == '\\' {
        seq!['\\'] + unescaped(s.skip(2))
    } else {
        seq!['\\', s[1]] + unescaped(s.skip(2))
    }
}

/// Resolves the escapes of a text.
pub fn unescape(s: &[char]) -> (r: Vec<char>)
    ensures
        r@ == unescaped(s@),
{
    let mut out: Vec<char> = Vec::new();
    let mut i: usize = 0;
    assert(s@.skip(0) =~= s@);
    assert(out@ + unescaped(s@) =~= unescaped(s@));
    while i < s.len()
        invariant
            i <= s.len(),
            unescaped(s@) == out@ + unescaped(s@.skip(i as int)),
        decreases s.len() - i,
    {
        let ghost rest = s@.skip(i as int);
        let ghost before = out@;
        let c: char = s[i];
        if c == '\\' {
            if i + 1 < s.len() {
                let o: char = s[i + 1];
                assert(rest[1] == o);
                assert(rest.skip(2) =~= s@.skip(i + 2));
                if o == 'n' {
                    out.push('\n');
                    assert(before + (seq!['\n'] + unescaped(rest.skip(2))) =~= out@ + unescaped(
                        rest.skip(2),
                    ));
                } else if o == 't' {
                    out.push('\t');
                    assert(before + (seq!['\t'] + unescaped(rest.skip(2))) =~= out@ + unescaped(
                        rest.skip(2),
                    ));
                } else if o == '\\' {
                    out.push('\\');
                    assert(before + (seq!['\\'] + unescaped(rest.skip(2))) =~= out@ + unescaped(
                        rest.skip(2),
                    ));
                } else {
                    out.push('\\');
                    out.push(o);
                    assert(before + (seq!['\\', o] + unescaped(rest.skip(2))) =~= out@ + unescaped(
                        rest.skip(2),
                    ));
                }
                i = i + 2;
            } else {
                out.push('\\');
                i = i + 1;
                assert(s@.skip(i as int) =~= seq![]);
                assert(before + seq!['\\'] =~= out@ + unescaped(s@.skip(i as int)));
            }
        } else {
            out.push(c);
            assert(rest.skip(1) =~= s@.skip(i + 1));
            assert(before + (seq![c] + unescaped(rest.skip(1))) =~= out@ + unescaped(rest.skip(1)));
            i = i + 1;
        }
    }
    assert(s@.skip(i as int) =~= seq![]);
    assert(out@ + seq![] =~= out@);
    out
}

/// A text with its line feeds, tabs and backslashes escaped.
pub open spec fn escaped(s: Seq<char>) -> Seq<char>
    decreases s.len(),
{
    if s.len() == 0 {
        seq![]
    } else {
        (if s[0] == '\n' {
            seq!['\\', 'n']
        } else if s[0] == '\t' {
            seq!['\\', 't']
        } else if s[0] == '\\' {
            seq!['\\', '\\']
        } else {
            seq![s[0]]
        }) + escaped(s.skip(1))
    }
}

/// An escaped text has no line feeds and no tabs, and resolving its escapes gives
/// the text back.
pub proof fn escaping_is_undone(s: Seq<char>)
    ensures
        unescaped(escaped(s)) == s,
        forall|i: int|
            0 <= i < escaped(s).len() ==> #[trigger] escaped(s)[i] != '\n' && escaped(s)[i] != '\t',
    decreases s.len(),
{
    if s.len() > 0 {
        let rest = s.skip(1);
        escaping_is_undone(rest);
        let e = escaped(s);
        let tail = escaped(rest);
        assert(seq![s[0]] + rest =~= s);
        if s[0] == '\n' || s[0] == '\t' || s[0] == '\\' {
            assert(e.skip(2) =~= tail);
            assert forall|i: int| 0 <= i < e.len() implies #[trigger] e[i] != '\n' && e[i]
                != '\t' by {
                if i >= 2 {
                    assert(e[i] == tail[i - 2]);
                }
            }
        } else {
            assert(e.skip(1) =~= tail);
            assert forall|i: int| 0 <= i < e.len() implies #[trigger] e[i] != '\n' && e[i]
                != '\t' by {
                if i >= 1 {
                    assert(e[i] == tail[i - 1]);
                }
            }
        }
    } else {
        assert(escaped(s) =~= s);
    }
}

// ---------------------------------------------------------------------- fields

/// The four fields of a line: three tabs part them, and the last holds any others.
pub open spec fn four_fields(line: Seq<char>) -> Option<
    (Seq<char>, Seq<char>, Seq<char>, Seq<char>),
> {
    let a = next_of(line, '\t', 0);
    let b = next_of(line, '\t', a + 1);
    let c = next_of(line, '\t', b + 1);
    if a < line.len() && b < line.len() && c < line.len() {
        Some(
            (
                line.subrange(0, a),
                line.subrange(a + 1, b),
                line.subrange(b + 1, c),
                line.subrange(c + 1, line.len() as int),
            ),
        )
    } else {
        None
    }
}

/// The places of the first three tabs of a line.
fn tabs(line: &[char]) -> (r: Option<(usize, usize, usize)>)
    ensures
        match r {
            Some((a, b, c)) => a == next_of(line@, '\t', 0) && b == next_of(line@, '\t', a + 1) && c
                == next_of(line@, '\t', b + 1) && a < b < c < line.len(),
            None => four_fields(line@) is None,
        },
{
    assert(line@.len() == line.len());
    let a: usize = find_char(line, '\t', 0);
    if a >= line.len() {
        return None;
    }
    let b: usize = find_char(line, '\t', a + 1);
    if b >= line.len() {
        return None;
    }
    let c: usize = find_char(line, '\t', b + 1);
    if c >= line.len() {
        return None;
    }
    Some((a, b, c))
}

/// The text of the temperature, where the line has four fields.
pub fn temperature(line: &[char]) -> (r: Option<Vec<char>>)
    ensures
        match r {
            Some(t) => four_fields(line@) is Some && t@ == four_fields(line@)->Some_0.0,
            None => four_fields(line@) is None,
        },
{
    match tabs(line) {
        Some((a, _, _)) => Some(copied(slice_subrange(line, 0, a))),
        None => None,
    }
}

/// How the tokens of a request are drawn.
#[derive(Clone, Copy, Debug, PartialEq, Eq, Structural)]
pub struct Sampling {
    /// The temperature in thousandths.
    pub temp_milli: u32,
    /// The first state of the random numbers.
    pub state: u64,
}

/// A request.
#[derive(Debug)]
pub struct Request {
    /// The sampling that the request asks for.
    pub sampling: Option<Sampling>,
    /// The number of tokens that it asks for, or zero.
    pub ngen: usize,
    pub prompt: Vec<char>,
}

/// `n`, but at least one and at most the number of positions of a cache.
pub open spec fn clamped(n: int) -> int {
    if n < 1 {
        1
    } else if n > MAXSEQ {
        MAXSEQ as int
    } else {
        n
    }
}

/// Reads a line. `temp_milli` is the temperature in thousandths, where the text of
/// the temperature is a number; a line without four fields, or with one that is no
/// number, is a prompt.
pub fn parse_request(line: &[char], temp_milli: Option<u32>) -> (r: Request)
    ensures
        match (four_fields(line@), temp_milli) {
            (Some((_, seed, ngen, prompt)), Some(temp)) => {
                if within(unsigned(seed), 0, u64::MAX as int) is Some && within(
                    unsigned(ngen),
                    0,
                    usize::MAX as int,
                ) is Some {
                    &&& r.sampling == Some(
                        Sampling {
                            temp_milli: temp,
                            state: mix(unsigned(seed)->Some_0 as u64) | 1,
                        },
                    )
                    &&& r.ngen == clamped(unsigned(ngen)->Some_0)
                    &&& r.prompt@ == unescaped(prompt)
                } else {
                    r.sampling is None && r.ngen == 0 && r.prompt@ == line@
                }
            },
            _ => r.sampling is None && r.ngen == 0 && r.prompt@ == line@,
        },
{
    if let Some((a, b, c)) = tabs(line) {
        if let Some(temp) = temp_milli {
            if let Some(seed) = parse_u64(slice_subrange(line, a + 1, b)) {
                if let Some(n) = parse_usize(slice_subrange(line, b + 1, c)) {
                    let prompt = unescape(slice_subrange(line, c + 1, line.len()));
                    let ngen: usize = if n < 1 {
                        1
                    } else if n > MAXSEQ {
                        MAXSEQ
                    } else {
                        n
                    };
                    let sampling = Sampling { temp_milli: temp, state: seed_state(seed) };
                    return Request { sampling: Some(sampling), ngen, prompt };
                }
            }
        }
    }
    Request { sampling: None, ngen: 0, prompt: copied(line) }
}

/// A text without this character.
pub open spec fn lacks(s: Seq<char>, c: char) -> bool {
    forall|i: int| 0 <= i < s.len() ==> #[trigger] s[i] != c
}

proof fn lemma_next(s: Seq<char>, c: char, from: int, to: int)
    requires
        0 <= from <= to < s.len(),
        s[to] == c,
        forall|i: int| from <= i < to ==> #[trigger] s[i] != c,
    ensures
        next_of(s, c, from) == to,
    decreases to - from,
{
    if from < to {
        lemma_next(s, c, from + 1, to);
    }
}

/// A line that is put together from fields without tabs and an escaped prompt is
/// taken apart into them, and the prompt is the one that was escaped.
pub proof fn request_is_read_back(
    temp: Seq<char>,
    seed: Seq<char>,
    ngen: Seq<char>,
    prompt: Seq<char>,
)
    requires
        lacks(temp, '\t'),
        lacks(seed, '\t'),
        lacks(ngen, '\t'),
    ensures
        ({
            let line = temp + seq!['\t'] + seed + seq!['\t'] + ngen + seq!['\t'] + escaped(prompt);
            &&& four_fields(line) == Some((temp, seed, ngen, escaped(prompt)))
            &&& unescaped(four_fields(line)->Some_0.3) == prompt
            &&& lacks(temp, '\n') && lacks(seed, '\n') && lacks(ngen, '\n') ==> lacks(line, '\n')
        }),
{
    let e = escaped(prompt);
    let line = temp + seq!['\t'] + seed + seq!['\t'] + ngen + seq!['\t'] + e;
    escaping_is_undone(prompt);
    let a = temp.len() as int;
    let b = a + 1 + seed.len();
    let c = b + 1 + ngen.len();
    assert forall|i: int| 0 <= i < a implies #[trigger] line[i] != '\t' by {
        assert(line[i] == temp[i]);
    }
    assert forall|i: int| a + 1 <= i < b implies #[trigger] line[i] != '\t' by {
        assert(line[i] == seed[i - a - 1]);
    }
    assert forall|i: int| b + 1 <= i < c implies #[trigger] line[i] != '\t' by {
        assert(line[i] == ngen[i - b - 1]);
    }
    lemma_next(line, '\t', 0, a);
    lemma_next(line, '\t', a + 1, b);
    lemma_next(line, '\t', b + 1, c);
    assert(line.subrange(0, a) =~= temp);
    assert(line.subrange(a + 1, b) =~= seed);
    assert(line.subrange(b + 1, c) =~= ngen);
    assert(line.subrange(c + 1, line.len() as int) =~= e);
    if lacks(temp, '\n') && lacks(seed, '\n') && lacks(ngen, '\n') {
        assert forall|i: int| 0 <= i < line.len() implies #[trigger] line[i] != '\n' by {
            if i < a {
                assert(line[i] == temp[i]);
            } else if a < i < b {
                assert(line[i] == seed[i - a - 1]);
            } else if b < i < c {
                assert(line[i] == ngen[i - b - 1]);
            } else if i > c {
                assert(line[i] == e[i - c - 1]);
            }
        }
    }
}

/// Whether a line holds nothing but white space; such lines are skipped.
pub fn is_blank(line: &[char]) -> (r: bool)
    ensures
        r == (trimmed_back(trimmed_front(line@)).len() == 0),
{
    trim(line).len() == 0
}

/// A request gets as many tokens as it asks for, but at least one and no more than a cache
/// has positions.
pub proof fn clamped_keeps_what_fits(n: int)
    ensures
        1 <= clamped(n) <= 4096,
        1 <= n <= 4096 <==> clamped(n) == n,
        forall|more: int| n <= more ==> clamped(n) <= #[trigger] clamped(more),
{
}

/// The numbers of a request that were written out are those that are read.
pub proof fn request_numbers_are_read_back(seed: u64, ngen: usize)
    ensures
        within(unsigned(written(seed as nat)), 0, u64::MAX as int) == Some(seed as int),
        within(unsigned(written(ngen as nat)), 0, usize::MAX as int) == Some(ngen as int),
        lacks(written(seed as nat), '\t'),
        lacks(written(ngen as nat), '\t'),
{
    written_numbers_are_read_back(seed as nat);
    written_numbers_are_read_back(ngen as nat);
    assert forall|i: int| 0 <= i < written(seed as nat).len() implies #[trigger] written(
        seed as nat,
    )[i] != '\t' by {
        assert(is_digit(written(seed as nat)[i]));
    }
    assert forall|i: int| 0 <= i < written(ngen as nat).len() implies #[trigger] written(
        ngen as nat,
    )[i] != '\t' by {
        assert(is_digit(written(ngen as nat)[i]));
    }
}

/// Up to the first backslash a text stays as it is.
pub proof fn plain_text_needs_no_escapes(a: Seq<char>, b: Seq<char>)
    requires
        lacks(a, '\\'),
    ensures
        unescaped(a + b) == a + unescaped(b),
        unescaped(a) == a,
    decreases a.len(),
{
    let s = a + b;
    if a.len() == 0 {
        assert(s =~= b);
        assert(a + unescaped(b) =~= unescaped(b));
        assert(a =~= seq![]);
    } else {
        assert(a[0] != '\\');
        let t = a.skip(1);
        assert forall|i: int| 0 <= i < t.len() implies #[trigger] t[i] != '\\' by {
            assert(t[i] == a[i + 1]);
        }
        plain_text_needs_no_escapes(t, b);
        assert(s.skip(1) =~= t + b);
        assert(seq![a[0]] + (t + unescaped(b)) =~= a + unescaped(b));
        assert(seq![a[0]] + t =~= a);
    }
}

/// A backslash before any other character than those that make an escape stays with it.
pub proof fn other_backslashes_stay(c: char, b: Seq<char>)
    requires
        c != 'n' && c != 't' && c != '\\',
    ensures
        unescaped(seq!['\\', c] + b) == seq!['\\', c] + unescaped(b),
        unescaped(seq!['\\']) == seq!['\\'],
{
    let s = seq!['\\', c] + b;
    assert(s[0] == '\\' && s[1] == c);
    assert(s.skip(2) =~= b);
}

} // verus!
