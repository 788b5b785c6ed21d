//! Text as sequences of characters: words, lines, numbers, and the fields of
//! simple reference files.
use crate::number::{is_digit, written, written_numbers_are_read_back};
use vstd::prelude::*;
use vstd::slice::slice_subrange;

verus! {

// ------------------------------------------------------------------ characters

/// Characters that separate words: those with the Unicode property White_Space.
pub open spec fn white(c: char) -> bool {
    let u = c as int;
    ||| 0x9 <= u <= 0xd
    ||| u == 0x20
    ||| u == 0x85
    ||| u == 0xa0
    ||| u == 0x1680
    ||| 0x2000 <= u <= 0x200a
    ||| u == 0x2028
    ||| u == 0x2029
    ||| u == 0x202f
    ||| u == 0x205f
    ||| u == 0x3000
}

/// Whether a character separates words.
pub fn is_white(c: char) -> (r: bool)
    ensures
        r == white(c),
{
    let u: u32 = c as u32;
    (0x9 <= u && u <= 0xd) || u == 0x20 || u == 0x85 || u == 0xa0 || u == 0x1680 || (0x2000 <= u && u
        <= 0x200a) || u == 0x2028 || u == 0x2029 || u == 0x202f || u == 0x205f || u == 0x3000
}

/// The characters of a string.
pub fn to_chars(s: &str) -> (v: Vec<char>)
    ensures
        v@ == s@,
{
    let mut v: Vec<char> = Vec::new();
    for c in it: s.chars()
        invariant
            it.seq() == s@,
            v@ == s@.take(it.index()),
    {
        v.push(c);
    }
    assert(s@.take(s@.len() as int) =~= s@);
    v
}

/// A copy of a run of characters.
pub fn copied(s: &[char]) -> (v: Vec<char>)
    ensures
        v@ == s@,
{
    let mut v: Vec<char> = Vec::new();
    for i in 0..s.len()
        invariant
            v@ == s@.take(i as int),
    {
        v.push(s[i]);
    }
    assert(s@.take(s@.len() as int) =~= s@);
    v
}

/// Whether two runs of characters are the same.
pub fn same(a: &[char], b: &[char]) -> (r: bool)
    ensures
        r == (a@ == b@),
{
    if a.len() != b.len() {
        return false;
    }
    for i in 0..a.len()
        invariant
            a.len() == b.len(),
            forall|k: int| 0 <= k < i ==> a@[k] == b@[k],
    {
        if a[i] != b[i] {
            return false;
        }
    }
    assert(a@ =~= b@);
    true
}

/// The texts of a list of owned texts.
pub open spec fn texts(v: Seq<Vec<char>>) -> Seq<Seq<char>> {
    Seq::new(v.len(), |i: int| v[i]@)
}

// ----------------------------------------------------------------------- words

/// How many characters, from the front, are no white space.
pub open spec fn word_len(s: Seq<char>) -> int
    decreases s.len(),
{
    if s.len() == 0 || white(s[0]) {
        0
    } else {
        1 + word_len(s.drop_first())
    }
}

proof fn lemma_word_len(s: Seq<char>)
    ensures
        0 <= word_len(s) <= s.len(),
        s.len() > 0 && !white(s[0]) ==> word_len(s) > 0,
    decreases s.len(),
{
    if s.len() > 0 && !white(s[0]) {
        lemma_word_len(s.drop_first());
    }
}

/// The words of a text: its longest runs without white space, in order.
pub open spec fn words(s: Seq<char>) -> Seq<Seq<char>>
    decreases s.len(),
    via words_end
{
    if s.len() == 0 {
        seq![]
    } else if white(s[0]) {
        words(s.drop_first())
    } else {
        seq![s.take(word_len(s))] + words(s.skip(word_len(s)))
    }
}

#[via_fn]
proof fn words_end(s: Seq<char>) {
    lemma_word_len(s);
}

/// The length of the word at the front.
fn front_word(s: &[char], from: usize) -> (n: usize)
    requires
        from <= s.len(),
    ensures
        n == word_len(s@.skip(from as int)),
        from + n <= s.len(),
{
    let mut n: usize = 0;
    assert(s@.skip(from as int).skip(0) =~= s@.skip(from as int));
    while from + n < s.len() && !is_white(s[from + n])
        invariant
            from + n <= s.len(),
            word_len(s@.skip(from as int)) == n + word_len(s@.skip(from + n)),
        decreases s.len() - from - n,
    {
        proof {
            let rest = s@.skip(from + n);
            assert(rest[0] == s@[from + n]);
            assert(rest.drop_first() =~= s@.skip(from + n + 1));
        }
        n = n + 1;
    }
    proof {
        let rest = s@.skip(from + n);
        if rest.len() > 0 {
            assert(rest[0] == s@[from + n]);
        }
    }
    n
}

/// The words of a text, in order.
pub fn split_words(s: &[char]) -> (out: Vec<Vec<char>>)
    ensures
        texts(out@) == words(s@),
{
    let mut out: Vec<Vec<char>> = Vec::new();
    let mut i: usize = 0;
    assert(s@.skip(0) =~= s@);
    assert(texts(out@) =~= seq![]);
    while i < s.len()
        invariant
            i <= s.len(),
            texts(out@) + words(s@.skip(i as int)) == words(s@),
        decreases s.len() - i,
    {
        let ghost rest = s@.skip(i as int);
        assert(rest[0] == s@[i as int]);
        if is_white(s[i]) {
            assert(rest.drop_first() =~= s@.skip(i + 1));
            i = i + 1;
        } else {
            let n: usize = front_word(s, i);
            proof {
                lemma_word_len(rest);
            }
            let w = copied(slice_subrange(s, i, i + n));
            let ghost before = out@;
            assert(w@ =~= rest.take(n as int));
            assert(rest.skip(n as int) =~= s@.skip(i + n));
            out.push(w);
            proof {
                assert(texts(out@) =~= texts(before) + seq![rest.take(n as int)]);
                assert(texts(out@) + words(s@.skip(i + n)) =~= texts(before) + words(rest));
            }
            i = i + n;
        }
    }
    proof {
        assert(s@.skip(i as int).len() == 0);
        assert(texts(out@) + words(s@.skip(i as int)) =~= texts(out@));
    }
    out
}

// ------------------------------------------------------------------- delimiters

/// The first place from `from` on where `c` stands, or the length of the text.
pub open spec fn next_of(s: Seq<char>, c: char, from: int) -> int
    decreases s.len() - from,
{
    if from >= s.len() {
        s.len() as int
    } else if s[from] == c {
        from
    } else {
        next_of(s, c, from + 1)
    }
}

/// The first place from `from` on where `c` stands, or the length of the text.
pub fn find_char(s: &[char], c: char, from: usize) -> (r: usize)
    requires
        from <= s.len(),
    ensures
        r == next_of(s@, c, from as int),
        from <= r <= s.len(),
        r < s.len() ==> s@[r as int] == c,
        forall|k: int| from <= k < r ==> s@[k] != c,
{
    let mut i: usize = from;
    while i < s.len() && s[i] != c
        invariant
            from <= i <= s.len(),
            next_of(s@, c, from as int) == next_of(s@, c, i as int),
            forall|k: int| from <= k < i ==> s@[k] != c,
        decreases s.len() - i,
    {
        i = i + 1;
    }
    i
}

/// The next place of a character is the first: it stands there, unless the text ends,
/// and nowhere between.
pub proof fn lemma_next_of(s: Seq<char>, c: char, from: int)
    requires
        0 <= from <= s.len(),
    ensures
        from <= next_of(s, c, from) <= s.len(),
        next_of(s, c, from) < s.len() ==> s[next_of(s, c, from)] == c,
        forall|i: int| from <= i < next_of(s, c, from) ==> #[trigger] s[i] != c,
    decreases s.len() - from,
{
    if from < s.len() && s[from] != c {
        lemma_next_of(s, c, from + 1);
    }
}

/// The pieces of a text between the characters `c`, from place `from` on.
pub open spec fn pieces(s: Seq<char>, c: char, from: int) -> Seq<Seq<char>>
    decreases s.len() - from,
    when 0 <= from <= s.len()
    via pieces_end
{
    let end = next_of(s, c, from);
    if end == s.len() {
        seq![s.subrange(from, end)]
    } else {
        seq![s.subrange(from, end)] + pieces(s, c, end + 1)
    }
}

#[via_fn]
proof fn pieces_end(s: Seq<char>, c: char, from: int) {
    lemma_next_of(s, c, from);
}

/// The pieces of a text between the characters `c`.
pub fn split_char(s: &[char], c: char) -> (out: Vec<Vec<char>>)
    ensures
        texts(out@) == pieces(s@, c, 0),
{
    let mut out: Vec<Vec<char>> = Vec::new();
    let mut from: usize = 0;
    assert(texts(out@) =~= seq![]);
    loop
        invariant
            from <= s.len(),
            texts(out@) + pieces(s@, c, from as int) == pieces(s@, c, 0),
        decreases s.len() - from,
    {
        let end: usize = find_char(s, c, from);
        let w = copied(slice_subrange(s, from, end));
        let ghost before = out@;
        out.push(w);
        proof {
            assert(texts(out@) =~= texts(before) + seq![s@.subrange(from as int, end as int)]);
        }
        if end == s.len() {
            return out;
        }
        proof {
            assert(texts(out@) + pieces(s@, c, end + 1) =~= texts(before) + pieces(
                s@,
                c,
                from as int,
            ));
        }
        from = end + 1;
    }
}

/// The lines of a text, from place `from` on: what stands before each line feed,
/// without a carriage return right before it, and what follows the last one,
/// where anything does.
pub open spec fn lines(s: Seq<char>, from: int) -> Seq<Seq<char>>
    decreases s.len() - from,
    when 0 <= from <= s.len()
    via lines_end
{
    let end = next_of(s, '\n', from);
    if from == s.len() {
        seq![]
    } else if end == s.len() {
        seq![s.subrange(from, end)]
    } else {
        seq![
            s.subrange(
                from,
                if from < end && s[end - 1] == '\r' {
                    end - 1
                } else {
                    end
                },
            ),
        ] + lines(s, end + 1)
    }
}

#[via_fn]
proof fn lines_end(s: Seq<char>, from: int) {
    lemma_next_of(s, '\n', from);
}

/// The lines of a text.
pub fn split_lines(s: &[char]) -> (out: Vec<Vec<char>>)
    ensures
        texts(out@) == lines(s@, 0),
{
    let mut out: Vec<Vec<char>> = Vec::new();
    let mut from: usize = 0;
    assert(texts(out@) =~= seq![]);
    while from < s.len()
        invariant
            from <= s.len(),
            texts(out@) + lines(s@, from as int) == lines(s@, 0),
        decreases s.len() - from,
    {
        let end: usize = find_char(s, '\n', from);
        let stop: usize = if end < s.len() && from < end && s[end - 1] == '\r' {
            end - 1
        } else {
            end
        };
        let w = copied(slice_subrange(s, from, stop));
        let ghost before = out@;
        out.push(w);
        proof {
            assert(texts(out@) =~= texts(before) + seq![s@.subrange(from as int, stop as int)]);
            if end == s.len() {
                assert(lines(s@, s@.len() as int) =~= seq![]);
                assert(texts(out@) + lines(s@, end as int) =~= texts(before) + lines(
                    s@,
                    from as int,
                ));
            } else {
                assert(texts(out@) + lines(s@, end + 1) =~= texts(before) + lines(s@, from as int));
            }
        }
        from = if end < s.len() {
            end + 1
        } else {
            end
        };
    }
    assert(texts(out@) + lines(s@, from as int) =~= texts(out@));
    out
}

// -------------------------------------------------------------------- trimming

/// The text without white space at its front.
pub open spec fn trimmed_front(s: Seq<char>) -> Seq<char>
    decreases s.len(),
{
    if s.len() > 0 && white(s[0]) {
        trimmed_front(s.drop_first())
    } else {
        s
    }
}

/// The text without white space at its end.
pub open spec fn trimmed_back(s: Seq<char>) -> Seq<char>
    decreases s.len(),
{
    if s.len() > 0 && white(s.last()) {
        trimmed_back(s.drop_last())
    } else {
        s
    }
}

/// The text without the character `c` at its front and its end.
pub open spec fn stripped(s: Seq<char>, c: char) -> Seq<char>
    decreases s.len(),
{
    if s.len() > 0 && s[0] == c {
        stripped(s.drop_first(), c)
    } else if s.len() > 0 && s.last() == c {
        stripped(s.drop_last(), c)
    } else {
        s
    }
}

/// The text without white space at its front.
pub fn trim_start(s: &[char]) -> (r: &[char])
    ensures
        r@ == trimmed_front(s@),
{
    let mut i: usize = 0;
    assert(s@.skip(0) =~= s@);
    while i < s.len() && is_white(s[i])
        invariant
            i <= s.len(),
            trimmed_front(s@) == trimmed_front(s@.skip(i as int)),
        decreases s.len() - i,
    {
        proof {
            let rest = s@.skip(i as int);
            assert(rest[0] == s@[i as int]);
            assert(rest.drop_first() =~= s@.skip(i + 1));
        }
        i = i + 1;
    }
    proof {
        let rest = s@.skip(i as int);
        if rest.len() > 0 {
            assert(rest[0] == s@[i as int]);
        }
        assert(s@.subrange(i as int, s@.len() as int) =~= rest);
    }
    slice_subrange(s, i, s.len())
}

/// The text without white space at its front and its end.
pub fn trim(s: &[char]) -> (r: &[char])
    ensures
        r@ == trimmed_back(trimmed_front(s@)),
{
    let t = trim_start(s);
    let mut n: usize = t.len();
    assert(t@.take(n as int) =~= t@);
    while n > 0 && is_white(t[n - 1])
        invariant
            n <= t.len(),
            trimmed_back(t@) == trimmed_back(t@.take(n as int)),
        decreases n,
    {
        proof {
            let rest = t@.take(n as int);
            assert(rest.last() == t@[n - 1]);
            assert(rest.drop_last() =~= t@.take(n - 1));
        }
        n = n - 1;
    }
    proof {
        let rest = t@.take(n as int);
        if rest.len() > 0 {
            assert(rest.last() == t@[n - 1]);
        }
        assert(t@.subrange(0, n as int) =~= rest);
    }
    slice_subrange(t, 0, n)
}

/// The text without the character `c` at its front and its end.
pub fn strip(s: &[char], c: char) -> (r: &[char])
    ensures
        r@ == stripped(s@, c),
{
    let (mut a, mut b): (usize, usize) = (0, s.len());
    assert(s@.subrange(0, s@.len() as int) =~= s@);
    while a < b && s[a] == c
        invariant
            a <= b <= s.len(),
            stripped(s@, c) == stripped(s@.subrange(a as int, b as int), c),
        decreases b - a,
    {
        proof {
            let rest = s@.subrange(a as int, b as int);
            assert(rest[0] == s@[a as int]);
            assert(rest.drop_first() =~= s@.subrange(a + 1, b as int));
        }
        a = a + 1;
    }
    while a < b && s[b - 1] == c
        invariant
            a <= b <= s.len(),
            a < b ==> s@[a as int] != c,
            stripped(s@, c) == stripped(s@.subrange(a as int, b as int), c),
        decreases b - a,
    {
        proof {
            let rest = s@.subrange(a as int, b as int);
            assert(rest[0] == s@[a as int]);
            assert(rest.last() == s@[b - 1]);
            assert(rest.drop_last() =~= s@.subrange(a as int, b - 1));
        }
        b = b - 1;
    }
    proof {
        let rest = s@.subrange(a as int, b as int);
        if rest.len() > 0 {
            assert(rest[0] == s@[a as int]);
            assert(rest.last() == s@[b - 1]);
        }
    }
    slice_subrange(s, a, b)
}

// ------------------------------------------------------------------------- laws

/// Texts joined by the character `c`.
pub open spec fn joined(parts: Seq<Seq<char>>, c: char) -> Seq<char>
    decreases parts.len(),
{
    if parts.len() == 0 {
        seq![]
    } else if parts.len() == 1 {
        parts[0]
    } else {
        parts[0] + seq![c] + joined(parts.drop_first(), c)
    }
}

/// The pieces of a text hold no delimiter, and joined by it they are the text.
pub proof fn pieces_join_to_the_text(s: Seq<char>, c: char, from: int)
    requires
        0 <= from <= s.len(),
    ensures
        pieces(s, c, from).len() > 0,
        joined(pieces(s, c, from), c) == s.skip(from),
        forall|k: int, i: int|
            0 <= k < pieces(s, c, from).len() && 0 <= i < pieces(s, c, from)[k].len()
                ==> #[trigger] pieces(s, c, from)[k][i] != c,
    decreases s.len() - from,
{
    lemma_next_of(s, c, from);
    let end = next_of(s, c, from);
    let p = pieces(s, c, from);
    let head = s.subrange(from, end);
    assert forall|i: int| 0 <= i < head.len() implies #[trigger] head[i] != c by {
        assert(head[i] == s[from + i]);
    }
    if end == s.len() {
        assert(p =~= seq![head]);
        assert(head =~= s.skip(from));
    } else {
        pieces_join_to_the_text(s, c, end + 1);
        let rest = pieces(s, c, end + 1);
        assert(p =~= seq![head] + rest);
        assert(p.drop_first() =~= rest);
        assert(head + seq![c] + s.skip(end + 1) =~= s.skip(from));
        assert forall|k: int, i: int| 0 <= k < p.len() && 0 <= i < p[k].len() implies #[trigger]
        p[k][i] != c by {
            if k > 0 {
                assert(p[k] == rest[k - 1]);
                assert(rest[k - 1][i] != c);
            }
        }
    }
}

/// A text without white space is one word.
pub proof fn unbroken_text_is_one_word(s: Seq<char>)
    requires
        s.len() > 0,
        forall|i: int| 0 <= i < s.len() ==> !white(#[trigger] s[i]),
    ensures
        words(s) == seq![s],
{
    lemma_whole_word(s);
    assert(s.take(word_len(s)) =~= s);
    assert(s.skip(word_len(s)) =~= seq![]);
    assert(words(s.skip(word_len(s))) =~= seq![]);
}

proof fn lemma_whole_word(s: Seq<char>)
    requires
        forall|i: int| 0 <= i < s.len() ==> !white(#[trigger] s[i]),
    ensures
        word_len(s) == s.len(),
    decreases s.len(),
{
    if s.len() > 0 {
        assert(!white(s[0]));
        assert forall|i: int| 0 <= i < s.drop_first().len() implies !white(
            #[trigger] s.drop_first()[i],
        ) by {
            assert(s.drop_first()[i] == s[i + 1]);
        }
        lemma_whole_word(s.drop_first());
    }
}

/// White space parts words: those before it are followed by those after it, and none
/// reaches across.
pub proof fn white_space_parts_words(a: Seq<char>, c: char, b: Seq<char>)
    requires
        white(c),
    ensures
        words(a + seq![c] + b) == words(a) + words(b),
    decreases a.len(),
{
    let s = a + seq![c] + b;
    if a.len() == 0 {
        assert(s.drop_first() =~= b);
        assert(words(a) =~= seq![]);
        assert(words(a) + words(b) =~= words(b));
    } else if white(a[0]) {
        assert(s.drop_first() =~= a.drop_first() + seq![c] + b);
        white_space_parts_words(a.drop_first(), c, b);
    } else {
        lemma_word_len(a);
        lemma_word_stops(a, c, b);
        let n = word_len(a);
        assert(s.take(n) =~= a.take(n));
        assert(s.skip(n) =~= a.skip(n) + seq![c] + b);
        white_space_parts_words(a.skip(n), c, b);
        assert(seq![a.take(n)] + (words(a.skip(n)) + words(b)) =~= (seq![a.take(n)] + words(
            a.skip(n),
        )) + words(b));
    }
}

proof fn lemma_word_stops(a: Seq<char>, c: char, b: Seq<char>)
    requires
        white(c),
    ensures
        word_len(a + seq![c] + b) == word_len(a),
    decreases a.len(),
{
    let s = a + seq![c] + b;
    if a.len() > 0 && !white(a[0]) {
        assert(s.drop_first() =~= a.drop_first() + seq![c] + b);
        lemma_word_stops(a.drop_first(), c, b);
    }
}

/// Trimming takes white space away, and all of it that stands at the front and at the
/// end; what is left is a run of the text. `a` and `b` are where it starts and ends.
pub proof fn trimmed_text_is_the_middle(s: Seq<char>) -> (r: (int, int))
    ensures
        0 <= r.0 <= r.1 <= s.len(),
        trimmed_back(trimmed_front(s)) == s.subrange(r.0, r.1),
        forall|i: int| 0 <= i < r.0 || r.1 <= i < s.len() ==> white(#[trigger] s[i]),
        r.0 < r.1 ==> !white(s[r.0]) && !white(s[r.1 - 1]),
{
    let a = lemma_front(s);
    let t = trimmed_front(s);
    let n = lemma_back(t);
    assert(t.take(n) =~= s.subrange(a, a + n));
    assert forall|i: int| 0 <= i < a || a + n <= i < s.len() implies white(#[trigger] s[i]) by {
        if i >= a {
            assert(s[i] == t[i - a]);
        }
    }
    if n > 0 {
        assert(t[0] == s[a]);
        assert(t[n - 1] == s[a + n - 1]);
    }
    (a, a + n)
}

proof fn lemma_front(s: Seq<char>) -> (a: int)
    ensures
        0 <= a <= s.len(),
        trimmed_front(s) == s.skip(a),
        forall|i: int| 0 <= i < a ==> white(#[trigger] s[i]),
        a < s.len() ==> !white(s[a]),
    decreases s.len(),
{
    if s.len() > 0 && white(s[0]) {
        let t = s.drop_first();
        let b = lemma_front(t);
        assert(t.skip(b) =~= s.skip(b + 1));
        assert forall|i: int| 0 <= i < b + 1 implies white(#[trigger] s[i]) by {
            if i > 0 {
                assert(t[i - 1] == s[i]);
            }
        }
        b + 1
    } else {
        assert(s.skip(0) =~= s);
        0
    }
}

proof fn lemma_back(s: Seq<char>) -> (n: int)
    ensures
        0 <= n <= s.len(),
        trimmed_back(s) == s.take(n),
        forall|i: int| n <= i < s.len() ==> white(#[trigger] s[i]),
        n > 0 ==> !white(s[n - 1]),
    decreases s.len(),
{
    if s.len() > 0 && white(s.last()) {
        let t = s.drop_last();
        let n = lemma_back(t);
        assert(t.take(n) =~= s.take(n));
        assert forall|i: int| n <= i < s.len() implies white(#[trigger] s[i]) by {
            if i < s.len() - 1 {
                assert(t[i] == s[i]);
            }
        }
        n
    } else {
        assert(s.take(s.len() as int) =~= s);
        s.len() as int
    }
}

/// A line feed parts lines: what stands before it, but for a carriage return right
/// before it, is a line, and the lines of the rest follow.
pub proof fn line_feed_parts_lines(s: Seq<char>, from: int, end: int)
    requires
        0 <= from <= end < s.len(),
        s[end] == '\n',
        forall|i: int| from <= i < end ==> #[trigger] s[i] != '\n',
    ensures
        lines(s, from).len() > 0,
        lines(s, from).drop_first() == lines(s, end + 1),
        from < end && s[end - 1] == '\r' ==> lines(s, from)[0] + seq!['\r'] == s.subrange(from, end),
        !(from < end && s[end - 1] == '\r') ==> lines(s, from)[0] == s.subrange(from, end),
{
    lemma_next_at(s, '\n', from, end);
    let l = lines(s, from);
    assert(l.drop_first() =~= lines(s, end + 1));
    if from < end && s[end - 1] == '\r' {
        assert(l[0] + seq!['\r'] =~= s.subrange(from, end));
    }
}

proof fn lemma_next_at(s: Seq<char>, c: char, from: int, to: int)
    requires
        0 <= from <= to < s.len(),
        s[to] == c,
        forall|i: int| from <= i < to ==> #[trigger] s[i] != c,
    ensures
        next_of(s, c, from) == to,
    decreases to - from,
{
    if from < to {
        assert(s[from] != c);
        lemma_next_at(s, c, from + 1, to);
    }
}

/// A text with something in it and no white space.
pub open spec fn is_word(s: Seq<char>) -> bool {
    s.len() > 0 && forall|i: int| 0 <= i < s.len() ==> !white(#[trigger] s[i])
}

/// A number that is written out is a word.
pub proof fn lemma_written_is_word(n: nat)
    ensures
        is_word(written(n)),
{
    written_numbers_are_read_back(n);
    let s = written(n);
    assert forall|i: int| 0 <= i < s.len() implies !white(#[trigger] s[i]) by {
        assert(is_digit(s[i]));
    }
}

/// Stripping takes the character away from both ends, and all of it that stands there;
/// what is left is a run of the text. The two numbers are where it starts and ends.
pub proof fn stripped_text_is_the_middle(s: Seq<char>, c: char) -> (r: (int, int))
    ensures
        0 <= r.0 <= r.1 <= s.len(),
        stripped(s, c) == s.subrange(r.0, r.1),
        forall|i: int| 0 <= i < r.0 || r.1 <= i < s.len() ==> #[trigger] s[i] == c,
        r.0 < r.1 ==> s[r.0] != c && s[r.1 - 1] != c,
    decreases s.len(),
{
    if s.len() > 0 && s[0] == c {
        let t = s.drop_first();
        let (a, b) = stripped_text_is_the_middle(t, c);
        assert(t.subrange(a, b) =~= s.subrange(a + 1, b + 1));
        assert forall|i: int| 0 <= i < a + 1 || b + 1 <= i < s.len() implies #[trigger] s[i]
            == c by {
            if i > 0 {
                assert(t[i - 1] == s[i]);
            }
        }
        if a < b {
            assert(t[a] == s[a + 1] && t[b - 1] == s[b]);
        }
        (a + 1, b + 1)
    } else if s.len() > 0 && s.last() == c {
        let t = s.drop_last();
        let (a, b) = stripped_text_is_the_middle(t, c);
        assert(t.subrange(a, b) =~= s.subrange(a, b));
        assert forall|i: int| 0 <= i < a || b <= i < s.len() implies #[trigger] s[i] == c by {
            if i < s.len() - 1 {
                assert(t[i] == s[i]);
            }
        }
        (a, b)
    } else {
        assert(s.subrange(0, s.len() as int) =~= s);
        (0, s.len() as int)
    }
}

} // verus!
