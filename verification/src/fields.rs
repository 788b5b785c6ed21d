//! Reference files: simple objects with quoted keys, whose values are quoted
//! texts, numbers, or lists without nesting.
use crate::number::{digit, parse_i32, signed, within, written, written_numbers_are_read_back};
use crate::text::{
    find_char, lemma_next_of, next_of, pieces, same, split_char, strip, stripped, texts, trim,
    trim_start, trimmed_back, trimmed_front, white,
};
use vstd::prelude::*;
use vstd::slice::slice_subrange;

verus! {

// ------------------------------------------------------------------------ find

/// `pat` stands in `s` at place `i`.
pub open spec fn stands_at(s: Seq<char>, pat: Seq<char>, i: int) -> bool {
    i + pat.len() <= s.len() && s.subrange(i, i + pat.len()) == pat
}

/// The first place from `from` on where `pat` stands.
pub open spec fn first_at(s: Seq<char>, pat: Seq<char>, from: int) -> Option<int>
    decreases s.len() + 1 - from,
{
    if from > s.len() {
        None
    } else if stands_at(s, pat, from) {
        Some(from)
    } else {
        first_at(s, pat, from + 1)
    }
}

/// The first place where `pat` stands.
pub fn find(s: &[char], pat: &[char]) -> (r: Option<usize>)
    ensures
        match r {
            Some(i) => first_at(s@, pat@, 0) == Some(i as int) && stands_at(s@, pat@, i as int),
            None => first_at(s@, pat@, 0) is None,
        },
{
    let mut i: usize = 0;
    while pat.len() <= s.len() - i
        invariant
            i <= s.len(),
            first_at(s@, pat@, 0) == first_at(s@, pat@, i as int),
        decreases s.len() - i,
    {
        if same(slice_subrange(s, i, i + pat.len()), pat) {
            return Some(i);
        }
        if i == s.len() {
            assert(first_at(s@, pat@, i + 1) is None);
            return None;
        }
        i = i + 1;
    }
    proof {
        lemma_none_left(s@, pat@, i as int);
    }
    None
}

proof fn lemma_none_left(s: Seq<char>, pat: Seq<char>, from: int)
    requires
        0 <= from,
        from + pat.len() > s.len(),
    ensures
        first_at(s, pat, from) is None,
    decreases s.len() + 1 - from,
{
    if from <= s.len() {
        lemma_none_left(s, pat, from + 1);
    }
}

/// What is found is the first: nothing stands at an earlier place.
pub proof fn found_is_first(s: Seq<char>, pat: Seq<char>, from: int)
    requires
        0 <= from,
    ensures
        first_at(s, pat, from) matches Some(i) ==> from <= i && stands_at(s, pat, i) && forall|j: int|
            from <= j < i ==> !#[trigger] stands_at(s, pat, j),
        first_at(s, pat, from) is None ==> forall|j: int|
            from <= j ==> !#[trigger] stands_at(s, pat, j),
    decreases s.len() + 1 - from,
{
    if from <= s.len() && !stands_at(s, pat, from) {
        found_is_first(s, pat, from + 1);
    }
}

// ---------------------------------------------------------------------- fields

/// A quoted key and the text `end`.
pub open spec fn key_with(key: Seq<char>, end: Seq<char>) -> Seq<char> {
    seq!['"'] + key + seq!['"'] + end
}

/// Builds a quoted key, with `end` after it.
fn quoted(key: &[char], end: &[char]) -> (r: Vec<char>)
    ensures
        r@ == key_with(key@, end@),
{
    let mut r: Vec<char> = Vec::new();
    r.push('"');
    for i in 0..key.len()
        invariant
            r@ == seq!['"'] + key@.take(i as int),
    {
        r.push(key[i]);
        assert(key@.take(i + 1) =~= key@.take(i as int).push(key@[i as int]));
    }
    assert(key@.take(key@.len() as int) =~= key@);
    r.push('"');
    let ghost front = r@;
    for i in 0..end.len()
        invariant
            front == seq!['"'] + key@ + seq!['"'],
            r@ == front + end@.take(i as int),
    {
        r.push(end[i]);
        assert(end@.take(i + 1) =~= end@.take(i as int).push(end@[i as int]));
    }
    assert(end@.take(end@.len() as int) =~= end@);
    r
}

/// A character that ends a value without quotes.
pub open spec fn ends_value(c: char) -> bool {
    c == ',' || c == '}' || c == ']'
}

/// The first place from `from` on with a character that ends a value, or the
/// length of the text.
pub open spec fn value_end(s: Seq<char>, from: int) -> int
    decreases s.len() - from,
{
    if from >= s.len() {
        s.len() as int
    } else if ends_value(s[from]) {
        from
    } else {
        value_end(s, from + 1)
    }
}

/// The value at the front of `rest`: up to the closing quote of a quoted text, or
/// up to a comma or a closing bracket.
pub open spec fn value_of(rest: Seq<char>) -> Option<Seq<char>> {
    if rest.len() > 0 && rest[0] == '"' {
        let e = next_of(rest, '"', 1);
        if e < rest.len() {
            Some(rest.subrange(1, e))
        } else {
            None
        }
    } else {
        let e = value_end(rest, 0);
        if e < rest.len() {
            Some(rest.subrange(0, e))
        } else {
            None
        }
    }
}

/// The value of `key`: it follows the first place where the quoted key stands
/// with a colon.
pub open spec fn field_of(json: Seq<char>, key: Seq<char>) -> Option<Seq<char>> {
    let pat = key_with(key, seq![':']);
    match first_at(json, pat, 0) {
        None => None,
        Some(i) => value_of(trimmed_front(json.skip(i + pat.len()))),
    }
}

/// The value of `key`, or none where the key or the value's end is missing.
pub fn field<'a>(json: &'a [char], key: &[char]) -> (r: Option<&'a [char]>)
    ensures
        r is Some <==> field_of(json@, key@) is Some,
        r matches Some(v) ==> field_of(json@, key@) == Some(v@),
{
    let colon: [char; 1] = [':'];
    assert(colon@ =~= seq![':']);
    let pat = quoted(key, &colon);
    match find(json, &pat) {
        None => None,
        Some(i) => {
            assert(json@.len() == json.len());
            let after = slice_subrange(json, i + pat.len(), json.len());
            assert(after@ =~= json@.skip(i + pat@.len()));
            let rest = trim_start(after);
            if rest.len() > 0 && rest[0] == '"' {
                let e: usize = find_char(rest, '"', 1);
                if e < rest.len() {
                    Some(slice_subrange(rest, 1, e))
                } else {
                    None
                }
            } else {
                let mut e: usize = 0;
                while e < rest.len() && !(rest[e] == ',' || rest[e] == '}' || rest[e] == ']')
                    invariant
                        e <= rest.len(),
                        value_end(rest@, 0) == value_end(rest@, e as int),
                    decreases rest.len() - e,
                {
                    e = e + 1;
                }
                if e < rest.len() {
                    Some(slice_subrange(rest, 0, e))
                } else {
                    None
                }
            }
        },
    }
}

/// The part of a text from the first place where key `from` stands with a colon up
/// to the first place where key `to` does.
pub open spec fn section_of(json: Seq<char>, from: Seq<char>, to: Seq<char>) -> Option<Seq<char>> {
    match (
        first_at(json, key_with(from, seq![':']), 0),
        first_at(json, key_with(to, seq![':']), 0),
    ) {
        (Some(a), Some(b)) => if a <= b {
            Some(json.subrange(a, b))
        } else {
            None
        },
        _ => None,
    }
}

/// The part of a text between two keys, or none where one is missing or they stand
/// in the other order.
pub fn section<'a>(json: &'a [char], from: &[char], to: &[char]) -> (r: Option<&'a [char]>)
    ensures
        r is Some <==> section_of(json@, from@, to@) is Some,
        r matches Some(v) ==> section_of(json@, from@, to@) == Some(v@),
{
    let colon: [char; 1] = [':'];
    assert(colon@ =~= seq![':']);
    let first = quoted(from, &colon);
    let second = quoted(to, &colon);
    match (find(json, &first), find(json, &second)) {
        (Some(a), Some(b)) => if a <= b {
            Some(slice_subrange(json, a, b))
        } else {
            None
        },
        _ => None,
    }
}

/// The part of a text from the first place where key `from` stands with a colon on.
pub fn section_from<'a>(json: &'a [char], from: &[char]) -> (r: Option<&'a [char]>)
    ensures
        match r {
            Some(v) => first_at(json@, key_with(from@, seq![':']), 0) is Some && v@ == json@.skip(
                first_at(json@, key_with(from@, seq![':']), 0)->Some_0,
            ),
            None => first_at(json@, key_with(from@, seq![':']), 0) is None,
        },
{
    let colon: [char; 1] = [':'];
    assert(colon@ =~= seq![':']);
    let first = quoted(from, &colon);
    match find(json, &first) {
        Some(a) => {
            assert(json@.subrange(a as int, json@.len() as int) =~= json@.skip(a as int));
            Some(slice_subrange(json, a, json.len()))
        },
        None => None,
    }
}

// ----------------------------------------------------------------------- lists

/// The inside of the list under `key`.
pub open spec fn list_of(json: Seq<char>, key: Seq<char>) -> Option<Seq<char>> {
    let pat = key_with(key, seq![':', ' ', '[']);
    match first_at(json, pat, 0) {
        None => None,
        Some(i) => {
            let start = i + pat.len();
            let e = next_of(json, ']', start as int);
            if e < json.len() {
                Some(json.subrange(start as int, e))
            } else {
                None
            }
        },
    }
}

/// The inside of the list under `key`, or none where the key or the closing
/// bracket is missing.
fn list<'a>(json: &'a [char], key: &[char]) -> (r: Option<&'a [char]>)
    ensures
        r is Some <==> list_of(json@, key@) is Some,
        r matches Some(v) ==> list_of(json@, key@) == Some(v@),
{
    let open: [char; 3] = [':', ' ', '['];
    assert(open@ =~= seq![':', ' ', '[']);
    let pat = quoted(key, &open);
    match find(json, &pat) {
        None => None,
        Some(i) => {
            assert(json@.len() == json.len());
            let start: usize = i + pat.len();
            let e: usize = find_char(json, ']', start);
            if e < json.len() {
                Some(slice_subrange(json, start, e))
            } else {
                None
            }
        },
    }
}

/// The items of a list, trimmed.
pub open spec fn trimmed_items(items: Seq<Seq<char>>) -> Seq<Seq<char>> {
    Seq::new(items.len(), |i: int| trimmed_back(trimmed_front(items[i])))
}

/// The items of the list under `key`, trimmed, for numbers with fractions.
pub fn list_items(json: &[char], key: &[char]) -> (r: Option<Vec<Vec<char>>>)
    ensures
        r is Some <==> list_of(json@, key@) is Some,
        r matches Some(v) ==> texts(v@) == trimmed_items(
            pieces(list_of(json@, key@)->Some_0, ',', 0),
        ),
{
    match list(json, key) {
        None => None,
        Some(inside) => {
            let parts = split_char(inside, ',');
            let mut out: Vec<Vec<char>> = Vec::new();
            for i in 0..parts.len()
                invariant
                    texts(out@) == trimmed_items(texts(parts@)).take(i as int),
            {
                let t = trim(&parts[i]);
                let mut w: Vec<char> = Vec::new();
                for j in 0..t.len()
                    invariant
                        w@ == t@.take(j as int),
                {
                    w.push(t[j]);
                }
                assert(t@.take(t@.len() as int) =~= t@);
                let ghost before = out@;
                out.push(w);
                assert(texts(out@) =~= texts(before).push(t@));
                assert(trimmed_items(texts(parts@))[i as int] == t@);
                assert(trimmed_items(texts(parts@)).take(i + 1) =~= trimmed_items(
                    texts(parts@),
                ).take(i as int).push(t@));
            }
            assert(trimmed_items(texts(parts@)).take(parts@.len() as int) =~= trimmed_items(
                texts(parts@),
            ));
            Some(out)
        },
    }
}

/// The 32-bit numbers among the items; what is none is left out.
pub open spec fn numbers_of(items: Seq<Seq<char>>) -> Seq<int>
    decreases items.len(),
{
    if items.len() == 0 {
        seq![]
    } else {
        let rest = numbers_of(items.drop_last());
        match within(
            signed(trimmed_back(trimmed_front(items.last()))),
            i32::MIN as int,
            i32::MAX as int,
        ) {
            Some(v) => rest.push(v),
            None => rest,
        }
    }
}

/// The 32-bit numbers of the list under `key`.
pub fn arr_i(json: &[char], key: &[char]) -> (r: Option<Vec<i32>>)
    ensures
        r is Some <==> list_of(json@, key@) is Some,
        r matches Some(v) ==> v@.map_values(|x: i32| x as int) == numbers_of(
            pieces(list_of(json@, key@)->Some_0, ',', 0),
        ),
{
    match list(json, key) {
        None => None,
        Some(inside) => {
            let parts = split_char(inside, ',');
            let mut out: Vec<i32> = Vec::new();
            assert(out@.map_values(|x: i32| x as int) =~= seq![]);
            assert(texts(parts@).take(0) =~= seq![]);
            for i in 0..parts.len()
                invariant
                    out@.map_values(|x: i32| x as int) == numbers_of(texts(parts@).take(i as int)),
            {
                let ghost before = out@;
                proof {
                    let next = texts(parts@).take(i + 1);
                    assert(next.drop_last() =~= texts(parts@).take(i as int));
                    assert(next.last() == parts@[i as int]@);
                }
                match parse_i32(trim(&parts[i])) {
                    Some(v) => {
                        out.push(v);
                        assert(out@.map_values(|x: i32| x as int) =~= before.map_values(
                            |x: i32| x as int,
                        ).push(v as int));
                    },
                    None => {},
                }
            }
            assert(texts(parts@).take(parts@.len() as int) =~= texts(parts@));
            Some(out)
        },
    }
}

// ------------------------------------------------------------------------- hex

/// The value of a hexadecimal digit.
pub open spec fn hex_digit(c: char) -> Option<int> {
    if '0' <= c <= '9' {
        Some(c as int - 48)
    } else if 'a' <= c <= 'f' {
        Some(c as int - 87)
    } else if 'A' <= c <= 'F' {
        Some(c as int - 55)
    } else {
        None
    }
}

/// The value of two characters: two hexadecimal digits, or one after a plus sign.
pub open spec fn hex_pair(a: char, b: char) -> Option<int> {
    if a == '+' {
        hex_digit(b)
    } else {
        match (hex_digit(a), hex_digit(b)) {
            (Some(x), Some(y)) => Some(16 * x + y),
            _ => None,
        }
    }
}

/// The bytes that a text gives in pairs of characters.
pub open spec fn hex_bytes(s: Seq<char>) -> Option<Seq<u8>>
    decreases s.len(),
{
    if s.len() == 0 {
        Some(seq![])
    } else if s.len() == 1 {
        None
    } else {
        match (hex_bytes(s.take(s.len() - 2)), hex_pair(s[s.len() - 2], s[s.len() - 1])) {
            (Some(bytes), Some(v)) => Some(bytes.push(v as u8)),
            _ => None,
        }
    }
}

fn digit_of(c: char) -> (r: Option<u8>)
    ensures
        match r {
            Some(v) => hex_digit(c) == Some(v as int) && v < 16,
            None => hex_digit(c) is None,
        },
{
    if '0' <= c && c <= '9' {
        Some((c as u32 - 48) as u8)
    } else if 'a' <= c && c <= 'f' {
        Some((c as u32 - 87) as u8)
    } else if 'A' <= c && c <= 'F' {
        Some((c as u32 - 55) as u8)
    } else {
        None
    }
}

fn pair_of(a: char, b: char) -> (r: Option<u8>)
    ensures
        match r {
            Some(v) => hex_pair(a, b) == Some(v as int),
            None => hex_pair(a, b) is None,
        },
{
    if a == '+' {
        digit_of(b)
    } else {
        match (digit_of(a), digit_of(b)) {
            (Some(x), Some(y)) => Some(16 * x + y),
            _ => None,
        }
    }
}

proof fn lemma_bad_prefix(s: Seq<char>, n: int)
    requires
        0 <= n <= s.len(),
        n % 2 == 0,
        hex_bytes(s.take(n)) is None,
    ensures
        hex_bytes(s) is None,
    decreases s.len(),
{
    if n == s.len() {
        assert(s.take(n) =~= s);
    } else if s.len() > 1 && n <= s.len() - 2 {
        let t = s.take(s.len() - 2);
        assert(t.take(n) =~= s.take(n));
        lemma_bad_prefix(t, n);
    } else if s.len() > 1 {
        assert(s.len() % 2 == 1);
        lemma_odd(s);
    }
}

proof fn lemma_odd(s: Seq<char>)
    requires
        s.len() % 2 == 1,
    ensures
        hex_bytes(s) is None,
    decreases s.len(),
{
    if s.len() > 1 {
        lemma_odd(s.take(s.len() - 2));
    }
}

/// The bytes that a text gives in hexadecimal, or none where its length is odd or
/// a pair of characters is no number.
pub fn hexb(s: &[char]) -> (r: Option<Vec<u8>>)
    ensures
        r is Some <==> hex_bytes(s@) is Some,
        r matches Some(v) ==> hex_bytes(s@) == Some(v@),
{
    if s.len() % 2 == 1 {
        proof {
            lemma_odd(s@);
        }
        return None;
    }
    let mut out: Vec<u8> = Vec::new();
    let mut i: usize = 0;
    assert(s@.take(0) =~= seq![]);
    while i < s.len()
        invariant
            i <= s.len(),
            i % 2 == 0,
            s.len() % 2 == 0,
            hex_bytes(s@.take(i as int)) == Some(out@),
        decreases s.len() - i,
    {
        proof {
            let next = s@.take(i + 2);
            assert(next.take(i as int) =~= s@.take(i as int));
            assert(next[i as int] == s@[i as int] && next[i + 1] == s@[i + 1]);
        }
        match pair_of(s[i], s[i + 1]) {
            Some(v) => {
                out.push(v);
            },
            None => {
                proof {
                    lemma_bad_prefix(s@, i + 2);
                }
                return None;
            },
        }
        i = i + 2;
    }
    assert(s@.take(i as int) =~= s@);
    Some(out)
}

/// The bytes that a text gives in hexadecimal; the same as `hexb`.
pub fn hex_to_bytes(s: &[char]) -> (r: Option<Vec<u8>>)
    ensures
        r is Some <==> hex_bytes(s@) is Some,
        r matches Some(v) ==> hex_bytes(s@) == Some(v@),
{
    hexb(s)
}

/// An item of a list of quoted texts, without the quotes.
pub open spec fn unquoted(item: Seq<char>) -> Seq<char> {
    stripped(trimmed_back(trimmed_front(item)), '"')
}

/// The key of the rows in hexadecimal.
pub open spec fn rows_key() -> Seq<char> {
    seq!['r', 'o', 'w', 's', '_', 'h', 'e', 'x']
}

/// The rows of bytes that the list under `rows_hex` gives in hexadecimal, or none
/// where the list is missing or an item is no hexadecimal text.
pub fn rows(json: &[char]) -> (r: Option<Vec<Vec<u8>>>)
    ensures
        match list_of(json@, rows_key()) {
            None => r is None,
            Some(inside) => {
                let items = pieces(inside, ',', 0);
                match r {
                    Some(v) => v@.len() == items.len() && forall|i: int|
                        0 <= i < items.len() ==> hex_bytes(unquoted(items[i])) == Some(
                            (#[trigger] v@[i])@,
                        ),
                    None => exists|i: int|
                        0 <= i < items.len() && hex_bytes(unquoted(#[trigger] items[i])) is None,
                }
            },
        },
{
    let key: [char; 8] = ['r', 'o', 'w', 's', '_', 'h', 'e', 'x'];
    assert(key@ =~= rows_key());
    match list(json, &key) {
        None => None,
        Some(inside) => {
            let parts = split_char(inside, ',');
            let ghost items = pieces(inside@, ',', 0);
            let mut out: Vec<Vec<u8>> = Vec::new();
            for i in 0..parts.len()
                invariant
                    list_of(json@, rows_key()) == Some(inside@),
                    items == pieces(inside@, ',', 0),
                    texts(parts@) == items,
                    out@.len() == i,
                    forall|k: int|
                        0 <= k < i ==> hex_bytes(unquoted(items[k])) == Some((#[trigger] out@[k])@),
            {
                assert(items[i as int] == parts@[i as int]@);
                match hexb(strip(trim(&parts[i]), '"')) {
                    Some(v) => {
                        out.push(v);
                    },
                    None => {
                        assert(hex_bytes(unquoted(items[i as int])) is None);
                        return None;
                    },
                }
            }
            Some(out)
        },
    }
}

// ------------------------------------------------------------------- reading back

/// A value without quotes that follows its key is the value of the key: it reaches up to
/// the next comma or closing bracket.
pub proof fn plain_value_is_read_back(
    before: Seq<char>,
    key: Seq<char>,
    value: Seq<char>,
    end: char,
    after: Seq<char>,
)
    requires
        first_at(before + key_with(key, seq![':']) + value + seq![end] + after, key_with(
            key,
            seq![':'],
        ), 0) == Some(before.len() as int),
        value.len() > 0 && !white(value[0]) && value[0] != '"',
        forall|i: int| 0 <= i < value.len() ==> !ends_value(#[trigger] value[i]),
        ends_value(end),
    ensures
        field_of(before + key_with(key, seq![':']) + value + seq![end] + after, key) == Some(value),
{
    let pat = key_with(key, seq![':']);
    let json = before + pat + value + seq![end] + after;
    let rest = json.skip((before.len() + pat.len()) as int);
    assert(rest =~= value + seq![end] + after);
    assert(rest[0] == value[0]);
    assert(trimmed_front(rest) == rest);
    assert forall|i: int| 0 <= i < value.len() implies !ends_value(#[trigger] rest[i]) by {
        assert(rest[i] == value[i]);
    }
    lemma_value_ends(rest, 0, value.len() as int);
    assert(rest.subrange(0, value.len() as int) =~= value);
}

proof fn lemma_value_ends(s: Seq<char>, from: int, to: int)
    requires
        0 <= from <= to < s.len(),
        ends_value(s[to]),
        forall|i: int| from <= i < to ==> !ends_value(#[trigger] s[i]),
    ensures
        value_end(s, from) == to,
    decreases to - from,
{
    if from < to {
        assert(!ends_value(s[from]));
        lemma_value_ends(s, from + 1, to);
    }
}

/// A quoted text that follows its key, after white space or none, is the value of the
/// key, whatever it holds but quotes.
pub proof fn quoted_value_is_read_back(
    before: Seq<char>,
    key: Seq<char>,
    space: Seq<char>,
    value: Seq<char>,
    after: Seq<char>,
)
    requires
        first_at(
            before + key_with(key, seq![':']) + space + seq!['"'] + value + seq!['"'] + after,
            key_with(key, seq![':']),
            0,
        ) == Some(before.len() as int),
        forall|i: int| 0 <= i < space.len() ==> white(#[trigger] space[i]),
        forall|i: int| 0 <= i < value.len() ==> #[trigger] value[i] != '"',
    ensures
        field_of(
            before + key_with(key, seq![':']) + space + seq!['"'] + value + seq!['"'] + after,
            key,
        ) == Some(value),
{
    let pat = key_with(key, seq![':']);
    let json = before + pat + space + seq!['"'] + value + seq!['"'] + after;
    let rest = json.skip((before.len() + pat.len()) as int);
    let quoted = seq!['"'] + value + seq!['"'] + after;
    assert(rest =~= space + quoted);
    assert(!white('"'));
    assert(quoted[0] == '"');
    lemma_space_goes(space, quoted);
    assert(trimmed_front(rest) == quoted);
    let n = value.len() as int;
    assert(quoted[n + 1] == '"');
    assert forall|i: int| 1 <= i < n + 1 implies #[trigger] quoted[i] != '"' by {
        assert(quoted[i] == value[i - 1]);
    }
    lemma_next_of(quoted, '"', 1);
    assert(next_of(quoted, '"', 1) == n + 1);
    assert(quoted.subrange(1, n + 1) =~= value);
}

proof fn lemma_space_goes(space: Seq<char>, rest: Seq<char>)
    requires
        rest.len() > 0,
        !white(rest[0]),
        forall|i: int| 0 <= i < space.len() ==> white(#[trigger] space[i]),
    ensures
        trimmed_front(space + rest) == rest,
    decreases space.len(),
{
    let s = space + rest;
    if space.len() == 0 {
        assert(s =~= rest);
    } else {
        assert(s[0] == space[0]);
        let t = space.drop_first();
        assert forall|i: int| 0 <= i < t.len() implies white(#[trigger] t[i]) by {
            assert(t[i] == space[i + 1]);
        }
        lemma_space_goes(t, rest);
        assert(s.drop_first() =~= t + rest);
    }
}

/// The hexadecimal digit with the value `d`.
pub open spec fn hex_char(d: int) -> char {
    if d < 10 {
        digit(d)
    } else if d == 10 {
        'a'
    } else if d == 11 {
        'b'
    } else if d == 12 {
        'c'
    } else if d == 13 {
        'd'
    } else if d == 14 {
        'e'
    } else {
        'f'
    }
}

/// Bytes, written out in hexadecimal.
pub open spec fn hex_text(bytes: Seq<u8>) -> Seq<char>
    decreases bytes.len(),
{
    if bytes.len() == 0 {
        seq![]
    } else {
        hex_text(bytes.drop_last()) + seq![
            hex_char(bytes.last() as int / 16),
            hex_char(bytes.last() as int % 16),
        ]
    }
}

/// Bytes that are written out in hexadecimal are read back.
pub proof fn hexadecimal_is_read_back(bytes: Seq<u8>)
    ensures
        hex_text(bytes).len() == 2 * bytes.len(),
        hex_bytes(hex_text(bytes)) == Some(bytes),
    decreases bytes.len(),
{
    let s = hex_text(bytes);
    if bytes.len() == 0 {
        assert(bytes =~= seq![]);
    } else {
        hexadecimal_is_read_back(bytes.drop_last());
        let b = bytes.last() as int;
        lemma_hex_char(b / 16);
        lemma_hex_char(b % 16);
        assert(s.take(s.len() - 2) =~= hex_text(bytes.drop_last()));
        assert(hex_pair(s[s.len() - 2], s[s.len() - 1]) == Some(b));
        assert(bytes.drop_last().push(b as u8) =~= bytes);
    }
}

proof fn lemma_hex_char(d: int)
    requires
        0 <= d < 16,
    ensures
        hex_digit(hex_char(d)) == Some(d),
        hex_char(d) != '+',
{
}

/// The inside of a list that follows its key is what is taken for it, up to the first
/// closing bracket.
pub proof fn list_is_read_back(
    before: Seq<char>,
    key: Seq<char>,
    inside: Seq<char>,
    after: Seq<char>,
)
    requires
        first_at(
            before + key_with(key, seq![':', ' ', '[']) + inside + seq![']'] + after,
            key_with(key, seq![':', ' ', '[']),
            0,
        ) == Some(before.len() as int),
        forall|i: int| 0 <= i < inside.len() ==> #[trigger] inside[i] != ']',
    ensures
        list_of(
            before + key_with(key, seq![':', ' ', '[']) + inside + seq![']'] + after,
            key,
        ) == Some(inside),
{
    let pat = key_with(key, seq![':', ' ', '[']);
    let json = before + pat + inside + seq![']'] + after;
    let start = (before.len() + pat.len()) as int;
    let end = start + inside.len();
    assert(json[end] == ']');
    assert forall|i: int| start <= i < end implies #[trigger] json[i] != ']' by {
        assert(json[i] == inside[i - start]);
    }
    lemma_next_of(json, ']', start);
    assert(next_of(json, ']', start) == end);
    assert(json.subrange(start, end) =~= inside);
}

/// A number, written out with a minus sign where it is negative.
pub open spec fn signed_text(n: int) -> Seq<char> {
    if n < 0 {
        seq!['-'] + written((-n) as nat)
    } else {
        written(n as nat)
    }
}

/// A list of 32-bit numbers that are written out is read back, all of them in order.
pub proof fn listed_numbers_are_read_back(items: Seq<Seq<char>>, ns: Seq<int>)
    requires
        items.len() == ns.len(),
        forall|i: int|
            0 <= i < ns.len() ==> i32::MIN <= #[trigger] ns[i] <= i32::MAX && trimmed_back(
                trimmed_front(items[i]),
            ) == signed_text(ns[i]),
    ensures
        numbers_of(items) == ns,
    decreases items.len(),
{
    if items.len() == 0 {
        assert(ns =~= seq![]);
    } else {
        let (t, ms) = (items.drop_last(), ns.drop_last());
        assert forall|i: int| 0 <= i < ms.len() implies i32::MIN <= #[trigger] ms[i] <= i32::MAX
            && trimmed_back(trimmed_front(t[i])) == signed_text(ms[i]) by {
            assert(ms[i] == ns[i] && t[i] == items[i]);
        }
        listed_numbers_are_read_back(t, ms);
        let n = ns.last();
        assert(ns[ns.len() - 1] == n);
        if n < 0 {
            written_numbers_are_read_back((-n) as nat);
        } else {
            written_numbers_are_read_back(n as nat);
        }
        assert(ms.push(n) =~= ns);
    }
}

} // verus!
