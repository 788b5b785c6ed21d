//! A model's configuration: lines of a key and a value.
use crate::number::{parse_usize, unsigned, within, written, written_numbers_are_read_back};
use crate::text::{
    copied, is_word, lemma_written_is_word, lines, same, split_lines, split_words, texts, to_chars,
    unbroken_text_is_one_word, white_space_parts_words, words,
};
use vstd::prelude::*;

verus! {

/// What stops a configuration from being read.
#[derive(Clone, Copy, Debug)]
pub enum ConfigError {
    /// No line gives this key a value.
    Missing(&'static str),
    /// The value of this key is no number.
    NotANumber(&'static str),
}

/// The value that a line gives to `key`: its second word, where the first is the
/// key.
pub open spec fn given(line: Seq<char>, key: Seq<char>) -> Option<Seq<char>> {
    let w = words(line);
    if w.len() >= 2 && w[0] == key {
        Some(w[1])
    } else {
        None
    }
}

/// The value that the last line with `key` gives to it.
pub open spec fn value_in(ls: Seq<Seq<char>>, key: Seq<char>) -> Option<Seq<char>>
    decreases ls.len(),
{
    if ls.len() == 0 {
        None
    } else if given(ls.last(), key) is Some {
        given(ls.last(), key)
    } else {
        value_in(ls.drop_last(), key)
    }
}

/// The number that the last line with `key` gives to it.
pub open spec fn number_in(ls: Seq<Seq<char>>, key: Seq<char>) -> Option<int> {
    match value_in(ls, key) {
        Some(v) => within(unsigned(v), 0, usize::MAX as int),
        None => None,
    }
}

/// The value of `key`.
fn value(ls: &Vec<Vec<char>>, key: &str) -> (r: Option<Vec<char>>)
    ensures
        r is Some <==> value_in(texts(ls@), key@) is Some,
        r matches Some(v) ==> value_in(texts(ls@), key@) == Some(v@),
{
    let k = to_chars(key);
    let mut n: usize = ls.len();
    assert(texts(ls@).take(n as int) =~= texts(ls@));
    while n > 0
        invariant
            n <= ls.len(),
            k@ == key@,
            value_in(texts(ls@), key@) == value_in(texts(ls@).take(n as int), key@),
        decreases n,
    {
        let w = split_words(&ls[n - 1]);
        proof {
            let t = texts(ls@).take(n as int);
            assert(t.last() == ls@[n - 1]@);
            assert(t.drop_last() =~= texts(ls@).take(n - 1));
            assert(texts(w@).len() == w@.len());
        }
        if w.len() >= 2 {
            assert(texts(w@)[0] == w@[0]@ && texts(w@)[1] == w@[1]@);
            if same(&w[0], &k) {
                return Some(copied(&w[1]));
            }
        }
        n = n - 1;
    }
    None
}

/// The number of `key`, or what is wrong with it.
fn number(ls: &Vec<Vec<char>>, key: &'static str) -> (r: Result<usize, ConfigError>)
    ensures
        match r {
            Ok(n) => number_in(texts(ls@), key@) == Some(n as int),
            Err(ConfigError::Missing(k)) => k@ == key@ && value_in(texts(ls@), key@) is None,
            Err(ConfigError::NotANumber(k)) => k@ == key@ && value_in(texts(ls@), key@) is Some
                && number_in(texts(ls@), key@) is None,
        },
{
    match value(ls, key) {
        None => Err(ConfigError::Missing(key)),
        Some(v) => match parse_usize(&v) {
            Some(n) => Ok(n),
            None => Err(ConfigError::NotANumber(key)),
        },
    }
}

/// The sizes of a model.
#[derive(Clone, Copy, Debug)]
pub struct Cfg {
    /// The width of the residual stream.
    pub d: usize,
    /// The number of query heads.
    pub nh: usize,
    /// The number of key and value heads.
    pub nkv: usize,
    /// The width of a head.
    pub hd: usize,
    /// The number of layers.
    pub nl: usize,
    /// The number of experts of a layer.
    pub ne: usize,
    /// The number of experts that a token uses.
    pub topk: usize,
    /// The width of an expert's hidden layer.
    pub ffexp: usize,
    /// The number of tokens of the vocabulary.
    pub nvocab: usize,
    /// The number of positions that a windowed layer sees.
    pub swa: usize,
    /// The number of blocks of 32 of a row.
    pub blocks: usize,
    /// The number of bytes of a row of four-bit floats.
    pub bpr: usize,
}

/// The keys of the sizes, in the order in which they are read.
pub open spec fn size_keys() -> Seq<Seq<char>> {
    seq![
        "n_embd"@,
        "n_head"@,
        "n_head_kv"@,
        "head_dim"@,
        "n_layer"@,
        "n_expert"@,
        "n_expert_used"@,
        "n_ff_exp"@,
        "n_vocab"@,
    ]
}

/// The number of positions that a windowed layer sees: 2^30 where no window is
/// wanted or none is given.
pub open spec fn window_of(ls: Seq<Seq<char>>, windowed: bool) -> Option<int> {
    if windowed && value_in(ls, "sliding_window"@) is Some {
        number_in(ls, "sliding_window"@)
    } else {
        Some(0x4000_0000)
    }
}

/// All sizes are given as numbers.
pub open spec fn sizes_given(ls: Seq<Seq<char>>) -> bool {
    forall|i: int| 0 <= i < size_keys().len() ==> number_in(ls, #[trigger] size_keys()[i]) is Some
}

/// All sizes and both fractions are given.
pub open spec fn complete(ls: Seq<Seq<char>>, windowed: bool) -> bool {
    &&& sizes_given(ls)
    &&& window_of(ls, windowed) is Some
    &&& value_in(ls, "rope_freq_base"@) is Some
    &&& value_in(ls, "rms_eps"@) is Some
}

/// Key `i` of the sizes is the first that is not given as a number.
pub open spec fn first_fault(ls: Seq<Seq<char>>, i: int) -> bool {
    &&& 0 <= i < size_keys().len()
    &&& forall|j: int| 0 <= j < i ==> number_in(ls, #[trigger] size_keys()[j]) is Some
    &&& number_in(ls, size_keys()[i]) is None
}

/// Key `k` is the first that is wrong, and no line gives it a value.
pub open spec fn is_missing(ls: Seq<Seq<char>>, windowed: bool, k: Seq<char>) -> bool {
    &&& value_in(ls, k) is None
    &&& {
        ||| exists|i: int| first_fault(ls, i) && k == #[trigger] size_keys()[i]
        ||| sizes_given(ls) && window_of(ls, windowed) is Some && k == "rope_freq_base"@
        ||| sizes_given(ls) && window_of(ls, windowed) is Some && value_in(ls, "rope_freq_base"@)
            is Some && k == "rms_eps"@
    }
}

/// Key `k` is the first that is wrong, and its value is no number.
pub open spec fn is_no_number(ls: Seq<Seq<char>>, windowed: bool, k: Seq<char>) -> bool {
    &&& value_in(ls, k) is Some
    &&& {
        ||| exists|i: int| first_fault(ls, i) && k == #[trigger] size_keys()[i]
        ||| sizes_given(ls) && window_of(ls, windowed) is None && k == "sliding_window"@
    }
}

/// The configuration as it was read; the two fractions stay texts.
#[derive(Debug)]
pub struct Loaded {
    pub cfg: Cfg,
    /// The base of the rotations' frequencies.
    pub rope_base: Vec<char>,
    /// What a norm adds below the root.
    pub rms_eps: Vec<char>,
}

/// Reads a configuration, with the window of the windowed layers where `windowed`
/// is set.
pub fn load_cfg(text: &[char], windowed: bool) -> (r: Result<Loaded, ConfigError>)
    ensures
        r is Ok <==> complete(lines(text@, 0), windowed),
        r matches Ok(l) ==> ({
            let ls = lines(text@, 0);
            &&& number_in(ls, "n_embd"@) == Some(l.cfg.d as int)
            &&& number_in(ls, "n_head"@) == Some(l.cfg.nh as int)
            &&& number_in(ls, "n_head_kv"@) == Some(l.cfg.nkv as int)
            &&& number_in(ls, "head_dim"@) == Some(l.cfg.hd as int)
            &&& number_in(ls, "n_layer"@) == Some(l.cfg.nl as int)
            &&& number_in(ls, "n_expert"@) == Some(l.cfg.ne as int)
            &&& number_in(ls, "n_expert_used"@) == Some(l.cfg.topk as int)
            &&& number_in(ls, "n_ff_exp"@) == Some(l.cfg.ffexp as int)
            &&& number_in(ls, "n_vocab"@) == Some(l.cfg.nvocab as int)
            &&& window_of(ls, windowed) == Some(l.cfg.swa as int)
            &&& l.cfg.blocks == l.cfg.d / 32
            &&& l.cfg.bpr == l.cfg.blocks * 17
            &&& value_in(ls, "rope_freq_base"@) == Some(l.rope_base@)
            &&& value_in(ls, "rms_eps"@) == Some(l.rms_eps@)
        }),
        r matches Err(ConfigError::Missing(k)) ==> is_missing(lines(text@, 0), windowed, k@),
        r matches Err(ConfigError::NotANumber(k)) ==> is_no_number(lines(text@, 0), windowed, k@),
{
    let ls = split_lines(text);
    let keys: [&'static str; 9] = [
        "n_embd",
        "n_head",
        "n_head_kv",
        "head_dim",
        "n_layer",
        "n_expert",
        "n_expert_used",
        "n_ff_exp",
        "n_vocab",
    ];
    let mut sizes: Vec<usize> = Vec::new();
    for i in 0..9usize
        invariant
            texts(ls@) == lines(text@, 0),
            keys@.len() == 9,
            forall|j: int| 0 <= j < 9 ==> (#[trigger] keys@[j])@ == size_keys()[j],
            sizes@.len() == i,
            forall|j: int|
                0 <= j < i ==> number_in(texts(ls@), #[trigger] size_keys()[j]) == Some(
                    sizes@[j] as int,
                ),
    {
        assert(keys@[i as int]@ == size_keys()[i as int]);
        match number(&ls, keys[i]) {
            Ok(n) => {
                sizes.push(n);
            },
            Err(e) => {
                assert(first_fault(texts(ls@), i as int));
                return Err(e);
            },
        }
    }
    assert(number_in(texts(ls@), size_keys()[0]) == Some(sizes@[0] as int));
    assert(number_in(texts(ls@), size_keys()[1]) == Some(sizes@[1] as int));
    assert(number_in(texts(ls@), size_keys()[2]) == Some(sizes@[2] as int));
    assert(number_in(texts(ls@), size_keys()[3]) == Some(sizes@[3] as int));
    assert(number_in(texts(ls@), size_keys()[4]) == Some(sizes@[4] as int));
    assert(number_in(texts(ls@), size_keys()[5]) == Some(sizes@[5] as int));
    assert(number_in(texts(ls@), size_keys()[6]) == Some(sizes@[6] as int));
    assert(number_in(texts(ls@), size_keys()[7]) == Some(sizes@[7] as int));
    assert(number_in(texts(ls@), size_keys()[8]) == Some(sizes@[8] as int));
    let mut swa: usize = 0x4000_0000;
    if windowed {
        match number(&ls, "sliding_window") {
            Ok(n) => {
                swa = n;
            },
            Err(ConfigError::Missing(_)) => {},
            Err(e) => {
                return Err(e);
            },
        }
    }
    let rope_base = match value(&ls, "rope_freq_base") {
        Some(v) => v,
        None => {
            return Err(ConfigError::Missing("rope_freq_base"));
        },
    };
    let rms_eps = match value(&ls, "rms_eps") {
        Some(v) => v,
        None => {
            return Err(ConfigError::Missing("rms_eps"));
        },
    };
    let blocks: usize = sizes[0] / 32;
    let cfg = Cfg {
        d: sizes[0],
        nh: sizes[1],
        nkv: sizes[2],
        hd: sizes[3],
        nl: sizes[4],
        ne: sizes[5],
        topk: sizes[6],
        ffexp: sizes[7],
        nvocab: sizes[8],
        swa,
        blocks,
        bpr: blocks * 17,
    };
    Ok(Loaded { cfg, rope_base, rms_eps })
}

/// The product of two sizes fits the machine.
pub open spec fn fits(x: int) -> bool {
    0 <= x <= usize::MAX
}

impl Cfg {
    /// The kernels of the model with an attention window serve these sizes: the
    /// experts' hidden layers are as wide as the stream, and a head has 64 numbers.
    pub open spec fn is_gptoss(&self) -> bool {
        self.ffexp == self.d && self.hd == 64
    }

    /// Whether the kernels of the model with an attention window serve these sizes.
    pub fn serves_gptoss(&self) -> (r: bool)
        ensures
            r == self.is_gptoss(),
    {
        self.ffexp == self.d && self.hd == 64
    }

    /// The kernels of the model with normalized heads serve these sizes: rows are
    /// made of super-blocks of 256.
    pub open spec fn is_qwen(&self) -> bool {
        self.d % 256 == 0 && self.ffexp % 256 == 0 && (self.nh * self.hd) % 256 == 0
    }

    /// Whether the kernels of the model with normalized heads serve these sizes.
    pub fn serves_qwen(&self) -> (r: bool)
        requires
            self.is_sound(),
        ensures
            r == self.is_qwen(),
    {
        self.d % 256 == 0 && self.ffexp % 256 == 0 && (self.nh * self.hd) % 256 == 0
    }

    /// Every buffer of a forward pass fits the machine, and the heads and blocks
    /// divide evenly.
    pub open spec fn is_sound(&self) -> bool {
        &&& self.d % 32 == 0
        &&& self.nkv > 0
        &&& self.nh % self.nkv == 0
        &&& self.hd > 0
        &&& self.hd % 2 == 0
        &&& self.swa > 0
        &&& self.topk <= self.ne
        &&& fits(self.nh * self.hd)
        &&& fits(self.nkv * self.hd)
        &&& fits(self.nh * self.hd + 2 * self.nkv * self.hd)
        &&& fits(self.nh + self.nkv)
        &&& fits(self.nl * (4096 * self.nkv * self.hd))
        &&& fits(self.ne * self.d)
        &&& fits(self.ne * self.ffexp)
        &&& fits(self.topk * (2 * self.d))
        &&& fits(self.topk * self.ffexp)
    }

    /// Whether a forward pass can be run on these sizes.
    pub fn sound(&self) -> (r: bool)
        ensures
            r == self.is_sound(),
    {
        if self.d % 32 != 0 || self.nkv == 0 || self.hd == 0 || self.hd % 2 != 0 || self.swa == 0
            || self.topk > self.ne || self.nh % self.nkv != 0 {
            return false;
        }
        let max: u128 = usize::MAX as u128;
        let queries: u128 = product(self.nh, self.hd);
        let keys: u128 = product(self.nkv, self.hd);
        proof {
            assert(2 * self.nkv * self.hd == 2 * (self.nkv * self.hd)) by (nonlinear_arith);
            assert(4096 * self.nkv * self.hd == 4096 * (self.nkv * self.hd)) by (nonlinear_arith);
            assert(self.topk * (2 * self.d) == 2 * (self.topk * self.d)) by (nonlinear_arith);
            let room = 4096 * self.nkv * self.hd;
            assert(room > usize::MAX && self.nl > 0 ==> self.nl * room > usize::MAX)
                by (nonlinear_arith);
        }
        if queries > max || keys > max || queries + 2 * keys > max {
            return false;
        }
        if self.nl > 0 {
            if 4096 * keys > max {
                return false;
            }
            if product(self.nl, (4096 * keys) as usize) > max {
                return false;
            }
        } else {
            assert(0 * (4096 * self.nkv * self.hd) == 0);
        }
        self.nh as u128 + self.nkv as u128 <= max && product(self.ne, self.d) <= max && product(
            self.ne,
            self.ffexp,
        ) <= max && product(self.topk, self.d) <= max / 2 && product(self.topk, self.ffexp) <= max
    }
}

/// The product of two sizes.
pub(crate) fn product(a: usize, b: usize) -> (r: u128)
    ensures
        r == a * b,
        r <= 0xffff_ffff_ffff_ffff * 0xffff_ffff_ffff_ffff,
{
    assert(a * b <= 0xffff_ffff_ffff_ffff * 0xffff_ffff_ffff_ffff) by (nonlinear_arith)
        requires
            a <= 0xffff_ffff_ffff_ffff,
            b <= 0xffff_ffff_ffff_ffff,
    ;
    a as u128 * b as u128
}

// ------------------------------------------------------------------- reading back

/// A line of two words gives the second to the first.
pub proof fn two_words_are_a_setting(key: Seq<char>, value: Seq<char>)
    requires
        is_word(key),
        is_word(value),
    ensures
        given(key + seq![' '] + value, key) == Some(value),
        forall|other: Seq<char>|
            other != key ==> given(key + seq![' '] + value, other) is None,
{
    white_space_parts_words(key, ' ', value);
    unbroken_text_is_one_word(key);
    unbroken_text_is_one_word(value);
    let w = words(key + seq![' '] + value);
    assert(w =~= seq![key, value]);
}

/// Whatever stands before it, the last line that gives a key a value is what counts.
pub proof fn last_setting_counts(
    before: Seq<Seq<char>>,
    line: Seq<char>,
    after: Seq<Seq<char>>,
    key: Seq<char>,
)
    requires
        given(line, key) is Some,
        forall|i: int| 0 <= i < after.len() ==> given(#[trigger] after[i], key) is None,
    ensures
        value_in(before.push(line) + after, key) == given(line, key),
    decreases after.len(),
{
    let ls = before.push(line) + after;
    if after.len() == 0 {
        assert(ls =~= before.push(line));
        assert(ls.last() == line);
    } else {
        assert(ls.last() == after.last());
        assert(ls.drop_last() =~= before.push(line) + after.drop_last());
        last_setting_counts(before, line, after.drop_last(), key);
    }
}

/// A size that is written out is read back.
pub proof fn sizes_are_read_back(
    before: Seq<Seq<char>>,
    key: Seq<char>,
    n: usize,
    after: Seq<Seq<char>>,
)
    requires
        is_word(key),
        forall|i: int| 0 <= i < after.len() ==> given(#[trigger] after[i], key) is None,
    ensures
        number_in(
            before.push(key + seq![' '] + written(n as nat)) + after,
            key,
        ) == Some(n as int),
{
    lemma_written_is_word(n as nat);
    let line = key + seq![' '] + written(n as nat);
    two_words_are_a_setting(key, written(n as nat));
    last_setting_counts(before, line, after, key);
    written_numbers_are_read_back(n as nat);
}

/// A window that is written out is read back where one is wanted; where none is wanted, or
/// none is given, a layer sees all positions that a cache can hold.
pub proof fn window_is_read_back(
    before: Seq<Seq<char>>,
    n: usize,
    after: Seq<Seq<char>>,
    windowed: bool,
)
    requires
        forall|i: int|
            0 <= i < after.len() ==> given(#[trigger] after[i], "sliding_window"@) is None,
    ensures
        windowed ==> window_of(
            before.push("sliding_window"@ + seq![' '] + written(n as nat)) + after,
            windowed,
        ) == Some(n as int),
        window_of(before, false) == Some(0x4000_0000int),
        value_in(before, "sliding_window"@) is None ==> window_of(before, windowed) == Some(
            0x4000_0000int,
        ),
{
    let key = "sliding_window"@;
    reveal_strlit("sliding_window");
    assert(is_word(key));
    let line = key + seq![' '] + written(n as nat);
    sizes_are_read_back(before, key, n, after);
    lemma_written_is_word(n as nat);
    two_words_are_a_setting(key, written(n as nat));
    last_setting_counts(before, line, after, key);
}

} // verus!
