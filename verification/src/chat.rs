//! The prompts of a chat turn: control tokens with encoded texts between them.
use crate::tokenizer::{decoded, encoded, encoding_is_undone, special_id, Vocab};
use vstd::prelude::*;
use vstd::string::StringSliceAdditionalSpecFns;

verus! {

/// The control token that starts a message.
pub const START: u32 = 200006;

/// The control token that ends a message.
pub const END: u32 = 200007;

/// The control token before a message's text.
pub const MESSAGE: u32 = 200008;

/// A part of a prompt.
pub enum Part {
    /// A control token.
    Control(u32),
    /// A text.
    Text(Seq<u8>),
}

/// The tokens of the first `n` parts, or none where a text cannot be encoded.
pub open spec fn assembled(
    toks: Seq<Seq<u8>>,
    parts: Seq<Part>,
    max: int,
    n: int,
) -> Option<Seq<u32>>
    decreases n,
{
    if n <= 0 {
        Some(seq![])
    } else {
        match assembled(toks, parts, max, n - 1) {
            None => None,
            Some(ids) => match parts[n - 1] {
                Part::Control(id) => Some(ids.push(id)),
                Part::Text(t) => match encoded(toks, t, 0, max) {
                    Ok(more) => Some(ids + more),
                    Err(_) => None,
                },
            },
        }
    }
}

/// The tokens of a prompt.
pub open spec fn prompt_ids(toks: Seq<Seq<u8>>, parts: Seq<Part>, max: int) -> Option<Seq<u32>> {
    assembled(toks, parts, max, parts.len() as int)
}

/// Adds part `n`, a control token.
fn add_control(
    ids: &mut Option<Vec<u32>>,
    id: u32,
    Ghost(toks): Ghost<Seq<Seq<u8>>>,
    Ghost(parts): Ghost<Seq<Part>>,
    Ghost(max): Ghost<int>,
    Ghost(n): Ghost<int>,
)
    requires
        0 <= n < parts.len(),
        parts[n] == Part::Control(id),
        is_ids(*old(ids), assembled(toks, parts, max, n)),
    ensures
        is_ids(*final(ids), assembled(toks, parts, max, n + 1)),
{
    if let Some(list) = ids.take() {
        let mut list = list;
        list.push(id);
        *ids = Some(list);
    }
}

/// The list is as described.
spec fn is_ids(ids: Option<Vec<u32>>, d: Option<Seq<u32>>) -> bool {
    match (ids, d) {
        (Some(v), Some(s)) => v@ == s,
        (None, None) => true,
        _ => false,
    }
}

/// Adds part `n`, a text.
fn add_text(
    vocab: &Vocab,
    ids: &mut Option<Vec<u32>>,
    text: &[u8],
    max: usize,
    Ghost(parts): Ghost<Seq<Part>>,
    Ghost(n): Ghost<int>,
)
    requires
        0 <= n < parts.len(),
        parts[n] == Part::Text(text@),
        is_ids(*old(ids), assembled(vocab@, parts, max as int, n)),
    ensures
        is_ids(*final(ids), assembled(vocab@, parts, max as int, n + 1)),
{
    if let Some(list) = ids.take() {
        match vocab.encode(text, max) {
            Ok(mut more) => {
                let mut list = list;
                list.append(&mut more);
                *ids = Some(list);
            },
            Err(_) => {
                *ids = None;
            },
        }
    }
}

/// What the model with an attention window is told before the first turn.
pub open spec fn system_text() -> Seq<u8> {
    "You are ChatGPT, a large language model trained by OpenAI.\nKnowledge cutoff: 2024-06\nCurrent date: 2026-07-03\n\nReasoning: low\n\n# Valid channels: analysis, commentary, final. Channel must be included for every message.".spec_bytes()
}

/// The parts of a prompt for the model with an attention window: a system message,
/// the user's message, and the start of the assistant's.
pub open spec fn harmony_parts(prompt: Seq<u8>) -> Seq<Part> {
    seq![
        Part::Control(START),
        Part::Text("system".spec_bytes()),
        Part::Control(MESSAGE),
        Part::Text(system_text()),
        Part::Control(END),
        Part::Control(START),
        Part::Text("user".spec_bytes()),
        Part::Control(MESSAGE),
        Part::Text(prompt),
        Part::Control(END),
        Part::Control(START),
        Part::Text("assistant".spec_bytes()),
    ]
}

/// The longest token that a text for the model with an attention window is encoded
/// into.
pub const HARMONY_MAX: usize = 32;

/// The tokens of a prompt for the model with an attention window, or none where a
/// text cannot be encoded.
pub fn harmony_prompt(vocab: &Vocab, prompt: &[u8]) -> (r: Option<Vec<u32>>)
    ensures
        match r {
            Some(ids) => prompt_ids(vocab@, harmony_parts(prompt@), HARMONY_MAX as int) == Some(
                ids@,
            ),
            None => prompt_ids(vocab@, harmony_parts(prompt@), HARMONY_MAX as int) is None,
        },
{
    let ghost toks = vocab@;
    let ghost parts = harmony_parts(prompt@);
    let ghost m = HARMONY_MAX as int;
    let mut ids: Option<Vec<u32>> = Some(Vec::new());
    assert(is_ids(ids, assembled(toks, parts, m, 0)));
    add_control(&mut ids, START, Ghost(toks), Ghost(parts), Ghost(m), Ghost(0));
    add_text(vocab, &mut ids, "system".as_bytes(), HARMONY_MAX, Ghost(parts), Ghost(1));
    add_control(&mut ids, MESSAGE, Ghost(toks), Ghost(parts), Ghost(m), Ghost(2));
    let system = "You are ChatGPT, a large language model trained by OpenAI.\nKnowledge cutoff: 2024-06\nCurrent date: 2026-07-03\n\nReasoning: low\n\n# Valid channels: analysis, commentary, final. Channel must be included for every message.";
    add_text(vocab, &mut ids, system.as_bytes(), HARMONY_MAX, Ghost(parts), Ghost(3));
    add_control(&mut ids, END, Ghost(toks), Ghost(parts), Ghost(m), Ghost(4));
    add_control(&mut ids, START, Ghost(toks), Ghost(parts), Ghost(m), Ghost(5));
    add_text(vocab, &mut ids, "user".as_bytes(), HARMONY_MAX, Ghost(parts), Ghost(6));
    add_control(&mut ids, MESSAGE, Ghost(toks), Ghost(parts), Ghost(m), Ghost(7));
    add_text(vocab, &mut ids, prompt, HARMONY_MAX, Ghost(parts), Ghost(8));
    add_control(&mut ids, END, Ghost(toks), Ghost(parts), Ghost(m), Ghost(9));
    add_control(&mut ids, START, Ghost(toks), Ghost(parts), Ghost(m), Ghost(10));
    add_text(vocab, &mut ids, "assistant".as_bytes(), HARMONY_MAX, Ghost(parts), Ghost(11));
    ids
}

/// The longest token that a text for the model with normalized heads is encoded
/// into.
pub const CHATML_MAX: usize = 48;

/// The parts of a prompt for the model with normalized heads: a system message,
/// the user's message, and the start of the assistant's, with a line feed after
/// each message.
pub open spec fn chatml_parts(start: u32, end: u32, prompt: Seq<u8>) -> Seq<Part> {
    seq![
        Part::Control(start),
        Part::Text("system\nYou are a helpful assistant.".spec_bytes()),
        Part::Control(end),
        Part::Text("\n".spec_bytes()),
        Part::Control(start),
        Part::Text("user\n".spec_bytes() + prompt),
        Part::Control(end),
        Part::Text("\n".spec_bytes()),
        Part::Control(start),
        Part::Text("assistant\n".spec_bytes()),
    ]
}

/// The tokens of a prompt for the model with normalized heads, and the token that
/// ends a message; or none where a control token is missing or a text cannot be
/// encoded.
pub fn chatml_prompt(vocab: &Vocab, prompt: &[u8]) -> (r: Option<(Vec<u32>, u32)>)
    ensures
        match (
            special_id(vocab@, "<|im_start|>".spec_bytes()),
            special_id(vocab@, "<|im_end|>".spec_bytes()),
        ) {
            (Some(start), Some(end)) => {
                let parts = chatml_parts(start as u32, end as u32, prompt@);
                match r {
                    Some((ids, stop)) => prompt_ids(vocab@, parts, CHATML_MAX as int) == Some(ids@)
                        && stop == end,
                    None => prompt_ids(vocab@, parts, CHATML_MAX as int) is None,
                }
            },
            _ => r is None,
        },
{
    let start: u32 = match vocab.special("<|im_start|>".as_bytes()) {
        Some(id) => id,
        None => {
            return None;
        },
    };
    let end: u32 = match vocab.special("<|im_end|>".as_bytes()) {
        Some(id) => id,
        None => {
            return None;
        },
    };
    let ghost toks = vocab@;
    let ghost parts = chatml_parts(start, end, prompt@);
    let ghost m = CHATML_MAX as int;
    let mut user: Vec<u8> = Vec::new();
    let opening = "user\n".as_bytes();
    for i in 0..opening.len()
        invariant
            user@ == opening@.take(i as int),
    {
        user.push(opening[i]);
    }
    assert(opening@.take(opening@.len() as int) =~= opening@);
    for i in 0..prompt.len()
        invariant
            user@ == opening@ + prompt@.take(i as int),
    {
        user.push(prompt[i]);
    }
    assert(prompt@.take(prompt@.len() as int) =~= prompt@);
    let mut ids: Option<Vec<u32>> = Some(Vec::new());
    assert(is_ids(ids, assembled(toks, parts, m, 0)));
    add_control(&mut ids, start, Ghost(toks), Ghost(parts), Ghost(m), Ghost(0));
    let system = "system\nYou are a helpful assistant.";
    add_text(vocab, &mut ids, system.as_bytes(), CHATML_MAX, Ghost(parts), Ghost(1));
    add_control(&mut ids, end, Ghost(toks), Ghost(parts), Ghost(m), Ghost(2));
    add_text(vocab, &mut ids, "\n".as_bytes(), CHATML_MAX, Ghost(parts), Ghost(3));
    add_control(&mut ids, start, Ghost(toks), Ghost(parts), Ghost(m), Ghost(4));
    add_text(vocab, &mut ids, &user, CHATML_MAX, Ghost(parts), Ghost(5));
    add_control(&mut ids, end, Ghost(toks), Ghost(parts), Ghost(m), Ghost(6));
    add_text(vocab, &mut ids, "\n".as_bytes(), CHATML_MAX, Ghost(parts), Ghost(7));
    add_control(&mut ids, start, Ghost(toks), Ghost(parts), Ghost(m), Ghost(8));
    add_text(vocab, &mut ids, "assistant\n".as_bytes(), CHATML_MAX, Ghost(parts), Ghost(9));
    match ids {
        Some(list) => Some((list, end)),
        None => None,
    }
}

/// The text of a part, where a control token has the text that the vocabulary
/// gives it.
pub open spec fn part_text(toks: Seq<Seq<u8>>, p: Part) -> Seq<u8> {
    match p {
        Part::Control(id) => toks[id as int],
        Part::Text(t) => t,
    }
}

/// The texts of the first `n` parts, one after another.
pub open spec fn spelled(toks: Seq<Seq<u8>>, parts: Seq<Part>, n: int) -> Seq<u8>
    decreases n,
{
    if n <= 0 {
        seq![]
    } else {
        spelled(toks, parts, n - 1) + part_text(toks, parts[n - 1])
    }
}

proof fn lemma_decoded_joined(toks: Seq<Seq<u8>>, a: Seq<u32>, b: Seq<u32>)
    ensures
        decoded(toks, a + b) == decoded(toks, a) + decoded(toks, b),
    decreases a.len(),
{
    if a.len() == 0 {
        assert(a + b =~= b);
        assert(decoded(toks, a) + decoded(toks, b) =~= decoded(toks, b));
    } else {
        assert((a + b).drop_first() =~= a.drop_first() + b);
        lemma_decoded_joined(toks, a.drop_first(), b);
        let first = toks[a[0] as int];
        assert(first + (decoded(toks, a.drop_first()) + decoded(toks, b)) =~= (first + decoded(
            toks,
            a.drop_first(),
        )) + decoded(toks, b));
    }
}

/// The tokens of a prompt spell its parts.
pub proof fn prompt_spells_its_parts(toks: Seq<Seq<u8>>, parts: Seq<Part>, max: int, n: int)
    requires
        toks.len() <= u32::MAX,
        0 <= n <= parts.len(),
    ensures
        assembled(toks, parts, max, n) matches Some(ids) ==> decoded(toks, ids) == spelled(
            toks,
            parts,
            n,
        ),
    decreases n,
{
    if n > 0 && assembled(toks, parts, max, n) is Some {
        prompt_spells_its_parts(toks, parts, max, n - 1);
        let before = assembled(toks, parts, max, n - 1)->Some_0;
        match parts[n - 1] {
            Part::Control(id) => {
                let one = seq![id];
                assert(before.push(id) =~= before + one);
                lemma_decoded_joined(toks, before, one);
                assert(one.drop_first() =~= seq![]);
                assert(decoded(toks, one.drop_first()) =~= seq![]);
                assert(decoded(toks, one) =~= toks[id as int]);
            },
            Part::Text(t) => {
                encoding_is_undone(toks, t, 0, max);
                let more = encoded(toks, t, 0, max)->Ok_0;
                lemma_decoded_joined(toks, before, more);
                assert(t.skip(0) =~= t);
            },
        }
    }
}

/// A prompt is framed by the same texts whatever it says, and stands between them as it
/// was given: those of the system message, the sides and the assistant's start.
pub proof fn harmony_frames_the_prompt(toks: Seq<Seq<u8>>, prompt: Seq<u8>)
    ensures
        spelled(toks, harmony_parts(prompt), harmony_parts(prompt).len() as int) == toks[200006]
            + "system".spec_bytes() + toks[200008] + system_text() + toks[200007] + toks[200006]
            + "user".spec_bytes() + toks[200008] + prompt + toks[200007] + toks[200006]
            + "assistant".spec_bytes(),
{
    let parts = harmony_parts(prompt);
    reveal_with_fuel(spelled, 13);
    assert(parts.len() == 12);
    assert(seq![] + toks[200006] =~= toks[200006]);
}

/// The other model's prompts too are framed by the same texts, whatever they say.
pub proof fn chatml_frames_the_prompt(toks: Seq<Seq<u8>>, start: u32, end: u32, prompt: Seq<u8>)
    ensures
        spelled(
            toks,
            chatml_parts(start, end, prompt),
            chatml_parts(start, end, prompt).len() as int,
        ) == toks[start as int] + "system\nYou are a helpful assistant.".spec_bytes()
            + toks[end as int] + "\n".spec_bytes() + toks[start as int] + ("user\n".spec_bytes()
            + prompt) + toks[end as int] + "\n".spec_bytes() + toks[start as int]
            + "assistant\n".spec_bytes(),
{
    let parts = chatml_parts(start, end, prompt);
    reveal_with_fuel(spelled, 11);
    assert(parts.len() == 10);
    assert(seq![] + toks[start as int] =~= toks[start as int]);
}

} // verus!
