//! The decoding loop: how many tokens are generated, and when it stops.
use crate::attention::MAXSEQ;
use vstd::prelude::*;

verus! {

/// The token that ends a turn of the model with an attention window.
pub const RETURN: u32 = 200002;

/// The token that ends its text.
pub const END_OF_TEXT: u32 = 199999;

/// How many tokens are generated: as many as the request asks for, or else as many
/// as is usual.
pub fn tokens_wanted(asked: usize, usual: usize) -> (n: usize)
    ensures
        n == if asked > 0 {
            asked
        } else {
            usual
        },
{
    if asked > 0 {
        asked
    } else {
        usual
    }
}

/// The usual number of tokens: more for a request that is served than for a prompt
/// of the command line.
pub fn usual_tokens(serve: bool) -> (n: usize)
    ensures
        n == if serve {
            256int
        } else {
            96int
        },
{
    if serve {
        256
    } else {
        96
    }
}

/// Whether only the last token of a prompt needs logits: it does, and no other.
pub fn wants_logits(i: usize, n: usize) -> (r: bool)
    requires
        i < n,
    ensures
        r == (i == n - 1),
{
    i == n - 1
}

/// Token `next`, which would be fed at position `pos`, ends the generation of the
/// model with an attention window.
pub open spec fn ends_gptoss(next: u32, pos: int) -> bool {
    next == RETURN || next == END_OF_TEXT || pos + 1 >= MAXSEQ
}

/// Token `next` ends the generation of the model with normalized heads.
pub open spec fn ends_qwen(next: u32, im_end: u32, ntok: int) -> bool {
    next == im_end || next >= ntok
}

/// A generation: how many tokens may follow, the position of the next one, and the
/// token that was chosen for it.
#[derive(Clone, Copy, Debug)]
pub struct Decode {
    pub left: usize,
    pub pos: usize,
    pub next: u32,
    pub emitted: usize,
}

impl Decode {
    /// The generation of `ngen` tokens after a prompt of `prompt` tokens, which
    /// chose `next`.
    pub fn new(ngen: usize, prompt: usize, next: u32) -> (d: Decode)
        ensures
            d.left == ngen,
            d.pos == prompt,
            d.next == next,
            d.emitted == 0,
    {
        Decode { left: ngen, pos: prompt, next, emitted: 0 }
    }

    /// A token goes out and is fed at its position.
    pub open spec fn goes_on(before: Decode, after: Decode, r: Option<(u32, usize)>) -> bool {
        &&& r == Some((before.next, before.pos))
        &&& after.left == before.left - 1
        &&& after.pos == before.pos + 1
        &&& after.next == before.next
        &&& after.emitted == before.emitted + 1
    }

    /// The next token and the position at which it is fed, or none where the
    /// generation of the model with an attention window is over.
    pub fn step_gptoss(&mut self) -> (r: Option<(u32, usize)>)
        requires
            old(self).emitted + old(self).left <= usize::MAX,
        ensures
            if old(self).left == 0 || ends_gptoss(old(self).next, old(self).pos as int) {
                r is None && *final(self) == *old(self)
            } else {
                Decode::goes_on(*old(self), *final(self), r) && old(self).pos + 1 < MAXSEQ
            },
            final(self).emitted + final(self).left == old(self).emitted + old(self).left,
    {
        if self.left == 0 || self.next == RETURN || self.next == END_OF_TEXT || self.pos >= MAXSEQ
            - 1 {
            None
        } else {
            Some(self.advance())
        }
    }

    /// The next token and the position at which it is fed, or none where the
    /// generation of the model with normalized heads is over.
    pub fn step_qwen(&mut self, im_end: u32, ntok: usize) -> (r: Option<(u32, usize)>)
        requires
            old(self).emitted + old(self).left <= usize::MAX,
            old(self).pos + old(self).left <= usize::MAX,
        ensures
            if old(self).left == 0 || ends_qwen(old(self).next, im_end, ntok as int) {
                r is None && *final(self) == *old(self)
            } else {
                Decode::goes_on(*old(self), *final(self), r)
            },
            final(self).emitted + final(self).left == old(self).emitted + old(self).left,
            final(self).pos + final(self).left == old(self).pos + old(self).left,
    {
        if self.left == 0 || self.next == im_end || self.next as usize >= ntok {
            None
        } else {
            Some(self.advance())
        }
    }

    fn advance(&mut self) -> (r: (u32, usize))
        requires
            old(self).left > 0,
            old(self).pos < usize::MAX,
            old(self).emitted < usize::MAX,
        ensures
            Decode::goes_on(*old(self), *final(self), Some(r)),
    {
        let out: (u32, usize) = (self.next, self.pos);
        self.left = self.left - 1;
        self.pos = self.pos + 1;
        self.emitted = self.emitted + 1;
        out
    }

    /// Takes the token that was chosen after the last one.
    pub fn chosen(&mut self, next: u32)
        ensures
            final(self).next == next,
            final(self).left == old(self).left,
            final(self).pos == old(self).pos,
            final(self).emitted == old(self).emitted,
    {
        self.next = next;
    }
}

/// A generation of the model with an attention window is over at a token that ends a turn
/// or the text, and where the cache has no position left for another, and nowhere else.
pub proof fn generation_ends_where_it_must(next: u32, pos: int)
    ensures
        ends_gptoss(next, pos) <==> next == 200002 || next == 199999 || pos >= 4095,
{
}

/// What a run of steps puts out: each step that goes on puts out one token at the next
/// position, so that the tokens, those left and the positions stay in step. The states are
/// those between the steps, and `outs` what the steps gave.
pub proof fn steps_put_out_one_token_each(
    states: Seq<Decode>,
    fed: Seq<Decode>,
    outs: Seq<Option<(u32, usize)>>,
    n: int,
)
    requires
        0 <= n <= outs.len(),
        states.len() == outs.len() + 1,
        fed.len() == outs.len(),
        forall|i: int|
            0 <= i < outs.len() ==> Decode::goes_on(#[trigger] states[i], fed[i], outs[i]),
        forall|i: int|
            0 <= i < outs.len() ==> (#[trigger] states[i + 1]).left == fed[i].left && states[i
                + 1].pos == fed[i].pos && states[i + 1].emitted == fed[i].emitted,
    ensures
        states[n].left == states[0].left - n,
        states[n].pos == states[0].pos + n,
        states[n].emitted == states[0].emitted + n,
        forall|i: int|
            0 <= i < n ==> #[trigger] outs[i] == Some(
                (states[i].next, (states[0].pos + i) as usize),
            ),
    decreases n,
{
    if n > 0 {
        steps_put_out_one_token_each(states, fed, outs, n - 1);
        assert(Decode::goes_on(states[n - 1], fed[n - 1], outs[n - 1]));
        assert(states[(n - 1) + 1].left == fed[n - 1].left);
    }
}

} // verus!
