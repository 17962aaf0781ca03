//! Greedy token-and-duration (TDT) decoding.
//!
//! The decoder walks the encoder's time axis. At each step the joint network
//! scores every vocabulary token and every duration bin for the current
//! frame; the best token is emitted unless it is the blank, and the best
//! duration says how many frames to advance. [`TdtDecoder`] holds the
//! decisions; the caller runs the network and hands each step's scores in.

use vstd::prelude::*;
use crate::argmax::{argmax_index, is_first_max, rank};
use crate::error::TensorError;
use crate::vocab::VocabInfo;

verus! {

/// Most tokens decoded from one chunk.
pub const MAX_DECODED_TOKENS: usize = 4096;

/// Most tokens emitted on one frame before the decoder moves on regardless.
pub const MAX_TOKENS_PER_FRAME: usize = 10;

/// The decoding state: current frame, tokens emitted on it, tokens so far.
pub struct DecodeState {
    pub frame: nat,
    pub emitted: nat,
    pub decoded: Seq<usize>,
}

/// The state before the first step.
pub open spec fn initial_state() -> DecodeState {
    DecodeState { frame: 0, emitted: 0, decoded: Seq::empty() }
}

/// The emission counter stays below its cap between steps.
pub open spec fn well_formed(s: DecodeState) -> bool {
    s.emitted < MAX_TOKENS_PER_FRAME
}

/// Whether decoding goes on: frames remain and the token cap is not reached.
pub open spec fn running(s: DecodeState, total_frames: nat) -> bool {
    s.frame < total_frames && s.decoded.len() < MAX_DECODED_TOKENS
}

/// The state after one step in which the joint network chose `token` and
/// duration bin `dur_bin`.
///
/// A blank advances one frame. Any other token is emitted; the decoder then
/// advances by the duration (at least one frame), or by exactly one frame
/// when this frame has reached its emission cap.
pub open spec fn next_state(s: DecodeState, blank_id: usize, token: usize, dur_bin: nat) -> DecodeState {
    let dur = if dur_bin == 0 { 1 } else { dur_bin };
    if token == blank_id {
        DecodeState { frame: s.frame + 1, emitted: 0, decoded: s.decoded }
    } else if s.emitted + 1 >= MAX_TOKENS_PER_FRAME {
        DecodeState { frame: s.frame + 1, emitted: 0, decoded: s.decoded.push(token) }
    } else {
        DecodeState { frame: s.frame + dur, emitted: s.emitted + 1, decoded: s.decoded.push(token) }
    }
}

/// The state after the steps `choices` (token, duration bin) from `s`.
pub open spec fn run_steps(s: DecodeState, blank_id: usize, choices: Seq<(usize, nat)>) -> DecodeState
    decreases choices.len(),
{
    if choices.len() == 0 {
        s
    } else {
        let last = choices.last();
        next_state(run_steps(s, blank_id, choices.drop_last()), blank_id, last.0, last.1)
    }
}

/// Work left before decoding stops: frames not yet passed plus tokens that
/// may still be emitted. Every step from a running state lowers it.
pub open spec fn remaining_work(s: DecodeState, total_frames: nat) -> nat {
    (if s.frame < total_frames { (total_frames - s.frame) as nat } else { 0nat }) + (
    if s.decoded.len() < MAX_DECODED_TOKENS {
        (MAX_DECODED_TOKENS - s.decoded.len()) as nat
    } else {
        0nat
    })
}

/// Position of the first best-ranked logit of `s` (0 when `s` is empty).
pub open spec fn best_index(s: Seq<u32>) -> nat {
    if s.len() == 0 {
        0
    } else {
        (choose|i: int| is_first_max(s, i)) as nat
    }
}

proof fn lemma_first_max_unique(s: Seq<u32>, i: int, j: int)
    requires
        is_first_max(s, i),
        is_first_max(s, j),
    ensures
        i == j,
{
    if i < j {
        assert(rank(s[i]) < rank(s[j]));
        assert(rank(s[i]) <= rank(s[j]) && rank(s[j]) <= rank(s[i]));
    } else if j < i {
        assert(rank(s[j]) < rank(s[i]));
    }
}

proof fn lemma_best_index(s: Seq<u32>, i: int)
    requires
        is_first_max(s, i),
    ensures
        best_index(s) == i,
{
    let c = choose|k: int| is_first_max(s, k);
    lemma_first_max_unique(s, i, c);
}

/// The token logits of frame `frame` in a joint output of `channels`
/// values per frame: the first `vocab_size` values of the frame.
pub open spec fn token_logits(logits: Seq<u32>, channels: nat, vocab_size: nat, frame: nat) -> Seq<u32> {
    logits.subrange((frame * channels) as int, (frame * channels + vocab_size) as int)
}

/// The duration logits of frame `frame`: the values after the token logits.
pub open spec fn duration_logits(logits: Seq<u32>, channels: nat, vocab_size: nat, frame: nat) -> Seq<u32> {
    logits.subrange((frame * channels + vocab_size) as int, (frame * channels + channels) as int)
}

/// Whether a joint output of `len` values with `channels` values per frame
/// holds frame `frame` and a token part of `vocab_size` values.
pub open spec fn frame_fits(len: nat, channels: nat, vocab_size: nat, frame: nat) -> bool {
    frame * channels + channels <= len && vocab_size <= channels
}

/// Decision state of greedy TDT decoding over one chunk.
pub struct TdtDecoder {
    total_frames: usize,
    vocab_size: usize,
    blank_id: usize,
    frame_idx: usize,
    emitted_this_frame: usize,
    decoded: Vec<usize>,
}

impl View for TdtDecoder {
    type V = DecodeState;

    closed spec fn view(&self) -> DecodeState {
        DecodeState {
            frame: self.frame_idx as nat,
            emitted: self.emitted_this_frame as nat,
            decoded: self.decoded@,
        }
    }
}

impl TdtDecoder {
    /// Number of encoder frames of the chunk.
    pub closed spec fn spec_total_frames(&self) -> nat {
        self.total_frames as nat
    }

    /// Number of token logits per frame.
    pub closed spec fn spec_vocab_size(&self) -> nat {
        self.vocab_size as nat
    }

    /// The blank token id.
    pub closed spec fn spec_blank_id(&self) -> usize {
        self.blank_id
    }

    /// A decoder at the start of a chunk of `total_frames` encoder frames.
    pub fn new(total_frames: usize, vocab: &VocabInfo) -> (d: TdtDecoder)
        ensures
            d@ == initial_state(),
            well_formed(d@),
            d.spec_total_frames() == total_frames,
            d.spec_vocab_size() == vocab.vocab_size,
            d.spec_blank_id() == vocab.blank_id,
    {
        let d = TdtDecoder {
            total_frames,
            vocab_size: vocab.vocab_size,
            blank_id: vocab.blank_id,
            frame_idx: 0,
            emitted_this_frame: 0,
            decoded: Vec::new(),
        };
        assert(d@.decoded =~= Seq::<usize>::empty());
        d
    }

    /// Whether another step is due.
    pub fn is_running(&self) -> (r: bool)
        ensures
            r == running(self@, self.spec_total_frames()),
    {
        self.frame_idx < self.total_frames && self.decoded.len() < MAX_DECODED_TOKENS
    }

    /// The token fed back to the prediction network: the last one emitted,
    /// or the blank before any.
    pub fn previous_token(&self) -> (t: usize)
        ensures
            self@.decoded.len() == 0 ==> t == self.spec_blank_id(),
            self@.decoded.len() > 0 ==> t == self@.decoded.last(),
    {
        if self.decoded.len() == 0 {
            self.blank_id
        } else {
            self.decoded[self.decoded.len() - 1]
        }
    }

    /// The current frame.
    pub fn frame_idx(&self) -> (f: usize)
        ensures
            f == self@.frame,
    {
        self.frame_idx
    }

    /// The tokens decoded so far.
    pub fn decoded(&self) -> (v: &Vec<usize>)
        ensures
            v@ == self@.decoded,
    {
        &self.decoded
    }

    /// Ends decoding and hands out the decoded tokens.
    pub fn into_tokens(self) -> (v: Vec<usize>)
        ensures
            v@ == self@.decoded,
    {
        self.decoded
    }

    /// Applies one step in which the joint network chose `token` and
    /// duration bin `dur_bin`.
    pub fn advance(&mut self, token: usize, dur_bin: usize)
        requires
            running(old(self)@, old(self).spec_total_frames()),
            well_formed(old(self)@),
            old(self)@.frame + dur_bin <= usize::MAX,
        ensures
            well_formed(final(self)@),
            final(self)@ == next_state(old(self)@, old(self).spec_blank_id(), token, dur_bin as nat),
            remaining_work(final(self)@, final(self).spec_total_frames()) < remaining_work(
                old(self)@,
                old(self).spec_total_frames(),
            ),
            final(self).spec_total_frames() == old(self).spec_total_frames(),
            final(self).spec_vocab_size() == old(self).spec_vocab_size(),
            final(self).spec_blank_id() == old(self).spec_blank_id(),
    {
        let dur: usize = if dur_bin == 0 { 1 } else { dur_bin };
        if token == self.blank_id {
            self.frame_idx = self.frame_idx + 1;
            self.emitted_this_frame = 0;
        } else {
            self.decoded.push(token);
            if self.emitted_this_frame + 1 >= MAX_TOKENS_PER_FRAME {
                self.frame_idx = self.frame_idx + 1;
                self.emitted_this_frame = 0;
            } else {
                self.emitted_this_frame = self.emitted_this_frame + 1;
                self.frame_idx = self.frame_idx + dur;
            }
        }
    }

    /// One decoding step from the joint network's output `logits`, which
    /// holds `channels` values per encoder frame: the token scores, then the
    /// duration-bin scores. Fails, changing nothing, when the output does not
    /// hold the current frame or has fewer values per frame than tokens.
    pub fn step(&mut self, logits: &[u32], channels: usize) -> (r: Result<(), TensorError>)
        requires
            running(old(self)@, old(self).spec_total_frames()),
            well_formed(old(self)@),
        ensures
            well_formed(final(self)@),
            r is Err <==> !frame_fits(
                logits@.len(),
                channels as nat,
                old(self).spec_vocab_size(),
                old(self)@.frame,
            ),
            r is Err ==> r == Err::<(), _>(TensorError::BadShape) && final(self)@ == old(self)@,
            r is Ok ==> final(self)@ == next_state(
                old(self)@,
                old(self).spec_blank_id(),
                best_index(
                    token_logits(
                        logits@,
                        channels as nat,
                        old(self).spec_vocab_size(),
                        old(self)@.frame,
                    ),
                ) as usize,
                best_index(
                    duration_logits(
                        logits@,
                        channels as nat,
                        old(self).spec_vocab_size(),
                        old(self)@.frame,
                    ),
                ),
            ),
            r is Ok ==> remaining_work(final(self)@, final(self).spec_total_frames())
                < remaining_work(old(self)@, old(self).spec_total_frames()),
            final(self).spec_total_frames() == old(self).spec_total_frames(),
            final(self).spec_vocab_size() == old(self).spec_vocab_size(),
            final(self).spec_blank_id() == old(self).spec_blank_id(),
    {
        let ghost f = self.frame_idx as nat;
        let ghost c = channels as nat;
        let n = logits.len();
        if self.vocab_size > channels {
            return Err(TensorError::BadShape);
        }
        let start = match self.frame_idx.checked_mul(channels) {
            Some(s) => s,
            None => {
                proof {
                    assert(f * c + c >= f * c);
                    assert(f * c > usize::MAX);
                    assert(n <= usize::MAX);
                }
                return Err(TensorError::BadShape);
            },
        };
        if start > n || n - start < channels {
            return Err(TensorError::BadShape);
        }
        let mid = start + self.vocab_size;
        let end = start + channels;
        let ghost toks = token_logits(logits@, c, self.vocab_size as nat, f);
        let ghost durs = duration_logits(logits@, c, self.vocab_size as nat, f);
        let tok_part = slice_range(logits, start, mid);
        let dur_part = slice_range(logits, mid, end);
        assert(tok_part@ =~= toks);
        assert(dur_part@ =~= durs);
        let (token, _) = argmax_index(tok_part);
        let (dur_bin, _) = argmax_index(dur_part);
        proof {
            if toks.len() > 0 {
                lemma_best_index(toks, token as int);
            }
            if durs.len() > 0 {
                lemma_best_index(durs, dur_bin as int);
            }
            assert(dur_bin <= channels);
            assert(f <= f * c || c == 0) by (nonlinear_arith);
        }
        self.advance(token, dur_bin);
        Ok(())
    }
}

/// Values per frame in the joint network's output of shape `shape`
/// (batch, frames, target steps, channels): the size of its fourth axis.
pub fn joint_channels(shape: &[i64]) -> (r: Result<usize, TensorError>)
    ensures
        r is Ok <==> shape@.len() == 4 && 0 <= shape@[3] <= usize::MAX,
        r matches Ok(c) ==> c == shape@[3],
        r is Err ==> r == Err::<usize, _>(TensorError::BadShape),
{
    if shape.len() != 4 || shape[3] < 0 || shape[3] as u64 > usize::MAX as u64 {
        return Err(TensorError::BadShape);
    }
    Ok(shape[3] as usize)
}

/// The values of `s` from `from` up to `to`.
fn slice_range(s: &[u32], from: usize, to: usize) -> (r: &[u32])
    requires
        from <= to <= s@.len(),
    ensures
        r@ == s@.subrange(from as int, to as int),
{
    vstd::slice::slice_subrange(s, from, to)
}

/// When the joint network predicts the blank on every step, decoding goes on
/// for exactly one step per encoder frame and emits nothing.
pub proof fn lemma_all_blank_decodes_nothing(
    total_frames: nat,
    blank_id: usize,
    choices: Seq<(usize, nat)>,
)
    requires
        choices.len() == total_frames,
        forall|i: int| 0 <= i < choices.len() ==> (#[trigger] choices[i]).0 == blank_id,
    ensures
        forall|k: int|
            0 <= k < total_frames ==> running(
                #[trigger] run_steps(initial_state(), blank_id, choices.take(k)),
                total_frames,
            ),
        !running(run_steps(initial_state(), blank_id, choices), total_frames),
        run_steps(initial_state(), blank_id, choices).decoded.len() == 0,
{
    assert forall|k: int| 0 <= k <= total_frames implies {
        let s = #[trigger] run_steps(initial_state(), blank_id, choices.take(k));
        s.frame == k && s.decoded.len() == 0
    } by {
        lemma_blank_prefix(blank_id, choices, k);
    }
    assert(choices.take(total_frames as int) =~= choices);
    assert forall|k: int| 0 <= k < total_frames implies running(
        #[trigger] run_steps(initial_state(), blank_id, choices.take(k)),
        total_frames,
    ) by {
        let s = run_steps(initial_state(), blank_id, choices.take(k));
        assert(s.frame == k && s.decoded.len() == 0);
    }
}

proof fn lemma_blank_prefix(blank_id: usize, choices: Seq<(usize, nat)>, k: int)
    requires
        0 <= k <= choices.len(),
        forall|i: int| 0 <= i < choices.len() ==> (#[trigger] choices[i]).0 == blank_id,
    ensures
        run_steps(initial_state(), blank_id, choices.take(k)).frame == k,
        run_steps(initial_state(), blank_id, choices.take(k)).decoded.len() == 0,
    decreases k,
{
    if k > 0 {
        lemma_blank_prefix(blank_id, choices, k - 1);
        assert(choices.take(k).drop_last() =~= choices.take(k - 1));
        assert(choices.take(k).last() == choices[k - 1]);
    }
}

} // verus!
