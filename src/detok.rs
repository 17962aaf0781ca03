//! Turning token ids back into text.
//!
//! Token texts follow the word-piece convention of the model: a text that
//! opens with a space starts a new word, any other text continues the current
//! one. Words are joined with single spaces.

use vstd::prelude::*;
use crate::text::{chars_of, extend_from, lemma_char_vec_deep_view, push_char, push_chars};
use crate::vocab::{close_word, VocabInfo};

verus! {

broadcast use lemma_char_vec_deep_view;

/// Control tokens are skipped: the markers `<blk>`, `<blank>`, `<pad>`,
/// `<unk>`, and every other text that opens with `<`.
pub open spec fn is_control_token(t: Seq<char>) -> bool {
    t.len() > 0 && t[0] == '<'
}

/// Whether `t` opens a new word.
pub open spec fn starts_word(t: Seq<char>) -> bool {
    t.len() > 0 && t[0] == ' '
}

/// Finished words and the word in progress after reading `ids`.
pub open spec fn detok_scan(ids: Seq<usize>, toks: Map<usize, Seq<char>>) -> (
    Seq<Seq<char>>,
    Seq<char>,
)
    decreases ids.len(),
{
    if ids.len() == 0 {
        (Seq::empty(), Seq::empty())
    } else {
        let (words, cur) = detok_scan(ids.drop_last(), toks);
        let id = ids.last();
        if !toks.contains_key(id) || is_control_token(toks[id]) {
            (words, cur)
        } else if starts_word(toks[id]) {
            (close_word(words, cur), toks[id].drop_first())
        } else {
            (words, cur + toks[id])
        }
    }
}

/// `words` separated by single spaces.
pub open spec fn join_words(words: Seq<Seq<char>>) -> Seq<char>
    decreases words.len(),
{
    if words.len() == 0 {
        Seq::empty()
    } else if words.len() == 1 {
        words[0]
    } else {
        join_words(words.drop_last()) + seq![' '] + words.last()
    }
}

/// The text of the token sequence `ids` under the table `toks`. Ids that the
/// table lacks are skipped.
pub open spec fn detokenize(ids: Seq<usize>, toks: Map<usize, Seq<char>>) -> Seq<char> {
    let (words, cur) = detok_scan(ids, toks);
    join_words(close_word(words, cur))
}

/// Reassembles the text of `token_ids`.
pub fn tokens_to_text(token_ids: &[usize], vocab: &VocabInfo) -> (text: String)
    ensures
        text@ == detokenize(token_ids@, vocab.tokens()),
{
    let ghost toks = vocab.tokens();
    let mut words: Vec<Vec<char>> = Vec::new();
    let mut cur: Vec<char> = Vec::new();
    let mut k: usize = 0;
    while k < token_ids.len()
        invariant
            k <= token_ids@.len(),
            toks == vocab.tokens(),
            detok_scan(token_ids@.subrange(0, k as int), toks) == (words.deep_view(), cur@),
        decreases token_ids@.len() - k,
    {
        let ghost prefix = token_ids@.subrange(0, k + 1);
        assert(prefix.drop_last() =~= token_ids@.subrange(0, k as int));
        let id = token_ids[k];
        match vocab.token_of(id) {
            None => {},
            Some(tok) => {
                let t = chars_of(tok);
                if t.len() > 0 && t[0] == '<' {
                } else if t.len() > 0 && t[0] == ' ' {
                    if cur.len() > 0 {
                        let ghost old_words = words.deep_view();
                        let ghost old_cur = cur@;
                        words.push(cur);
                        assert(words.deep_view() =~= old_words.push(old_cur));
                    }
                    cur = Vec::new();
                    extend_from(&mut cur, &t, 1);
                    assert(cur@ =~= t@.drop_first());
                } else {
                    extend_from(&mut cur, &t, 0);
                    assert(t@.subrange(0, t@.len() as int) =~= t@);
                }
            },
        }
        k += 1;
    }
    assert(token_ids@.subrange(0, k as int) =~= token_ids@);
    if cur.len() > 0 {
        let ghost old_words = words.deep_view();
        let ghost old_cur = cur@;
        words.push(cur);
        assert(words.deep_view() =~= old_words.push(old_cur));
    }
    let mut text = String::new();
    let mut i: usize = 0;
    while i < words.len()
        invariant
            i <= words@.len(),
            text@ == join_words(words.deep_view().subrange(0, i as int)),
        decreases words@.len() - i,
    {
        let ghost prefix = words.deep_view().subrange(0, i + 1);
        assert(prefix.drop_last() =~= words.deep_view().subrange(0, i as int));
        if i > 0 {
            push_char(&mut text, ' ');
        }
        push_chars(&mut text, &words[i]);
        i += 1;
        assert(text@ =~= join_words(prefix));
    }
    assert(words.deep_view().subrange(0, i as int) =~= words.deep_view());
    text
}

/// Concatenation of the texts of `ids`.
pub open spec fn concat_texts(ids: Seq<usize>, toks: Map<usize, Seq<char>>) -> Seq<char>
    decreases ids.len(),
{
    if ids.len() == 0 {
        Seq::empty()
    } else {
        concat_texts(ids.drop_last(), toks) + toks[ids.last()]
    }
}

/// Whether every id of `ids` is a known continuation token: its text is not
/// empty and opens neither a word nor a control marker.
pub open spec fn all_continuations(ids: Seq<usize>, toks: Map<usize, Seq<char>>) -> bool {
    forall|i: int| 0 <= i < ids.len() ==> is_continuation(toks, #[trigger] ids[i])
}

/// Whether `id` is a known continuation token.
pub open spec fn is_continuation(toks: Map<usize, Seq<char>>, id: usize) -> bool {
    &&& toks.contains_key(id)
    &&& toks[id].len() > 0
    &&& !starts_word(toks[id])
    &&& !is_control_token(toks[id])
}

proof fn lemma_continuation_scan(ids: Seq<usize>, toks: Map<usize, Seq<char>>)
    requires
        all_continuations(ids, toks),
    ensures
        detok_scan(ids, toks) == (Seq::<Seq<char>>::empty(), concat_texts(ids, toks)),
    decreases ids.len(),
{
    if ids.len() > 0 {
        let rest = ids.drop_last();
        assert forall|i: int| 0 <= i < rest.len() implies is_continuation(
            toks,
            #[trigger] rest[i],
        ) by {
            assert(rest[i] == ids[i]);
        }
        lemma_continuation_scan(rest, toks);
        assert(is_continuation(toks, ids[ids.len() - 1]));
    }
}

/// Continuation tokens concatenate: a sequence of them reads as their texts
/// joined with nothing in between.
pub proof fn lemma_continuations_concatenate(ids: Seq<usize>, toks: Map<usize, Seq<char>>)
    requires
        all_continuations(ids, toks),
    ensures
        detokenize(ids, toks) == concat_texts(ids, toks),
{
    lemma_continuation_scan(ids, toks);
}

/// Whether no id of `ids` contributes text: each is unknown or a control
/// token.
pub open spec fn all_skipped(ids: Seq<usize>, toks: Map<usize, Seq<char>>) -> bool {
    forall|i: int|
        0 <= i < ids.len() ==> !toks.contains_key(#[trigger] ids[i]) || is_control_token(
            toks[ids[i]],
        )
}

proof fn lemma_skipped_scan(ids: Seq<usize>, toks: Map<usize, Seq<char>>)
    requires
        all_skipped(ids, toks),
    ensures
        detok_scan(ids, toks) == (Seq::<Seq<char>>::empty(), Seq::<char>::empty()),
    decreases ids.len(),
{
    if ids.len() > 0 {
        let rest = ids.drop_last();
        assert forall|i: int| 0 <= i < rest.len() implies !toks.contains_key(#[trigger] rest[i])
            || is_control_token(toks[rest[i]]) by {
            assert(rest[i] == ids[i]);
        }
        lemma_skipped_scan(rest, toks);
        assert(!toks.contains_key(ids[ids.len() - 1]) || is_control_token(
            toks[ids[ids.len() - 1]],
        ));
    }
}

/// A sequence made only of blank, padding and other control tokens reads as
/// the empty text.
pub proof fn lemma_control_tokens_read_empty(ids: Seq<usize>, toks: Map<usize, Seq<char>>)
    requires
        all_skipped(ids, toks),
    ensures
        detokenize(ids, toks) == Seq::<char>::empty(),
{
    lemma_skipped_scan(ids, toks);
}

} // verus!
