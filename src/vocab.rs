//! The vocabulary table: token ids, their texts, and the blank token.
//!
//! A vocabulary file holds one `token id` pair per line, separated by
//! whitespace. Lines with fewer than two words are ignored and words after
//! the second are not read. The token `<blk>` or `<blank>` marks the blank id:
//! several lines may name it, but they must all carry the same id. When an id
//! appears on several lines, the last one counts.

use vstd::prelude::*;
use std::collections::HashMap;
use crate::text::{
    chars_of, digits_value, is_digit, lemma_digits_value_grows, split_chars, split_on, string_of,
};

verus! {

broadcast use {vstd::std_specs::hash::group_hash_axioms, crate::text::lemma_char_vec_deep_view};

/// Why a vocabulary could not be loaded.
#[derive(Clone, Copy, Debug, PartialEq, Eq, Structural)]
pub enum VocabError {
    /// The id on this line (counted from 1) is not a valid unsigned integer.
    BadTokenId { line: usize },
    /// No line names the blank token.
    NoBlankToken,
    /// This line (counted from 1) names the blank token with an id other
    /// than the one an earlier line gave it.
    ConflictingBlankId { line: usize },
}

/// Token ids and texts of a transducer's output vocabulary.
#[derive(Clone, Debug)]
pub struct VocabInfo {
    pub id_to_token: HashMap<usize, String>,
    pub vocab_size: usize,
    pub blank_id: usize,
}

/// The texts of a token map, as character sequences.
pub open spec fn token_view(m: Map<usize, String>) -> Map<usize, Seq<char>> {
    m.map_values(|s: String| s@)
}

impl VocabInfo {
    /// The table as a map from id to token text.
    pub open spec fn tokens(&self) -> Map<usize, Seq<char>> {
        token_view(self.id_to_token@)
    }

    /// The size is the number of ids, and the blank id is one of them.
    pub open spec fn wf(&self) -> bool {
        &&& self.id_to_token@.dom().finite()
        &&& self.vocab_size == self.id_to_token@.len()
        &&& self.vocab_size == self.tokens().len()
        &&& self.id_to_token@.contains_key(self.blank_id)
    }

    /// Loads a vocabulary from the text of a vocabulary file.
    pub fn from_text(content: &str) -> (r: Result<VocabInfo, VocabError>)
        ensures
            match r {
                Ok(v) => v.wf() && vocab_result(content@) == Ok::<_, VocabError>(
                    (v.tokens(), v.blank_id),
                ),
                Err(e) => vocab_result(content@) == Err::<(Map<usize, Seq<char>>, usize), _>(e),
            },
    {
        let chars = chars_of(content);
        let lines = split_chars(&chars, '\n');
        let blk = chars_of("<blk>");
        let blank = chars_of("<blank>");
        let mut id_to_token: HashMap<usize, String> = HashMap::new();
        let mut blank_id: Option<usize> = None;
        let mut i: usize = 0;
        assert(token_view(id_to_token@) =~= Map::<usize, Seq<char>>::empty());
        assert(lines.deep_view().subrange(0, 0) =~= Seq::<Seq<char>>::empty());
        while i < lines.len()
            invariant
                i <= lines@.len(),
                lines.deep_view() == lines_of(content@),
                blk@ == "<blk>"@,
                blank@ == "<blank>"@,
                vocab_scan(lines.deep_view().subrange(0, i as int)) == Ok::<_, VocabError>(
                    (token_view(id_to_token@), blank_id),
                ),
                id_to_token@.dom().finite(),
                blank_id matches Some(b) ==> id_to_token@.contains_key(b),
            decreases lines@.len() - i,
        {
            let ghost prefix = lines.deep_view().subrange(0, i + 1);
            assert(prefix.drop_last() =~= lines.deep_view().subrange(0, i as int));
            assert(prefix.last() == lines@[i as int]@);
            let words = split_words(&lines[i]);
            if words.len() >= 2 {
                match parse_id(&words[1]) {
                    None => {
                        proof {
                            lemma_scan_error_stays(lines.deep_view(), (i + 1) as nat);
                            assert(lines.deep_view().subrange(0, lines@.len() as int)
                                =~= lines.deep_view());
                        }
                        return Err(VocabError::BadTokenId { line: i + 1 });
                    },
                    Some(id) => {
                        let token = string_of(&words[0]);
                        if same_chars(&words[0], &blk) || same_chars(&words[0], &blank) {
                            match blank_id {
                                Some(b) if b != id => {
                                    proof {
                                        lemma_scan_error_stays(lines.deep_view(), (i + 1) as nat);
                                        assert(lines.deep_view().subrange(0, lines@.len() as int)
                                            =~= lines.deep_view());
                                    }
                                    return Err(VocabError::ConflictingBlankId { line: i + 1 });
                                },
                                _ => {},
                            }
                            blank_id = Some(id);
                        }
                        let ghost before = id_to_token@;
                        id_to_token.insert(id, token);
                        assert(token_view(id_to_token@) =~= token_view(before).insert(
                            id,
                            words@[0]@,
                        ));
                    },
                }
            }
            i += 1;
        }
        assert(lines.deep_view().subrange(0, i as int) =~= lines.deep_view());
        match blank_id {
            None => Err(VocabError::NoBlankToken),
            Some(b) => {
                let vocab_size = id_to_token.len();
                assert(token_view(id_to_token@).dom() =~= id_to_token@.dom());
                Ok(VocabInfo { id_to_token, vocab_size, blank_id: b })
            },
        }
    }

    /// The text of token `id`, if the table has it.
    pub fn token_of(&self, id: usize) -> (r: Option<&str>)
        ensures
            match r {
                Some(t) => self.tokens().contains_key(id) && t@ == self.tokens()[id],
                None => !self.tokens().contains_key(id),
            },
    {
        match self.id_to_token.get(&id) {
            Some(s) => Some(s.as_str()),
            None => None,
        }
    }
}

/// Whether `c` has Unicode's White_Space property, as `char::is_whitespace`
/// tests it.
pub open spec fn is_white_space(c: char) -> bool {
    let u = c as u32;
    (0x09 <= u <= 0x0d) || u == 0x20 || u == 0x85 || u == 0xa0 || u == 0x1680 || (0x2000 <= u
        <= 0x200a) || u == 0x2028 || u == 0x2029 || u == 0x202f || u == 0x205f || u == 0x3000
}

/// Computes [`is_white_space`].
pub fn is_whitespace_char(c: char) -> (r: bool)
    ensures
        r == is_white_space(c),
{
    let u = c as u32;
    (0x09 <= u && u <= 0x0d) || u == 0x20 || u == 0x85 || u == 0xa0 || u == 0x1680 || (0x2000
        <= u && u <= 0x200a) || u == 0x2028 || u == 0x2029 || u == 0x202f || u == 0x205f || u
        == 0x3000
}

/// The pieces of `s` between line feeds, the last one included even when
/// empty.
pub open spec fn lines_of(s: Seq<char>) -> Seq<Seq<char>> {
    split_on(s, '\n')
}

/// `words` with `cur` added when it is not empty.
pub open spec fn close_word(words: Seq<Seq<char>>, cur: Seq<char>) -> Seq<Seq<char>> {
    if cur.len() > 0 {
        words.push(cur)
    } else {
        words
    }
}

/// Finished words and the word in progress after reading `s`.
pub open spec fn word_scan(s: Seq<char>) -> (Seq<Seq<char>>, Seq<char>)
    decreases s.len(),
{
    if s.len() == 0 {
        (Seq::empty(), Seq::empty())
    } else {
        let (words, cur) = word_scan(s.drop_last());
        if is_white_space(s.last()) {
            (close_word(words, cur), Seq::empty())
        } else {
            (words, cur.push(s.last()))
        }
    }
}

/// The maximal runs of non-whitespace characters of `s`.
pub open spec fn words_of(s: Seq<char>) -> Seq<Seq<char>> {
    let (words, cur) = word_scan(s);
    close_word(words, cur)
}

/// `s` without one leading `+`.
pub open spec fn unsigned_digits(s: Seq<char>) -> Seq<char> {
    if s.len() > 0 && s[0] == '+' {
        s.drop_first()
    } else {
        s
    }
}

/// The unsigned integer that `s` denotes, as `usize::from_str` reads it: an
/// optional `+`, then at least one ASCII digit, with a value that fits.
pub open spec fn parse_usize(s: Seq<char>) -> Option<usize> {
    let d = unsigned_digits(s);
    if d.len() > 0 && (forall|i: int| 0 <= i < d.len() ==> is_digit(#[trigger] d[i]))
        && digits_value(d) <= usize::MAX {
        Some(digits_value(d) as usize)
    } else {
        None
    }
}

/// Whether `t` names the blank token.
pub open spec fn is_blank_marker(t: Seq<char>) -> bool {
    t == "<blk>"@ || t == "<blank>"@
}

/// Reads `lines` in order. The result is the token map and the blank id so
/// far, or the error of the first line that has a malformed id or names the
/// blank token with a second id.
pub open spec fn vocab_scan(lines: Seq<Seq<char>>) -> Result<
    (Map<usize, Seq<char>>, Option<usize>),
    VocabError,
>
    decreases lines.len(),
{
    if lines.len() == 0 {
        Ok((Map::empty(), None))
    } else {
        match vocab_scan(lines.drop_last()) {
            Err(e) => Err(e),
            Ok((m, blank)) => {
                let w = words_of(lines.last());
                if w.len() < 2 {
                    Ok((m, blank))
                } else {
                    match parse_usize(w[1]) {
                        None => Err(VocabError::BadTokenId { line: lines.len() as usize }),
                        Some(id) => if is_blank_marker(w[0]) && blank is Some && blank->0 != id {
                            Err(VocabError::ConflictingBlankId { line: lines.len() as usize })
                        } else {
                            Ok(
                            (
                                m.insert(id, w[0]),
                                if is_blank_marker(w[0]) {
                                    Some(id)
                                } else {
                                    blank
                                },
                            ),
                        )
                        },
                    }
                }
            },
        }
    }
}

/// The token map and blank id that the vocabulary file `content` defines,
/// or why it defines none.
pub open spec fn vocab_result(content: Seq<char>) -> Result<
    (Map<usize, Seq<char>>, usize),
    VocabError,
> {
    match vocab_scan(lines_of(content)) {
        Err(e) => Err(e),
        Ok((m, None)) => Err(VocabError::NoBlankToken),
        Ok((m, Some(b))) => Ok((m, b)),
    }
}

proof fn lemma_scan_error_stays(lines: Seq<Seq<char>>, k: nat)
    requires
        k <= lines.len(),
        vocab_scan(lines.subrange(0, k as int)) is Err,
    ensures
        vocab_scan(lines) == vocab_scan(lines.subrange(0, k as int)),
    decreases lines.len(),
{
    if k < lines.len() {
        assert(lines.drop_last().subrange(0, k as int) =~= lines.subrange(0, k as int));
        lemma_scan_error_stays(lines.drop_last(), k);
    } else {
        assert(lines.subrange(0, k as int) =~= lines);
    }
}

fn split_words(line: &Vec<char>) -> (words: Vec<Vec<char>>)
    ensures
        words.deep_view() == words_of(line@),
{
    let mut words: Vec<Vec<char>> = Vec::new();
    let mut cur: Vec<char> = Vec::new();
    let mut i: usize = 0;
    while i < line.len()
        invariant
            i <= line@.len(),
            word_scan(line@.subrange(0, i as int)) == (words.deep_view(), cur@),
        decreases line@.len() - i,
    {
        let ghost prefix = line@.subrange(0, i + 1);
        assert(prefix.drop_last() =~= line@.subrange(0, i as int));
        let c = line[i];
        if is_whitespace_char(c) {
            if cur.len() > 0 {
                let ghost old_words = words.deep_view();
                let ghost old_cur = cur@;
                words.push(cur);
                assert(words.deep_view() =~= old_words.push(old_cur));
            }
            cur = Vec::new();
        } else {
            cur.push(c);
        }
        i += 1;
    }
    assert(line@.subrange(0, i as int) =~= line@);
    if cur.len() > 0 {
        let ghost old_words = words.deep_view();
        let ghost old_cur = cur@;
        words.push(cur);
        assert(words.deep_view() =~= old_words.push(old_cur));
    }
    words
}

fn parse_id(word: &Vec<char>) -> (r: Option<usize>)
    ensures
        r == parse_usize(word@),
{
    let n = word.len();
    let start: usize = if n > 0 && word[0] == '+' { 1 } else { 0 };
    let ghost d = unsigned_digits(word@);
    assert(d =~= word@.subrange(start as int, n as int));
    if start == n {
        return None;
    }
    let mut value: usize = 0;
    let mut i: usize = start;
    while i < n
        invariant
            start <= i <= n,
            n == word@.len(),
            d == word@.subrange(start as int, n as int),
            d == unsigned_digits(word@),
            forall|j: int| 0 <= j < i - start ==> is_digit(#[trigger] d[j]),
            value == digits_value(d.subrange(0, i - start)),
        decreases n - i,
    {
        let c = word[i];
        assert(d[i - start] == c);
        if !((c as u32) >= 0x30 && (c as u32) <= 0x39) {
            assert(!is_digit(d[i - start]));
            return None;
        }
        let ghost next = d.subrange(0, i - start + 1);
        assert(next.drop_last() =~= d.subrange(0, i - start));
        assert(next.last() == c);
        let digit = (c as u32 - 0x30) as usize;
        match value.checked_mul(10) {
            None => {
                proof {
                    if forall|j: int| 0 <= j < d.len() ==> is_digit(#[trigger] d[j]) {
                        lemma_digits_value_grows(d, i - start + 1);
                    }
                }
                return None;
            },
            Some(v) => match v.checked_add(digit) {
                None => {
                    proof {
                        if forall|j: int| 0 <= j < d.len() ==> is_digit(#[trigger] d[j]) {
                            lemma_digits_value_grows(d, i - start + 1);
                        }
                    }
                    return None;
                },
                Some(v2) => {
                    value = v2;
                },
            },
        }
        i += 1;
    }
    assert(d.subrange(0, n - start) =~= d);
    Some(value)
}

/// Whether `a` and `b` hold the same characters.
fn same_chars(a: &Vec<char>, b: &Vec<char>) -> (r: bool)
    ensures
        r == (a@ == b@),
{
    if a.len() != b.len() {
        return false;
    }
    let mut i: usize = 0;
    while i < a.len()
        invariant
            i <= a@.len(),
            a@.len() == b@.len(),
            forall|j: int| 0 <= j < i ==> a@[j] == b@[j],
        decreases a@.len() - i,
    {
        if a[i] != b[i] {
            return false;
        }
        i += 1;
    }
    assert(a@ =~= b@);
    true
}

/// The first two words of every line that has at least two, in order.
pub open spec fn entries(lines: Seq<Seq<char>>) -> Seq<(Seq<char>, Seq<char>)>
    decreases lines.len(),
{
    if lines.len() == 0 {
        Seq::empty()
    } else {
        let w = words_of(lines.last());
        if w.len() >= 2 {
            entries(lines.drop_last()).push((w[0], w[1]))
        } else {
            entries(lines.drop_last())
        }
    }
}

/// The entries of a vocabulary file.
pub open spec fn file_entries(content: Seq<char>) -> Seq<(Seq<char>, Seq<char>)> {
    entries(lines_of(content))
}

/// The id that an entry carries (0 when it is malformed).
pub open spec fn entry_id(e: (Seq<char>, Seq<char>)) -> usize {
    match parse_usize(e.1) {
        Some(id) => id,
        None => 0,
    }
}

/// Every entry carries a well-formed id.
pub open spec fn ids_well_formed(es: Seq<(Seq<char>, Seq<char>)>) -> bool {
    forall|i: int| 0 <= i < es.len() ==> (#[trigger] parse_usize(es[i].1)) is Some
}

/// No two entries carry the same id.
pub open spec fn ids_distinct(es: Seq<(Seq<char>, Seq<char>)>) -> bool {
    forall|i: int, j: int|
        0 <= i < j < es.len() ==> entry_id(#[trigger] es[i]) != entry_id(#[trigger] es[j])
}

/// The id of the last entry whose token is the blank marker.
pub open spec fn last_blank(es: Seq<(Seq<char>, Seq<char>)>) -> Option<usize>
    decreases es.len(),
{
    if es.len() == 0 {
        None
    } else if is_blank_marker(es.last().0) {
        Some(entry_id(es.last()))
    } else {
        last_blank(es.drop_last())
    }
}

/// All entries naming the blank token carry the same id.
pub open spec fn blank_ids_agree(es: Seq<(Seq<char>, Seq<char>)>) -> bool {
    forall|i: int, j: int|
        0 <= i < es.len() && 0 <= j < es.len() && is_blank_marker(es[i].0) && is_blank_marker(
            es[j].0,
        ) ==> entry_id(#[trigger] es[i]) == entry_id(#[trigger] es[j])
}

proof fn lemma_last_blank_facts(es: Seq<(Seq<char>, Seq<char>)>)
    ensures
        last_blank(es) is None ==> forall|i: int|
            0 <= i < es.len() ==> !is_blank_marker(#[trigger] es[i].0),
        last_blank(es) is Some ==> exists|i: int|
            0 <= i < es.len() && is_blank_marker(es[i].0) && entry_id(#[trigger] es[i])
                == last_blank(es)->0,
    decreases es.len(),
{
    if es.len() > 0 {
        let rest = es.drop_last();
        lemma_last_blank_facts(rest);
        assert forall|i: int| 0 <= i < rest.len() implies rest[i] == es[i] by {}
        if is_blank_marker(es.last().0) {
            assert(entry_id(es[es.len() - 1]) == last_blank(es)->0);
        } else if last_blank(es) is Some {
            let i = choose|i: int|
                0 <= i < rest.len() && is_blank_marker(rest[i].0) && entry_id(#[trigger] rest[i])
                    == last_blank(rest)->0;
            assert(es[i] == rest[i]);
        }
    }
}

proof fn lemma_scan_entries(lines: Seq<Seq<char>>)
    ensures
        ids_well_formed(entries(lines)) && blank_ids_agree(entries(lines)) ==> vocab_scan(
            lines,
        ) is Ok,
        vocab_scan(lines) is Ok ==> blank_ids_agree(entries(lines)),
        vocab_scan(lines) is Ok ==> {
            let (m, b) = vocab_scan(lines)->Ok_0;
            let es = entries(lines);
            &&& b == last_blank(es)
            &&& m.dom().finite()
            &&& forall|id: usize|
                m.contains_key(id) <==> exists|i: int|
                    0 <= i < es.len() && entry_id(#[trigger] es[i]) == id
            &&& ids_distinct(es) ==> m.len() == es.len()
        },
    decreases lines.len(),
{
    if lines.len() == 0 {
        return;
    }
    let rest = lines.drop_last();
    let es0 = entries(rest);
    let es = entries(lines);
    lemma_scan_entries(rest);
    let w = words_of(lines.last());
    if w.len() >= 2 {
        assert(es == es0.push((w[0], w[1])));
        assert forall|i: int| 0 <= i < es0.len() implies es[i] == es0[i] by {}
        lemma_last_blank_facts(es0);
        let new_id = entry_id(es[es0.len() as int]);
        if ids_well_formed(es) && blank_ids_agree(es) {
            assert forall|i: int| 0 <= i < es0.len() implies (#[trigger] parse_usize(
                es0[i].1,
            )) is Some by {
                assert(es[i] == es0[i]);
            }
            assert(parse_usize(es[es0.len() as int].1) is Some);
            assert forall|i: int, j: int|
                0 <= i < es0.len() && 0 <= j < es0.len() && is_blank_marker(es0[i].0)
                    && is_blank_marker(es0[j].0) implies entry_id(#[trigger] es0[i]) == entry_id(
                #[trigger] es0[j],
            ) by {
                assert(es[i] == es0[i] && es[j] == es0[j]);
            }
            if is_blank_marker(w[0]) && last_blank(es0) is Some {
                let i = choose|i: int|
                    0 <= i < es0.len() && is_blank_marker(es0[i].0) && entry_id(
                        #[trigger] es0[i],
                    ) == last_blank(es0)->0;
                assert(es[i] == es0[i]);
                assert(is_blank_marker(es[es0.len() as int].0));
            }
        }
        if vocab_scan(lines) is Ok {
            assert(vocab_scan(rest) is Ok);
            assert forall|i: int, j: int|
                0 <= i < es.len() && 0 <= j < es.len() && is_blank_marker(es[i].0)
                    && is_blank_marker(es[j].0) implies entry_id(#[trigger] es[i]) == entry_id(
                #[trigger] es[j],
            ) by {
                if i < es0.len() && j < es0.len() {
                    assert(es[i] == es0[i] && es[j] == es0[j]);
                } else {
                    let (_, b0) = vocab_scan(rest)->Ok_0;
                    assert(b0 == last_blank(es0));
                    assert(is_blank_marker(w[0]));
                    assert(b0 is None || b0->0 == new_id);
                    if i < es0.len() {
                        assert(es[i] == es0[i]);
                        assert(b0 is Some);
                        let k = choose|k: int|
                            0 <= k < es0.len() && is_blank_marker(es0[k].0) && entry_id(
                                #[trigger] es0[k],
                            ) == last_blank(es0)->0;
                        assert(entry_id(es0[i]) == entry_id(es0[k]));
                    }
                    if j < es0.len() {
                        assert(es[j] == es0[j]);
                        assert(b0 is Some);
                        let k = choose|k: int|
                            0 <= k < es0.len() && is_blank_marker(es0[k].0) && entry_id(
                                #[trigger] es0[k],
                            ) == last_blank(es0)->0;
                        assert(entry_id(es0[j]) == entry_id(es0[k]));
                    }
                }
            }
        }
        if vocab_scan(lines) is Ok {
            let (m0, b0) = vocab_scan(rest)->Ok_0;
            let (m, b) = vocab_scan(lines)->Ok_0;
            let id = entry_id(es.last());
            assert(es.last() == (w[0], w[1]));
            assert(m == m0.insert(id, w[0]));
            assert forall|k: usize|
                (exists|i: int| 0 <= i < es.len() && entry_id(#[trigger] es[i]) == k) implies m.contains_key(
                k,
            ) by {
                let i = choose|i: int| 0 <= i < es.len() && entry_id(#[trigger] es[i]) == k;
                if i < es0.len() {
                    assert(es0[i] == es[i]);
                }
            }
            assert forall|k: usize| m.contains_key(k) implies (exists|i: int|
                0 <= i < es.len() && entry_id(#[trigger] es[i]) == k) by {
                if k != id {
                    let i = choose|i: int| 0 <= i < es0.len() && entry_id(#[trigger] es0[i]) == k;
                    assert(es[i] == es0[i]);
                } else {
                    assert(entry_id(es[es.len() - 1]) == k);
                }
            }
            if ids_distinct(es) {
                assert forall|i: int, j: int| 0 <= i < j < es0.len() implies entry_id(
                    #[trigger] es0[i],
                ) != entry_id(#[trigger] es0[j]) by {
                    assert(es[i] == es0[i] && es[j] == es0[j]);
                }
                if m0.contains_key(id) {
                    let i = choose|i: int| 0 <= i < es0.len() && entry_id(#[trigger] es0[i]) == id;
                    assert(es[i] == es0[i]);
                    assert(entry_id(es[i]) != entry_id(es[es.len() - 1]));
                }
            }
            assert(es.drop_last() =~= es0);
        }
    } else {
        assert(es == es0);
    }
}

proof fn lemma_last_blank(es: Seq<(Seq<char>, Seq<char>)>, k: int)
    requires
        0 <= k < es.len(),
        is_blank_marker(es[k].0),
        forall|j: int| 0 <= j < es.len() && j != k ==> !is_blank_marker(#[trigger] es[j].0),
    ensures
        last_blank(es) == Some(entry_id(es[k])),
    decreases es.len(),
{
    if k < es.len() - 1 {
        let rest = es.drop_last();
        assert(!is_blank_marker(es[es.len() - 1].0));
        assert forall|j: int| 0 <= j < rest.len() && j != k implies !is_blank_marker(
            #[trigger] rest[j].0,
        ) by {
            assert(rest[j] == es[j]);
        }
        lemma_last_blank(rest, k);
    }
}

proof fn lemma_no_blank(es: Seq<(Seq<char>, Seq<char>)>)
    requires
        forall|j: int| 0 <= j < es.len() ==> !is_blank_marker(#[trigger] es[j].0),
    ensures
        last_blank(es) is None,
    decreases es.len(),
{
    if es.len() > 0 {
        let rest = es.drop_last();
        assert(!is_blank_marker(es[es.len() - 1].0));
        assert forall|j: int| 0 <= j < rest.len() implies !is_blank_marker(
            #[trigger] rest[j].0,
        ) by {
            assert(rest[j] == es[j]);
        }
        lemma_no_blank(rest);
    }
}

/// A vocabulary file whose lines of two or more words carry well-formed and
/// pairwise different ids, exactly one of them (entry `k`) naming the blank
/// token, loads: it holds one token per such line, and its blank id is the id
/// on that line.
pub proof fn lemma_vocab_size_and_blank(content: Seq<char>, k: int)
    requires
        ids_well_formed(file_entries(content)),
        ids_distinct(file_entries(content)),
        0 <= k < file_entries(content).len(),
        is_blank_marker(file_entries(content)[k].0),
        forall|j: int|
            0 <= j < file_entries(content).len() && j != k ==> !is_blank_marker(
                #[trigger] file_entries(content)[j].0,
            ),
    ensures
        vocab_result(content) is Ok,
        vocab_result(content)->Ok_0.0.len() == file_entries(content).len(),
        vocab_result(content)->Ok_0.1 == entry_id(file_entries(content)[k]),
{
    let es = file_entries(content);
    assert forall|i: int, j: int|
        0 <= i < es.len() && 0 <= j < es.len() && is_blank_marker(es[i].0) && is_blank_marker(
            es[j].0,
        ) implies entry_id(#[trigger] es[i]) == entry_id(#[trigger] es[j]) by {
        if i != k {
            assert(!is_blank_marker(es[i].0));
        }
        if j != k {
            assert(!is_blank_marker(es[j].0));
        }
    }
    lemma_scan_entries(lines_of(content));
    lemma_last_blank(file_entries(content), k);
}

/// A vocabulary file in which two lines name the blank token with different
/// ids does not load.
pub proof fn lemma_vocab_two_blank_ids_fail(content: Seq<char>, i: int, j: int)
    requires
        0 <= i < file_entries(content).len(),
        0 <= j < file_entries(content).len(),
        is_blank_marker(file_entries(content)[i].0),
        is_blank_marker(file_entries(content)[j].0),
        entry_id(file_entries(content)[i]) != entry_id(file_entries(content)[j]),
    ensures
        vocab_result(content) is Err,
{
    lemma_scan_entries(lines_of(content));
}

/// A vocabulary file in which no line names the blank token does not load.
pub proof fn lemma_vocab_without_blank_fails(content: Seq<char>)
    requires
        forall|j: int|
            0 <= j < file_entries(content).len() ==> !is_blank_marker(
                #[trigger] file_entries(content)[j].0,
            ),
    ensures
        vocab_result(content) is Err,
{
    lemma_scan_entries(lines_of(content));
    lemma_no_blank(file_entries(content));
}

} // verus!
