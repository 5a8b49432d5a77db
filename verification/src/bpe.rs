//! Byte-level BPE: the model, and how it encodes and decodes text. The
//! trainer (in `train`) learns the model:
//!
//!   1. Pre-tokenize the corpus into "words" (a leading space stays with its
//!      word, GPT-2 style), and byte-level encode each word.
//!   2. Count the frequency of every adjacent symbol pair over the corpus.
//!   3. Merge the most frequent pair into one new symbol; record the rule.
//!   4. Repeat until the vocab reaches `vocab_size` (or no pair beats
//!      `min_frequency`).
//!
//! The learned `merges` are an ordered list: their index is their priority,
//! which is exactly what encode replays.
use std::collections::HashMap;
use vstd::prelude::*;
use vstd::utf8::*;

use crate::byte_level::{
    byte_decoder, byte_encoder, byte_level, byte_table, decode_bytes, decode_chars, decoder_map, encode_bytes,
    lemma_byte_table_codes, lemma_encode_decode_bytes,
};
use crate::json::{
    hf_json, hf_listed, hf_model, hf_unk_id, is_plain_object, plain_json, plain_model, read_hf_json,
    read_plain_json,
};
use crate::seqs::{
    join, lemma_encode_utf8_concat, lemma_join_concat, lemma_join_push, lemma_join_singles,
    lemma_join_singleton, singles, str_pairs, strs,
};
use crate::text::{push_char, str_chars, utf8_lossy};

verus! {

/// A trained byte-level BPE model: vocabulary + ordered merge rules.
pub struct BpeModel {
    /// id -> token piece, in the byte-level alphabet.
    pub vocab: Vec<String>,
    /// Merge rules in priority order (index = rank, lower = applied first).
    pub merges: Vec<(String, String)>,
    // Derived, rebuilt on load; not serialized.
    /// byte -> alphabet char.
    encoder: [char; 256],
    /// alphabet codepoint -> byte.
    decoder: HashMap<u32, u8>,
}

/// What a model is, mathematically: its vocabulary and its merge rules.
pub struct ModelView {
    pub vocab: Seq<Seq<char>>,
    pub merges: Seq<(Seq<char>, Seq<char>)>,
}

impl View for BpeModel {
    type V = ModelView;

    closed spec fn view(&self) -> ModelView {
        ModelView { vocab: strs(self.vocab@), merges: str_pairs(self.merges@) }
    }
}

// ---------------------------------------------------------------------------
// Pre-tokenization
// ---------------------------------------------------------------------------
/// The words of `text`: a new word starts at the first char and at every
/// space after it, so a leading space stays with the word that follows it.
pub open spec fn pretokenize_spec(text: Seq<char>) -> Seq<Seq<char>>
    decreases text.len(),
{
    if text.len() == 0 {
        Seq::empty()
    } else {
        let ws = pretokenize_spec(text.drop_last());
        let c = text.last();
        if ws.len() == 0 || c == ' ' {
            ws.push(seq![c])
        } else {
            ws.update(ws.len() - 1, ws.last().push(c))
        }
    }
}

/// Split text into words, keeping a leading space attached to the word that
/// follows it (so " world" is one unit). Only *splits*: the words written one
/// after another give `text` back (`lemma_pretokenize_splits`).
pub fn pretokenize(text: &str) -> (words: Vec<String>)
    ensures
        strs(words@) == pretokenize_spec(text@),
{
    let cs = str_chars(text);
    let mut words: Vec<String> = Vec::new();
    let mut cur = String::new();
    let mut i: usize = 0;
    while i < cs.len()
        invariant
            0 <= i <= cs@.len(),
            cs@ == text@,
            i == 0 ==> words@.len() == 0 && cur@.len() == 0,
            i > 0 ==> cur@.len() > 0 && strs(words@).push(cur@) == pretokenize_spec(
                cs@.take(i as int),
            ),
        decreases cs@.len() - i,
    {
        let c = cs[i];
        let ghost prefix = cs@.take(i as int + 1);
        assert(prefix.drop_last() =~= cs@.take(i as int));
        let ghost old_words = strs(words@);
        let ghost old_cur = cur@;
        if c == ' ' && !cur.as_str().is_empty() {
            words.push(cur);
            cur = String::new();
            assert(strs(words@) =~= old_words.push(old_cur));
        }
        push_char(&mut cur, c);
        i = i + 1;
        proof {
            if i == 1 {
                assert(strs(words@) =~= Seq::<Seq<char>>::empty());
                assert(prefix.drop_last() =~= Seq::<char>::empty());
                assert(pretokenize_spec(prefix.drop_last()) =~= Seq::<Seq<char>>::empty());
                assert(cur@ =~= seq![c]);
                assert(strs(words@).push(cur@) =~= pretokenize_spec(prefix));
            } else if c == ' ' {
                assert(strs(words@).push(cur@) =~= pretokenize_spec(prefix));
            } else {
                assert(strs(words@) =~= old_words);
                assert(strs(words@).push(cur@) =~= old_words.push(old_cur).update(
                    old_words.len() as int,
                    old_cur.push(c),
                ));
            }
        }
    }
    if !cur.as_str().is_empty() {
        let ghost old_words = strs(words@);
        words.push(cur);
        assert(strs(words@) =~= old_words.push(cur@));
    }
    proof {
        assert(cs@.take(i as int) =~= cs@);
        if i == 0 {
            assert(strs(words@) =~= pretokenize_spec(text@));
        }
    }
    words
}

/// Pre-tokenization only splits: its words written one after another give
/// the text back, no word is empty, and a space only ever opens a word.
pub proof fn lemma_pretokenize_splits(text: Seq<char>)
    ensures
        join(pretokenize_spec(text)) == text,
        forall|k: int|
            0 <= k < pretokenize_spec(text).len() ==> #[trigger] pretokenize_spec(text)[k].len() > 0,
        forall|k: int, j: int|
            0 <= k < pretokenize_spec(text).len() && 0 < j < pretokenize_spec(text)[k].len()
                ==> #[trigger] pretokenize_spec(text)[k][j] != ' ',
        forall|k: int|
            0 < k < pretokenize_spec(text).len() ==> #[trigger] pretokenize_spec(text)[k][0] == ' ',
    decreases text.len(),
{
    if text.len() > 0 {
        let ws = pretokenize_spec(text.drop_last());
        let c = text.last();
        lemma_pretokenize_splits(text.drop_last());
        assert(text.drop_last().push(c) =~= text);
        if ws.len() == 0 || c == ' ' {
            lemma_join_push(ws, seq![c]);
            assert(join(ws) + seq![c] =~= join(ws).push(c));
        } else {
            let ws2 = ws.update(ws.len() - 1, ws.last().push(c));
            assert(ws2.drop_last() =~= ws.drop_last());
            assert(ws.drop_last().push(ws.last()) =~= ws);
            lemma_join_push(ws.drop_last(), ws.last());
            assert(join(ws2) =~= join(ws).push(c));
        }
    }
}

/// A text cut just before a space pre-tokenizes as its two parts do, one
/// after the other: a space always opens a new word.
pub proof fn lemma_pretokenize_concat(s: Seq<char>, t: Seq<char>)
    requires
        t.len() > 0,
        t[0] == ' ',
    ensures
        pretokenize_spec(s + t) == pretokenize_spec(s) + pretokenize_spec(t),
    decreases t.len(),
{
    let st = s + t;
    let c = t.last();
    assert(st.drop_last() =~= s + t.drop_last());
    assert(st.last() == c);
    let a = pretokenize_spec(s);
    if t.len() == 1 {
        assert(t.drop_last() =~= Seq::<char>::empty());
        assert(s + t.drop_last() =~= s);
        assert(pretokenize_spec(t.drop_last()) =~= Seq::<Seq<char>>::empty());
        assert(pretokenize_spec(t) =~= seq![seq![' ']]);
        assert(pretokenize_spec(st) =~= a.push(seq![' ']));
        assert(a.push(seq![' ']) =~= a + seq![seq![' ']]);
    } else {
        let td = t.drop_last();
        assert(td[0] == ' ');
        lemma_pretokenize_concat(s, td);
        let b = pretokenize_spec(td);
        assert(b.len() > 0) by {
            assert(td.len() > 0);
        }
        let ab = a + b;
        assert(pretokenize_spec(s + td) == ab);
        if c == ' ' {
            assert(pretokenize_spec(st) == ab.push(seq![c]));
            assert(pretokenize_spec(t) == b.push(seq![c]));
            assert(ab.push(seq![c]) =~= a + b.push(seq![c]));
        } else {
            assert(pretokenize_spec(st) == ab.update(ab.len() - 1, ab.last().push(c)));
            assert(pretokenize_spec(t) == b.update(b.len() - 1, b.last().push(c)));
            assert(ab.update(ab.len() - 1, ab.last().push(c)) =~= a + b.update(b.len() - 1, b.last().push(c)));
        }
    }
}

// ---------------------------------------------------------------------------
// Merging
// ---------------------------------------------------------------------------
/// Every adjacent `(a, b)` in `s`, taken from left to right, replaced by `m`.
pub open spec fn apply_merge_spec(
    s: Seq<Seq<char>>,
    a: Seq<char>,
    b: Seq<char>,
    m: Seq<char>,
) -> Seq<Seq<char>>
    decreases s.len(),
{
    if s.len() == 0 {
        Seq::empty()
    } else if s.len() >= 2 && s[0] == a && s[1] == b {
        seq![m] + apply_merge_spec(s.skip(2), a, b, m)
    } else {
        seq![s[0]] + apply_merge_spec(s.skip(1), a, b, m)
    }
}

/// Replace every adjacent `(a, b)` in `symbols` with the merged `merged`.
pub fn apply_merge(symbols: &Vec<String>, a: &String, b: &String, merged: &String) -> (out: Vec<
    String,
>)
    ensures
        strs(out@) == apply_merge_spec(strs(symbols@), a@, b@, merged@),
{
    let ghost s = strs(symbols@);
    let mut out: Vec<String> = Vec::new();
    let mut i: usize = 0;
    assert(s.skip(0) =~= s);
    while i < symbols.len()
        invariant
            0 <= i <= symbols@.len(),
            s == strs(symbols@),
            strs(out@) + apply_merge_spec(s.skip(i as int), a@, b@, merged@) == apply_merge_spec(
                s,
                a@,
                b@,
                merged@,
            ),
        decreases symbols@.len() - i,
    {
        let ghost rest = s.skip(i as int);
        let ghost old_out = strs(out@);
        if i + 1 < symbols.len() && symbols[i] == *a && symbols[i + 1] == *b {
            out.push(merged.clone());
            assert(rest.skip(2) =~= s.skip(i + 2));
            assert(strs(out@) =~= old_out + seq![merged@]);
            assert(old_out + seq![merged@] + apply_merge_spec(rest.skip(2), a@, b@, merged@)
                =~= old_out + (seq![merged@] + apply_merge_spec(rest.skip(2), a@, b@, merged@)));
            i = i + 2;
        } else {
            out.push(symbols[i].clone());
            assert(rest.skip(1) =~= s.skip(i + 1));
            assert(strs(out@) =~= old_out + seq![s[i as int]]);
            assert(old_out + seq![s[i as int]] + apply_merge_spec(rest.skip(1), a@, b@, merged@)
                =~= old_out + (seq![s[i as int]] + apply_merge_spec(
                rest.skip(1),
                a@,
                b@,
                merged@,
            )));
            i = i + 1;
        }
    }
    assert(s.skip(i as int) =~= Seq::<Seq<char>>::empty());
    assert(strs(out@) + Seq::<Seq<char>>::empty() =~= strs(out@));
    out
}

/// The rank of the rule `(a, b)`: the index of its last occurrence in `ms`
/// (a later rule with the same pair takes the place of an earlier one).
pub open spec fn rank_of(ms: Seq<(Seq<char>, Seq<char>)>, a: Seq<char>, b: Seq<char>) -> Option<
    nat,
>
    decreases ms.len(),
{
    if ms.len() == 0 {
        None
    } else if ms.last() == (a, b) {
        Some((ms.len() - 1) as nat)
    } else {
        rank_of(ms.drop_last(), a, b)
    }
}

/// Among the adjacent pairs of `s` that start before `k`, the position and
/// rank of the one with the lowest rank (the leftmost of equal ranks).
pub open spec fn best_merge_upto(ms: Seq<(Seq<char>, Seq<char>)>, s: Seq<Seq<char>>, k: nat) -> Option<
    (int, nat),
>
    decreases k,
{
    if k == 0 {
        None
    } else {
        let prev = best_merge_upto(ms, s, (k - 1) as nat);
        let i = k - 1;
        match rank_of(ms, s[i], s[i + 1]) {
            Some(r) => match prev {
                Some(p) => if p.1 <= r {
                    prev
                } else {
                    Some((i, r))
                },
                None => Some((i, r)),
            },
            None => prev,
        }
    }
}

/// The adjacent pair of `s` that merging takes next, if any.
pub open spec fn best_merge(ms: Seq<(Seq<char>, Seq<char>)>, s: Seq<Seq<char>>) -> Option<
    (int, nat),
> {
    if s.len() < 2 {
        None
    } else {
        best_merge_upto(ms, s, (s.len() - 1) as nat)
    }
}

/// `s` with the pieces at `i` and `i + 1` fused into one.
pub open spec fn merge_at(s: Seq<Seq<char>>, i: int) -> Seq<Seq<char>> {
    s.take(i) + seq![s[i] + s[i + 1]] + s.skip(i + 2)
}

/// The pieces of a word after greedily applying the rules of `ms`: the
/// adjacent pair with the lowest rank is fused, again and again, until no
/// adjacent pair has a rule.
pub open spec fn merge_word_spec(ms: Seq<(Seq<char>, Seq<char>)>, s: Seq<Seq<char>>) -> Seq<
    Seq<char>,
>
    decreases s.len(),
{
    match best_merge(ms, s) {
        Some(p) => if 0 <= p.0 < s.len() - 1 {
            merge_word_spec(ms, merge_at(s, p.0))
        } else {
            s
        },
        None => s,
    }
}

/// The rank of the rule `(a, b)` in `merges`, if it has one.
fn find_rank(merges: &Vec<(String, String)>, a: &String, b: &String) -> (r: Option<usize>)
    ensures
        match r {
            Some(k) => rank_of(str_pairs(merges@), a@, b@) == Some(k as nat),
            None => rank_of(str_pairs(merges@), a@, b@) is None,
        },
{
    let ghost ms = str_pairs(merges@);
    let mut k: usize = merges.len();
    assert(ms.take(k as int) =~= ms);
    while k > 0
        invariant
            0 <= k <= merges@.len(),
            ms == str_pairs(merges@),
            rank_of(ms, a@, b@) == rank_of(ms.take(k as int), a@, b@),
        decreases k,
    {
        let ghost pre = ms.take(k as int);
        assert(pre.drop_last() =~= ms.take(k - 1));
        k = k - 1;
        if merges[k].0 == *a && merges[k].1 == *b {
            return Some(k);
        }
    }
    None
}

/// The adjacent pair of `symbols` that merging takes next, with its rank.
fn find_best_merge(merges: &Vec<(String, String)>, symbols: &Vec<String>) -> (best: Option<
    (usize, usize),
>)
    ensures
        match best {
            Some(p) => best_merge(str_pairs(merges@), strs(symbols@)) == Some(
                (p.0 as int, p.1 as nat),
            ),
            None => best_merge(str_pairs(merges@), strs(symbols@)) is None,
        },
{
    let ghost ms = str_pairs(merges@);
    let ghost s = strs(symbols@);
    let mut best: Option<(usize, usize)> = None;
    if symbols.len() < 2 {
        return None;
    }
    let n = symbols.len() - 1;
    let mut i: usize = 0;
    while i < n
        invariant
            0 <= i <= n,
            n == symbols@.len() - 1,
            ms == str_pairs(merges@),
            s == strs(symbols@),
            match best {
                Some(p) => best_merge_upto(ms, s, i as nat) == Some((p.0 as int, p.1 as nat)),
                None => best_merge_upto(ms, s, i as nat) is None,
            },
        decreases n - i,
    {
        match find_rank(merges, &symbols[i], &symbols[i + 1]) {
            Some(rank) => {
                let replace = match best {
                    Some(p) => rank < p.1,
                    None => true,
                };
                if replace {
                    best = Some((i, rank));
                }
            },
            None => {},
        }
        i = i + 1;
    }
    best
}

impl BpeModel {
    /// Greedily apply the learned merges to one byte-level word: repeatedly
    /// merge the adjacent pair with the lowest rank until none is left.
    fn merge_word(&self, symbols: Vec<String>) -> (out: Vec<String>)
        ensures
            strs(out@) == merge_word_spec(self@.merges, strs(symbols@)),
    {
        let ghost ms = self@.merges;
        let ghost target = merge_word_spec(ms, strs(symbols@));
        let mut symbols = symbols;
        loop
            invariant
                ms == self@.merges,
                merge_word_spec(ms, strs(symbols@)) == target,
            ensures
                strs(symbols@) == target,
            decreases symbols@.len(),
        {
            match find_best_merge(&self.merges, &symbols) {
                None => {
                    break;
                },
                Some(p) => {
                    let i = p.0;
                    proof {
                        lemma_best_merge_in_range(ms, strs(symbols@));
                        assert(best_merge(ms, strs(symbols@)) == Some((p.0 as int, p.1 as nat)));
                        assert(i < strs(symbols@).len() - 1);
                    }
                    let ghost s = strs(symbols@);
                    assert(i < symbols.len() - 1);
                    let j = i + 1;
                    let merged = symbols[i].clone().concat(symbols[j].as_str());
                    symbols.remove(j);
                    symbols.set(i, merged);
                    assert(strs(symbols@) =~= merge_at(s, i as int));
                },
            }
        }
        symbols
    }
}

/// The pair that merging takes next is a real adjacent pair, and its rank
/// is the rank of that pair.
pub proof fn lemma_best_merge_in_range(ms: Seq<(Seq<char>, Seq<char>)>, s: Seq<Seq<char>>)
    ensures
        best_merge(ms, s) matches Some(p) ==> 0 <= p.0 < s.len() - 1 && rank_of(ms, s[p.0], s[p.0 + 1])
            == Some(p.1),
{
    if s.len() >= 2 {
        lemma_best_merge_upto_in_range(ms, s, (s.len() - 1) as nat);
    }
}

proof fn lemma_best_merge_upto_in_range(
    ms: Seq<(Seq<char>, Seq<char>)>,
    s: Seq<Seq<char>>,
    k: nat,
)
    ensures
        best_merge_upto(ms, s, k) matches Some(p) ==> 0 <= p.0 < k && rank_of(ms, s[p.0], s[p.0 + 1])
            == Some(p.1),
    decreases k,
{
    if k > 0 {
        lemma_best_merge_upto_in_range(ms, s, (k - 1) as nat);
    }
}

// ---------------------------------------------------------------------------
// Encoding and decoding
// ---------------------------------------------------------------------------
/// The index of the last occurrence of `t` in `vocab` (the id that the
/// token-to-id table gives `t`, a later entry replacing an earlier one).
pub open spec fn token_index(vocab: Seq<Seq<char>>, t: Seq<char>) -> Option<nat>
    decreases vocab.len(),
{
    if vocab.len() == 0 {
        None
    } else if vocab.last() == t {
        Some((vocab.len() - 1) as nat)
    } else {
        token_index(vocab.drop_last(), t)
    }
}

/// The id of token `t`: its index, as a `u32`.
pub open spec fn id_of(vocab: Seq<Seq<char>>, t: Seq<char>) -> u32 {
    match token_index(vocab, t) {
        Some(i) => i as u32,
        None => 0,
    }
}

/// The ids of the tokens `toks`.
pub open spec fn token_ids(vocab: Seq<Seq<char>>, toks: Seq<Seq<char>>) -> Seq<u32> {
    Seq::new(toks.len(), |k: int| id_of(vocab, toks[k]))
}

/// The byte-level symbols of a word: one single-char piece per UTF-8 byte.
pub open spec fn word_symbols(w: Seq<char>) -> Seq<Seq<char>> {
    singles(byte_level(encode_utf8(w), byte_table()))
}

/// The merged pieces of each word of `words`.
pub open spec fn word_tokens(ms: Seq<(Seq<char>, Seq<char>)>, words: Seq<Seq<char>>) -> Seq<
    Seq<Seq<char>>,
> {
    Seq::new(words.len(), |k: int| merge_word_spec(ms, word_symbols(words[k])))
}

/// The pieces of `vocab` named by `ids`, written one after another.
pub open spec fn pieces_text(vocab: Seq<Seq<char>>, ids: Seq<u32>) -> Seq<char> {
    join(Seq::new(ids.len(), |k: int| vocab[ids[k] as int]))
}

/// The index of the last occurrence of `t` in `vocab`.
pub(crate) fn find_token(vocab: &Vec<String>, t: &String) -> (r: Option<usize>)
    ensures
        match r {
            Some(k) => token_index(strs(vocab@), t@) == Some(k as nat),
            None => token_index(strs(vocab@), t@) is None,
        },
{
    let ghost vs = strs(vocab@);
    let mut k: usize = vocab.len();
    assert(vs.take(k as int) =~= vs);
    while k > 0
        invariant
            0 <= k <= vocab@.len(),
            vs == strs(vocab@),
            token_index(vs, t@) == token_index(vs.take(k as int), t@),
        decreases k,
    {
        let ghost pre = vs.take(k as int);
        assert(pre.drop_last() =~= vs.take(k - 1));
        k = k - 1;
        if vocab[k] == *t {
            return Some(k);
        }
    }
    None
}

/// Each char of `s` as a string of its own.
pub(crate) fn char_strings(s: &str) -> (r: Vec<String>)
    ensures
        strs(r@) == singles(s@),
{
    let cs = str_chars(s);
    let mut r: Vec<String> = Vec::new();
    let mut i: usize = 0;
    while i < cs.len()
        invariant
            0 <= i <= cs@.len(),
            cs@ == s@,
            strs(r@) == singles(cs@.take(i as int)),
        decreases cs@.len() - i,
    {
        let mut one = String::new();
        push_char(&mut one, cs[i]);
        assert(one@ =~= seq![cs@[i as int]]);
        let ghost old_r = strs(r@);
        r.push(one);
        assert(strs(r@) =~= old_r.push(seq![cs@[i as int]]));
        assert(singles(cs@.take(i + 1)) =~= singles(cs@.take(i as int)).push(seq![cs@[i as int]]));
        i = i + 1;
    }
    assert(cs@.take(i as int) =~= cs@);
    r
}

impl BpeModel {
    /// The byte table that the model encodes bytes with.
    pub closed spec fn encoder_table(&self) -> Seq<char> {
        self.encoder@
    }

    /// The map that the model decodes alphabet chars with (by codepoint).
    pub closed spec fn decoder_table(&self) -> Map<u32, u8> {
        self.decoder@
    }

    /// The private tables hold the byte alphabet and its decoder.
    pub closed spec fn tables_ok(&self) -> bool {
        &&& self.encoder@ == byte_table()
        &&& self.decoder@ == decoder_map(byte_table(), 256)
    }

    /// The merged pieces of each word of `text`.
    pub open spec fn text_word_tokens(&self, text: Seq<char>) -> Seq<Seq<Seq<char>>> {
        word_tokens(self@.merges, pretokenize_spec(text))
    }

    /// The tokens that `text` encodes to.
    pub open spec fn text_tokens(&self, text: Seq<char>) -> Seq<Seq<char>> {
        join(self.text_word_tokens(text))
    }

    /// The ids that `text` encodes to.
    pub open spec fn encode_spec(&self, text: Seq<char>) -> Seq<u32> {
        token_ids(self@.vocab, self.text_tokens(text))
    }

    /// Every token that `text` encodes to is in the vocabulary.
    pub open spec fn covers(&self, text: Seq<char>) -> bool {
        forall|k: int, j: int|
            0 <= k < self.text_word_tokens(text).len() && 0 <= j < self.text_word_tokens(
                text,
            )[k].len() ==> (#[trigger] token_index(
                self@.vocab,
                self.text_word_tokens(text)[k][j],
            )) is Some
    }

    /// The bytes that the pieces named by `ids` stand for.
    pub open spec fn decoded_bytes(&self, ids: Seq<u32>) -> Seq<u8> {
        decode_chars(pieces_text(self@.vocab, ids), decoder_map(byte_table(), 256))
    }

    /// Build a model from `vocab` + `merges` and a byte table, with the
    /// table's decoder.
    pub(crate) fn finalize(vocab: Vec<String>, merges: Vec<(String, String)>, encoder: [char; 256]) -> (m:
        BpeModel)
        ensures
            m@.vocab == strs(vocab@),
            m@.merges == str_pairs(merges@),
            m.encoder_table() == encoder@,
            m.decoder_table() == decoder_map(encoder@, 256),
            encoder@ == byte_table() ==> m.tables_ok(),
    {
        let decoder = byte_decoder(&encoder);
        BpeModel { vocab, merges, encoder, decoder }
    }

    /// Number of tokens in the vocabulary.
    pub fn vocab_size(&self) -> (n: usize)
        ensures
            n == self@.vocab.len(),
    {
        self.vocab.len()
    }

    /// Encode text into token ids, or `None` when a token of the text is
    /// missing from the vocabulary (the case in which `encode` would have
    /// no id to give).
    pub fn try_encode(&self, text: &str) -> (r: Option<Vec<u32>>)
        requires
            self.tables_ok(),
        ensures
            r is Some <==> self.covers(text@),
            r matches Some(ids) ==> ids@ == self.encode_spec(text@),
    {
        let ghost ms = self@.merges;
        let ghost vs = self@.vocab;
        let ghost lists = self.text_word_tokens(text@);
        let words = pretokenize(text);
        let mut ids: Vec<u32> = Vec::new();
        let mut w: usize = 0;
        assert(lists.take(0) =~= Seq::<Seq<Seq<char>>>::empty());
        assert(ids@ =~= token_ids(vs, join(lists.take(0))));
        while w < words.len()
            invariant
                0 <= w <= words@.len(),
                ms == self@.merges,
                vs == self@.vocab,
                lists == self.text_word_tokens(text@),
                strs(words@) == pretokenize_spec(text@),
                lists.len() == words@.len(),
                self.tables_ok(),
                ids@ == token_ids(vs, join(lists.take(w as int))),
                forall|k: int, j: int|
                    0 <= k < w && 0 <= j < lists[k].len() ==> (#[trigger] token_index(
                        vs,
                        lists[k][j],
                    )) is Some,
            decreases words@.len() - w,
        {
            let piece = encode_bytes(words[w].as_str(), &self.encoder);
            let symbols = char_strings(piece.as_str());
            let toks = self.merge_word(symbols);
            assert(strs(toks@) == lists[w as int]);
            let ghost before = join(lists.take(w as int));
            let mut t: usize = 0;
            while t < toks.len()
                invariant
                    0 <= t <= toks@.len(),
                    0 <= w < lists.len(),
                    vs == self@.vocab,
                    strs(toks@) == lists[w as int],
                    lists == self.text_word_tokens(text@),
                    ids@ == token_ids(vs, before + strs(toks@).take(t as int)),
                    forall|j: int| 0 <= j < t ==> (#[trigger] token_index(vs, lists[w as int][j])) is Some,
                decreases toks@.len() - t,
            {
                match find_token(&self.vocab, &toks[t]) {
                    Some(k) => {
                        #[verifier::truncate]
                        let id = k as u32;
                        ids.push(id);
                    },
                    None => {
                        proof {
                            assert(token_index(vs, lists[w as int][t as int]) is None);
                        }
                        return None;
                    },
                }
                t = t + 1;
                assert(ids@ =~= token_ids(vs, before + strs(toks@).take(t as int)));
            }
            assert(strs(toks@).take(t as int) =~= lists[w as int]);
            assert(lists.take(w + 1).drop_last() =~= lists.take(w as int));
            w = w + 1;
        }
        assert(lists.take(w as int) =~= lists);
        Some(ids)
    }

    /// Encode text into token ids.
    pub fn encode(&self, text: &str) -> (ids: Vec<u32>)
        requires
            self.tables_ok(),
            self.covers(text@),
        ensures
            ids@ == self.encode_spec(text@),
    {
        match self.try_encode(text) {
            Some(ids) => ids,
            None => Vec::new(),
        }
    }

    /// Decode token ids back into the text they stand for.
    pub fn decode(&self, ids: &[u32]) -> (r: String)
        requires
            self.tables_ok(),
            forall|k: int| 0 <= k < ids@.len() ==> (ids@[k] as int) < self@.vocab.len(),
        ensures
            r@ == utf8_lossy(self.decoded_bytes(ids@)),
            valid_utf8(self.decoded_bytes(ids@)) ==> r@ == decode_utf8(self.decoded_bytes(ids@)),
    {
        let ghost vs = self@.vocab;
        let mut joined = String::new();
        let mut k: usize = 0;
        assert(joined@ =~= pieces_text(vs, ids@.take(0)));
        while k < ids.len()
            invariant
                0 <= k <= ids@.len(),
                vs == self@.vocab,
                forall|j: int| 0 <= j < ids@.len() ==> (ids@[j] as int) < self@.vocab.len(),
                joined@ == pieces_text(vs, ids@.take(k as int)),
            decreases ids@.len() - k,
        {
            let ghost pre = Seq::new(
                ids@.take(k as int).len(),
                |j: int| vs[ids@.take(k as int)[j] as int],
            );
            joined.append(self.vocab[ids[k] as usize].as_str());
            k = k + 1;
            let ghost post = Seq::new(
                ids@.take(k as int).len(),
                |j: int| vs[ids@.take(k as int)[j] as int],
            );
            assert(post.drop_last() =~= pre);
        }
        assert(ids@.take(k as int) =~= ids@);
        decode_bytes(joined.as_str(), &self.decoder)
    }
}

/// A vocabulary holds every byte of the alphabet as a one-char token and
/// the fusion of every merge rule.
pub open spec fn vocab_closed(v: ModelView) -> bool {
    &&& forall|b: int|
        0 <= b < 256 ==> (#[trigger] token_index(v.vocab, seq![byte_table()[b]])) is Some
    &&& forall|r: int|
        0 <= r < v.merges.len() ==> (#[trigger] token_index(
            v.vocab,
            v.merges[r].0 + v.merges[r].1,
        )) is Some
}

impl BpeModel {
    /// A model that can encode every text: its tables are the byte
    /// alphabet, and its vocabulary is closed under its rules.
    pub open spec fn wf(&self) -> bool {
        &&& self.tables_ok()
        &&& vocab_closed(self@)
    }
}

pub proof fn lemma_token_index(vocab: Seq<Seq<char>>, t: Seq<char>)
    ensures
        token_index(vocab, t) matches Some(i) ==> i < vocab.len() && vocab[i as int] == t,
    decreases vocab.len(),
{
    if vocab.len() > 0 {
        lemma_token_index(vocab.drop_last(), t);
    }
}

/// The rank of a rule is the index of its last occurrence among the rules,
/// and a pair with no occurrence has no rank.
pub proof fn lemma_rank_of(ms: Seq<(Seq<char>, Seq<char>)>, a: Seq<char>, b: Seq<char>)
    ensures
        rank_of(ms, a, b) matches Some(r) ==> r < ms.len() && ms[r as int] == (a, b),
        rank_of(ms, a, b) matches Some(r) ==> forall|k: int| r < k < ms.len() ==> ms[k] != (a, b),
        rank_of(ms, a, b) is None ==> forall|k: int| 0 <= k < ms.len() ==> ms[k] != (a, b),
    decreases ms.len(),
{
    if ms.len() > 0 {
        lemma_rank_of(ms.drop_last(), a, b);
        assert forall|k: int| 0 <= k < ms.len() - 1 implies ms.drop_last()[k] == ms[k] by {}
    }
}

proof fn lemma_merge_at_join(s: Seq<Seq<char>>, i: int)
    requires
        0 <= i < s.len() - 1,
    ensures
        join(merge_at(s, i)) == join(s),
        merge_at(s, i).len() == s.len() - 1,
{
    let pre = s.take(i);
    let post = s.skip(i + 2);
    assert(s =~= pre + (seq![s[i]] + seq![s[i + 1]]) + post);
    lemma_join_concat(pre + (seq![s[i]] + seq![s[i + 1]]), post);
    lemma_join_concat(pre, seq![s[i]] + seq![s[i + 1]]);
    lemma_join_concat(seq![s[i]], seq![s[i + 1]]);
    lemma_join_singleton(s[i]);
    lemma_join_singleton(s[i + 1]);
    lemma_join_concat(pre + seq![s[i] + s[i + 1]], post);
    lemma_join_concat(pre, seq![s[i] + s[i + 1]]);
    lemma_join_singleton(s[i] + s[i + 1]);
    assert(join(pre) + (s[i] + s[i + 1]) + join(post) =~= join(pre) + (s[i] + s[i + 1]) + join(
        post,
    ));
    assert(join(pre) + (s[i] + s[i + 1]) =~= join(pre) + s[i] + s[i + 1]);
}

/// Merging only fuses pieces: the merged pieces of a word written one after
/// another are the word again.
pub proof fn lemma_merge_word_join(ms: Seq<(Seq<char>, Seq<char>)>, s: Seq<Seq<char>>)
    ensures
        join(merge_word_spec(ms, s)) == join(s),
    decreases s.len(),
{
    lemma_best_merge_in_range(ms, s);
    match best_merge(ms, s) {
        Some(p) => {
            if 0 <= p.0 < s.len() - 1 {
                lemma_merge_at_join(s, p.0);
                lemma_merge_word_join(ms, merge_at(s, p.0));
            }
        },
        None => {},
    }
}

/// Every piece that merging makes is a piece it started from or the fusion of a
/// rule, so it is in a vocabulary that holds both.
pub proof fn lemma_merge_word_in_vocab(
    vocab: Seq<Seq<char>>,
    ms: Seq<(Seq<char>, Seq<char>)>,
    s: Seq<Seq<char>>,
)
    requires
        forall|j: int| 0 <= j < s.len() ==> (#[trigger] token_index(vocab, s[j])) is Some,
        forall|r: int|
            0 <= r < ms.len() ==> (#[trigger] token_index(vocab, ms[r].0 + ms[r].1)) is Some,
    ensures
        forall|j: int|
            0 <= j < merge_word_spec(ms, s).len() ==> (#[trigger] token_index(
                vocab,
                merge_word_spec(ms, s)[j],
            )) is Some,
    decreases s.len(),
{
    lemma_best_merge_in_range(ms, s);
    match best_merge(ms, s) {
        Some(p) => {
            if 0 <= p.0 < s.len() - 1 {
                let i = p.0;
                let t = merge_at(s, i);
                lemma_rank_of(ms, s[i], s[i + 1]);
                assert(token_index(vocab, ms[p.1 as int].0 + ms[p.1 as int].1) is Some);
                assert forall|j: int| 0 <= j < t.len() implies (#[trigger] token_index(
                    vocab,
                    t[j],
                )) is Some by {
                    if j < i {
                        assert(t[j] == s[j]);
                    } else if j == i {
                        assert(t[j] == s[i] + s[i + 1]);
                    } else {
                        assert(t[j] == s[j + 1]);
                    }
                }
                lemma_merge_word_in_vocab(vocab, ms, t);
            }
        },
        None => {},
    }
}

/// Writing out the pieces of every list is writing out the lists' joins.
proof fn lemma_join_join<A>(ls: Seq<Seq<Seq<A>>>)
    ensures
        join(join(ls)) == join(Seq::new(ls.len(), |k: int| join(ls[k]))),
    decreases ls.len(),
{
    if ls.len() > 0 {
        lemma_join_join(ls.drop_last());
        lemma_join_concat(join(ls.drop_last()), ls.last());
        let inner = Seq::new(ls.len(), |k: int| join(ls[k]));
        assert(inner.drop_last() =~= Seq::new(
            ls.drop_last().len(),
            |k: int| join(ls.drop_last()[k]),
        ));
    }
}

/// Byte-level encoding of the words of a text, written one after another,
/// is the byte-level encoding of the whole text.
pub proof fn lemma_join_byte_level(words: Seq<Seq<char>>)
    ensures
        join(Seq::new(words.len(), |k: int| byte_level(encode_utf8(words[k]), byte_table())))
            == byte_level(encode_utf8(join(words)), byte_table()),
    decreases words.len(),
{
    let f = Seq::new(words.len(), |k: int| byte_level(encode_utf8(words[k]), byte_table()));
    if words.len() == 0 {
        assert(byte_level(encode_utf8(join(words)), byte_table()) =~= Seq::<char>::empty());
    } else {
        lemma_join_byte_level(words.drop_last());
        assert(f.drop_last() =~= Seq::new(
            words.drop_last().len(),
            |k: int| byte_level(encode_utf8(words.drop_last()[k]), byte_table()),
        ));
        lemma_encode_utf8_concat(join(words.drop_last()), words.last());
        assert(byte_level(encode_utf8(join(words)), byte_table()) =~= byte_level(
            encode_utf8(join(words.drop_last())),
            byte_table(),
        ) + byte_level(encode_utf8(words.last()), byte_table()));
    }
}

/// The ids of tokens that are all in the vocabulary name exactly those
/// tokens again, when every index fits a `u32`.
proof fn lemma_pieces_of_ids(vocab: Seq<Seq<char>>, toks: Seq<Seq<char>>)
    requires
        vocab.len() <= u32::MAX + 1,
        forall|j: int| 0 <= j < toks.len() ==> (#[trigger] token_index(vocab, toks[j])) is Some,
    ensures
        pieces_text(vocab, token_ids(vocab, toks)) == join(toks),
        forall|j: int|
            0 <= j < toks.len() ==> (#[trigger] token_ids(vocab, toks)[j] as int) < vocab.len(),
{
    let ids = token_ids(vocab, toks);
    assert forall|j: int| 0 <= j < toks.len() implies (#[trigger] token_ids(vocab, toks)[j] as int)
        < vocab.len() && vocab[ids[j] as int] == toks[j] by {
        lemma_token_index(vocab, toks[j]);
    }
    assert(Seq::new(ids.len(), |k: int| vocab[ids[k] as int]) =~= toks);
}

/// Decoding what a well-formed model encodes gives the text back: every
/// token of the text is in the vocabulary, every id names a token, and the
/// bytes that the ids stand for are the UTF-8 encoding of the text. With
/// the contracts of `encode` and `decode`,
/// `model.decode(&model.encode(text)) == text` for every text.
pub proof fn lemma_decode_encode(model: &BpeModel, text: Seq<char>)
    requires
        model.wf(),
        model@.vocab.len() <= u32::MAX + 1,
    ensures
        model.covers(text),
        forall|k: int|
            0 <= k < model.encode_spec(text).len() ==> (#[trigger] model.encode_spec(text)[k] as int)
                < model@.vocab.len(),
        model.decoded_bytes(model.encode_spec(text)) == encode_utf8(text),
        valid_utf8(model.decoded_bytes(model.encode_spec(text))),
        decode_utf8(model.decoded_bytes(model.encode_spec(text))) == text,
{
    let v = model@;
    let words = pretokenize_spec(text);
    let lists = model.text_word_tokens(text);
    lemma_byte_table_codes();
    // every token is in the vocabulary
    assert forall|k: int, j: int| 0 <= k < lists.len() && 0 <= j < lists[k].len() implies (
    #[trigger] token_index(v.vocab, lists[k][j])) is Some by {
        let syms = word_symbols(words[k]);
        assert forall|m: int| 0 <= m < syms.len() implies (#[trigger] token_index(
            v.vocab,
            syms[m],
        )) is Some by {
            let bytes = encode_utf8(words[k]);
            let b = bytes[m] as int;
            assert(syms[m] == seq![byte_table()[b]]);
        }
        lemma_merge_word_in_vocab(v.vocab, v.merges, syms);
    }
    // and so is every token of the joined list
    let toks = join(lists);
    lemma_join_tokens_in_vocab(v.vocab, lists);
    lemma_pieces_of_ids(v.vocab, toks);
    // the tokens, written out, are the byte-level encoding of the text
    lemma_join_join(lists);
    let per_word = Seq::new(lists.len(), |k: int| join(lists[k]));
    assert forall|k: int| 0 <= k < lists.len() implies per_word[k] == byte_level(
        encode_utf8(words[k]),
        byte_table(),
    ) by {
        lemma_merge_word_join(v.merges, word_symbols(words[k]));
        lemma_join_singles(byte_level(encode_utf8(words[k]), byte_table()));
    }
    assert(per_word =~= Seq::new(
        words.len(),
        |k: int| byte_level(encode_utf8(words[k]), byte_table()),
    ));
    lemma_join_byte_level(words);
    lemma_pretokenize_splits(text);
    assert(join(toks) == byte_level(encode_utf8(text), byte_table()));
    lemma_encode_decode_bytes(text);
}

proof fn lemma_join_tokens_in_vocab(vocab: Seq<Seq<char>>, lists: Seq<Seq<Seq<char>>>)
    requires
        forall|k: int, j: int|
            0 <= k < lists.len() && 0 <= j < lists[k].len() ==> (#[trigger] token_index(
                vocab,
                lists[k][j],
            )) is Some,
    ensures
        forall|j: int|
            0 <= j < join(lists).len() ==> (#[trigger] token_index(vocab, join(lists)[j])) is Some,
    decreases lists.len(),
{
    if lists.len() > 0 {
        lemma_join_tokens_in_vocab(vocab, lists.drop_last());
        let a = join(lists.drop_last());
        let b = lists.last();
        assert forall|j: int| 0 <= j < join(lists).len() implies (#[trigger] token_index(
            vocab,
            join(lists)[j],
        )) is Some by {
            if j < a.len() {
                assert(join(lists)[j] == a[j]);
            } else {
                assert(join(lists)[j] == b[j - a.len()]);
                assert(lists[lists.len() - 1][j - a.len()] == b[j - a.len()]);
            }
        }
    }
}

proof fn lemma_join_cons<A>(x: Seq<A>, t: Seq<Seq<A>>)
    ensures
        join(seq![x] + t) == x + join(t),
{
    lemma_join_concat(seq![x], t);
    lemma_join_singleton(x);
}

/// Applying a rule only fuses pieces: written out, the pieces are the same
/// text before and after.
pub proof fn lemma_apply_merge_join(s: Seq<Seq<char>>, a: Seq<char>, b: Seq<char>)
    ensures
        join(apply_merge_spec(s, a, b, a + b)) == join(s),
    decreases s.len(),
{
    if s.len() > 0 {
        if s.len() >= 2 && s[0] == a && s[1] == b {
            lemma_apply_merge_join(s.skip(2), a, b);
            lemma_join_cons(a + b, apply_merge_spec(s.skip(2), a, b, a + b));
            assert(s =~= seq![s[0]] + (seq![s[1]] + s.skip(2)));
            lemma_join_cons(s[0], seq![s[1]] + s.skip(2));
            lemma_join_cons(s[1], s.skip(2));
            assert(a + b + join(s.skip(2)) =~= a + (b + join(s.skip(2))));
        } else {
            lemma_apply_merge_join(s.skip(1), a, b);
            lemma_join_cons(s[0], apply_merge_spec(s.skip(1), a, b, a + b));
            assert(s =~= seq![s[0]] + s.skip(1));
            lemma_join_cons(s[0], s.skip(1));
        }
    }
}

proof fn lemma_apply_merge_head(s: Seq<Seq<char>>, a: Seq<char>, b: Seq<char>, m: Seq<char>)
    requires
        s.len() > 0,
    ensures
        apply_merge_spec(s, a, b, m).len() > 0,
        apply_merge_spec(s, a, b, m)[0] == (if s.len() >= 2 && s[0] == a && s[1] == b {
            m
        } else {
            s[0]
        }),
{
}

/// Applying a rule fuses every occurrence: with non-empty pieces `a` and
/// `b`, no piece `a` is left directly before a piece `b`, and every piece of
/// the result is a piece it started from or the fusion `a + b`.
pub proof fn lemma_apply_merge_complete(s: Seq<Seq<char>>, a: Seq<char>, b: Seq<char>)
    requires
        a.len() > 0,
        b.len() > 0,
    ensures
        forall|k: int|
            0 <= k < apply_merge_spec(s, a, b, a + b).len() - 1 ==> !(#[trigger] apply_merge_spec(
                s,
                a,
                b,
                a + b,
            )[k] == a && apply_merge_spec(s, a, b, a + b)[k + 1] == b),
        forall|k: int|
            0 <= k < apply_merge_spec(s, a, b, a + b).len() ==> #[trigger] apply_merge_spec(s, a, b, a + b)[k]
                == a + b || s.contains(apply_merge_spec(s, a, b, a + b)[k]),
    decreases s.len(),
{
    let m = a + b;
    let r = apply_merge_spec(s, a, b, m);
    assert(m.len() > a.len() && m.len() > b.len());
    assert(m != a && m != b);
    if s.len() > 0 {
        if s.len() >= 2 && s[0] == a && s[1] == b {
            let t = s.skip(2);
            lemma_apply_merge_complete(t, a, b);
            let rt = apply_merge_spec(t, a, b, m);
            assert(r == seq![m] + rt);
            assert forall|k: int| 0 <= k < r.len() - 1 implies !(#[trigger] r[k] == a && r[k + 1] == b) by {
                if k > 0 {
                    assert(r[k] == rt[k - 1] && r[k + 1] == rt[k]);
                }
            }
            assert forall|k: int| 0 <= k < r.len() implies #[trigger] r[k] == m || s.contains(r[k]) by {
                if k > 0 {
                    assert(r[k] == rt[k - 1]);
                    if rt[k - 1] != m {
                        let j = choose|j: int| 0 <= j < t.len() && t[j] == rt[k - 1];
                        assert(s[j + 2] == t[j]);
                    }
                }
            }
        } else {
            let t = s.skip(1);
            lemma_apply_merge_complete(t, a, b);
            let rt = apply_merge_spec(t, a, b, m);
            assert(r == seq![s[0]] + rt);
            assert forall|k: int| 0 <= k < r.len() - 1 implies !(#[trigger] r[k] == a && r[k + 1] == b) by {
                if k > 0 {
                    assert(r[k] == rt[k - 1] && r[k + 1] == rt[k]);
                } else {
                    lemma_apply_merge_head(t, a, b, m);
                    assert(r[1] == rt[0]);
                    assert(t[0] == s[1]);
                }
            }
            assert forall|k: int| 0 <= k < r.len() implies #[trigger] r[k] == m || s.contains(r[k]) by {
                if k > 0 {
                    assert(r[k] == rt[k - 1]);
                    if rt[k - 1] != m {
                        let j = choose|j: int| 0 <= j < t.len() && t[j] == rt[k - 1];
                        assert(s[j + 1] == t[j]);
                    }
                } else {
                    assert(s.contains(s[0]));
                }
            }
        }
    }
}

/// Merging a word stops only when no adjacent pair of its pieces has a rule.
pub proof fn lemma_merge_word_done(ms: Seq<(Seq<char>, Seq<char>)>, s: Seq<Seq<char>>)
    ensures
        best_merge(ms, merge_word_spec(ms, s)) is None,
    decreases s.len(),
{
    lemma_best_merge_in_range(ms, s);
    match best_merge(ms, s) {
        Some(p) => {
            lemma_merge_at_join(s, p.0);
            lemma_merge_word_done(ms, merge_at(s, p.0));
        },
        None => {},
    }
}

/// The rank of the adjacent pair of `s` at `i`, if its pair is a rule.
pub open spec fn pair_rank(ms: Seq<(Seq<char>, Seq<char>)>, s: Seq<Seq<char>>, i: int) -> Option<nat> {
    rank_of(ms, s[i], s[i + 1])
}

/// `i` is where greedy merging fuses next: the adjacent pair at `i` has a
/// rule, no adjacent pair has a lower rank, and no adjacent pair left of
/// `i` has the same rank (the leftmost of the lowest).
pub open spec fn is_next_merge(ms: Seq<(Seq<char>, Seq<char>)>, s: Seq<Seq<char>>, i: int) -> bool {
    &&& 0 <= i < s.len() - 1
    &&& pair_rank(ms, s, i) is Some
    &&& forall|j: int|
        0 <= j < s.len() - 1 && (#[trigger] pair_rank(ms, s, j)) is Some ==> pair_rank(ms, s, i)->0
            <= pair_rank(ms, s, j)->0
    &&& forall|j: int| 0 <= j < i ==> #[trigger] pair_rank(ms, s, j) != pair_rank(ms, s, i)
}

proof fn lemma_best_merge_upto_is_least(ms: Seq<(Seq<char>, Seq<char>)>, s: Seq<Seq<char>>, k: nat)
    requires
        k < s.len(),
    ensures
        best_merge_upto(ms, s, k) matches Some(p) ==> {
            &&& 0 <= p.0 < k
            &&& pair_rank(ms, s, p.0) == Some(p.1)
            &&& forall|j: int| 0 <= j < k && (#[trigger] pair_rank(ms, s, j)) is Some ==> p.1 <= pair_rank(ms, s, j)->0
            &&& forall|j: int| 0 <= j < p.0 ==> #[trigger] pair_rank(ms, s, j) != Some(p.1)
        },
        best_merge_upto(ms, s, k) is None ==> forall|j: int| 0 <= j < k ==> (#[trigger] pair_rank(ms, s, j)) is None,
    decreases k,
{
    if k > 0 {
        lemma_best_merge_upto_is_least(ms, s, (k - 1) as nat);
    }
}

/// Greedy merging fuses the leftmost adjacent pair of lowest rank: when `i`
/// is that pair, merging the word gives what merging it with the pieces at
/// `i` and `i + 1` fused gives.
pub proof fn lemma_merge_word_next(ms: Seq<(Seq<char>, Seq<char>)>, s: Seq<Seq<char>>, i: int)
    requires
        is_next_merge(ms, s, i),
    ensures
        best_merge(ms, s) == Some((i, pair_rank(ms, s, i)->0)),
        merge_word_spec(ms, s) == merge_word_spec(ms, merge_at(s, i)),
{
    lemma_best_merge_upto_is_least(ms, s, (s.len() - 1) as nat);
    let ri = pair_rank(ms, s, i)->0;
    match best_merge(ms, s) {
        Some(p) => {
            assert(p.1 <= ri);
            assert(ri <= p.1);
            if p.0 < i {
                assert(pair_rank(ms, s, p.0) != pair_rank(ms, s, i));
            } else if i < p.0 {
                assert(pair_rank(ms, s, i) != Some(p.1));
            }
        },
        None => {
            assert(pair_rank(ms, s, i) is None);
        },
    }
}

/// Greedy merging stops exactly when no adjacent pair is a rule: then the
/// word comes out as it went in.
pub proof fn lemma_merge_word_none(ms: Seq<(Seq<char>, Seq<char>)>, s: Seq<Seq<char>>)
    requires
        forall|j: int| 0 <= j < s.len() - 1 ==> (#[trigger] pair_rank(ms, s, j)) is None,
    ensures
        best_merge(ms, s) is None,
        merge_word_spec(ms, s) == s,
{
    if s.len() >= 2 {
        lemma_best_merge_upto_is_least(ms, s, (s.len() - 1) as nat);
    }
}

/// Merging never adds pieces.
pub proof fn lemma_merge_word_len(ms: Seq<(Seq<char>, Seq<char>)>, s: Seq<Seq<char>>)
    ensures
        merge_word_spec(ms, s).len() <= s.len(),
    decreases s.len(),
{
    lemma_best_merge_in_range(ms, s);
    match best_merge(ms, s) {
        Some(p) => {
            lemma_merge_at_join(s, p.0);
            lemma_merge_word_len(ms, merge_at(s, p.0));
        },
        None => {},
    }
}

proof fn lemma_rank_of_empty(ms: Seq<(Seq<char>, Seq<char>)>, s: Seq<Seq<char>>, k: nat)
    requires
        ms.len() == 0,
    ensures
        best_merge_upto(ms, s, k) is None,
    decreases k,
{
    if k > 0 {
        lemma_rank_of_empty(ms, s, (k - 1) as nat);
    }
}

proof fn lemma_join_len_le<A, B>(l1: Seq<Seq<A>>, l2: Seq<Seq<B>>)
    requires
        l1.len() == l2.len(),
        forall|k: int| 0 <= k < l1.len() ==> (#[trigger] l1[k]).len() <= l2[k].len(),
    ensures
        join(l1).len() <= join(l2).len(),
        (forall|k: int| 0 <= k < l1.len() ==> (#[trigger] l1[k]).len() == l2[k].len()) ==> join(
            l1,
        ).len() == join(l2).len(),
    decreases l1.len(),
{
    if l1.len() > 0 {
        lemma_join_len_le(l1.drop_last(), l2.drop_last());
    }
}

/// Encoding never gives more tokens than the text has UTF-8 bytes, and
/// exactly one token per byte when no rule has been learned.
pub proof fn lemma_encode_len(model: &BpeModel, text: Seq<char>)
    ensures
        model.encode_spec(text).len() <= encode_utf8(text).len(),
        model@.merges.len() == 0 ==> model.encode_spec(text).len() == encode_utf8(text).len(),
{
    let v = model@;
    let words = pretokenize_spec(text);
    let lists = model.text_word_tokens(text);
    let bytes = Seq::new(words.len(), |k: int| byte_level(encode_utf8(words[k]), byte_table()));
    assert forall|k: int| 0 <= k < lists.len() implies (#[trigger] lists[k]).len() <= bytes[k].len()
        && (v.merges.len() == 0 ==> lists[k].len() == bytes[k].len()) by {
        lemma_merge_word_len(v.merges, word_symbols(words[k]));
        if v.merges.len() == 0 {
            let syms = word_symbols(words[k]);
            if syms.len() >= 2 {
                lemma_rank_of_empty(v.merges, syms, (syms.len() - 1) as nat);
            }
        }
    }
    lemma_join_len_le(lists, bytes);
    lemma_join_byte_level(words);
    lemma_pretokenize_splits(text);
}

/// Encoding splits at a word that opens with a space: when `t` starts with
/// a space, the ids of `s` followed by `t` are the ids of `s` followed by
/// the ids of `t`, and every token of the whole is in the vocabulary
/// exactly when every token of both parts is.
pub proof fn lemma_encode_concat(model: &BpeModel, s: Seq<char>, t: Seq<char>)
    requires
        t.len() > 0,
        t[0] == ' ',
    ensures
        model.encode_spec(s + t) == model.encode_spec(s) + model.encode_spec(t),
        model.covers(s + t) <==> model.covers(s) && model.covers(t),
{
    let v = model@;
    lemma_pretokenize_concat(s, t);
    let ws = pretokenize_spec(s);
    let wt = pretokenize_spec(t);
    let ls = model.text_word_tokens(s);
    let lt = model.text_word_tokens(t);
    let l = model.text_word_tokens(s + t);
    assert(l =~= ls + lt);
    lemma_join_concat(ls, lt);
    assert(token_ids(v.vocab, join(ls) + join(lt)) =~= token_ids(v.vocab, join(ls)) + token_ids(
        v.vocab,
        join(lt),
    ));
    if model.covers(s + t) {
        assert forall|k: int, j: int| 0 <= k < ls.len() && 0 <= j < ls[k].len() implies (
        #[trigger] token_index(v.vocab, ls[k][j])) is Some by {
            assert(l[k] == ls[k]);
        }
        assert forall|k: int, j: int| 0 <= k < lt.len() && 0 <= j < lt[k].len() implies (
        #[trigger] token_index(v.vocab, lt[k][j])) is Some by {
            assert(l[ls.len() + k] == lt[k]);
        }
    }
    if model.covers(s) && model.covers(t) {
        assert forall|k: int, j: int| 0 <= k < l.len() && 0 <= j < l[k].len() implies (#[trigger] token_index(
            v.vocab,
            l[k][j],
        )) is Some by {
            if k < ls.len() {
                assert(l[k] == ls[k]);
            } else {
                assert(l[k] == lt[k - ls.len()]);
            }
        }
    }
}

/// Saving and loading keeps the model: when `json` is what `to_json` wrote
/// of `m` and `back` is what `from_json` read from it, `back` has the same
/// vocabulary and rules, encodes every text to the same ids and decodes
/// every ids to the same bytes, and is well-formed when `m` is, so that
/// decoding what `back` encodes gives the text back too.
pub proof fn lemma_save_load(m: &BpeModel, json: Seq<char>, back: &BpeModel)
    requires
        plain_model(json) == Some((m@.vocab, m@.merges)),
        Some((back@.vocab, back@.merges)) == plain_model(json),
        back.tables_ok(),
    ensures
        back@ == m@,
        forall|t: Seq<char>| #[trigger] back.encode_spec(t) == m.encode_spec(t),
        forall|t: Seq<char>| #[trigger] back.covers(t) == m.covers(t),
        forall|ids: Seq<u32>| #[trigger] back.decoded_bytes(ids) == m.decoded_bytes(ids),
        m.wf() ==> back.wf(),
{
    assert(back@ == m@);
}

/// Saving in the HuggingFace shape and loading back keeps the model: when
/// `json` is what `to_hf_json` wrote of `m` (whose tokens do not repeat) and
/// `back` is what `from_hf_json` read from it, `back` has the same
/// vocabulary and rules, encodes and decodes as `m` does, and is
/// well-formed when `m` is.
pub proof fn lemma_hf_save_load(m: &BpeModel, json: Seq<char>, back: &BpeModel)
    requires
        hf_model(json) == Some((m@.vocab, m@.merges)),
        Some((back@.vocab, back@.merges)) == hf_model(json),
        back.tables_ok(),
    ensures
        back@ == m@,
        forall|t: Seq<char>| #[trigger] back.encode_spec(t) == m.encode_spec(t),
        forall|t: Seq<char>| #[trigger] back.covers(t) == m.covers(t),
        forall|ids: Seq<u32>| #[trigger] back.decoded_bytes(ids) == m.decoded_bytes(ids),
        m.wf() ==> back.wf(),
{
    assert(back@ == m@);
}

impl BpeModel {
    /// Serialize to JSON (`vocab` + `merges`): reading the text back as a
    /// plain model gives this model's vocabulary and rules.
    pub fn to_json(&self) -> (r: String)
        ensures
            is_plain_object(r@),
            plain_model(r@) == Some((self@.vocab, self@.merges)),
    {
        plain_json(&self.vocab, &self.merges)
    }

    /// Load from JSON (`vocab` + `merges`), rebuilding the byte tables.
    pub fn from_json(json: &str) -> (r: Result<BpeModel, serde_json::Error>)
        ensures
            r is Ok <==> plain_model(json@) is Some,
            r matches Ok(m) ==> m.tables_ok() && Some((m@.vocab, m@.merges)) == plain_model(json@),
    {
        let (vocab, merges) = read_plain_json(json)?;
        Ok(BpeModel::finalize(vocab, merges, byte_encoder()))
    }

    /// Serialize to a HuggingFace `tokenizer.json` shape (see `hf_json`):
    /// when no token repeats, reading the text back in that shape gives
    /// this model's vocabulary and rules.
    pub fn to_hf_json(&self) -> (r: String)
        ensures
            (forall|i: int, j: int| 0 <= i < j < self@.vocab.len() ==> self@.vocab[i] != self@.vocab[j])
                ==> hf_model(r@) == Some((self@.vocab, self@.merges)),
            (forall|i: int, j: int| 0 <= i < j < self@.vocab.len() ==> self@.vocab[i] != self@.vocab[j])
                && !self@.vocab.contains("<unk>"@) ==> hf_unk_id(r@) == Some(self@.vocab.len() as u64)
                && hf_listed(r@) == seq![("<unk>"@, self@.vocab.len() as u64)],
            (forall|i: int, j: int| 0 <= i < j < self@.vocab.len() ==> self@.vocab[i] != self@.vocab[j])
                ==> forall|k: int|
                0 <= k < self@.vocab.len() && self@.vocab[k] == "<unk>"@ ==> hf_unk_id(r@) == Some(k as u64),
    {
        let r = hf_json(&self.vocab, &self.merges);
        proof {
            let v = self@.vocab;
            if forall|i: int, j: int| 0 <= i < j < v.len() ==> v[i] != v[j] {
                assert forall|i: int, j: int| 0 <= i < j < self.vocab@.len() implies self.vocab@[i]@
                    != self.vocab@[j]@ by {
                    assert(v[i] != v[j]);
                }
            }
        }
        r
    }

    /// Load from a HuggingFace `tokenizer.json` shape (see `read_hf_json`),
    /// rebuilding the byte tables.
    pub fn from_hf_json(json: &str) -> (r: Result<BpeModel, serde_json::Error>)
        ensures
            r is Ok <==> hf_model(json@) is Some,
            r matches Ok(m) ==> m.tables_ok() && Some((m@.vocab, m@.merges)) == hf_model(json@),
    {
        let (vocab, merges) = read_hf_json(json)?;
        Ok(BpeModel::finalize(vocab, merges, byte_encoder()))
    }
}

} // verus!
