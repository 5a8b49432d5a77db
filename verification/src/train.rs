//! Learning the merge rules from a corpus.
use vstd::prelude::*;
use vstd::utf8::*;

use crate::bpe::{
    apply_merge, apply_merge_spec, char_strings, lemma_join_byte_level, lemma_pretokenize_splits,
    pretokenize, pretokenize_spec, token_index, BpeModel,
};
use crate::byte_level::{
    alphabet, byte_encoder, byte_level, byte_table, encode_bytes, lemma_alphabet_of_table,
    lemma_sorted_alphabet_has_table, sorted_alphabet,
};
use crate::seqs::{join, lemma_join_push, singles, str_pairs, strs};
use crate::text::push_char;

verus! {

// ---------------------------------------------------------------------------
// The order on pieces and on pairs of pieces
// ---------------------------------------------------------------------------
/// String order: lexicographic by codepoint, a proper prefix first (the
/// order of `str`, whose UTF-8 bytes compare as the codepoints do).
pub open spec fn str_lt(x: Seq<char>, y: Seq<char>) -> bool
    decreases x.len(),
{
    if x.len() == 0 {
        y.len() > 0
    } else if y.len() == 0 {
        false
    } else if x[0] != y[0] {
        (x[0] as u32) < (y[0] as u32)
    } else {
        str_lt(x.drop_first(), y.drop_first())
    }
}

/// Pair order: by first piece, then by second piece.
pub open spec fn pair_lt(p: (Seq<char>, Seq<char>), q: (Seq<char>, Seq<char>)) -> bool {
    str_lt(p.0, q.0) || (p.0 == q.0 && str_lt(p.1, q.1))
}

pub proof fn lemma_str_lt_irreflexive(x: Seq<char>)
    ensures
        !str_lt(x, x),
    decreases x.len(),
{
    if x.len() > 0 {
        lemma_str_lt_irreflexive(x.drop_first());
    }
}

pub proof fn lemma_str_lt_transitive(x: Seq<char>, y: Seq<char>, z: Seq<char>)
    requires
        str_lt(x, y),
        str_lt(y, z),
    ensures
        str_lt(x, z),
    decreases x.len(),
{
    if x.len() > 0 && y.len() > 0 && z.len() > 0 {
        if x[0] == y[0] && y[0] == z[0] {
            lemma_str_lt_transitive(x.drop_first(), y.drop_first(), z.drop_first());
        } else if x[0] == y[0] {
        } else if y[0] == z[0] {
        } else {
            if x[0] == z[0] {
                crate::byte_level::lemma_char_eq(x[0], z[0]);
            }
        }
    }
}

pub proof fn lemma_str_lt_total(x: Seq<char>, y: Seq<char>)
    requires
        x != y,
    ensures
        str_lt(x, y) || str_lt(y, x),
    decreases x.len(),
{
    if x.len() > 0 && y.len() > 0 {
        if x[0] == y[0] {
            if x.drop_first() == y.drop_first() {
                assert(x =~= seq![x[0]] + x.drop_first());
                assert(y =~= seq![y[0]] + y.drop_first());
            }
            lemma_str_lt_total(x.drop_first(), y.drop_first());
        } else {
            if (x[0] as u32) == (y[0] as u32) {
                crate::byte_level::lemma_char_eq(x[0], y[0]);
            }
        }
    } else if x.len() == 0 && y.len() == 0 {
        assert(x =~= y);
    }
}

pub proof fn lemma_pair_lt_order(
    p: (Seq<char>, Seq<char>),
    q: (Seq<char>, Seq<char>),
    r: (Seq<char>, Seq<char>),
)
    ensures
        !pair_lt(p, p),
        pair_lt(p, q) && pair_lt(q, r) ==> pair_lt(p, r),
        p != q ==> pair_lt(p, q) || pair_lt(q, p),
        pair_lt(p, q) ==> !pair_lt(q, p),
{
    lemma_str_lt_irreflexive(p.0);
    lemma_str_lt_irreflexive(p.1);
    if pair_lt(p, q) && pair_lt(q, r) {
        if str_lt(p.0, q.0) && str_lt(q.0, r.0) {
            lemma_str_lt_transitive(p.0, q.0, r.0);
        } else if str_lt(p.1, q.1) && str_lt(q.1, r.1) && p.0 == q.0 && q.0 == r.0 {
            lemma_str_lt_transitive(p.1, q.1, r.1);
        }
    }
    if p != q {
        if p.0 != q.0 {
            lemma_str_lt_total(p.0, q.0);
        } else {
            lemma_str_lt_total(p.1, q.1);
        }
    }
    if pair_lt(p, q) && pair_lt(q, p) {
        if str_lt(p.0, q.0) && str_lt(q.0, p.0) {
            lemma_str_lt_transitive(p.0, q.0, p.0);
            lemma_str_lt_irreflexive(p.0);
        } else if str_lt(p.0, q.0) {
            lemma_str_lt_irreflexive(p.0);
        } else if str_lt(q.0, p.0) {
            lemma_str_lt_irreflexive(p.0);
        } else {
            lemma_str_lt_transitive(p.1, q.1, p.1);
            lemma_str_lt_irreflexive(p.1);
        }
    }
}

/// `x < y` in string order.
fn str_less(x: &String, y: &String) -> (r: bool)
    ensures
        r == str_lt(x@, y@),
{
    let xs = crate::text::str_chars(x.as_str());
    let ys = crate::text::str_chars(y.as_str());
    let mut k: usize = 0;
    assert(xs@.skip(0) =~= xs@);
    assert(ys@.skip(0) =~= ys@);
    while k < xs.len() && k < ys.len()
        invariant
            0 <= k <= xs@.len(),
            k <= ys@.len(),
            xs@ == x@,
            ys@ == y@,
            str_lt(x@, y@) == str_lt(xs@.skip(k as int), ys@.skip(k as int)),
        decreases xs@.len() - k,
    {
        let a = xs[k];
        let b = ys[k];
        if a != b {
            return (a as u32) < (b as u32);
        }
        assert(xs@.skip(k as int).drop_first() =~= xs@.skip(k + 1));
        assert(ys@.skip(k as int).drop_first() =~= ys@.skip(k + 1));
        k = k + 1;
    }
    k < ys.len()
}

// ---------------------------------------------------------------------------
// Counting adjacent pairs
// ---------------------------------------------------------------------------
/// The symbol lists of the words, as text.
pub open spec fn word_lists(words: Seq<Vec<String>>) -> Seq<Seq<Seq<char>>> {
    Seq::new(words.len(), |j: int| strs(words[j]@))
}

/// The word counts, as numbers.
pub open spec fn nats(counts: Seq<u64>) -> Seq<nat> {
    Seq::new(counts.len(), |j: int| counts[j] as nat)
}

/// How many of the first `n` windows of `s` are the pair `(a, b)`.
pub open spec fn occurrences(s: Seq<Seq<char>>, a: Seq<char>, b: Seq<char>, n: nat) -> nat
    decreases n,
{
    if n == 0 {
        0
    } else {
        occurrences(s, a, b, (n - 1) as nat) + if s[n - 1] == a && s[n as int] == b {
            1nat
        } else {
            0nat
        }
    }
}

/// How often the pair `(a, b)` occurs adjacent in `s`.
pub open spec fn pair_occurrences(s: Seq<Seq<char>>, a: Seq<char>, b: Seq<char>) -> nat {
    if s.len() < 2 {
        0
    } else {
        occurrences(s, a, b, (s.len() - 1) as nat)
    }
}

/// How often `(a, b)` occurs adjacent in the first `j` words, each word
/// weighted by its count.
pub open spec fn pair_count_upto(
    ws: Seq<Seq<Seq<char>>>,
    cs: Seq<nat>,
    a: Seq<char>,
    b: Seq<char>,
    j: nat,
) -> nat
    decreases j,
{
    if j == 0 {
        0
    } else {
        pair_count_upto(ws, cs, a, b, (j - 1) as nat) + cs[j - 1] * pair_occurrences(
            ws[j - 1],
            a,
            b,
        )
    }
}

/// How often `(a, b)` occurs adjacent over the corpus.
pub open spec fn pair_count(ws: Seq<Seq<Seq<char>>>, cs: Seq<nat>, a: Seq<char>, b: Seq<char>) -> nat {
    pair_count_upto(ws, cs, a, b, ws.len())
}

/// The number of symbols in the first `j` words, each weighted by its count.
pub open spec fn weight_upto(ws: Seq<Seq<Seq<char>>>, cs: Seq<nat>, j: nat) -> nat
    decreases j,
{
    if j == 0 {
        0
    } else {
        weight_upto(ws, cs, (j - 1) as nat) + cs[j - 1] * ws[j - 1].len()
    }
}

/// The number of symbols over the corpus.
pub open spec fn weight(ws: Seq<Seq<Seq<char>>>, cs: Seq<nat>) -> nat {
    weight_upto(ws, cs, ws.len())
}

proof fn lemma_occurrences_bound(s: Seq<Seq<char>>, a: Seq<char>, b: Seq<char>, n: nat)
    ensures
        occurrences(s, a, b, n) <= n,
    decreases n,
{
    if n > 0 {
        lemma_occurrences_bound(s, a, b, (n - 1) as nat);
    }
}

proof fn lemma_mul_le(c: nat, x: nat, y: nat)
    requires
        x <= y,
    ensures
        c * x <= c * y,
{
    assert(c * x <= c * y) by (nonlinear_arith)
        requires
            x <= y,
    ;
}

proof fn lemma_mul_succ(c: nat, x: nat)
    ensures
        c * (x + 1) == c * x + c,
{
    assert(c * (x + 1) == c * x + c) by (nonlinear_arith);
}

/// The count of a pair is at most the weight.
proof fn lemma_pair_count_bound(
    ws: Seq<Seq<Seq<char>>>,
    cs: Seq<nat>,
    a: Seq<char>,
    b: Seq<char>,
    j: nat,
)
    requires
        j <= ws.len(),
        j <= cs.len(),
    ensures
        pair_count_upto(ws, cs, a, b, j) <= weight_upto(ws, cs, j),
    decreases j,
{
    if j > 0 {
        lemma_pair_count_bound(ws, cs, a, b, (j - 1) as nat);
        let s = ws[j - 1];
        if s.len() >= 2 {
            lemma_occurrences_bound(s, a, b, (s.len() - 1) as nat);
        }
        lemma_mul_le(cs[j - 1], pair_occurrences(s, a, b), s.len());
    }
}

proof fn lemma_weight_monotone(ws: Seq<Seq<Seq<char>>>, cs: Seq<nat>, j: nat, k: nat)
    requires
        j <= k <= ws.len(),
    ensures
        weight_upto(ws, cs, j) <= weight_upto(ws, cs, k),
    decreases k,
{
    if j < k {
        lemma_weight_monotone(ws, cs, j, (k - 1) as nat);
    }
}

// ---------------------------------------------------------------------------
// Choosing the pair to merge
// ---------------------------------------------------------------------------
/// The adjacent pair at position `i` of word `j`.
pub open spec fn window(ws: Seq<Seq<Seq<char>>>, j: int, i: int) -> (Seq<char>, Seq<char>) {
    (ws[j][i], ws[j][i + 1])
}

/// `p` wins against `q`: `q` occurs less often, or as often and is not
/// smaller than `p`.
pub open spec fn beats(
    ws: Seq<Seq<Seq<char>>>,
    cs: Seq<nat>,
    p: (Seq<char>, Seq<char>),
    q: (Seq<char>, Seq<char>),
) -> bool {
    let cp = pair_count(ws, cs, p.0, p.1);
    let cq = pair_count(ws, cs, q.0, q.1);
    cq < cp || (cq == cp && !pair_lt(q, p))
}

/// `p` occurs, and wins against every pair that occurs: the most frequent
/// pair, a tie going to the smaller pair.
pub open spec fn is_best_pair(ws: Seq<Seq<Seq<char>>>, cs: Seq<nat>, p: (Seq<char>, Seq<char>)) -> bool {
    &&& pair_count(ws, cs, p.0, p.1) > 0
    &&& forall|q: (Seq<char>, Seq<char>)|
        pair_count(ws, cs, q.0, q.1) > 0 ==> #[trigger] beats(ws, cs, p, q)
}

/// The pair that training merges next, if any pair occurs.
pub open spec fn best_pair(ws: Seq<Seq<Seq<char>>>, cs: Seq<nat>) -> Option<(Seq<char>, Seq<char>)> {
    if exists|p: (Seq<char>, Seq<char>)| is_best_pair(ws, cs, p) {
        Some(choose|p: (Seq<char>, Seq<char>)| is_best_pair(ws, cs, p))
    } else {
        None
    }
}

/// There is at most one best pair.
pub proof fn lemma_best_pair_unique(
    ws: Seq<Seq<Seq<char>>>,
    cs: Seq<nat>,
    p: (Seq<char>, Seq<char>),
    q: (Seq<char>, Seq<char>),
)
    requires
        is_best_pair(ws, cs, p),
        is_best_pair(ws, cs, q),
    ensures
        p == q,
{
    assert(beats(ws, cs, p, q));
    assert(beats(ws, cs, q, p));
    lemma_pair_lt_order(p, q, q);
}

/// The pair at row `k` of a pair table.
pub open spec fn table_pair(firsts: Seq<String>, seconds: Seq<String>, k: int) -> (
    Seq<char>,
    Seq<char>,
) {
    (firsts[k]@, seconds[k]@)
}

/// The pair `(a, b)` has a row in the table.
pub open spec fn in_table(firsts: Seq<String>, seconds: Seq<String>, a: Seq<char>, b: Seq<char>) -> bool {
    exists|k: int| 0 <= k < firsts.len() && #[trigger] table_pair(firsts, seconds, k) == (a, b)
}

/// The row of the pair `(a, b)` in the table, if any.
fn find_pair(firsts: &Vec<String>, seconds: &Vec<String>, a: &String, b: &String) -> (r: Option<
    usize,
>)
    requires
        firsts@.len() == seconds@.len(),
    ensures
        match r {
            Some(k) => k < firsts@.len() && table_pair(firsts@, seconds@, k as int) == (a@, b@),
            None => !in_table(firsts@, seconds@, a@, b@),
        },
{
    let mut k: usize = 0;
    while k < firsts.len()
        invariant
            0 <= k <= firsts@.len(),
            firsts@.len() == seconds@.len(),
            forall|l: int| 0 <= l < k ==> #[trigger] table_pair(firsts@, seconds@, l) != (a@, b@),
        decreases firsts@.len() - k,
    {
        if firsts[k] == *a && seconds[k] == *b {
            return Some(k);
        }
        k = k + 1;
    }
    None
}

proof fn lemma_pos_mul(c: nat, x: nat)
    requires
        c >= 1,
        c * x == 0,
    ensures
        x == 0,
{
    assert(x == 0) by (nonlinear_arith)
        requires
            c >= 1,
            c * x == 0,
    ;
}

/// 1. Count every adjacent pair across the corpus: a table of distinct pairs,
/// each with how often it occurs, holding every pair that occurs.
fn count_pairs(words: &Vec<Vec<String>>, counts: &Vec<u64>) -> (t: (
    Vec<String>,
    Vec<String>,
    Vec<u64>,
))
    requires
        words@.len() == counts@.len(),
        weight(word_lists(words@), nats(counts@)) <= u64::MAX,
        forall|j: int| 0 <= j < counts@.len() ==> counts@[j] >= 1,
    ensures
        t.0@.len() == t.1@.len(),
        t.1@.len() == t.2@.len(),
        forall|k: int|
            0 <= k < t.2@.len() ==> #[trigger] t.2@[k] == pair_count(
                word_lists(words@),
                nats(counts@),
                t.0@[k]@,
                t.1@[k]@,
            ) && t.2@[k] > 0,
        forall|k: int, l: int|
            0 <= k < l < t.0@.len() ==> #[trigger] table_pair(t.0@, t.1@, k) != #[trigger] table_pair(
                t.0@,
                t.1@,
                l,
            ),
        forall|a: Seq<char>, b: Seq<char>|
            #[trigger] pair_count(word_lists(words@), nats(counts@), a, b) > 0 ==> in_table(
                t.0@,
                t.1@,
                a,
                b,
            ),
{
    let ghost ws = word_lists(words@);
    let ghost cs = nats(counts@);
    let mut firsts: Vec<String> = Vec::new();
    let mut seconds: Vec<String> = Vec::new();
    let mut tally: Vec<u64> = Vec::new();
    let mut j: usize = 0;
    while j < words.len()
        invariant
            0 <= j <= words@.len(),
            words@.len() == counts@.len(),
            ws == word_lists(words@),
            cs == nats(counts@),
            weight(ws, cs) <= u64::MAX,
            forall|jj: int| 0 <= jj < counts@.len() ==> counts@[jj] >= 1,
            firsts@.len() == seconds@.len(),
            seconds@.len() == tally@.len(),
            forall|k: int|
                0 <= k < tally@.len() ==> #[trigger] tally@[k] == pair_count_upto(
                    ws,
                    cs,
                    firsts@[k]@,
                    seconds@[k]@,
                    j as nat,
                ) && tally@[k] > 0,
            forall|k: int, l: int|
                0 <= k < l < firsts@.len() ==> #[trigger] table_pair(firsts@, seconds@, k)
                    != #[trigger] table_pair(firsts@, seconds@, l),
            forall|a: Seq<char>, b: Seq<char>|
                #[trigger] pair_count_upto(ws, cs, a, b, j as nat) > 0 ==> in_table(
                    firsts@,
                    seconds@,
                    a,
                    b,
                ),
        decreases words@.len() - j,
    {
        let s = &words[j];
        let c = counts[j];
        let ghost sv = ws[j as int];
        let ghost cj = cs[j as int];
        assert(sv == strs(s@));
        proof {
            lemma_weight_monotone(ws, cs, (j + 1) as nat, ws.len());
        }
        let n: usize = if s.len() >= 2 {
            s.len() - 1
        } else {
            0
        };
        let mut i: usize = 0;
        proof {
            assert forall|a: Seq<char>, b: Seq<char>|
                pair_count_upto(ws, cs, a, b, j as nat) + cj * occurrences(sv, a, b, 0) == pair_count_upto(
                    ws,
                    cs,
                    a,
                    b,
                    j as nat,
                ) by {
                assert(occurrences(sv, a, b, 0) == 0);
                assert(cj * 0 == 0);
            }
        }
        while i < n
            invariant
                0 <= i <= n,
                n == if s@.len() >= 2 {
                    s@.len() - 1
                } else {
                    0
                },
                j < words@.len(),
                sv == strs(s@),
                sv == ws[j as int],
                cj == cs[j as int],
                c == cj,
                cj >= 1,
                ws == word_lists(words@),
                cs == nats(counts@),
                words@.len() == counts@.len(),
                weight_upto(ws, cs, (j + 1) as nat) <= u64::MAX,
                firsts@.len() == seconds@.len(),
                seconds@.len() == tally@.len(),
                forall|k: int|
                    0 <= k < tally@.len() ==> #[trigger] tally@[k] == pair_count_upto(
                        ws,
                        cs,
                        firsts@[k]@,
                        seconds@[k]@,
                        j as nat,
                    ) + cj * occurrences(sv, firsts@[k]@, seconds@[k]@, i as nat) && tally@[k] > 0,
                forall|k: int, l: int|
                    0 <= k < l < firsts@.len() ==> #[trigger] table_pair(firsts@, seconds@, k)
                        != #[trigger] table_pair(firsts@, seconds@, l),
                forall|a: Seq<char>, b: Seq<char>|
                    pair_count_upto(ws, cs, a, b, j as nat) + cj * #[trigger] occurrences(
                        sv,
                        a,
                        b,
                        i as nat,
                    ) > 0 ==> in_table(firsts@, seconds@, a, b),
            decreases n - i,
        {
            let a = &s[i];
            let b = &s[i + 1];
            let ghost p = (a@, b@);
            assert(p == (sv[i as int], sv[i + 1]));
            proof {
                // a window changes only the count of its own pair
                assert forall|x: Seq<char>, y: Seq<char>|
                    #[trigger] occurrences(sv, x, y, (i + 1) as nat) == occurrences(sv, x, y, i as nat)
                        + if (x, y) == p {
                        1nat
                    } else {
                        0nat
                    } by {}
            }
            let ghost old_f = firsts@;
            let ghost old_s = seconds@;
            let ghost old_t = tally@;
            match find_pair(&firsts, &seconds, a, b) {
                Some(k) => {
                    let old = tally[k];
                    proof {
                        let pcu = pair_count_upto(ws, cs, a@, b@, j as nat);
                        lemma_pair_count_bound(ws, cs, a@, b@, j as nat);
                        lemma_occurrences_bound(sv, a@, b@, (i + 1) as nat);
                        lemma_mul_le(cj, occurrences(sv, a@, b@, (i + 1) as nat), sv.len());
                        lemma_mul_succ(cj, occurrences(sv, a@, b@, i as nat));
                        assert(weight_upto(ws, cs, (j + 1) as nat) == weight_upto(ws, cs, j as nat)
                            + cj * sv.len());
                        assert(old + c == pcu + cj * occurrences(sv, a@, b@, (i + 1) as nat));
                    }
                    tally.set(k, old + c);
                },
                None => {
                    proof {
                        let pcu = pair_count_upto(ws, cs, a@, b@, j as nat);
                        assert(!(pcu + cj * occurrences(sv, a@, b@, i as nat) > 0));
                        lemma_pos_mul(cj, occurrences(sv, a@, b@, i as nat));
                        assert(cj * 1 == cj);
                    }
                    firsts.push(a.clone());
                    seconds.push(b.clone());
                    tally.push(c);
                },
            }
            proof {
                assert forall|k: int|
                    0 <= k < tally@.len() implies #[trigger] tally@[k] == pair_count_upto(
                    ws,
                    cs,
                    firsts@[k]@,
                    seconds@[k]@,
                    j as nat,
                ) + cj * occurrences(sv, firsts@[k]@, seconds@[k]@, (i + 1) as nat) && tally@[k] > 0 by {
                    let q = table_pair(firsts@, seconds@, k);
                    assert(occurrences(sv, q.0, q.1, (i + 1) as nat) == occurrences(sv, q.0, q.1, i as nat)
                        + if q == p {
                        1nat
                    } else {
                        0nat
                    });
                    if k < old_t.len() {
                        assert(table_pair(old_f, old_s, k) == q);
                        if q == p {
                            lemma_mul_succ(cj, occurrences(sv, q.0, q.1, i as nat));
                        }
                    } else {
                        assert(q == p);
                        lemma_mul_succ(cj, occurrences(sv, q.0, q.1, i as nat));
                    }
                }
                assert forall|k: int, l: int|
                    0 <= k < l < firsts@.len() implies #[trigger] table_pair(firsts@, seconds@, k)
                    != #[trigger] table_pair(firsts@, seconds@, l) by {
                    if l < old_f.len() {
                        assert(table_pair(old_f, old_s, k) == table_pair(firsts@, seconds@, k));
                        assert(table_pair(old_f, old_s, l) == table_pair(firsts@, seconds@, l));
                    } else {
                        assert(table_pair(old_f, old_s, k) == table_pair(firsts@, seconds@, k));
                    }
                }
                assert forall|x: Seq<char>, y: Seq<char>|
                    pair_count_upto(ws, cs, x, y, j as nat) + cj * #[trigger] occurrences(
                        sv,
                        x,
                        y,
                        (i + 1) as nat,
                    ) > 0 implies in_table(firsts@, seconds@, x, y) by {
                    if (x, y) == p {
                        if in_table(old_f, old_s, x, y) || firsts@.len() == old_f.len() {
                            if firsts@.len() > old_f.len() {
                                let k = choose|k: int| 0 <= k < old_f.len() && #[trigger] table_pair(old_f, old_s, k) == (x, y);
                                assert(table_pair(firsts@, seconds@, k) == (x, y));
                            } else {
                                let k = choose|k: int| 0 <= k < firsts@.len() && #[trigger] table_pair(firsts@, seconds@, k) == (a@, b@);
                                assert(table_pair(firsts@, seconds@, k) == (x, y));
                            }
                        } else {
                            assert(table_pair(firsts@, seconds@, old_f.len() as int) == (x, y));
                        }
                    } else {
                        assert(occurrences(sv, x, y, (i + 1) as nat) == occurrences(sv, x, y, i as nat));
                        assert(in_table(old_f, old_s, x, y));
                        let k = choose|k: int| 0 <= k < old_f.len() && #[trigger] table_pair(old_f, old_s, k) == (x, y);
                        assert(table_pair(firsts@, seconds@, k) == (x, y));
                    }
                }
            }
            i = i + 1;
        }
        proof {
            // the last window of word j done: the counts reach word j + 1
            assert forall|x: Seq<char>, y: Seq<char>|
                pair_count_upto(ws, cs, x, y, (j + 1) as nat) == pair_count_upto(ws, cs, x, y, j as nat)
                    + cj * #[trigger] occurrences(sv, x, y, i as nat) by {
                if sv.len() < 2 {
                    assert(occurrences(sv, x, y, 0) == 0);
                    assert(cj * 0 == 0);
                }
            }
            assert forall|k: int|
                0 <= k < tally@.len() implies #[trigger] tally@[k] == pair_count_upto(
                ws,
                cs,
                firsts@[k]@,
                seconds@[k]@,
                (j + 1) as nat,
            ) && tally@[k] > 0 by {
                assert(occurrences(sv, firsts@[k]@, seconds@[k]@, i as nat) >= 0);
            }
            assert forall|x: Seq<char>, y: Seq<char>|
                #[trigger] pair_count_upto(ws, cs, x, y, (j + 1) as nat) > 0 implies in_table(
                firsts@,
                seconds@,
                x,
                y,
            ) by {
                assert(occurrences(sv, x, y, i as nat) >= 0);
            }
        }
        j = j + 1;
    }
    (firsts, seconds, tally)
}

/// 2. Pick the most frequent pair of the table; a tie goes to the smaller pair.
fn pick_best(firsts: &Vec<String>, seconds: &Vec<String>, tally: &Vec<u64>) -> (r: Option<
    (String, String, u64),
>)
    requires
        firsts@.len() == seconds@.len(),
        seconds@.len() == tally@.len(),
    ensures
        r is None <==> firsts@.len() == 0,
        r matches Some(p) ==> exists|k: int|
            0 <= k < firsts@.len() && #[trigger] table_pair(firsts@, seconds@, k) == (p.0@, p.1@)
                && tally@[k] == p.2,
        r matches Some(p) ==> forall|k: int|
            0 <= k < firsts@.len() ==> #[trigger] tally@[k] < p.2 || (tally@[k] == p.2 && !pair_lt(
                table_pair(firsts@, seconds@, k),
                (p.0@, p.1@),
            )),
{
    let mut best: Option<(String, String, u64)> = None;
    let mut k: usize = 0;
    while k < firsts.len()
        invariant
            0 <= k <= firsts@.len(),
            firsts@.len() == seconds@.len(),
            seconds@.len() == tally@.len(),
            best is None <==> k == 0,
            best matches Some(p) ==> exists|l: int|
                0 <= l < firsts@.len() && #[trigger] table_pair(firsts@, seconds@, l) == (p.0@, p.1@)
                    && tally@[l] == p.2,
            best matches Some(p) ==> forall|l: int|
                0 <= l < k ==> #[trigger] tally@[l] < p.2 || (tally@[l] == p.2 && !pair_lt(
                    table_pair(firsts@, seconds@, l),
                    (p.0@, p.1@),
                )),
        decreases firsts@.len() - k,
    {
        let a = &firsts[k];
        let b = &seconds[k];
        let c = tally[k];
        let ghost q = table_pair(firsts@, seconds@, k as int);
        let replace = match &best {
            None => true,
            Some(p) => c > p.2 || (c == p.2 && (str_less(a, &p.0) || (*a == p.0 && str_less(b, &p.1)))),
        };
        let ghost old_best = best;
        if replace {
            best = Some((a.clone(), b.clone(), c));
            proof {
                lemma_pair_lt_order(q, q, q);
                assert forall|l: int| 0 <= l < k + 1 implies #[trigger] tally@[l] < c || (tally@[l] == c
                    && !pair_lt(table_pair(firsts@, seconds@, l), q)) by {
                    if l < k {
                        let op = old_best->0;
                        let o = (op.0@, op.1@);
                        assert(tally@[l] < op.2 || (tally@[l] == op.2 && !pair_lt(
                            table_pair(firsts@, seconds@, l),
                            o,
                        )));
                        lemma_pair_lt_order(table_pair(firsts@, seconds@, l), q, o);
                    }
                }
            }
        } else {
            proof {
                let op = best->0;
                let o = (op.0@, op.1@);
                lemma_pair_lt_order(q, o, q);
                assert(tally@[k as int] < op.2 || (tally@[k as int] == op.2 && !pair_lt(q, o)));
            }
        }
        k = k + 1;
    }
    best
}

/// The pieces of a pair of strings.
pub open spec fn pair_view(p: Option<(String, String, u64)>) -> Option<(Seq<char>, Seq<char>)> {
    match p {
        Some(t) => Some((t.0@, t.1@)),
        None => None,
    }
}

/// The most frequent adjacent pair over the corpus and its count; a tie
/// goes to the smaller pair.
fn find_best_pair(words: &Vec<Vec<String>>, counts: &Vec<u64>) -> (best: Option<
    (String, String, u64),
>)
    requires
        words@.len() == counts@.len(),
        weight(word_lists(words@), nats(counts@)) <= u64::MAX,
        forall|j: int| 0 <= j < counts@.len() ==> counts@[j] >= 1,
    ensures
        pair_view(best) == best_pair(word_lists(words@), nats(counts@)),
        best matches Some(p) ==> p.2 == pair_count(word_lists(words@), nats(counts@), p.0@, p.1@),
{
    let ghost ws = word_lists(words@);
    let ghost cs = nats(counts@);
    let (firsts, seconds, tally) = count_pairs(words, counts);
    let best = pick_best(&firsts, &seconds, &tally);
    proof {
        match pair_view(best) {
            Some(bp) => {
                let k0 = choose|k: int|
                    0 <= k < firsts@.len() && #[trigger] table_pair(firsts@, seconds@, k) == bp
                        && tally@[k] == best.unwrap().2;
                assert(tally@[k0] == pair_count(ws, cs, bp.0, bp.1));
                assert forall|q: (Seq<char>, Seq<char>)|
                    pair_count(ws, cs, q.0, q.1) > 0 implies #[trigger] beats(ws, cs, bp, q) by {
                    assert(in_table(firsts@, seconds@, q.0, q.1));
                    let k = choose|k: int|
                        0 <= k < firsts@.len() && #[trigger] table_pair(firsts@, seconds@, k) == q;
                    assert(tally@[k] == pair_count(ws, cs, q.0, q.1));
                }
                assert(is_best_pair(ws, cs, bp));
                let chosen = choose|p: (Seq<char>, Seq<char>)| is_best_pair(ws, cs, p);
                lemma_best_pair_unique(ws, cs, bp, chosen);
            },
            None => {
                assert forall|p: (Seq<char>, Seq<char>)| !is_best_pair(ws, cs, p) by {
                    if pair_count(ws, cs, p.0, p.1) > 0 {
                        assert(in_table(firsts@, seconds@, p.0, p.1));
                    }
                }
            },
        }
    }
    best
}

// ---------------------------------------------------------------------------
// Folding identical words into counts
// ---------------------------------------------------------------------------
/// The first index at which `x` occurs in `s`.
pub open spec fn first_index(s: Seq<Seq<char>>, x: Seq<char>) -> Option<nat>
    decreases s.len(),
{
    if s.len() == 0 {
        None
    } else {
        match first_index(s.drop_last(), x) {
            Some(i) => Some(i),
            None => if s.last() == x {
                Some((s.len() - 1) as nat)
            } else {
                None
            },
        }
    }
}

/// The distinct words of `ws` in order of first occurrence, and how often
/// each occurs.
pub open spec fn group_words(ws: Seq<Seq<char>>) -> (Seq<Seq<char>>, Seq<nat>)
    decreases ws.len(),
{
    if ws.len() == 0 {
        (Seq::empty(), Seq::empty())
    } else {
        let (keys, counts) = group_words(ws.drop_last());
        match first_index(keys, ws.last()) {
            Some(k) => (keys, counts.update(k as int, counts[k as int] + 1)),
            None => (keys.push(ws.last()), counts.push(1)),
        }
    }
}

/// Each word as a list of one-char symbols.
pub open spec fn symbol_lists(keys: Seq<Seq<char>>) -> Seq<Seq<Seq<char>>> {
    Seq::new(keys.len(), |j: int| singles(keys[j]))
}

pub proof fn lemma_first_index(s: Seq<Seq<char>>, x: Seq<char>)
    ensures
        first_index(s, x) matches Some(i) ==> i < s.len() && s[i as int] == x,
        first_index(s, x) is None ==> !s.contains(x),
    decreases s.len(),
{
    if s.len() > 0 {
        lemma_first_index(s.drop_last(), x);
        if first_index(s, x) is None {
            assert forall|i: int| 0 <= i < s.len() implies s[i] != x by {
                if i < s.len() - 1 {
                    assert(s.drop_last()[i] == s[i]);
                }
            }
        }
    }
}

proof fn lemma_weight_agree(
    ws1: Seq<Seq<Seq<char>>>,
    cs1: Seq<nat>,
    ws2: Seq<Seq<Seq<char>>>,
    cs2: Seq<nat>,
    n: nat,
)
    requires
        forall|j: int| 0 <= j < n ==> (#[trigger] ws1[j]).len() == ws2[j].len(),
        forall|j: int| 0 <= j < n ==> #[trigger] cs1[j] == cs2[j],
    ensures
        weight_upto(ws1, cs1, n) == weight_upto(ws2, cs2, n),
    decreases n,
{
    if n > 0 {
        lemma_weight_agree(ws1, cs1, ws2, cs2, (n - 1) as nat);
    }
}

proof fn lemma_weight_le(
    ws1: Seq<Seq<Seq<char>>>,
    ws2: Seq<Seq<Seq<char>>>,
    cs: Seq<nat>,
    n: nat,
)
    requires
        forall|j: int| 0 <= j < n ==> ws1[j].len() <= ws2[j].len(),
    ensures
        weight_upto(ws1, cs, n) <= weight_upto(ws2, cs, n),
    decreases n,
{
    if n > 0 {
        lemma_weight_le(ws1, ws2, cs, (n - 1) as nat);
        lemma_mul_le(cs[n - 1], ws1[n - 1].len(), ws2[n - 1].len());
    }
}

proof fn lemma_weight_bump(ws: Seq<Seq<Seq<char>>>, cs: Seq<nat>, k: int, n: nat)
    requires
        0 <= k < cs.len(),
        n <= cs.len(),
    ensures
        weight_upto(ws, cs.update(k, cs[k] + 1), n) == weight_upto(ws, cs, n) + if k < n {
            ws[k].len()
        } else {
            0
        },
    decreases n,
{
    if n > 0 {
        lemma_weight_bump(ws, cs, k, (n - 1) as nat);
        if k == n - 1 {
            let c = cs[k];
            let l = ws[k].len();
            assert((c + 1) * l == c * l + l) by (nonlinear_arith);
        }
    }
}

/// Folding words into counts keeps every word: each count is at least one
/// and at most the number of words, and the counted symbols are all the
/// symbols of the words.
#[verifier::spinoff_prover]
pub proof fn lemma_group_words(ws: Seq<Seq<char>>)
    ensures
        group_words(ws).0.len() == group_words(ws).1.len(),
        forall|k: int|
            0 <= k < group_words(ws).1.len() ==> 1 <= #[trigger] group_words(ws).1[k] <= ws.len(),
        weight(symbol_lists(group_words(ws).0), group_words(ws).1) == join(ws).len(),
    decreases ws.len(),
{
    if ws.len() > 0 {
        let (keys, counts) = group_words(ws.drop_last());
        let w = ws.last();
        lemma_group_words(ws.drop_last());
        lemma_first_index(keys, w);
        lemma_join_push(ws.drop_last(), w);
        assert(ws.drop_last().push(w) =~= ws);
        match first_index(keys, w) {
            Some(k) => {
                lemma_weight_bump(symbol_lists(keys), counts, k as int, keys.len());
                assert(symbol_lists(keys)[k as int].len() == w.len());
                assert(group_words(ws).0 == keys);
                assert(group_words(ws).1 == counts.update(k as int, counts[k as int] + 1));
                assert(join(ws).len() == join(ws.drop_last()).len() + w.len());
            },
            None => {
                let keys2 = keys.push(w);
                let counts2 = counts.push(1);
                lemma_weight_agree(
                    symbol_lists(keys2),
                    counts2,
                    symbol_lists(keys),
                    counts,
                    keys.len(),
                );
                assert(symbol_lists(keys2)[keys.len() as int] == singles(w));
                assert(group_words(ws).0 == keys2);
                assert(group_words(ws).1 == counts2);
                assert(weight_upto(symbol_lists(keys2), counts2, keys2.len()) == weight_upto(
                    symbol_lists(keys2),
                    counts2,
                    keys.len(),
                ) + counts2[keys.len() as int] * symbol_lists(keys2)[keys.len() as int].len());
                assert(join(ws).len() == join(ws.drop_last()).len() + w.len());
            },
        }
    }
}

/// The first index at which `x` occurs in `keys`.
fn find_first(keys: &Vec<String>, x: &String) -> (r: Option<usize>)
    ensures
        match r {
            Some(k) => first_index(strs(keys@), x@) == Some(k as nat),
            None => first_index(strs(keys@), x@) is None,
        },
{
    let ghost ks = strs(keys@);
    let mut i: usize = 0;
    while i < keys.len()
        invariant
            0 <= i <= keys@.len(),
            ks == strs(keys@),
            first_index(ks.take(i as int), x@) is None,
        decreases keys@.len() - i,
    {
        let ghost pre = ks.take(i + 1);
        assert(pre.drop_last() =~= ks.take(i as int));
        if keys[i] == *x {
            proof {
                lemma_first_index_prefix(ks, x@, i + 1);
            }
            return Some(i);
        }
        i = i + 1;
    }
    assert(ks.take(i as int) =~= ks);
    None
}

proof fn lemma_first_index_prefix(s: Seq<Seq<char>>, x: Seq<char>, n: int)
    requires
        0 <= n <= s.len(),
        first_index(s.take(n), x) is Some,
    ensures
        first_index(s, x) == first_index(s.take(n), x),
    decreases s.len() - n,
{
    if n < s.len() {
        assert(s.take(n + 1).drop_last() =~= s.take(n));
        lemma_first_index_prefix(s, x, n + 1);
    } else {
        assert(s.take(n) =~= s);
    }
}

// ---------------------------------------------------------------------------
// Training
// ---------------------------------------------------------------------------
/// The byte-level encodings of the words of `corpus`.
pub open spec fn corpus_words(corpus: Seq<char>) -> Seq<Seq<char>> {
    Seq::new(
        pretokenize_spec(corpus).len(),
        |k: int| byte_level(encode_utf8(pretokenize_spec(corpus)[k]), byte_table()),
    )
}

/// Every word with the rule `(a, b)` applied.
pub open spec fn merge_all(ws: Seq<Seq<Seq<char>>>, a: Seq<char>, b: Seq<char>) -> Seq<
    Seq<Seq<char>>,
> {
    Seq::new(ws.len(), |j: int| apply_merge_spec(ws[j], a, b, a + b))
}

/// The training loop from a state of the words: while the vocabulary is
/// below `vocab_size` and the best pair occurs at least `min_freq` times,
/// record its rule, add its fusion to the vocabulary, and apply it.
pub open spec fn train_steps(
    ws: Seq<Seq<Seq<char>>>,
    cs: Seq<nat>,
    vocab: Seq<Seq<char>>,
    merges: Seq<(Seq<char>, Seq<char>)>,
    vocab_size: nat,
    min_freq: nat,
) -> (Seq<Seq<char>>, Seq<(Seq<char>, Seq<char>)>)
    decreases vocab_size - vocab.len(),
{
    if vocab.len() >= vocab_size {
        (vocab, merges)
    } else {
        match best_pair(ws, cs) {
            None => (vocab, merges),
            Some(p) => if pair_count(ws, cs, p.0, p.1) < min_freq {
                (vocab, merges)
            } else {
                train_steps(
                    merge_all(ws, p.0, p.1),
                    cs,
                    vocab.push(p.0 + p.1),
                    merges.push(p),
                    vocab_size,
                    min_freq,
                )
            },
        }
    }
}

/// The vocabulary and rules learned from `corpus`: training starts from the
/// sorted byte alphabet and the corpus words, each a list of one-char
/// symbols, identical words folded into counts.
pub open spec fn train_result(corpus: Seq<char>, vocab_size: nat, min_freq: nat) -> (
    Seq<Seq<char>>,
    Seq<(Seq<char>, Seq<char>)>,
) {
    let (keys, counts) = group_words(corpus_words(corpus));
    train_steps(
        symbol_lists(keys),
        counts,
        singles(sorted_alphabet()),
        Seq::empty(),
        vocab_size,
        min_freq,
    )
}

/// Training only ever adds to the vocabulary and rules it starts from,
/// one token per rule.
pub proof fn lemma_train_steps_extends(
    ws: Seq<Seq<Seq<char>>>,
    cs: Seq<nat>,
    vocab: Seq<Seq<char>>,
    merges: Seq<(Seq<char>, Seq<char>)>,
    vocab_size: nat,
    min_freq: nat,
)
    ensures
        train_steps(ws, cs, vocab, merges, vocab_size, min_freq).0.len() >= vocab.len(),
        train_steps(ws, cs, vocab, merges, vocab_size, min_freq).0.take(vocab.len() as int) == vocab,
        train_steps(ws, cs, vocab, merges, vocab_size, min_freq).1.len() >= merges.len(),
        train_steps(ws, cs, vocab, merges, vocab_size, min_freq).1.take(merges.len() as int) == merges,
        train_steps(ws, cs, vocab, merges, vocab_size, min_freq).0.len() - vocab.len() == train_steps(
            ws,
            cs,
            vocab,
            merges,
            vocab_size,
            min_freq,
        ).1.len() - merges.len(),
    decreases vocab_size - vocab.len(),
{
    let r = train_steps(ws, cs, vocab, merges, vocab_size, min_freq);
    if vocab.len() < vocab_size {
        if let Some(p) = best_pair(ws, cs) {
            if pair_count(ws, cs, p.0, p.1) >= min_freq {
                let v2 = vocab.push(p.0 + p.1);
                let m2 = merges.push(p);
                lemma_train_steps_extends(merge_all(ws, p.0, p.1), cs, v2, m2, vocab_size, min_freq);
                assert(r.0.take(vocab.len() as int) =~= r.0.take(v2.len() as int).take(vocab.len() as int));
                assert(v2.take(vocab.len() as int) =~= vocab);
                assert(r.1.take(merges.len() as int) =~= r.1.take(m2.len() as int).take(merges.len() as int));
                assert(m2.take(merges.len() as int) =~= merges);
                return;
            }
        }
    }
    assert(r == (vocab, merges));
    assert(vocab.take(vocab.len() as int) =~= vocab);
    assert(merges.take(merges.len() as int) =~= merges);
}

/// The number of rules that training from a state learns with a smaller
/// vocabulary size: as many as with the larger one, but no more than the
/// room the smaller size leaves.
pub open spec fn steps_within(big_steps: int, room: int) -> int {
    if room <= 0 {
        0
    } else if big_steps <= room {
        big_steps
    } else {
        room
    }
}

proof fn lemma_train_steps_vocab_size(
    ws: Seq<Seq<Seq<char>>>,
    cs: Seq<nat>,
    vocab: Seq<Seq<char>>,
    merges: Seq<(Seq<char>, Seq<char>)>,
    n1: nat,
    n2: nat,
    min_freq: nat,
)
    requires
        n1 <= n2,
    ensures
        ({
            let r1 = train_steps(ws, cs, vocab, merges, n1, min_freq);
            let r2 = train_steps(ws, cs, vocab, merges, n2, min_freq);
            &&& r1.0.len() <= r2.0.len()
            &&& r1.1.len() <= r2.1.len()
            &&& r1.0 == r2.0.take(r1.0.len() as int)
            &&& r1.1 == r2.1.take(r1.1.len() as int)
            &&& r1.1.len() - merges.len() == steps_within(r2.1.len() - merges.len(), n1 - vocab.len())
        }),
    decreases n2 - vocab.len(),
{
    let r1 = train_steps(ws, cs, vocab, merges, n1, min_freq);
    let r2 = train_steps(ws, cs, vocab, merges, n2, min_freq);
    lemma_train_steps_extends(ws, cs, vocab, merges, n2, min_freq);
    lemma_train_steps_extends(ws, cs, vocab, merges, n1, min_freq);
    if vocab.len() < n1 {
        if let Some(p) = best_pair(ws, cs) {
            if pair_count(ws, cs, p.0, p.1) >= min_freq {
                let v2 = vocab.push(p.0 + p.1);
                let m2 = merges.push(p);
                let w2 = merge_all(ws, p.0, p.1);
                lemma_train_steps_vocab_size(w2, cs, v2, m2, n1, n2, min_freq);
                lemma_train_steps_extends(w2, cs, v2, m2, n2, min_freq);
                assert(r1 == train_steps(w2, cs, v2, m2, n1, min_freq));
                assert(r2 == train_steps(w2, cs, v2, m2, n2, min_freq));
                return;
            }
        }
    }
    assert(r1 == (vocab, merges));
}

/// Training with a smaller vocabulary size learns a prefix of the rules and
/// of the vocabulary that a larger size learns: the first rules, as many as
/// the larger size learns but no more than the smaller size leaves room for
/// above the 256 byte tokens.
pub proof fn lemma_train_vocab_size(corpus: Seq<char>, n1: nat, n2: nat, min_freq: nat)
    requires
        n1 <= n2,
    ensures
        ({
            let small = train_result(corpus, n1, min_freq);
            let big = train_result(corpus, n2, min_freq);
            &&& small.1.len() <= big.1.len()
            &&& small.0.len() <= big.0.len()
            &&& small.1 == big.1.take(small.1.len() as int)
            &&& small.0 == big.0.take(small.0.len() as int)
            &&& small.1.len() == steps_within(big.1.len() as int, n1 - 256)
        }),
{
    lemma_sorted_alphabet_has_table();
    let (keys, counts) = group_words(corpus_words(corpus));
    lemma_train_steps_vocab_size(
        symbol_lists(keys),
        counts,
        singles(sorted_alphabet()),
        Seq::empty(),
        n1,
        n2,
        min_freq,
    );
}

proof fn lemma_train_steps_min_freq(
    ws: Seq<Seq<Seq<char>>>,
    cs: Seq<nat>,
    vocab: Seq<Seq<char>>,
    merges: Seq<(Seq<char>, Seq<char>)>,
    vocab_size: nat,
    f1: nat,
    f2: nat,
)
    requires
        f1 <= f2,
    ensures
        ({
            let low = train_steps(ws, cs, vocab, merges, vocab_size, f1);
            let high = train_steps(ws, cs, vocab, merges, vocab_size, f2);
            &&& high.0.len() <= low.0.len()
            &&& high.1.len() <= low.1.len()
            &&& high.0 == low.0.take(high.0.len() as int)
            &&& high.1 == low.1.take(high.1.len() as int)
            &&& f2 <= 1 ==> low == high
        }),
    decreases vocab_size - vocab.len(),
{
    let low = train_steps(ws, cs, vocab, merges, vocab_size, f1);
    let high = train_steps(ws, cs, vocab, merges, vocab_size, f2);
    lemma_train_steps_extends(ws, cs, vocab, merges, vocab_size, f1);
    if vocab.len() < vocab_size {
        if let Some(p) = best_pair(ws, cs) {
            assert(is_best_pair(ws, cs, p));
            if pair_count(ws, cs, p.0, p.1) >= f2 {
                let v2 = vocab.push(p.0 + p.1);
                let m2 = merges.push(p);
                lemma_train_steps_min_freq(merge_all(ws, p.0, p.1), cs, v2, m2, vocab_size, f1, f2);
                return;
            }
        }
    }
    assert(high == (vocab, merges));
}

/// Training with a larger minimum frequency learns a prefix of the rules
/// and of the vocabulary that a smaller one learns, and the same when the
/// larger one is at most 1 (a pair that occurs occurs at least once).
pub proof fn lemma_train_min_freq(corpus: Seq<char>, vocab_size: nat, f1: nat, f2: nat)
    requires
        f1 <= f2,
    ensures
        ({
            let low = train_result(corpus, vocab_size, f1);
            let high = train_result(corpus, vocab_size, f2);
            &&& high.1.len() <= low.1.len()
            &&& high.0.len() <= low.0.len()
            &&& high.1 == low.1.take(high.1.len() as int)
            &&& high.0 == low.0.take(high.0.len() as int)
            &&& f2 <= 1 ==> low == high
        }),
{
    let (keys, counts) = group_words(corpus_words(corpus));
    lemma_train_steps_min_freq(
        symbol_lists(keys),
        counts,
        singles(sorted_alphabet()),
        Seq::empty(),
        vocab_size,
        f1,
        f2,
    );
}

// ---------------------------------------------------------------------------
// What training does, stated over its steps
// ---------------------------------------------------------------------------
/// The words after applying the rules `rules`, in order.
pub open spec fn rewrite(ws: Seq<Seq<Seq<char>>>, rules: Seq<(Seq<char>, Seq<char>)>) -> Seq<
    Seq<Seq<char>>,
>
    decreases rules.len(),
{
    if rules.len() == 0 {
        ws
    } else {
        rewrite(merge_all(ws, rules[0].0, rules[0].1), rules.drop_first())
    }
}

/// The adjacent pairs of the first `j` words.
pub open spec fn windows_upto(ws: Seq<Seq<Seq<char>>>, j: nat) -> Seq<(Seq<char>, Seq<char>)>
    decreases j,
{
    if j == 0 {
        Seq::empty()
    } else {
        let w = ws[j - 1];
        windows_upto(ws, (j - 1) as nat) + Seq::new(
            if w.len() >= 2 {
                (w.len() - 1) as nat
            } else {
                0
            },
            |i: int| (w[i], w[i + 1]),
        )
    }
}

proof fn lemma_occurrences_window(s: Seq<Seq<char>>, a: Seq<char>, b: Seq<char>, n: nat)
    requires
        occurrences(s, a, b, n) > 0,
    ensures
        exists|i: int| 0 <= i < n && #[trigger] s[i] == a && s[i + 1] == b,
    decreases n,
{
    if n > 0 && occurrences(s, a, b, (n - 1) as nat) > 0 {
        lemma_occurrences_window(s, a, b, (n - 1) as nat);
        let i = choose|i: int| 0 <= i < n - 1 && #[trigger] s[i] == a && s[i + 1] == b;
        assert(0 <= i < n && s[i] == a && s[i + 1] == b);
    }
}

/// Every pair that occurs in the first `j` words is one of their windows.
proof fn lemma_pair_count_windows(
    ws: Seq<Seq<Seq<char>>>,
    cs: Seq<nat>,
    a: Seq<char>,
    b: Seq<char>,
    j: nat,
)
    requires
        pair_count_upto(ws, cs, a, b, j) > 0,
    ensures
        windows_upto(ws, j).contains((a, b)),
    decreases j,
{
    if j > 0 {
        let w = ws[j - 1];
        let prev = windows_upto(ws, (j - 1) as nat);
        let here = Seq::new(
            if w.len() >= 2 {
                (w.len() - 1) as nat
            } else {
                0
            },
            |i: int| (w[i], w[i + 1]),
        );
        if pair_count_upto(ws, cs, a, b, (j - 1) as nat) > 0 {
            lemma_pair_count_windows(ws, cs, a, b, (j - 1) as nat);
            let k = choose|k: int| 0 <= k < prev.len() && prev[k] == (a, b);
            assert((prev + here)[k] == (a, b));
        } else {
            let o = pair_occurrences(w, a, b);
            if o == 0 {
                assert(cs[j - 1] * o == 0) by (nonlinear_arith)
                    requires
                        o == 0,
                ;
            }
            assert(o > 0);
            assert(w.len() >= 2);
            lemma_occurrences_window(w, a, b, (w.len() - 1) as nat);
            let i = choose|i: int| 0 <= i < w.len() - 1 && #[trigger] w[i] == a && w[i + 1] == b;
            assert(here[i] == (a, b));
            assert((prev + here)[prev.len() + i] == (a, b));
        }
    }
}

/// Among the pairs `c`, one wins against all of them.
proof fn lemma_best_of(ws: Seq<Seq<Seq<char>>>, cs: Seq<nat>, c: Seq<(Seq<char>, Seq<char>)>)
    requires
        c.len() > 0,
    ensures
        exists|q: (Seq<char>, Seq<char>)|
            c.contains(q) && forall|k: int| 0 <= k < c.len() ==> #[trigger] beats(ws, cs, q, c[k]),
    decreases c.len(),
{
    if c.len() == 1 {
        lemma_pair_lt_order(c[0], c[0], c[0]);
        assert(c.contains(c[0]));
        assert(forall|k: int| 0 <= k < c.len() ==> #[trigger] beats(ws, cs, c[0], c[k]));
    } else {
        let d = c.drop_last();
        lemma_best_of(ws, cs, d);
        let q = choose|q: (Seq<char>, Seq<char>)|
            d.contains(q) && forall|k: int| 0 <= k < d.len() ==> #[trigger] beats(ws, cs, q, d[k]);
        let x = c.last();
        assert(c.contains(q)) by {
            let k = choose|k: int| 0 <= k < d.len() && d[k] == q;
            assert(c[k] == q);
        }
        if beats(ws, cs, q, x) {
            assert forall|k: int| 0 <= k < c.len() implies #[trigger] beats(ws, cs, q, c[k]) by {
                if k < d.len() {
                    assert(c[k] == d[k]);
                }
            }
        } else {
            lemma_pair_lt_order(x, x, x);
            assert(c.contains(x)) by {
                assert(c[c.len() - 1] == x);
            }
            assert forall|k: int| 0 <= k < c.len() implies #[trigger] beats(ws, cs, x, c[k]) by {
                if k < d.len() {
                    let y = c[k];
                    assert(y == d[k]);
                    assert(beats(ws, cs, q, y));
                    lemma_pair_lt_order(y, x, q);
                    lemma_pair_lt_order(x, q, x);
                }
            }
        }
    }
}

/// A best pair exists exactly when some pair occurs.
pub proof fn lemma_best_pair_exists(ws: Seq<Seq<Seq<char>>>, cs: Seq<nat>)
    ensures
        (exists|a: Seq<char>, b: Seq<char>| pair_count(ws, cs, a, b) > 0) <==> best_pair(ws, cs) is Some,
        best_pair(ws, cs) matches Some(p) ==> is_best_pair(ws, cs, p),
{
    if exists|a: Seq<char>, b: Seq<char>| pair_count(ws, cs, a, b) > 0 {
        let (a, b) = choose|a: Seq<char>, b: Seq<char>| pair_count(ws, cs, a, b) > 0;
        lemma_pair_count_windows(ws, cs, a, b, ws.len());
        let c = windows_upto(ws, ws.len());
        lemma_best_of(ws, cs, c);
        let q = choose|q: (Seq<char>, Seq<char>)|
            c.contains(q) && forall|k: int| 0 <= k < c.len() ==> #[trigger] beats(ws, cs, q, c[k]);
        let ka = choose|k: int| 0 <= k < c.len() && c[k] == (a, b);
        assert(beats(ws, cs, q, c[ka]));
        assert forall|y: (Seq<char>, Seq<char>)| pair_count(ws, cs, y.0, y.1) > 0 implies #[trigger] beats(
            ws,
            cs,
            q,
            y,
        ) by {
            lemma_pair_count_windows(ws, cs, y.0, y.1, ws.len());
            let k = choose|k: int| 0 <= k < c.len() && c[k] == (y.0, y.1);
            assert(beats(ws, cs, q, c[k]));
        }
        assert(is_best_pair(ws, cs, q));
    }
    if best_pair(ws, cs) is Some {
        let p = choose|p: (Seq<char>, Seq<char>)| is_best_pair(ws, cs, p);
        assert(pair_count(ws, cs, p.0, p.1) > 0);
    }
}

proof fn lemma_train_steps_law(
    ws: Seq<Seq<Seq<char>>>,
    cs: Seq<nat>,
    vocab: Seq<Seq<char>>,
    merges: Seq<(Seq<char>, Seq<char>)>,
    vocab_size: nat,
    min_freq: nat,
)
    ensures
        ({
            let r = train_steps(ws, cs, vocab, merges, vocab_size, min_freq);
            let added = r.1.skip(merges.len() as int);
            &&& r.0.len() < vocab_size ==> forall|a: Seq<char>, b: Seq<char>|
                #[trigger] pair_count(rewrite(ws, added), cs, a, b) > 0 ==> pair_count(
                    rewrite(ws, added),
                    cs,
                    a,
                    b,
                ) < min_freq
            &&& forall|k: int|
                0 <= k < added.len() ==> is_best_pair(rewrite(ws, added.take(k)), cs, #[trigger] added[k])
                    && pair_count(rewrite(ws, added.take(k)), cs, added[k].0, added[k].1) >= min_freq
        }),
    decreases vocab_size - vocab.len(),
{
    let r = train_steps(ws, cs, vocab, merges, vocab_size, min_freq);
    let added = r.1.skip(merges.len() as int);
    lemma_train_steps_extends(ws, cs, vocab, merges, vocab_size, min_freq);
    lemma_best_pair_exists(ws, cs);
    if vocab.len() < vocab_size {
        if let Some(p) = best_pair(ws, cs) {
            if pair_count(ws, cs, p.0, p.1) >= min_freq {
                let w2 = merge_all(ws, p.0, p.1);
                let v2 = vocab.push(p.0 + p.1);
                let m2 = merges.push(p);
                lemma_train_steps_law(w2, cs, v2, m2, vocab_size, min_freq);
                lemma_train_steps_extends(w2, cs, v2, m2, vocab_size, min_freq);
                assert(r == train_steps(w2, cs, v2, m2, vocab_size, min_freq));
                let rest = r.1.skip(m2.len() as int);
                assert(r.1.take(m2.len() as int) == m2);
                assert(added[0] == r.1[merges.len() as int]);
                assert(r.1[merges.len() as int] == m2[merges.len() as int]);
                assert(added.drop_first() =~= rest);
                assert(rewrite(ws, added) == rewrite(w2, rest));
                assert forall|k: int| 0 <= k < added.len() implies is_best_pair(
                    rewrite(ws, added.take(k)),
                    cs,
                    #[trigger] added[k],
                ) && pair_count(rewrite(ws, added.take(k)), cs, added[k].0, added[k].1) >= min_freq by {
                    if k == 0 {
                        assert(added.take(0) =~= Seq::<(Seq<char>, Seq<char>)>::empty());
                    } else {
                        assert(added.take(k).drop_first() =~= rest.take(k - 1));
                        assert(added.take(k)[0] == p);
                        assert(added[k] == rest[k - 1]);
                        assert(rewrite(ws, added.take(k)) == rewrite(w2, rest.take(k - 1)));
                    }
                }
                return;
            }
        }
    }
    assert(r == (vocab, merges));
    assert(added =~= Seq::<(Seq<char>, Seq<char>)>::empty());
    assert(rewrite(ws, added) == ws);
    if vocab.len() < vocab_size {
        assert forall|a: Seq<char>, b: Seq<char>|
            #[trigger] pair_count(rewrite(ws, added), cs, a, b) > 0 implies pair_count(
            rewrite(ws, added),
            cs,
            a,
            b,
        ) < min_freq by {
            let p = best_pair(ws, cs)->0;
            assert(beats(ws, cs, p, (a, b)));
        }
    }
}

/// What training does, over every corpus: each rule it records is, at its
/// step, the best pair of the corpus rewritten by the rules before it (the
/// most frequent adjacent pair, a tie going to the smaller pair) and occurs
/// at least `min_freq` times; and when the vocabulary ends below
/// `vocab_size`, every pair still in the rewritten corpus occurs fewer than
/// `min_freq` times.
pub proof fn lemma_train_law(corpus: Seq<char>, vocab_size: nat, min_freq: nat)
    ensures
        ({
            let (vocab, merges) = train_result(corpus, vocab_size, min_freq);
            let (keys, counts) = group_words(corpus_words(corpus));
            let ws = symbol_lists(keys);
            &&& vocab.len() < vocab_size ==> forall|a: Seq<char>, b: Seq<char>|
                #[trigger] pair_count(rewrite(ws, merges), counts, a, b) > 0 ==> pair_count(
                    rewrite(ws, merges),
                    counts,
                    a,
                    b,
                ) < min_freq
            &&& forall|k: int|
                0 <= k < merges.len() ==> is_best_pair(rewrite(ws, merges.take(k)), counts, #[trigger] merges[k])
                    && pair_count(rewrite(ws, merges.take(k)), counts, merges[k].0, merges[k].1) >= min_freq
        }),
{
    let (keys, counts) = group_words(corpus_words(corpus));
    let ws = symbol_lists(keys);
    let start = singles(sorted_alphabet());
    let none: Seq<(Seq<char>, Seq<char>)> = Seq::empty();
    lemma_train_steps_law(ws, counts, start, none, vocab_size, min_freq);
    let r = train_steps(ws, counts, start, none, vocab_size, min_freq);
    let added = r.1.skip(none.len() as int);
    assert(r.0.len() < vocab_size ==> forall|a: Seq<char>, b: Seq<char>|
        #[trigger] pair_count(rewrite(ws, added), counts, a, b) > 0 ==> pair_count(rewrite(ws, added), counts, a, b)
            < min_freq);
    assert(forall|k: int|
        0 <= k < added.len() ==> is_best_pair(rewrite(ws, added.take(k)), counts, #[trigger] added[k])
            && pair_count(rewrite(ws, added.take(k)), counts, added[k].0, added[k].1) >= min_freq);
    assert(train_result(corpus, vocab_size, min_freq) == r);
    let merges = r.1;
    assert(added =~= merges);
    if r.0.len() < vocab_size {
        assert forall|a: Seq<char>, b: Seq<char>|
            #[trigger] pair_count(rewrite(ws, merges), counts, a, b) > 0 implies pair_count(
            rewrite(ws, merges),
            counts,
            a,
            b,
        ) < min_freq by {
            assert(pair_count(rewrite(ws, added), counts, a, b) > 0);
        }
    }
    assert forall|k: int| 0 <= k < merges.len() implies is_best_pair(
        rewrite(ws, merges.take(k)),
        counts,
        #[trigger] merges[k],
    ) && pair_count(rewrite(ws, merges.take(k)), counts, merges[k].0, merges[k].1) >= min_freq by {
        assert(added[k] == merges[k]);
        assert(added.take(k) == merges.take(k));
    }
}

proof fn lemma_apply_merge_len(s: Seq<Seq<char>>, a: Seq<char>, b: Seq<char>, m: Seq<char>)
    ensures
        apply_merge_spec(s, a, b, m).len() <= s.len(),
    decreases s.len(),
{
    if s.len() >= 2 && s[0] == a && s[1] == b {
        lemma_apply_merge_len(s.skip(2), a, b, m);
    } else if s.len() > 0 {
        lemma_apply_merge_len(s.skip(1), a, b, m);
    }
}

/// A piece that occurs in `vocab` has an index there.
pub proof fn lemma_contains_token_index(vocab: Seq<Seq<char>>, t: Seq<char>, i: int)
    requires
        0 <= i < vocab.len(),
        vocab[i] == t,
    ensures
        token_index(vocab, t) is Some,
    decreases vocab.len(),
{
    if i < vocab.len() - 1 {
        assert(vocab.drop_last()[i] == t);
        lemma_contains_token_index(vocab.drop_last(), t, i);
    }
}

impl BpeModel {
    /// Train a byte-level BPE on `corpus`, learning merges until the vocabulary
    /// reaches `vocab_size` or no pair occurs at least `min_frequency` times.
    pub fn train(corpus: &str, vocab_size: usize, min_frequency: u64) -> (m: BpeModel)
        ensures
            m@.vocab == train_result(corpus@, vocab_size as nat, min_frequency as nat).0,
            m@.merges == train_result(corpus@, vocab_size as nat, min_frequency as nat).1,
            m.wf(),
            m@.vocab.len() == 256 + m@.merges.len(),
            m@.vocab.take(256) == singles(sorted_alphabet()),
            forall|k: int|
                0 <= k < m@.merges.len() ==> #[trigger] m@.vocab[256 + k] == m@.merges[k].0
                    + m@.merges[k].1,
            m@.merges.len() > 0 ==> m@.vocab.len() <= vocab_size,
    {
        let encoder = byte_encoder();
        let alpha = alphabet(&encoder);
        proof {
            lemma_alphabet_of_table(alpha@);
        }
        // Vocab starts as the full 256-char byte alphabet (nothing is ever OOV).
        let mut vocab: Vec<String> = Vec::new();
        let mut i: usize = 0;
        while i < alpha.len()
            invariant
                0 <= i <= alpha@.len(),
                alpha@ == sorted_alphabet(),
                strs(vocab@) == singles(alpha@.take(i as int)),
            decreases alpha@.len() - i,
        {
            let mut one = String::new();
            push_char(&mut one, alpha[i]);
            assert(one@ =~= seq![alpha@[i as int]]);
            let ghost old_v = strs(vocab@);
            vocab.push(one);
            assert(strs(vocab@) =~= old_v.push(seq![alpha@[i as int]]));
            assert(singles(alpha@.take(i + 1)) =~= singles(alpha@.take(i as int)).push(
                seq![alpha@[i as int]],
            ));
            i = i + 1;
        }
        assert(alpha@.take(i as int) =~= alpha@);
        // Byte-level encode each word, then fold identical words into counts so
        // pair counting is over the *unique* words, weighted by frequency.
        let raw = pretokenize(corpus);
        let ghost cw = corpus_words(corpus@);
        let mut keys: Vec<String> = Vec::new();
        let mut counts: Vec<u64> = Vec::new();
        let mut r: usize = 0;
        assert(cw.take(0) =~= Seq::<Seq<char>>::empty());
        while r < raw.len()
            invariant
                0 <= r <= raw@.len(),
                strs(raw@) == pretokenize_spec(corpus@),
                cw == corpus_words(corpus@),
                cw.len() == raw@.len(),
                encoder@ == byte_table(),
                (strs(keys@), nats(counts@)) == group_words(cw.take(r as int)),
            decreases raw@.len() - r,
        {
            let e = encode_bytes(raw[r].as_str(), &encoder);
            assert(e@ == cw[r as int]);
            let ghost pre = cw.take(r + 1);
            assert(pre.drop_last() =~= cw.take(r as int));
            proof {
                lemma_group_words(cw.take(r as int));
            }
            match find_first(&keys, &e) {
                Some(k) => {
                    proof {
                        lemma_first_index(strs(keys@), e@);
                        assert(nats(counts@)[k as int] <= r);
                    }
                    let c = counts[k];
                    let ghost old_c = nats(counts@);
                    counts.set(k, c + 1);
                    assert(nats(counts@) =~= old_c.update(k as int, old_c[k as int] + 1));
                },
                None => {
                    let ghost old_k = strs(keys@);
                    let ghost old_c = nats(counts@);
                    keys.push(e);
                    counts.push(1);
                    assert(strs(keys@) =~= old_k.push(cw[r as int]));
                    assert(nats(counts@) =~= old_c.push(1));
                },
            }
            r = r + 1;
        }
        assert(cw.take(r as int) =~= cw);
        let ghost gk = group_words(cw).0;
        let ghost gc = group_words(cw).1;
        let mut words: Vec<Vec<String>> = Vec::new();
        let mut k: usize = 0;
        while k < keys.len()
            invariant
                0 <= k <= keys@.len(),
                strs(keys@) == gk,
                word_lists(words@) == symbol_lists(gk).take(k as int),
            decreases keys@.len() - k,
        {
            let syms = char_strings(keys[k].as_str());
            let ghost old_w = word_lists(words@);
            words.push(syms);
            assert(word_lists(words@) =~= old_w.push(singles(gk[k as int])));
            k = k + 1;
            assert(symbol_lists(gk).take(k as int) =~= symbol_lists(gk).take(k - 1).push(
                singles(gk[k - 1]),
            ));
        }
        assert(symbol_lists(gk).take(k as int) =~= symbol_lists(gk));
        proof {
            lemma_group_words(cw);
            lemma_join_byte_level(pretokenize_spec(corpus@));
            lemma_pretokenize_splits(corpus@);
            assert(cw =~= Seq::new(
                pretokenize_spec(corpus@).len(),
                |j: int| byte_level(encode_utf8(pretokenize_spec(corpus@)[j]), byte_table()),
            ));
        }
        let total = corpus.as_bytes().len();
        assert(weight(word_lists(words@), nats(counts@)) == total);
        let ghost target = train_result(corpus@, vocab_size as nat, min_frequency as nat);
        let ghost cs = nats(counts@);
        let mut merges: Vec<(String, String)> = Vec::new();
        proof {
            lemma_sorted_alphabet_has_table();
            assert(strs(vocab@).take(256) =~= singles(sorted_alphabet()));
            assert forall|j: int| 0 <= j < counts@.len() implies counts@[j] >= 1 by {
                assert(gc[j] == nats(counts@)[j]);
            }
            assert(str_pairs(merges@) =~= Seq::<(Seq<char>, Seq<char>)>::empty());
            assert(strs(vocab@) == singles(sorted_alphabet()));
            assert(cs == gc);
            assert(word_lists(words@) == symbol_lists(gk));
        }
        loop
            invariant
                cs == nats(counts@),
                words@.len() == counts@.len(),
                forall|j: int| 0 <= j < counts@.len() ==> counts@[j] >= 1,
                weight(word_lists(words@), cs) <= u64::MAX,
                train_steps(
                    word_lists(words@),
                    cs,
                    strs(vocab@),
                    str_pairs(merges@),
                    vocab_size as nat,
                    min_frequency as nat,
                ) == target,
                strs(vocab@).len() == 256 + merges@.len(),
                strs(vocab@).take(256) == singles(sorted_alphabet()),
                forall|q: int|
                    0 <= q < merges@.len() ==> #[trigger] strs(vocab@)[256 + q] == str_pairs(
                        merges@,
                    )[q].0 + str_pairs(merges@)[q].1,
                merges@.len() > 0 ==> vocab@.len() <= vocab_size,
            ensures
                strs(vocab@) == target.0,
                str_pairs(merges@) == target.1,
                strs(vocab@).len() == 256 + merges@.len(),
                strs(vocab@).take(256) == singles(sorted_alphabet()),
                forall|q: int|
                    0 <= q < merges@.len() ==> #[trigger] strs(vocab@)[256 + q] == str_pairs(
                        merges@,
                    )[q].0 + str_pairs(merges@)[q].1,
                merges@.len() > 0 ==> vocab@.len() <= vocab_size,
            decreases vocab_size - vocab@.len(),
        {
            if vocab.len() >= vocab_size {
                break;
            }
            // 1-2. Count every adjacent pair and pick the most frequent one.
            let best = find_best_pair(&words, &counts);
            let (a, b, count) = match best {
                Some(t) => t,
                None => {
                    break;
                },
            };
            if count < min_frequency {
                break;
            }
            // 3. Record the rule, extend the vocab, and rewrite the corpus.
            let merged = a.clone().concat(b.as_str());
            let ghost w0 = word_lists(words@);
            let ghost v0 = strs(vocab@);
            let ghost m0 = str_pairs(merges@);
            vocab.push(merged.clone());
            merges.push((a.clone(), b.clone()));
            assert(strs(vocab@) =~= v0.push(a@ + b@));
            assert(str_pairs(merges@) =~= m0.push((a@, b@)));
            let mut j: usize = 0;
            while j < words.len()
                invariant
                    0 <= j <= words@.len(),
                    words@.len() == w0.len(),
                    merged@ == a@ + b@,
                    forall|jj: int|
                        0 <= jj < j ==> #[trigger] word_lists(words@)[jj] == apply_merge_spec(
                            w0[jj],
                            a@,
                            b@,
                            a@ + b@,
                        ),
                    forall|jj: int| j <= jj < w0.len() ==> #[trigger] word_lists(words@)[jj] == w0[jj],
                decreases w0.len() - j,
            {
                let nw = apply_merge(&words[j], &a, &b, &merged);
                let ghost before = words@;
                assert(word_lists(before)[j as int] == w0[j as int]);
                words.set(j, nw);
                assert(word_lists(words@)[j as int] == strs(nw@));
                assert forall|jj: int| 0 <= jj < w0.len() && jj != j implies #[trigger] word_lists(
                    words@,
                )[jj] == word_lists(before)[jj] by {}
                j = j + 1;
            }
            proof {
                assert(word_lists(words@) =~= merge_all(w0, a@, b@));
                assert forall|jj: int| 0 <= jj < w0.len() implies (#[trigger] merge_all(
                    w0,
                    a@,
                    b@,
                )[jj]).len() <= w0[jj].len() by {
                    lemma_apply_merge_len(w0[jj], a@, b@, a@ + b@);
                }
                lemma_weight_le(merge_all(w0, a@, b@), w0, cs, w0.len());
                assert(strs(vocab@).take(256) =~= v0.take(256));
                assert forall|q: int| 0 <= q < merges@.len() implies #[trigger] strs(vocab@)[256
                    + q] == str_pairs(merges@)[q].0 + str_pairs(merges@)[q].1 by {
                    if q < m0.len() {
                        assert(strs(vocab@)[256 + q] == v0[256 + q]);
                    }
                }
            }
        }
        proof {
            lemma_sorted_alphabet_has_table();
            let v = strs(vocab@);
            let ms = str_pairs(merges@);
            assert forall|b: int| 0 <= b < 256 implies (#[trigger] token_index(
                v,
                seq![byte_table()[b]],
            )) is Some by {
                assert(sorted_alphabet().contains(byte_table()[b]));
                let i = choose|i: int| 0 <= i < 256 && sorted_alphabet()[i] == byte_table()[b];
                assert(v.take(256)[i] == seq![sorted_alphabet()[i]]);
                assert(v[i] == seq![byte_table()[b]]);
                lemma_contains_token_index(v, seq![byte_table()[b]], i);
            }
            assert forall|q: int| 0 <= q < ms.len() implies (#[trigger] token_index(
                v,
                ms[q].0 + ms[q].1,
            )) is Some by {
                lemma_contains_token_index(v, ms[q].0 + ms[q].1, 256 + q);
            }
        }
        BpeModel::finalize(vocab, merges, encoder)
    }
}

} // verus!
