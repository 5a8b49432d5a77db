//! Sequence vocabulary shared by the specifications: concatenation of a list
//! of pieces, and the views of lists of strings.
use vstd::prelude::*;
use vstd::utf8::*;

verus! {

/// The pieces of `ws` written one after another.
pub open spec fn join<A>(ws: Seq<Seq<A>>) -> Seq<A>
    decreases ws.len(),
{
    if ws.len() == 0 {
        Seq::empty()
    } else {
        join(ws.drop_last()) + ws.last()
    }
}

/// The text of each string in `v`.
pub open spec fn strs(v: Seq<String>) -> Seq<Seq<char>> {
    Seq::new(v.len(), |i: int| v[i]@)
}

/// The text of each pair of strings in `v`.
pub open spec fn str_pairs(v: Seq<(String, String)>) -> Seq<(Seq<char>, Seq<char>)> {
    Seq::new(v.len(), |i: int| (v[i].0@, v[i].1@))
}

/// Each char of `cs` as a piece of its own.
pub open spec fn singles(cs: Seq<char>) -> Seq<Seq<char>> {
    Seq::new(cs.len(), |i: int| seq![cs[i]])
}

pub proof fn lemma_join_push<A>(ws: Seq<Seq<A>>, w: Seq<A>)
    ensures
        join(ws.push(w)) == join(ws) + w,
{
    assert(ws.push(w).drop_last() =~= ws);
}

pub proof fn lemma_join_concat<A>(a: Seq<Seq<A>>, b: Seq<Seq<A>>)
    ensures
        join(a + b) == join(a) + join(b),
    decreases b.len(),
{
    if b.len() == 0 {
        assert(a + b =~= a);
        assert(join(a) + join(b) =~= join(a));
    } else {
        lemma_join_concat(a, b.drop_last());
        assert((a + b).drop_last() =~= a + b.drop_last());
        assert(join(a) + join(b) =~= join(a) + join(b.drop_last()) + b.last());
    }
}

pub proof fn lemma_join_singleton<A>(w: Seq<A>)
    ensures
        join(seq![w]) == w,
{
    let ws = seq![w];
    assert(ws.drop_last() =~= Seq::<Seq<A>>::empty());
    assert(join(ws.drop_last()) =~= Seq::<A>::empty());
    assert(ws.last() == w);
    assert(Seq::<A>::empty() + w =~= w);
}

pub proof fn lemma_join_singles(cs: Seq<char>)
    ensures
        join(singles(cs)) == cs,
    decreases cs.len(),
{
    if cs.len() > 0 {
        lemma_join_singles(cs.drop_last());
        assert(singles(cs).drop_last() =~= singles(cs.drop_last()));
        assert(cs.drop_last() + seq![cs.last()] =~= cs);
    }
}

/// UTF-8 encoding of a concatenation is the concatenation of the encodings.
pub proof fn lemma_encode_utf8_concat(a: Seq<char>, b: Seq<char>)
    ensures
        encode_utf8(a + b) == encode_utf8(a) + encode_utf8(b),
    decreases a.len(),
{
    if a.len() == 0 {
        assert(a + b =~= b);
        assert(encode_utf8(a) + encode_utf8(b) =~= encode_utf8(b));
    } else {
        lemma_encode_utf8_concat(a.drop_first(), b);
        assert((a + b).drop_first() =~= a.drop_first() + b);
        assert((a + b)[0] == a[0]);
        assert(encode_utf8(a) + encode_utf8(b) =~= encode_scalar(a[0] as u32) + (encode_utf8(
            a.drop_first(),
        ) + encode_utf8(b)));
    }
}

} // verus!
