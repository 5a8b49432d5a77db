//! GPT-2's reversible bytes <-> unicode alphabet.
//!
//! BPE never sees raw control bytes or spaces: every byte `0..256` is mapped
//! to a *printable* codepoint before merging and mapped back on decode, so
//! that decoding an encoding gives back any UTF-8 text unchanged.
use std::collections::HashMap;
use vstd::prelude::*;
use vstd::utf8::*;

use crate::text::{push_char, str_chars, utf8_lossy, utf8_lossy_string};

verus! {

/// Bytes that are already printable and stand for themselves:
/// `'!'..='~'`, `0xA1..=0xAC` and `0xAE..=0xFF`.
pub open spec fn is_printable(b: int) -> bool {
    ||| 33 <= b <= 126
    ||| 161 <= b <= 172
    ||| 174 <= b <= 255
}

/// How many non-printable bytes lie below `b` (for `0 <= b <= 256`).
pub open spec fn hidden_rank(b: int) -> int {
    if b <= 33 {
        b
    } else if b <= 127 {
        33
    } else if b <= 161 {
        b - 94
    } else if b <= 173 {
        67
    } else {
        68
    }
}

/// The codepoint that stands for byte `b`: a printable byte stands for
/// itself, the `k`-th non-printable byte (in increasing order) for `256 + k`.
pub open spec fn byte_code(b: int) -> u32 {
    if is_printable(b) {
        b as u32
    } else {
        (256 + hidden_rank(b)) as u32
    }
}

/// The whole byte alphabet: entry `b` is the char that stands for byte `b`.
pub open spec fn byte_table() -> Seq<char> {
    Seq::new(256, |b: int| byte_code(b) as char)
}

/// The `i`-th printable byte, in increasing order (for `0 <= i < 188`).
pub open spec fn printable_at(i: int) -> int {
    if i < 94 {
        33 + i
    } else if i < 106 {
        161 + (i - 94)
    } else {
        174 + (i - 106)
    }
}

/// The `k`-th non-printable byte, in increasing order (for `0 <= k < 68`).
pub open spec fn hidden_at(k: int) -> int {
    if k < 33 {
        k
    } else if k < 67 {
        127 + (k - 33)
    } else {
        173
    }
}

/// Codepoint order on chars.
pub open spec fn char_leq() -> spec_fn(char, char) -> bool {
    |x: char, y: char| (x as u32) <= (y as u32)
}

/// The byte alphabet sorted by codepoint.
pub open spec fn sorted_alphabet() -> Seq<char> {
    byte_table().sort_by(char_leq())
}

/// A sequence of chars in non-decreasing codepoint order.
pub open spec fn sorted_chars(s: Seq<char>) -> bool {
    forall|i: int, j: int| 0 <= i <= j < s.len() ==> (s[i] as u32) <= (s[j] as u32)
}

/// Byte-level encoding: each byte replaced by its char in `enc`.
pub open spec fn byte_level(bytes: Seq<u8>, enc: Seq<char>) -> Seq<char> {
    Seq::new(bytes.len(), |i: int| enc[bytes[i] as int])
}

/// The map that `byte_decoder` builds from the first `n` entries of `enc`:
/// codepoint of `enc[b]` to `b`, a later entry replacing an earlier one.
pub open spec fn decoder_map(enc: Seq<char>, n: nat) -> Map<u32, u8>
    decreases n,
{
    if n == 0 {
        Map::empty()
    } else {
        decoder_map(enc, (n - 1) as nat).insert(enc[n - 1] as u32, (n - 1) as u8)
    }
}

/// Byte-level decoding: each char that `dec` knows replaced by its byte,
/// every other char dropped.
pub open spec fn decode_chars(cs: Seq<char>, dec: Map<u32, u8>) -> Seq<u8>
    decreases cs.len(),
{
    if cs.len() == 0 {
        Seq::empty()
    } else if dec.contains_key(cs.last() as u32) {
        decode_chars(cs.drop_last(), dec).push(dec[cs.last() as u32])
    } else {
        decode_chars(cs.drop_last(), dec)
    }
}

/// `std::char::from_u32`: the char with codepoint `u`, if `u` is a Unicode
/// scalar value.
#[verifier::external_body]
fn char_from_u32(u: u32) -> (r: Option<char>)
    ensures
        r is Some <==> is_scalar(u),
        r matches Some(c) ==> c as u32 == u,
{
    char::from_u32(u)
}

proof fn lemma_code_char(u: u32)
    requires
        is_scalar(u),
    ensures
        (u as char) as u32 == u,
{
}

/// `byte_table()` is the char with codepoint `byte_code` at each byte.
pub proof fn lemma_byte_table_codes()
    ensures
        forall|b: int| 0 <= b < 256 ==> #[trigger] (byte_table()[b] as u32) == byte_code(b),
        byte_table().len() == 256,
{
    assert forall|b: int| 0 <= b < 256 implies #[trigger] (byte_table()[b] as u32) == byte_code(b) by {
        lemma_code_char(byte_code(b));
    }
}

/// Two chars with the same codepoint are the same char.
pub proof fn lemma_char_eq(c: char, d: char)
    requires
        c as u32 == d as u32,
    ensures
        c == d,
{
    broadcast use char_u32_cast;

    let u = c as u32;
    assert((u as char) == c);
    assert((u as char) == d);
}

/// Different bytes stand for different chars.
pub proof fn lemma_byte_code_injective(a: int, b: int)
    requires
        0 <= a < 256,
        0 <= b < 256,
        a != b,
    ensures
        byte_code(a) != byte_code(b),
{
}

fn contains_u32(v: &Vec<u32>, x: u32) -> (r: bool)
    ensures
        r == v@.contains(x),
{
    let mut i: usize = 0;
    while i < v.len()
        invariant
            0 <= i <= v.len(),
            forall|k: int| 0 <= k < i ==> v@[k] != x,
        decreases v.len() - i,
    {
        if v[i] == x {
            return true;
        }
        i = i + 1;
    }
    false
}

/// byte -> printable alphabet char.
pub fn byte_encoder() -> (table: [char; 256])
    ensures
        table@ == byte_table(),
{
    // Bytes that are already printable map to themselves.
    let mut bs: Vec<u32> = Vec::new();
    let mut x: u32 = 33;
    while x <= 126
        invariant
            33 <= x <= 127,
            bs@.len() == x - 33,
            forall|i: int| 0 <= i < bs@.len() ==> bs@[i] == printable_at(i),
        decreases 127 - x,
    {
        bs.push(x);
        x = x + 1;
    }
    x = 0xA1;
    while x <= 0xAC
        invariant
            161 <= x <= 173,
            bs@.len() == x - 161 + 94,
            forall|i: int| 0 <= i < bs@.len() ==> bs@[i] == printable_at(i),
        decreases 173 - x,
    {
        bs.push(x);
        x = x + 1;
    }
    x = 0xAE;
    while x <= 0xFF
        invariant
            174 <= x <= 256,
            bs@.len() == x - 174 + 106,
            forall|i: int| 0 <= i < bs@.len() ==> bs@[i] == printable_at(i),
        decreases 256 - x,
    {
        bs.push(x);
        x = x + 1;
    }
    let mut cs: Vec<u32> = bs.clone();
    assert(cs@ == bs@);
    // The remaining (non-printable) bytes get codepoints 256, 257, ... in order.
    let mut n: u32 = 0;
    let mut b: u32 = 0;
    while b < 256
        invariant
            0 <= b <= 256,
            n == hidden_rank(b as int),
            bs@.len() == 188 + n,
            cs@.len() == bs@.len(),
            forall|i: int| 0 <= i < 188 ==> #[trigger] bs@[i] == printable_at(i),
            forall|i: int| 0 <= i < 188 ==> #[trigger] cs@[i] == printable_at(i),
            forall|j: int| 188 <= j < bs@.len() ==> #[trigger] bs@[j] == hidden_at(j - 188),
            forall|j: int| 188 <= j < cs@.len() ==> #[trigger] cs@[j] == 256 + (j - 188),
        decreases 256 - b,
    {
        let present = contains_u32(&bs, b);
        proof {
            if is_printable(b as int) {
                let i: int = if b <= 126 {
                    b - 33
                } else if b <= 172 {
                    b - 161 + 94
                } else {
                    b - 174 + 106
                };
                assert(bs@[i] == b);
            } else {
                assert forall|i: int| 0 <= i < bs@.len() implies bs@[i] != b by {
                    if i >= 188 {
                        assert(bs@[i] == hidden_at(i - 188));
                    } else {
                        assert(bs@[i] == printable_at(i));
                    }
                }
            }
        }
        if !present {
            bs.push(b);
            cs.push(256 + n);
            n = n + 1;
        }
        b = b + 1;
    }
    let mut table = ['\0'; 256];
    let mut i: usize = 0;
    while i < 256
        invariant
            0 <= i <= 256,
            bs@.len() == 256,
            cs@.len() == 256,
            forall|j: int| 0 <= j < 188 ==> #[trigger] bs@[j] == printable_at(j),
            forall|j: int| 0 <= j < 188 ==> #[trigger] cs@[j] == printable_at(j),
            forall|j: int| 188 <= j < 256 ==> #[trigger] bs@[j] == hidden_at(j - 188),
            forall|j: int| 188 <= j < 256 ==> #[trigger] cs@[j] == 256 + (j - 188),
            forall|j: int| 0 <= j < i ==> (#[trigger] table@[bs@[j] as int]) as u32 == cs@[j],
        decreases 256 - i,
    {
        let c = char_from_u32(cs[i]);
        let ghost old_table = table@;
        match c {
            Some(ch) => {
                table[bs[i] as usize] = ch;
            },
            None => {
                proof {
                    if i < 188 {
                    } else {
                        assert(cs@[i as int] == 256 + (i - 188));
                    }
                }
            },
        }
        proof {
            assert forall|j: int| 0 <= j < i + 1 implies (#[trigger] table@[bs@[j] as int]) as u32
                == cs@[j] by {
                if j < i {
                    // distinct positions: the slot of `bs[j]` was not overwritten
                    assert(bs@[j] != bs@[i as int]);
                    assert(table@[bs@[j] as int] == old_table[bs@[j] as int]);
                } else {
                    if i < 188 {
                    } else {
                        assert(cs@[i as int] == 256 + (i - 188));
                    }
                }
            }
        }
        i = i + 1;
    }
    proof {
        lemma_byte_table_codes();
        assert forall|b: int| 0 <= b < 256 implies table@[b] == byte_table()[b] by {
            let j: int = if is_printable(b) {
                if b <= 126 {
                    b - 33
                } else if b <= 172 {
                    b - 161 + 94
                } else {
                    b - 174 + 106
                }
            } else {
                188 + hidden_rank(b)
            };
            assert(bs@[j] == b);
            assert(table@[bs@[j] as int] as u32 == cs@[j]);
            lemma_char_eq(table@[b], byte_table()[b]);
        }
        assert(table@ =~= byte_table());
    }
    table
}

/// alphabet char -> byte (inverse of [`byte_encoder`]), keyed by codepoint.
pub fn byte_decoder(enc: &[char; 256]) -> (dec: HashMap<u32, u8>)
    ensures
        dec@ == decoder_map(enc@, 256),
{
    let mut dec: HashMap<u32, u8> = HashMap::new();
    let mut b: usize = 0;
    while b < 256
        invariant
            0 <= b <= 256,
            dec@ == decoder_map(enc@, b as nat),
        decreases 256 - b,
    {
        dec.insert(enc[b] as u32, b as u8);
        b = b + 1;
    }
    dec
}

/// Encode a string's UTF-8 bytes into the byte-level alphabet.
pub fn encode_bytes(text: &str, enc: &[char; 256]) -> (r: String)
    ensures
        r@ == byte_level(encode_utf8(text@), enc@),
{
    let bytes = text.as_bytes();
    let mut r = String::new();
    let mut i: usize = 0;
    while i < bytes.len()
        invariant
            0 <= i <= bytes@.len(),
            bytes@ == encode_utf8(text@),
            r@ == byte_level(bytes@.take(i as int), enc@),
        decreases bytes@.len() - i,
    {
        push_char(&mut r, enc[bytes[i] as usize]);
        i = i + 1;
        assert(r@ =~= byte_level(bytes@.take(i as int), enc@));
    }
    assert(bytes@.take(i as int) =~= bytes@);
    r
}

/// Decode byte-level alphabet chars back into a string: chars that `dec`
/// does not know are dropped, and the bytes are read as UTF-8, invalid
/// sequences replaced.
pub fn decode_bytes(piece: &str, dec: &HashMap<u32, u8>) -> (r: String)
    ensures
        r@ == utf8_lossy(decode_chars(piece@, dec@)),
        valid_utf8(decode_chars(piece@, dec@)) ==> r@ == decode_utf8(decode_chars(piece@, dec@)),
{
    let cs = str_chars(piece);
    let mut bytes: Vec<u8> = Vec::new();
    let mut i: usize = 0;
    while i < cs.len()
        invariant
            0 <= i <= cs@.len(),
            cs@ == piece@,
            bytes@ == decode_chars(cs@.take(i as int), dec@),
        decreases cs@.len() - i,
    {
        let ghost prefix = cs@.take(i as int + 1);
        assert(prefix.drop_last() =~= cs@.take(i as int));
        match dec.get(&(cs[i] as u32)) {
            Some(b) => {
                bytes.push(*b);
            },
            None => {},
        }
        i = i + 1;
    }
    assert(cs@.take(i as int) =~= cs@);
    utf8_lossy_string(bytes.as_slice())
}

/// The full 256-char alphabet, sorted by codepoint for a deterministic vocab.
pub fn alphabet(enc: &[char; 256]) -> (a: Vec<char>)
    ensures
        sorted_chars(a@),
        a@.to_multiset() == enc@.to_multiset(),
{
    let mut a: Vec<char> = Vec::new();
    let mut k: usize = 0;
    while k < 256
        invariant
            0 <= k <= 256,
            a@ == enc@.take(k as int),
        decreases 256 - k,
    {
        a.push(enc[k]);
        k = k + 1;
        assert(a@ =~= enc@.take(k as int));
    }
    assert(enc@.take(256) =~= enc@);
    // Insertion sort: the prefix `a[..i]` is kept sorted.
    let mut i: usize = 1;
    while i < a.len()
        invariant
            1 <= i <= a@.len(),
            a@.len() == 256,
            a@.to_multiset() == enc@.to_multiset(),
            forall|p: int, q: int|
                #![trigger a@[p], a@[q]]
                0 <= p <= q < i ==> (a@[p] as u32) <= (a@[q] as u32),
        decreases a@.len() - i,
    {
        let mut j: usize = i;
        while j > 0 && (a[j - 1] as u32) > (a[j] as u32)
            invariant
                0 <= j <= i < a@.len(),
                a@.len() == 256,
                a@.to_multiset() == enc@.to_multiset(),
                forall|p: int, q: int|
                    #![trigger a@[p], a@[q]]
                    0 <= p <= q <= i && p != j && q != j ==> (a@[p] as u32) <= (a@[q] as u32),
                forall|q: int| j < q <= i ==> (a@[j as int] as u32) <= (#[trigger] a@[q] as u32),
            decreases j,
        {
            let x = a[j - 1];
            let y = a[j];
            let ghost before = a@;
            a.set(j - 1, y);
            a.set(j, x);
            proof {
                assert(a@ == before.update(j - 1, y).update(j as int, x));
                assert(before.update(j - 1, y)[j as int] == y);
                let s1 = before.update(j - 1, y);
                vstd::seq_lib::to_multiset_update(before, j - 1, y);
                vstd::seq_lib::to_multiset_update(s1, j as int, x);
                assert(s1.to_multiset() == before.to_multiset().insert(y).remove(x));
                assert(a@.to_multiset() == s1.to_multiset().insert(x).remove(y));
                assert(before[j - 1] == x);
                assert(before.contains(x));
                vstd::seq_lib::to_multiset_contains(before, x);
                assert(a@.to_multiset() =~= before.to_multiset()) by {
                    broadcast use vstd::multiset::group_multiset_axioms;
                }
                assert forall|q: int| j - 1 < q <= i implies (a@[j - 1] as u32) <= (
                #[trigger] a@[q] as u32) by {
                    if q > j {
                        assert(before[q] == a@[q]);
                    }
                }
                assert forall|p: int, q: int|
                    #![trigger a@[p], a@[q]]
                    0 <= p <= q <= i && p != j - 1 && q != j - 1 implies (a@[p] as u32) <= (
                    a@[q] as u32) by {
                    if p == j && q != j {
                        assert(before[j - 1] == a@[p]);
                        assert(before[q] == a@[q]);
                        assert((before[j - 1] as u32) <= (before[q] as u32));
                    } else if q == j && p != j {
                        assert(before[j - 1] == a@[q]);
                        assert(before[p] == a@[p]);
                        assert((before[p] as u32) <= (before[j - 1] as u32));
                    } else if p != j && q != j {
                        assert(before[p] == a@[p]);
                        assert(before[q] == a@[q]);
                    }
                }
            }
            j = j - 1;
        }
        proof {
            assert forall|p: int, q: int|
                #![trigger a@[p], a@[q]]
                0 <= p <= q < i + 1 implies (a@[p] as u32) <= (a@[q] as u32) by {
                if p == j && q != j {
                } else if q == j && p != j {
                    assert((a@[p] as u32) <= (a@[j - 1] as u32));
                }
            }
        }
        i = i + 1;
    }
    assert(a@.take(256) =~= a@);
    a
}

/// `byte_decoder` of the byte table sends each byte's char back to the byte,
/// and knows no other char.
pub proof fn lemma_decoder_of_table(n: nat)
    requires
        n <= 256,
    ensures
        forall|b: int|
            0 <= b < n ==> #[trigger] decoder_map(byte_table(), n).contains_key(byte_code(b))
                && decoder_map(byte_table(), n)[byte_code(b)] == b as u8,
        forall|k: u32|
            #[trigger] decoder_map(byte_table(), n).contains_key(k) ==> exists|b: int|
                0 <= b < n && byte_code(b) == k,
    decreases n,
{
    lemma_byte_table_codes();
    if n > 0 {
        lemma_decoder_of_table((n - 1) as nat);
        let m = decoder_map(byte_table(), (n - 1) as nat);
        assert forall|b: int| 0 <= b < n implies #[trigger] decoder_map(
            byte_table(),
            n,
        ).contains_key(byte_code(b)) && decoder_map(byte_table(), n)[byte_code(b)] == b as u8 by {
            if b < n - 1 {
                lemma_byte_code_injective(b, n - 1);
                assert(m.contains_key(byte_code(b)));
            }
        }
        assert forall|k: u32| #[trigger]
            decoder_map(byte_table(), n).contains_key(k) implies exists|b: int|
            0 <= b < n && byte_code(b) == k by {
            if k != byte_code(n - 1) {
                assert(m.contains_key(k));
            }
        }
    }
}

/// Decoding the byte-level encoding of `bytes` with the table's decoder
/// gives the bytes back.
pub proof fn lemma_byte_level_roundtrip(bytes: Seq<u8>)
    ensures
        decode_chars(byte_level(bytes, byte_table()), decoder_map(byte_table(), 256)) == bytes,
    decreases bytes.len(),
{
    lemma_byte_table_codes();
    lemma_decoder_of_table(256);
    if bytes.len() > 0 {
        let cs = byte_level(bytes, byte_table());
        lemma_byte_level_roundtrip(bytes.drop_last());
        assert(cs.drop_last() =~= byte_level(bytes.drop_last(), byte_table()));
        let b = bytes.last() as int;
        assert(cs.last() as u32 == byte_code(b));
        assert(bytes.drop_last().push(bytes.last()) =~= bytes);
    }
}

/// The decoder of a table with no repeated char sends each table entry's
/// codepoint back to its byte.
pub proof fn lemma_decoder_inverts(enc: Seq<char>, n: nat)
    requires
        n <= enc.len(),
        n <= 256,
        enc.no_duplicates(),
    ensures
        forall|b: int|
            0 <= b < n ==> #[trigger] decoder_map(enc, n).contains_key(enc[b] as u32) && decoder_map(enc, n)[enc[b]
                as u32] == b as u8,
    decreases n,
{
    if n > 0 {
        lemma_decoder_inverts(enc, (n - 1) as nat);
        assert forall|b: int| 0 <= b < n implies #[trigger] decoder_map(enc, n).contains_key(enc[b] as u32)
            && decoder_map(enc, n)[enc[b] as u32] == b as u8 by {
            let m = decoder_map(enc, (n - 1) as nat);
            assert(decoder_map(enc, n) == m.insert(enc[n - 1] as u32, (n - 1) as u8));
            if b < n - 1 {
                assert(enc[b] != enc[n - 1]);
                if enc[b] as u32 == enc[n - 1] as u32 {
                    lemma_char_eq(enc[b], enc[n - 1]);
                }
                assert(m.contains_key(enc[b] as u32) && m[enc[b] as u32] == b as u8);
            }
        }
    }
}

/// Decoding a byte-level encoding with the decoder of any 256-char table
/// with no repeated char gives the bytes back.
pub proof fn lemma_byte_level_roundtrip_any(bytes: Seq<u8>, enc: Seq<char>)
    requires
        enc.len() == 256,
        enc.no_duplicates(),
    ensures
        decode_chars(byte_level(bytes, enc), decoder_map(enc, 256)) == bytes,
    decreases bytes.len(),
{
    lemma_decoder_inverts(enc, 256);
    if bytes.len() > 0 {
        let cs = byte_level(bytes, enc);
        lemma_byte_level_roundtrip_any(bytes.drop_last(), enc);
        assert(cs.drop_last() =~= byte_level(bytes.drop_last(), enc));
        let b = bytes.last() as int;
        assert(cs.last() == enc[b]);
        assert(bytes.drop_last().push(bytes.last()) =~= bytes);
    }
}

/// With any 256-char table with no repeated char and its decoder, decoding
/// what `encode_bytes` makes of `text` gives valid UTF-8 that reads as
/// `text`: `decode_bytes(&encode_bytes(text, &t), &byte_decoder(&t)) == text`.
pub proof fn lemma_encode_decode_bytes_any(text: Seq<char>, enc: Seq<char>)
    requires
        enc.len() == 256,
        enc.no_duplicates(),
    ensures
        decode_chars(byte_level(encode_utf8(text), enc), decoder_map(enc, 256)) == encode_utf8(text),
        valid_utf8(encode_utf8(text)),
        decode_utf8(encode_utf8(text)) == text,
{
    lemma_byte_level_roundtrip_any(encode_utf8(text), enc);
    encode_utf8_valid_utf8(text);
    encode_utf8_decode_utf8(text);
}

/// The byte table has no repeated char.
pub proof fn lemma_byte_table_distinct()
    ensures
        byte_table().no_duplicates(),
{
    lemma_byte_table_codes();
    assert forall|i: int, j: int|
        0 <= i < 256 && 0 <= j < 256 && i != j implies byte_table()[i] != byte_table()[j] by {
        lemma_byte_code_injective(i, j);
    }
}

/// Codepoint order is a total order on chars.
pub proof fn lemma_char_leq_total()
    ensures
        vstd::relations::total_ordering(char_leq()),
{
    assert forall|x: char, y: char|
        #[trigger] char_leq()(x, y) && #[trigger] char_leq()(y, x) implies x == y by {
        lemma_char_eq(x, y);
    }
}

/// Two sorted sequences of chars with the same elements are equal.
pub proof fn lemma_sorted_unique(s1: Seq<char>, s2: Seq<char>)
    requires
        sorted_chars(s1),
        sorted_chars(s2),
        s1.to_multiset() == s2.to_multiset(),
    ensures
        s1 == s2,
    decreases s1.len(),
{
    broadcast use vstd::seq_lib::group_to_multiset_ensures;

    vstd::seq_lib::to_multiset_len(s1);
    vstd::seq_lib::to_multiset_len(s2);
    if s1.len() > 0 {
        vstd::seq_lib::to_multiset_contains(s1, s1[0]);
        vstd::seq_lib::to_multiset_contains(s2, s1[0]);
        vstd::seq_lib::to_multiset_contains(s2, s2[0]);
        vstd::seq_lib::to_multiset_contains(s1, s2[0]);
        assert(s2.contains(s1[0]));
        assert(s1.contains(s2[0]));
        let i = choose|i: int| 0 <= i < s2.len() && s2[i] == s1[0];
        let j = choose|j: int| 0 <= j < s1.len() && s1[j] == s2[0];
        assert((s2[0] as u32) <= (s2[i] as u32));
        assert((s1[0] as u32) <= (s1[j] as u32));
        lemma_char_eq(s1[0], s2[0]);
        vstd::seq_lib::to_multiset_remove(s1, 0);
        vstd::seq_lib::to_multiset_remove(s2, 0);
        assert(s1.remove(0) =~= s1.drop_first());
        assert(s2.remove(0) =~= s2.drop_first());
        lemma_sorted_unique(s1.drop_first(), s2.drop_first());
        assert(s1 =~= seq![s1[0]] + s1.drop_first());
        assert(s2 =~= seq![s2[0]] + s2.drop_first());
    }
}

/// `alphabet` of the byte table is the byte table sorted by codepoint.
pub proof fn lemma_alphabet_of_table(a: Seq<char>)
    requires
        sorted_chars(a),
        a.to_multiset() == byte_table().to_multiset(),
    ensures
        a == sorted_alphabet(),
{
    lemma_char_leq_total();
    byte_table().lemma_sort_by_ensures(char_leq());
    let s = sorted_alphabet();
    assert(sorted_chars(s)) by {
        assert forall|i: int, j: int| 0 <= i <= j < s.len() implies (s[i] as u32) <= (
        s[j] as u32) by {
            if i < j {
                assert(char_leq()(s[i], s[j]));
            }
        }
    }
    lemma_sorted_unique(a, s);
}

/// Decoding what `encode_bytes` makes of `text` with the table and its
/// decoder gives back valid UTF-8 that reads as `text` again: so
/// `decode_bytes(&encode_bytes(text, &t), &byte_decoder(&t)) == text` for
/// `t = byte_encoder()`.
pub proof fn lemma_encode_decode_bytes(text: Seq<char>)
    ensures
        decode_chars(byte_level(encode_utf8(text), byte_table()), decoder_map(byte_table(), 256))
            == encode_utf8(text),
        valid_utf8(encode_utf8(text)),
        decode_utf8(encode_utf8(text)) == text,
{
    lemma_byte_level_roundtrip(encode_utf8(text));
    encode_utf8_valid_utf8(text);
    encode_utf8_decode_utf8(text);
}

/// The sorted alphabet holds every char of the byte table.
pub proof fn lemma_sorted_alphabet_has_table()
    ensures
        sorted_alphabet().len() == 256,
        forall|b: int| 0 <= b < 256 ==> #[trigger] sorted_alphabet().contains(byte_table()[b]),
{
    broadcast use vstd::seq_lib::group_to_multiset_ensures;

    lemma_char_leq_total();
    byte_table().lemma_sort_by_ensures(char_leq());
    vstd::seq_lib::to_multiset_len(byte_table());
    vstd::seq_lib::to_multiset_len(sorted_alphabet());
    assert forall|b: int| 0 <= b < 256 implies #[trigger] sorted_alphabet().contains(
        byte_table()[b],
    ) by {
        vstd::seq_lib::to_multiset_contains(byte_table(), byte_table()[b]);
        vstd::seq_lib::to_multiset_contains(sorted_alphabet(), byte_table()[b]);
        assert(byte_table().contains(byte_table()[b]));
    }
}

} // verus!
