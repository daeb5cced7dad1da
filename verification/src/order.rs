//! Byte-wise lexicographic order on strings and on (name, group) pairs,
//! matching the order in which statistics records are emitted.

use vstd::prelude::*;

verus! {

/// UTF-8 bytes of a string value, the basis of the emission order.
pub open spec fn str_bytes(s: Seq<char>) -> Seq<u8> {
    vstd::utf8::encode_utf8(s)
}

/// Strict lexicographic order on byte sequences.
pub open spec fn bytes_lt(a: Seq<u8>, b: Seq<u8>) -> bool
    decreases a.len(),
{
    if b.len() == 0 {
        false
    } else if a.len() == 0 {
        true
    } else if a[0] < b[0] {
        true
    } else if a[0] > b[0] {
        false
    } else {
        bytes_lt(a.drop_first(), b.drop_first())
    }
}

/// Strict lexicographic order on strings: their UTF-8 bytes compared left to
/// right, the order `str` sorts in.
pub open spec fn name_lt(a: Seq<char>, b: Seq<char>) -> bool {
    bytes_lt(str_bytes(a), str_bytes(b))
}

/// Strict order on (name, group) pairs: name primary, group secondary.
pub open spec fn pair_lt(a0: Seq<char>, a1: Seq<char>, b0: Seq<char>, b1: Seq<char>) -> bool {
    name_lt(a0, b0) || (a0 == b0 && name_lt(a1, b1))
}

/// Two byte sequences are ordered one way or the other, or are equal.
pub proof fn lemma_bytes_lt_total(a: Seq<u8>, b: Seq<u8>)
    ensures
        bytes_lt(a, b) || bytes_lt(b, a) || a == b,
    decreases a.len(),
{
    if a.len() == 0 && b.len() == 0 {
        assert(a =~= b);
    } else if a.len() > 0 && b.len() > 0 && a[0] == b[0] {
        lemma_bytes_lt_total(a.drop_first(), b.drop_first());
        if !bytes_lt(a, b) && !bytes_lt(b, a) {
            assert(a =~= seq![a[0]] + a.drop_first());
            assert(b =~= seq![b[0]] + b.drop_first());
        }
    }
}

/// Two strings are ordered one way or the other, or are equal.
pub proof fn lemma_name_lt_total(a: Seq<char>, b: Seq<char>)
    ensures
        name_lt(a, b) || name_lt(b, a) || a == b,
{
    broadcast use vstd::utf8::encode_utf8_decode_utf8;

    lemma_bytes_lt_total(str_bytes(a), str_bytes(b));
    if !name_lt(a, b) && !name_lt(b, a) {
        assert(vstd::utf8::decode_utf8(str_bytes(a)) == vstd::utf8::decode_utf8(str_bytes(b)));
    }
}

/// The byte order is transitive.
pub proof fn lemma_bytes_lt_trans(a: Seq<u8>, b: Seq<u8>, c: Seq<u8>)
    requires
        bytes_lt(a, b),
        bytes_lt(b, c),
    ensures
        bytes_lt(a, c),
    decreases a.len(),
{
    if a.len() > 0 {
        if a[0] == b[0] && b[0] == c[0] {
            lemma_bytes_lt_trans(a.drop_first(), b.drop_first(), c.drop_first());
        }
    }
}

/// The string order is transitive.
pub proof fn lemma_name_lt_trans(a: Seq<char>, b: Seq<char>, c: Seq<char>)
    requires
        name_lt(a, b),
        name_lt(b, c),
    ensures
        name_lt(a, c),
{
    lemma_bytes_lt_trans(str_bytes(a), str_bytes(b), str_bytes(c));
}

/// The byte order is irreflexive.
pub proof fn lemma_bytes_lt_irrefl(a: Seq<u8>)
    ensures
        !bytes_lt(a, a),
    decreases a.len(),
{
    if a.len() > 0 {
        lemma_bytes_lt_irrefl(a.drop_first());
    }
}

/// The string order is irreflexive.
pub proof fn lemma_name_lt_irrefl(a: Seq<char>)
    ensures
        !name_lt(a, a),
{
    lemma_bytes_lt_irrefl(str_bytes(a));
}

/// The pair order is transitive.
pub proof fn lemma_pair_lt_trans(
    a0: Seq<char>,
    a1: Seq<char>,
    b0: Seq<char>,
    b1: Seq<char>,
    c0: Seq<char>,
    c1: Seq<char>,
)
    requires
        pair_lt(a0, a1, b0, b1),
        pair_lt(b0, b1, c0, c1),
    ensures
        pair_lt(a0, a1, c0, c1),
{
    if name_lt(a0, b0) && name_lt(b0, c0) {
        lemma_name_lt_trans(a0, b0, c0);
    } else if a0 == b0 && b0 == c0 {
        lemma_name_lt_trans(a1, b1, c1);
    }
}

/// Two pairs are ordered one way or the other, or are equal component-wise.
pub proof fn lemma_pair_lt_total(a0: Seq<char>, a1: Seq<char>, b0: Seq<char>, b1: Seq<char>)
    ensures
        pair_lt(a0, a1, b0, b1) || pair_lt(b0, b1, a0, a1) || (a0 == b0 && a1 == b1),
{
    lemma_name_lt_total(a0, b0);
    lemma_name_lt_total(a1, b1);
}

proof fn lemma_bytes_lt_step(a: Seq<u8>, b: Seq<u8>)
    requires
        a.len() > 0,
        b.len() > 0,
        a[0] == b[0],
    ensures
        bytes_lt(a, b) == bytes_lt(a.drop_first(), b.drop_first()),
{
}

/// Whether `a` sorts strictly before `b`, by UTF-8 bytes.
pub fn string_lt(a: &String, b: &String) -> (r: bool)
    ensures
        r == name_lt(a@, b@),
{
    let ab: &[u8] = a.as_str().as_bytes();
    let bb: &[u8] = b.as_str().as_bytes();
    let mut i: usize = 0;
    assert(ab@.skip(0) =~= ab@ && bb@.skip(0) =~= bb@);
    loop
        invariant
            i <= ab@.len(),
            i <= bb@.len(),
            ab@ == str_bytes(a@),
            bb@ == str_bytes(b@),
            name_lt(a@, b@) == bytes_lt(ab@.skip(i as int), bb@.skip(i as int)),
        decreases ab@.len() - i,
    {
        if i >= bb.len() {
            assert(bb@.skip(i as int).len() == 0);
            return false;
        }
        if i >= ab.len() {
            assert(ab@.skip(i as int).len() == 0 && bb@.skip(i as int).len() > 0);
            return true;
        }
        let x = ab[i];
        let y = bb[i];
        assert(ab@.skip(i as int)[0] == ab@[i as int] && bb@.skip(i as int)[0] == bb@[i as int]);
        if x < y {
            return true;
        }
        if x > y {
            return false;
        }
        proof {
            lemma_bytes_lt_step(ab@.skip(i as int), bb@.skip(i as int));
            assert(ab@.skip(i as int).drop_first() =~= ab@.skip(i as int + 1));
            assert(bb@.skip(i as int).drop_first() =~= bb@.skip(i as int + 1));
        }
        i = i + 1;
    }
}

/// Whether two strings hold the same characters.
pub fn string_eq(a: &String, b: &String) -> (r: bool)
    ensures
        r == (a@ == b@),
{
    *a == *b
}

/// Whether pair `(a0, a1)` sorts strictly before `(b0, b1)`.
pub fn pair_string_lt(a0: &String, a1: &String, b0: &String, b1: &String) -> (r: bool)
    ensures
        r == pair_lt(a0@, a1@, b0@, b1@),
{
    if string_lt(a0, b0) {
        true
    } else if string_eq(a0, b0) {
        string_lt(a1, b1)
    } else {
        false
    }
}

} // verus!
