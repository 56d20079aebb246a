//! Terms: the keys of the dictionary, and their lexicographic order.

use crate::bytes::{be32_bytes, push_u32};
use vstd::prelude::*;

verus! {

/// `a` and `b` agree before place `k`, and there `a` ends or is smaller.
pub open spec fn precedes_at(a: Seq<u8>, b: Seq<u8>, k: int) -> bool {
    &&& 0 <= k <= a.len()
    &&& k < b.len()
    &&& forall|i: int| 0 <= i < k ==> a[i] == b[i]
    &&& (k == a.len() || a[k] < b[k])
}

/// `a` comes before `b` in the lexicographic order of raw bytes.
pub open spec fn lex_lt(a: Seq<u8>, b: Seq<u8>) -> bool {
    exists|k: int| precedes_at(a, b, k)
}

/// The byte strings that a list of buffers holds.
pub open spec fn views(v: Seq<Vec<u8>>) -> Seq<Seq<u8>> {
    Seq::new(v.len(), |i: int| v[i]@)
}

/// How one term stands to another.
#[derive(Clone, Copy, Debug, PartialEq, Eq, Structural)]
pub enum Rank {
    Before,
    Same,
    After,
}

/// The order is transitive.
pub proof fn lemma_lex_transitive(a: Seq<u8>, b: Seq<u8>, c: Seq<u8>)
    requires
        lex_lt(a, b),
        lex_lt(b, c),
    ensures
        lex_lt(a, c),
{
    let k1 = choose|k: int| precedes_at(a, b, k);
    let k2 = choose|k: int| precedes_at(b, c, k);
    let k = if k1 <= k2 { k1 } else { k2 };
    assert(precedes_at(a, c, k));
}

/// No term comes before itself, and no two come before each other.
pub proof fn lemma_lex_asymmetric(a: Seq<u8>, b: Seq<u8>)
    requires
        lex_lt(a, b),
    ensures
        !lex_lt(b, a),
        a != b,
{
    let k1 = choose|k: int| precedes_at(a, b, k);
    if lex_lt(b, a) {
        let k2 = choose|k: int| precedes_at(b, a, k);
        if k1 < k2 {
            assert(b[k1] == a[k1]);
        } else if k2 < k1 {
            assert(a[k2] == b[k2]);
        }
    }
}

/// Compares two terms byte by byte.
pub fn term_rank(a: &Vec<u8>, b: &Vec<u8>) -> (r: Rank)
    ensures
        r == Rank::Before <==> lex_lt(a@, b@),
        r == Rank::Same <==> a@ == b@,
        r == Rank::After <==> lex_lt(b@, a@),
{
    let mut i: usize = 0;
    while i < a.len() && i < b.len() && a[i] == b[i]
        invariant
            i <= a.len(),
            i <= b.len(),
            forall|j: int| 0 <= j < i ==> a@[j] == b@[j],
        decreases a.len() - i,
    {
        i += 1;
    }
    if i == a.len() && i == b.len() {
        assert(a@ =~= b@);
        proof {
            if lex_lt(a@, b@) {
                lemma_lex_asymmetric(a@, b@);
            }
            if lex_lt(b@, a@) {
                lemma_lex_asymmetric(b@, a@);
            }
        }
        Rank::Same
    } else if i == a.len() || (i < b.len() && a[i] < b[i]) {
        assert(precedes_at(a@, b@, i as int));
        proof {
            lemma_lex_asymmetric(a@, b@);
        }
        Rank::Before
    } else {
        assert(precedes_at(b@, a@, i as int));
        proof {
            lemma_lex_asymmetric(b@, a@);
        }
        Rank::After
    }
}

/// The term of a text token: the field's id, then the token's bytes.
pub open spec fn text_term(field: u8, text: Seq<u8>) -> Seq<u8> {
    seq![field] + text
}

/// The term of a number: the field's id, then the number big-endian.
pub open spec fn u32_term(field: u8, value: u32) -> Seq<u8> {
    seq![field] + be32_bytes(value)
}

/// Builds the term of a text token.
pub fn from_field_text(field: u8, text: &Vec<u8>) -> (term: Vec<u8>)
    ensures
        term@ == text_term(field, text@),
{
    let mut term: Vec<u8> = Vec::new();
    term.push(field);
    let mut i: usize = 0;
    while i < text.len()
        invariant
            i <= text.len(),
            term@ == seq![field] + text@.take(i as int),
        decreases text.len() - i,
    {
        term.push(text[i]);
        assert(text@.take(i + 1) =~= text@.take(i as int).push(text@[i as int]));
        i += 1;
    }
    assert(text@.take(i as int) =~= text@);
    term
}

/// Builds the term of a number.
pub fn from_field_u32(field: u8, value: u32) -> (term: Vec<u8>)
    ensures
        term@ == u32_term(field, value),
{
    let mut term: Vec<u8> = Vec::new();
    term.push(field);
    push_u32(&mut term, value);
    term
}

} // verus!
