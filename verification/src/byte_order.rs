//! Lexicographic order on serialized keys.
//!
//! The map keeps its slots sorted by the byte order of the serialized keys;
//! every ordering fact the engine states goes through [`lex_lt`].

use vstd::prelude::*;

verus! {

/// Strict lexicographic order on byte sequences: `a` sorts before `b`.
pub open spec fn lex_lt(a: Seq<u8>, b: Seq<u8>) -> bool
    decreases a.len(),
{
    if b.len() == 0 {
        false
    } else if a.len() == 0 {
        true
    } else if a[0] < b[0] {
        true
    } else if a[0] > b[0] {
        false
    } else {
        lex_lt(a.drop_first(), b.drop_first())
    }
}

/// Every key sequence the map holds is strictly increasing.
pub open spec fn sorted_strict(ks: Seq<Seq<u8>>) -> bool {
    forall|i: int, j: int| 0 <= i < j < ks.len() ==> lex_lt(ks[i], ks[j])
}

/// The order is irreflexive: no sequence sorts before itself.
pub proof fn lemma_lex_irrefl(a: Seq<u8>)
    ensures
        !lex_lt(a, a),
    decreases a.len(),
{
    if a.len() > 0 {
        lemma_lex_irrefl(a.drop_first());
    }
}

/// Two sequences that agree on a prefix and then diverge (either `a` ends or
/// its next byte is smaller) are lexicographically ordered.
pub proof fn lemma_lex_lt_at(a: Seq<u8>, b: Seq<u8>, i: int)
    requires
        0 <= i <= a.len(),
        i <= b.len(),
        forall|j: int| 0 <= j < i ==> a[j] == b[j],
        (i == a.len() && i < b.len()) || (i < a.len() && i < b.len() && a[i] < b[i]),
    ensures
        lex_lt(a, b),
    decreases i,
{
    if i > 0 {
        lemma_lex_lt_at(a.drop_first(), b.drop_first(), i - 1);
    }
}

/// Two sequences of equal length that agree pointwise are equal.
pub proof fn lemma_bytes_ext(a: Seq<u8>, b: Seq<u8>)
    requires
        a.len() == b.len(),
        forall|j: int| 0 <= j < a.len() ==> a[j] == b[j],
    ensures
        a == b,
{
    assert(a =~= b);
}

/// Three-way comparison of two byte strings in lexicographic order.
///
/// Returns a negative, zero, or positive code as `a` sorts before, equal to,
/// or after `b`.
pub fn cmp_bytes(a: &[u8], b: &[u8]) -> (r: i8)
    ensures
        r == -1i8 || r == 0i8 || r == 1i8,
        r == -1i8 <==> lex_lt(a@, b@),
        r == 1i8 <==> lex_lt(b@, a@),
        r == 0i8 <==> a@ == b@,
{
    let alen: usize = a.len();
    let blen: usize = b.len();
    let mut i: usize = 0;
    while i < alen && i < blen
        invariant
            0 <= i <= alen,
            i <= blen,
            alen == a@.len(),
            blen == b@.len(),
            forall|j: int| 0 <= j < i ==> a@[j] == b@[j],
        decreases alen - i,
    {
        let ab: u8 = a[i];
        let bb: u8 = b[i];
        if ab < bb {
            proof {
                lemma_lex_lt_at(a@, b@, i as int);
                lemma_lex_irrefl(a@);
                if lex_lt(b@, a@) {
                    lemma_lex_asym(a@, b@);
                }
            }
            return -1;
        }
        if ab > bb {
            proof {
                lemma_lex_lt_at(b@, a@, i as int);
                lemma_lex_irrefl(b@);
                if lex_lt(a@, b@) {
                    lemma_lex_asym(b@, a@);
                }
            }
            return 1;
        }
        i = i + 1;
    }
    if alen == blen {
        proof {
            lemma_bytes_ext(a@, b@);
            lemma_lex_irrefl(a@);
        }
        0
    } else if alen < blen {
        proof {
            lemma_lex_lt_at(a@, b@, alen as int);
            lemma_lex_irrefl(a@);
            if lex_lt(b@, a@) {
                lemma_lex_asym(a@, b@);
            }
        }
        -1
    } else {
        proof {
            lemma_lex_lt_at(b@, a@, blen as int);
            lemma_lex_irrefl(b@);
            if lex_lt(a@, b@) {
                lemma_lex_asym(b@, a@);
            }
        }
        1
    }
}

/// The order is transitive.
pub proof fn lemma_lex_trans(a: Seq<u8>, b: Seq<u8>, c: Seq<u8>)
    requires
        lex_lt(a, b),
        lex_lt(b, c),
    ensures
        lex_lt(a, c),
    decreases a.len(),
{
    if a.len() > 0 && b.len() > 0 && c.len() > 0 {
        if a[0] == b[0] && b[0] == c[0] {
            lemma_lex_trans(a.drop_first(), b.drop_first(), c.drop_first());
        }
    }
}

/// The order is asymmetric: `a` before `b` rules out `b` before `a`.
pub proof fn lemma_lex_asym(a: Seq<u8>, b: Seq<u8>)
    requires
        lex_lt(a, b),
    ensures
        !lex_lt(b, a),
    decreases a.len(),
{
    if a.len() > 0 && b.len() > 0 && a[0] == b[0] {
        lemma_lex_asym(a.drop_first(), b.drop_first());
    }
}

} // verus!
