use vstd::prelude::*;

verus! {

use vstd::string::StringSliceAdditionalSpecFns;

/// Outcome of a three-way comparison.
#[derive(Clone, Copy, Debug, PartialEq, Eq, Structural)]
pub enum Rel {
    Lt,
    Eq,
    Gt,
}

/// Strict lexicographic order on byte sequences: the order Rust gives
/// strings when read over their UTF-8 bytes.
pub open spec fn lex_lt(a: Seq<u8>, b: Seq<u8>) -> bool
    decreases a.len(),
{
    if b.len() == 0 {
        false
    } else if a.len() == 0 {
        true
    } else if a[0] < b[0] {
        true
    } else if a[0] > b[0] {
        false
    } else {
        lex_lt(a.drop_first(), b.drop_first())
    }
}

/// The order is asymmetric, and strictly ordered sequences are distinct.
pub proof fn lemma_lex_lt_asym(a: Seq<u8>, b: Seq<u8>)
    ensures
        lex_lt(a, b) ==> !lex_lt(b, a) && a != b,
    decreases a.len(),
{
    if a.len() > 0 && b.len() > 0 && a[0] == b[0] {
        lemma_lex_lt_asym(a.drop_first(), b.drop_first());
        if lex_lt(a, b) {
            assert(a != b) by {
                assert(a.drop_first() != b.drop_first());
            }
        }
    }
}

/// The order is transitive.
pub proof fn lemma_lex_lt_trans(a: Seq<u8>, b: Seq<u8>, c: Seq<u8>)
    ensures
        lex_lt(a, b) && lex_lt(b, c) ==> lex_lt(a, c),
    decreases a.len(),
{
    if a.len() > 0 && b.len() > 0 && c.len() > 0 {
        lemma_lex_lt_trans(a.drop_first(), b.drop_first(), c.drop_first());
    }
}

/// Sequences that agree on a prefix are ordered by the first difference, or
/// by one being a proper prefix of the other.
proof fn lemma_lex_lt_from_prefix(a: Seq<u8>, b: Seq<u8>, i: int)
    requires
        0 <= i <= a.len(),
        i <= b.len(),
        a.take(i) == b.take(i),
        (i < a.len() && i < b.len() && a[i] < b[i]) || (i == a.len() && i < b.len()),
    ensures
        lex_lt(a, b),
    decreases i,
{
    if i == 0 {
        assert(b.len() > 0);
    } else {
        assert(a[0] == b[0]) by {
            assert(a.take(i)[0] == a[0]);
            assert(b.take(i)[0] == b[0]);
        }
        assert(a.drop_first().take(i - 1) == b.drop_first().take(i - 1)) by {
            assert(a.drop_first().take(i - 1) =~= a.take(i).drop_first());
            assert(b.drop_first().take(i - 1) =~= b.take(i).drop_first());
        }
        if i < a.len() {
            assert(a.drop_first()[i - 1] == a[i]);
            assert(b.drop_first()[i - 1] == b[i]);
        }
        lemma_lex_lt_from_prefix(a.drop_first(), b.drop_first(), i - 1);
    }
}

/// Three-way lexicographic comparison of byte slices.
pub fn cmp_bytes(a: &[u8], b: &[u8]) -> (r: Rel)
    ensures
        (r is Eq) <==> a@ == b@,
        (r is Lt) <==> lex_lt(a@, b@),
        (r is Gt) <==> lex_lt(b@, a@),
{
    let mut i: usize = 0;
    loop
        invariant
            0 <= i <= a@.len(),
            i <= b@.len(),
            a@.take(i as int) == b@.take(i as int),
        decreases a@.len() - i,
    {
        if i == a.len() {
            if i == b.len() {
                proof {
                    assert(a@ =~= b@) by {
                        assert(a@.take(i as int) =~= a@);
                        assert(b@.take(i as int) =~= b@);
                    }
                    lemma_lex_lt_asym(a@, b@);
                    lemma_lex_lt_asym(b@, a@);
                }
                return Rel::Eq;
            } else {
                proof {
                    lemma_lex_lt_from_prefix(a@, b@, i as int);
                    lemma_lex_lt_asym(a@, b@);
                }
                return Rel::Lt;
            }
        }
        if i == b.len() {
            proof {
                lemma_lex_lt_from_prefix(b@, a@, i as int);
                lemma_lex_lt_asym(b@, a@);
            }
            return Rel::Gt;
        }
        let x = a[i];
        let y = b[i];
        if x < y {
            proof {
                lemma_lex_lt_from_prefix(a@, b@, i as int);
                lemma_lex_lt_asym(a@, b@);
            }
            return Rel::Lt;
        }
        if y < x {
            proof {
                lemma_lex_lt_from_prefix(b@, a@, i as int);
                lemma_lex_lt_asym(b@, a@);
            }
            return Rel::Gt;
        }
        proof {
            assert(a@.take(i + 1) =~= b@.take(i + 1)) by {
                assert forall|j: int| 0 <= j < i + 1 implies #[trigger] a@.take(i + 1)[j]
                    == b@.take(i + 1)[j] by {
                    if j < i {
                        assert(a@.take(i as int)[j] == b@.take(i as int)[j]);
                    }
                }
            }
        }
        i = i + 1;
    }
}

/// Three-way comparison of strings, by their UTF-8 bytes: the order Rust's
/// own string comparison uses.
pub fn cmp_str(a: &str, b: &str) -> (r: Rel)
    ensures
        (r is Eq) <==> a@ == b@,
        (r is Lt) <==> lex_lt(a.spec_bytes(), b.spec_bytes()),
        (r is Gt) <==> lex_lt(b.spec_bytes(), a.spec_bytes()),
{
    let r = cmp_bytes(a.as_bytes(), b.as_bytes());
    proof {
        if a.spec_bytes() == b.spec_bytes() {
            vstd::utf8::encode_utf8_decode_utf8(a@);
            vstd::utf8::encode_utf8_decode_utf8(b@);
        }
    }
    r
}

} // verus!
