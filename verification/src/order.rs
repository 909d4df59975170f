//! Lexicographic order on byte strings, by which entry names, keys and
//! content addresses are sorted.

use vstd::prelude::*;

verus! {

/// How one value stands to another in a total order.
#[derive(Clone, Copy, Debug, PartialEq, Eq, Structural)]
pub enum Comparison {
    Less,
    Equal,
    Greater,
}

/// `a` comes strictly before `b` in lexicographic order.
pub open spec fn lex_lt(a: Seq<u8>, b: Seq<u8>) -> bool
    decreases a.len(),
{
    if b.len() == 0 {
        false
    } else if a.len() == 0 {
        true
    } else if a[0] != b[0] {
        a[0] < b[0]
    } else {
        lex_lt(a.drop_first(), b.drop_first())
    }
}

/// The three-way comparison that goes with [`lex_lt`].
pub open spec fn lex_compare(a: Seq<u8>, b: Seq<u8>) -> Comparison {
    if a == b {
        Comparison::Equal
    } else if lex_lt(a, b) {
        Comparison::Less
    } else {
        Comparison::Greater
    }
}

/// No byte string comes before itself.
pub proof fn lemma_lex_irreflexive(a: Seq<u8>)
    ensures
        !lex_lt(a, a),
    decreases a.len(),
{
    if a.len() > 0 {
        lemma_lex_irreflexive(a.drop_first());
    }
}

/// Of two different byte strings exactly one comes before the other.
pub proof fn lemma_lex_total(a: Seq<u8>, b: Seq<u8>)
    ensures
        a == b || lex_lt(a, b) || lex_lt(b, a),
        !(lex_lt(a, b) && lex_lt(b, a)),
        lex_lt(a, b) ==> a != b,
    decreases a.len(),
{
    lemma_lex_irreflexive(a);
    if a.len() == 0 || b.len() == 0 {
        if a.len() == 0 && b.len() == 0 {
            assert(a =~= b);
        }
    } else if a[0] == b[0] {
        lemma_lex_total(a.drop_first(), b.drop_first());
        if a.drop_first() == b.drop_first() {
            assert(a =~= seq![a[0]] + a.drop_first());
            assert(b =~= seq![b[0]] + b.drop_first());
        }
    }
}

/// The order is transitive.
pub proof fn lemma_lex_transitive(a: Seq<u8>, b: Seq<u8>, c: Seq<u8>)
    requires
        lex_lt(a, b),
        lex_lt(b, c),
    ensures
        lex_lt(a, c),
    decreases a.len(),
{
    if a.len() > 0 && a[0] == b[0] && b[0] == c[0] {
        lemma_lex_transitive(a.drop_first(), b.drop_first(), c.drop_first());
    }
}

/// `lex_compare` turns round when its arguments are exchanged.
pub proof fn lemma_lex_compare_flip(a: Seq<u8>, b: Seq<u8>)
    ensures
        lex_compare(a, b) is Equal <==> a == b,
        lex_compare(a, b) is Less <==> lex_compare(b, a) is Greater,
        lex_compare(a, b) is Greater <==> lex_compare(b, a) is Less,
{
    lemma_lex_total(a, b);
}

/// Relates the order of two byte strings to their first difference.
pub proof fn lemma_lex_common_prefix(a: Seq<u8>, b: Seq<u8>, k: int)
    requires
        0 <= k <= a.len(),
        k <= b.len(),
        forall|j: int| 0 <= j < k ==> a[j] == b[j],
    ensures
        lex_lt(a, b) == lex_lt(a.subrange(k, a.len() as int), b.subrange(k, b.len() as int)),
    decreases k,
{
    if k == 0 {
        assert(a.subrange(0, a.len() as int) =~= a);
        assert(b.subrange(0, b.len() as int) =~= b);
    } else {
        let a1 = a.drop_first();
        let b1 = b.drop_first();
        lemma_lex_common_prefix(a1, b1, k - 1);
        assert(a1.subrange(k - 1, a1.len() as int) =~= a.subrange(k, a.len() as int));
        assert(b1.subrange(k - 1, b1.len() as int) =~= b.subrange(k, b.len() as int));
    }
}

/// Compares two byte strings lexicographically.
pub fn compare_bytes(a: &[u8], b: &[u8]) -> (r: Comparison)
    ensures
        r == lex_compare(a@, b@),
{
    let mut i: usize = 0;
    while i < a.len() && i < b.len()
        invariant
            i <= a.len(),
            i <= b.len(),
            forall|j: int| 0 <= j < i ==> a@[j] == b@[j],
        decreases a.len() - i,
    {
        if a[i] != b[i] {
            proof {
                lemma_lex_common_prefix(a@, b@, i as int);
                lemma_lex_total(a@, b@);
            }
            if a[i] < b[i] {
                return Comparison::Less;
            } else {
                return Comparison::Greater;
            }
        }
        i += 1;
    }
    proof {
        lemma_lex_common_prefix(a@, b@, i as int);
        lemma_lex_total(a@, b@);
        if a.len() == b.len() {
            assert(a@ =~= b@);
        }
    }
    if a.len() == b.len() {
        Comparison::Equal
    } else if a.len() < b.len() {
        Comparison::Less
    } else {
        Comparison::Greater
    }
}

/// The bytes by which a name is ordered: its UTF-8 encoding.
pub open spec fn name_bytes(name: Seq<char>) -> Seq<u8> {
    vstd::utf8::encode_utf8(name)
}

/// `a` comes strictly before `b` among names.
pub open spec fn name_lt(a: Seq<char>, b: Seq<char>) -> bool {
    lex_lt(name_bytes(a), name_bytes(b))
}

/// The three-way comparison of two names.
pub open spec fn name_compare(a: Seq<char>, b: Seq<char>) -> Comparison {
    if a == b {
        Comparison::Equal
    } else if name_lt(a, b) {
        Comparison::Less
    } else {
        Comparison::Greater
    }
}

/// Two names with the same bytes are the same name.
pub proof fn lemma_name_bytes_injective(a: Seq<char>, b: Seq<char>)
    ensures
        name_bytes(a) == name_bytes(b) <==> a == b,
{
    vstd::utf8::encode_utf8_decode_utf8(a);
    vstd::utf8::encode_utf8_decode_utf8(b);
}

/// The order on names is a strict total order.
pub proof fn lemma_name_order(a: Seq<char>, b: Seq<char>, c: Seq<char>)
    ensures
        !name_lt(a, a),
        a == b || name_lt(a, b) || name_lt(b, a),
        !(name_lt(a, b) && name_lt(b, a)),
        name_lt(a, b) && name_lt(b, c) ==> name_lt(a, c),
{
    lemma_lex_irreflexive(name_bytes(a));
    lemma_lex_total(name_bytes(a), name_bytes(b));
    lemma_name_bytes_injective(a, b);
    if name_lt(a, b) && name_lt(b, c) {
        lemma_lex_transitive(name_bytes(a), name_bytes(b), name_bytes(c));
    }
}

/// Compares two names by their bytes, as `str` orders them.
pub fn compare_names(a: &str, b: &str) -> (r: Comparison)
    ensures
        r == name_compare(a@, b@),
{
    proof {
        lemma_name_bytes_injective(a@, b@);
    }
    compare_bytes(a.as_bytes(), b.as_bytes())
}

} // verus!
