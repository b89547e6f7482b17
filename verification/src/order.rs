use vstd::prelude::*;

verus! {

/// Strict lexicographic order on byte strings, starting the comparison at
/// position `i`: the order every table's keys are kept in.
pub open spec fn lex_lt_from(a: Seq<u8>, b: Seq<u8>, i: int) -> bool
    decreases a.len() - i,
{
    if i < 0 {
        false
    } else if i >= b.len() {
        false
    } else if i >= a.len() {
        true
    } else if a[i] < b[i] {
        true
    } else if a[i] > b[i] {
        false
    } else {
        lex_lt_from(a, b, i + 1)
    }
}

/// `a` comes strictly before `b` in lexicographic byte order.
pub open spec fn lex_lt(a: Seq<u8>, b: Seq<u8>) -> bool {
    lex_lt_from(a, b, 0)
}

/// The order is connex: two byte strings that are not equal from position
/// `i` on are ordered one way or the other.
proof fn lemma_lt_from_connex(a: Seq<u8>, b: Seq<u8>, i: int)
    requires
        0 <= i <= a.len(),
        i <= b.len(),
    ensures
        lex_lt_from(a, b, i) || lex_lt_from(b, a, i) || a.subrange(i, a.len() as int)
            == b.subrange(i, b.len() as int),
    decreases a.len() - i,
{
    if i < a.len() && i < b.len() && a[i] == b[i] {
        lemma_lt_from_connex(a, b, i + 1);
        if !lex_lt_from(a, b, i) && !lex_lt_from(b, a, i) {
            let sa = a.subrange(i, a.len() as int);
            let sb = b.subrange(i, b.len() as int);
            assert(a.subrange(i + 1, a.len() as int) == b.subrange(i + 1, b.len() as int));
            assert(a.len() == b.len());
            assert forall|k: int| 0 <= k < sa.len() implies sa[k] == sb[k] by {
                if k > 0 {
                    assert(sa[k] == a.subrange(i + 1, a.len() as int)[k - 1]);
                    assert(sb[k] == b.subrange(i + 1, b.len() as int)[k - 1]);
                }
            }
            assert(sa =~= sb);
        }
    }
}

/// Totality: two byte strings are equal or strictly ordered.
pub proof fn lemma_lex_connex(a: Seq<u8>, b: Seq<u8>)
    ensures
        lex_lt(a, b) || lex_lt(b, a) || a == b,
{
    lemma_lt_from_connex(a, b, 0);
    if !lex_lt(a, b) && !lex_lt(b, a) {
        assert(a.subrange(0, a.len() as int) =~= a);
        assert(b.subrange(0, b.len() as int) =~= b);
    }
}

proof fn lemma_lt_from_asym(a: Seq<u8>, b: Seq<u8>, i: int)
    requires
        lex_lt_from(a, b, i),
    ensures
        !lex_lt_from(b, a, i),
    decreases a.len() - i,
{
    if i < a.len() && i < b.len() && a[i] == b[i] {
        lemma_lt_from_asym(a, b, i + 1);
    }
}

/// Asymmetry: a byte string strictly below another is not also above it,
/// and the two differ.
pub proof fn lemma_lex_asym(a: Seq<u8>, b: Seq<u8>)
    requires
        lex_lt(a, b),
    ensures
        !lex_lt(b, a),
        a != b,
{
    lemma_lt_from_asym(a, b, 0);
    if a == b {
        lemma_lt_from_irrefl(a, 0);
    }
}

proof fn lemma_lt_from_irrefl(a: Seq<u8>, i: int)
    ensures
        !lex_lt_from(a, a, i),
    decreases a.len() - i,
{
    if 0 <= i < a.len() {
        lemma_lt_from_irrefl(a, i + 1);
    }
}

/// Irreflexivity: no byte string is strictly below itself.
pub proof fn lemma_lex_irrefl(a: Seq<u8>)
    ensures
        !lex_lt(a, a),
{
    lemma_lt_from_irrefl(a, 0);
}

proof fn lemma_lt_from_trans(a: Seq<u8>, b: Seq<u8>, c: Seq<u8>, i: int)
    requires
        lex_lt_from(a, b, i),
        lex_lt_from(b, c, i),
    ensures
        lex_lt_from(a, c, i),
    decreases b.len() - i,
{
    if i < a.len() && i < b.len() && i < c.len() && a[i] == b[i] && b[i] == c[i] {
        lemma_lt_from_trans(a, b, c, i + 1);
    }
}

/// Transitivity of the strict lexicographic order.
pub proof fn lemma_lex_trans(a: Seq<u8>, b: Seq<u8>, c: Seq<u8>)
    requires
        lex_lt(a, b),
        lex_lt(b, c),
    ensures
        lex_lt(a, c),
{
    lemma_lt_from_trans(a, b, c, 0);
}

/// Decides `lex_lt_from(a@, b@, i)` by walking the two slices in step.
fn lt_from(a: &[u8], b: &[u8], i: usize) -> (r: bool)
    ensures
        r == lex_lt_from(a@, b@, i as int),
    decreases a@.len() - i,
{
    if i >= b.len() {
        false
    } else if i >= a.len() {
        true
    } else if a[i] < b[i] {
        true
    } else if a[i] > b[i] {
        false
    } else {
        lt_from(a, b, i + 1)
    }
}

/// Decides the strict lexicographic order on two byte slices.
pub fn bytes_lt(a: &[u8], b: &[u8]) -> (r: bool)
    ensures
        r == lex_lt(a@, b@),
{
    lt_from(a, b, 0)
}

fn eq_from(a: &[u8], b: &[u8], i: usize) -> (r: bool)
    requires
        a@.len() == b@.len(),
        i <= a@.len(),
        a@.subrange(0, i as int) == b@.subrange(0, i as int),
    ensures
        r == (a@ == b@),
    decreases a@.len() - i,
{
    if i == a.len() {
        proof {
            assert(a@.subrange(0, i as int) =~= a@);
            assert(b@.subrange(0, i as int) =~= b@);
        }
        true
    } else if a[i] == b[i] {
        proof {
            assert(a@.subrange(0, i + 1) =~= a@.subrange(0, i as int).push(a@[i as int]));
            assert(b@.subrange(0, i + 1) =~= b@.subrange(0, i as int).push(b@[i as int]));
        }
        eq_from(a, b, i + 1)
    } else {
        proof {
            assert(a@[i as int] != b@[i as int]);
        }
        false
    }
}

/// Decides equality of two byte slices.
pub fn bytes_eq(a: &[u8], b: &[u8]) -> (r: bool)
    ensures
        r == (a@ == b@),
{
    if a.len() != b.len() {
        return false;
    }
    proof {
        assert(a@.subrange(0, 0) =~= b@.subrange(0, 0));
    }
    eq_from(a, b, 0)
}

} // verus!
