use vstd::prelude::*;

use crate::order::{
    bytes_eq, bytes_lt, lemma_lex_asym, lemma_lex_connex, lemma_lex_irrefl, lex_lt,
};

verus! {

/// The value set under one multimap key is kept as a strictly ascending
/// (hence de-duplicated) list of byte strings.
pub open spec fn sorted_vals(s: Seq<Seq<u8>>) -> bool {
    forall|i: int, j: int| 0 <= i < j < s.len() ==> lex_lt(s[i], s[j])
}

/// The value set with `v` added; adding a value already present changes
/// nothing.
pub open spec fn vs_insert(s: Seq<Seq<u8>>, v: Seq<u8>) -> Seq<Seq<u8>>
    decreases s.len(),
{
    if s.len() == 0 {
        seq![v]
    } else if lex_lt(v, s.first()) {
        seq![v] + s
    } else if v == s.first() {
        s
    } else {
        seq![s.first()] + vs_insert(s.drop_first(), v)
    }
}

/// The value set with the first occurrence of `v` removed (in a sorted,
/// de-duplicated set: the only occurrence).
pub open spec fn vs_remove(s: Seq<Seq<u8>>, v: Seq<u8>) -> Seq<Seq<u8>>
    decreases s.len(),
{
    if s.len() == 0 {
        s
    } else if v == s.first() {
        s.drop_first()
    } else {
        seq![s.first()] + vs_remove(s.drop_first(), v)
    }
}

/// Sorted value sets are closed under `vs_insert`, and the result contains
/// `v`.
pub proof fn lemma_vs_insert_sorted(s: Seq<Seq<u8>>, v: Seq<u8>)
    requires
        sorted_vals(s),
    ensures
        sorted_vals(vs_insert(s, v)),
        vs_insert(s, v).contains(v),
        forall|j: int|
            0 <= j < vs_insert(s, v).len() ==> #[trigger] vs_insert(s, v)[j] == v || s.contains(
                vs_insert(s, v)[j],
            ),
    decreases s.len(),
{
    let r = vs_insert(s, v);
    if s.len() == 0 {
        assert(r[0] == v);
    } else if lex_lt(v, s.first()) {
        assert(r[0] == v);
        assert forall|i: int, j: int| 0 <= i < j < r.len() implies lex_lt(r[i], r[j]) by {
            if i == 0 && j > 1 {
                crate::order::lemma_lex_trans(v, s[0], s[j - 1]);
            }
        }
        assert(forall|j: int| 1 <= j < r.len() ==> r[j] == s[j - 1]);
    } else if v == s.first() {
        assert(r[0] == v);
    } else {
        lemma_lex_connex(v, s.first());
        assert(lex_lt(s.first(), v));
        assert(sorted_vals(s.drop_first()));
        lemma_vs_insert_sorted(s.drop_first(), v);
        let rr = vs_insert(s.drop_first(), v);
        assert forall|i: int, j: int| 0 <= i < j < r.len() implies lex_lt(r[i], r[j]) by {
            if i == 0 {
                assert(r[j] == rr[j - 1]);
                if rr[j - 1] == v {
                } else {
                    let w = choose|w: int|
                        0 <= w < s.drop_first().len() && rr[j - 1] == #[trigger] s.drop_first()[w];
                    assert(s.drop_first()[w] == s[w + 1]);
                    assert(lex_lt(s[0], s[w + 1]));
                }
            }
        }
        let wi = choose|wi: int| 0 <= wi < rr.len() && rr[wi] == v;
        assert(r[wi + 1] == v);
        assert forall|j: int| 0 <= j < r.len() implies r[j] == v || s.contains(r[j]) by {
            if j > 0 {
                if rr[j - 1] != v {
                    let w = choose|w: int|
                        0 <= w < s.drop_first().len() && rr[j - 1] == #[trigger] s.drop_first()[w];
                    assert(s[w + 1] == r[j]);
                }
            }
        }
    }
}

/// Adding a value twice is the same as adding it once.
pub proof fn lemma_vs_insert_idempotent(s: Seq<Seq<u8>>, v: Seq<u8>)
    requires
        sorted_vals(s),
    ensures
        vs_insert(vs_insert(s, v), v) == vs_insert(s, v),
    decreases s.len(),
{
    let r = vs_insert(s, v);
    lemma_lex_irrefl(v);
    if s.len() == 0 {
        assert(vs_insert(r, v) =~= r);
    } else if lex_lt(v, s.first()) {
        assert(vs_insert(r, v) =~= r);
    } else if v == s.first() {
    } else {
        lemma_lex_connex(v, s.first());
        lemma_lex_asym(s.first(), v);
        lemma_vs_insert_idempotent(s.drop_first(), v);
        assert(r.first() == s.first());
        assert(r.drop_first() =~= vs_insert(s.drop_first(), v));
        assert(vs_insert(r, v) =~= r);
    }
}

/// Removing a value right after adding it to a set that did not hold it
/// restores the set; in particular the value is gone.
pub proof fn lemma_vs_remove_insert(s: Seq<Seq<u8>>, v: Seq<u8>)
    requires
        sorted_vals(s),
        !s.contains(v),
    ensures
        vs_remove(vs_insert(s, v), v) == s,
    decreases s.len(),
{
    let r = vs_insert(s, v);
    if s.len() == 0 {
        assert(vs_remove(r, v) =~= s);
    } else if lex_lt(v, s.first()) {
        assert(vs_remove(r, v) =~= s);
    } else if v == s.first() {
        assert(s.contains(v)) by {
            assert(s[0] == v);
        }
    } else {
        assert(!s.drop_first().contains(v)) by {
            if s.drop_first().contains(v) {
                let w = choose|w: int| 0 <= w < s.drop_first().len() && s.drop_first()[w] == v;
                assert(s[w + 1] == v);
            }
        }
        lemma_vs_remove_insert(s.drop_first(), v);
        assert(r.first() == s.first());
        assert(r.drop_first() =~= vs_insert(s.drop_first(), v));
        assert(vs_remove(r, v) =~= seq![s.first()] + vs_remove(vs_insert(s.drop_first(), v), v));
        assert(seq![s.first()] + s.drop_first() =~= s);
    }
}

/// A sorted, de-duplicated set no longer contains a removed value.
pub proof fn lemma_vs_remove_gone(s: Seq<Seq<u8>>, v: Seq<u8>)
    requires
        sorted_vals(s),
    ensures
        !vs_remove(s, v).contains(v),
        sorted_vals(vs_remove(s, v)),
    decreases s.len(),
{
    let r = vs_remove(s, v);
    if s.len() == 0 {
    } else if v == s.first() {
        assert(r =~= s.drop_first());
        if r.contains(v) {
            let w = choose|w: int| 0 <= w < r.len() && r[w] == v;
            assert(lex_lt(s[0], s[w + 1]));
            lemma_lex_irrefl(v);
        }
    } else {
        assert(sorted_vals(s.drop_first()));
        lemma_vs_remove_gone(s.drop_first(), v);
        let rr = vs_remove(s.drop_first(), v);
        assert(r.first() == s.first());
        assert(r.drop_first() =~= rr);
        if r.contains(v) {
            let w = choose|w: int| 0 <= w < r.len() && r[w] == v;
            assert(w > 0);
            assert(rr[w - 1] == v);
        }
        assert forall|i: int, j: int| 0 <= i < j < r.len() implies lex_lt(r[i], r[j]) by {
            if i == 0 {
                // rr keeps only values of s.drop_first(), all above s[0].
                lemma_vs_remove_keeps(s.drop_first(), v);
                let w = choose|w: int|
                    0 <= w < s.drop_first().len() && rr[j - 1] == #[trigger] s.drop_first()[w];
                assert(lex_lt(s[0], s[w + 1]));
            }
        }
    }
}

/// Every survivor of a removal was in the set before.
pub proof fn lemma_vs_remove_keeps(s: Seq<Seq<u8>>, v: Seq<u8>)
    ensures
        forall|j: int|
            #![trigger vs_remove(s, v)[j]]
            0 <= j < vs_remove(s, v).len() ==> exists|w: int|
                0 <= w < s.len() && vs_remove(s, v)[j] == #[trigger] s[w],
    decreases s.len(),
{
    let r = vs_remove(s, v);
    if s.len() == 0 {
    } else if v == s.first() {
        assert forall|j: int| #![trigger r[j]] 0 <= j < r.len() implies exists|w: int|
            0 <= w < s.len() && r[j] == s[w] by {
            assert(r[j] == s[j + 1]);
            assert(0 <= j + 1 < s.len() && r[j] == s[j + 1]);
        }
    } else {
        lemma_vs_remove_keeps(s.drop_first(), v);
        let rr = vs_remove(s.drop_first(), v);
        assert forall|j: int| #![trigger r[j]] 0 <= j < r.len() implies exists|w: int|
            0 <= w < s.len() && r[j] == s[w] by {
            if j == 0 {
                assert(r[0] == s[0]);
                assert(0 <= 0 < s.len() && r[j] == s[0]);
            } else {
                assert(r[j] == rr[j - 1]);
                let w = choose|w: int|
                    0 <= w < s.drop_first().len() && #[trigger] rr[j - 1] == s.drop_first()[w];
                assert(s.drop_first()[w] == s[w + 1]);
                assert(0 <= w + 1 < s.len() && r[j] == s[w + 1]);
            }
        }
    }
}

/// Positional reading of `vs_insert` at a fresh position.
proof fn lemma_vs_insert_fresh_at(s: Seq<Seq<u8>>, v: Seq<u8>, idx: int)
    requires
        sorted_vals(s),
        0 <= idx <= s.len(),
        forall|j: int| 0 <= j < idx ==> lex_lt(#[trigger] s[j], v),
        idx < s.len() ==> lex_lt(v, s[idx]),
    ensures
        vs_insert(s, v) == s.insert(idx, v),
    decreases s.len(),
{
    if s.len() == 0 {
        assert(vs_insert(s, v) =~= s.insert(0, v));
    } else if idx == 0 {
        lemma_lex_irrefl(v);
        lemma_lex_asym(v, s[0]);
        assert(vs_insert(s, v) =~= s.insert(0, v));
    } else {
        lemma_lex_asym(s[0], v);
        assert(sorted_vals(s.drop_first()));
        lemma_vs_insert_fresh_at(s.drop_first(), v, idx - 1);
        assert(vs_insert(s, v) =~= s.insert(idx, v));
    }
}

/// Positional reading of `vs_remove` at the position that holds `v`.
proof fn lemma_vs_remove_at(s: Seq<Seq<u8>>, v: Seq<u8>, idx: int)
    requires
        sorted_vals(s),
        0 <= idx < s.len(),
        s[idx] == v,
        forall|j: int| 0 <= j < idx ==> lex_lt(#[trigger] s[j], v),
    ensures
        vs_remove(s, v) == s.remove(idx),
    decreases s.len(),
{
    if idx == 0 {
        assert(vs_remove(s, v) =~= s.remove(0));
    } else {
        lemma_lex_asym(s[0], v);
        assert(sorted_vals(s.drop_first()));
        lemma_vs_remove_at(s.drop_first(), v, idx - 1);
        assert(vs_remove(s, v) =~= s.remove(idx));
    }
}

/// `vs_remove` of an absent value changes nothing.
proof fn lemma_vs_remove_absent(s: Seq<Seq<u8>>, v: Seq<u8>)
    requires
        !s.contains(v),
    ensures
        vs_remove(s, v) == s,
    decreases s.len(),
{
    if s.len() > 0 {
        assert(s[0] != v);
        assert(!s.drop_first().contains(v)) by {
            if s.drop_first().contains(v) {
                let w = choose|w: int| 0 <= w < s.drop_first().len() && s.drop_first()[w] == v;
                assert(s[w + 1] == v);
            }
        }
        lemma_vs_remove_absent(s.drop_first(), v);
        assert(vs_remove(s, v) =~= seq![s.first()] + s.drop_first());
        assert(seq![s.first()] + s.drop_first() =~= s);
    }
}

/// The deep view of an executable value list.
pub open spec fn vals_view(vs: Seq<Vec<u8>>) -> Seq<Seq<u8>> {
    vs.map_values(|v: Vec<u8>| v@)
}

/// Adds `v` to a sorted, de-duplicated value list; a value already present
/// is left alone.
pub fn vals_add(vs: &mut Vec<Vec<u8>>, v: Vec<u8>)
    requires
        sorted_vals(vals_view(old(vs)@)),
    ensures
        vals_view(final(vs)@) == vs_insert(vals_view(old(vs)@), v@),
        sorted_vals(vals_view(final(vs)@)),
{
    let ghost s = vals_view(vs@);
    let mut i: usize = 0;
    while i < vs.len() && bytes_lt(vs[i].as_slice(), v.as_slice())
        invariant
            i <= vs@.len(),
            s == vals_view(vs@),
            sorted_vals(s),
            forall|j: int| 0 <= j < i ==> lex_lt(#[trigger] s[j], v@),
        decreases vs@.len() - i,
    {
        i = i + 1;
    }
    if i < vs.len() && bytes_eq(vs[i].as_slice(), v.as_slice()) {
        proof {
            lemma_vs_insert_at_equal(s, v@, i as int);
        }
    } else {
        proof {
            if i < vs@.len() {
                lemma_lex_connex(v@, s[i as int]);
            }
            lemma_vs_insert_fresh_at(s, v@, i as int);
            lemma_vs_insert_sorted(s, v@);
        }
        vs.insert(i, v);
        proof {
            assert(vals_view(vs@) =~= s.insert(i as int, v@));
        }
    }
}

/// `vs_insert` of a value already present changes nothing.
proof fn lemma_vs_insert_at_equal(s: Seq<Seq<u8>>, v: Seq<u8>, idx: int)
    requires
        sorted_vals(s),
        0 <= idx < s.len(),
        s[idx] == v,
        forall|j: int| 0 <= j < idx ==> lex_lt(#[trigger] s[j], v),
    ensures
        vs_insert(s, v) == s,
    decreases s.len(),
{
    if idx == 0 {
        lemma_lex_irrefl(v);
    } else {
        lemma_lex_asym(s[0], v);
        assert(sorted_vals(s.drop_first()));
        lemma_vs_insert_at_equal(s.drop_first(), v, idx - 1);
        assert(vs_insert(s, v) =~= seq![s.first()] + s.drop_first());
        assert(seq![s.first()] + s.drop_first() =~= s);
    }
}

/// Removes `v` from a sorted, de-duplicated value list; an absent value
/// leaves the list alone.
pub fn vals_del(vs: &mut Vec<Vec<u8>>, v: &[u8])
    requires
        sorted_vals(vals_view(old(vs)@)),
    ensures
        vals_view(final(vs)@) == vs_remove(vals_view(old(vs)@), v@),
        sorted_vals(vals_view(final(vs)@)),
{
    let ghost s = vals_view(vs@);
    let mut i: usize = 0;
    while i < vs.len() && bytes_lt(vs[i].as_slice(), v)
        invariant
            i <= vs@.len(),
            s == vals_view(vs@),
            sorted_vals(s),
            forall|j: int| 0 <= j < i ==> lex_lt(#[trigger] s[j], v@),
        decreases vs@.len() - i,
    {
        i = i + 1;
    }
    if i < vs.len() && bytes_eq(vs[i].as_slice(), v) {
        proof {
            lemma_vs_remove_at(s, v@, i as int);
        }
        vs.remove(i);
        proof {
            assert(vals_view(vs@) =~= s.remove(i as int));
            lemma_vs_remove_gone(s, v@);
        }
    } else {
        proof {
            assert(!s.contains(v@)) by {
                if s.contains(v@) {
                    let w = choose|w: int| 0 <= w < s.len() && s[w] == v@;
                    if w < i {
                        lemma_lex_irrefl(v@);
                    } else if w > i {
                        assert(i < s.len());
                        lemma_lex_connex(v@, s[i as int]);
                        assert(lex_lt(v@, s[i as int]));
                        assert(lex_lt(s[i as int], s[w]));
                        crate::order::lemma_lex_trans(v@, s[i as int], s[w]);
                        lemma_lex_irrefl(v@);
                    } else {
                        assert(i < s.len());
                        lemma_lex_connex(v@, s[i as int]);
                        lemma_lex_irrefl(v@);
                    }
                }
            }
            lemma_vs_remove_absent(s, v@);
            lemma_vs_remove_gone(s, v@);
        }
    }
}

} // verus!
