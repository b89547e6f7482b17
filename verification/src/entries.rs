use vstd::prelude::*;

use crate::order::{
    bytes_eq, bytes_lt, lemma_lex_asym, lemma_lex_connex, lemma_lex_irrefl, lemma_lex_trans,
    lex_lt,
};

verus! {

/// One key-value pair of a table, both components variable-length byte
/// strings.
pub struct Entry {
    pub key: Vec<u8>,
    pub value: Vec<u8>,
}

impl View for Entry {
    type V = (Seq<u8>, Seq<u8>);

    open spec fn view(&self) -> (Seq<u8>, Seq<u8>) {
        (self.key@, self.value@)
    }
}

/// The mathematical contents of an entry list.
pub open spec fn kv_view(es: Seq<Entry>) -> Seq<(Seq<u8>, Seq<u8>)> {
    es.map_values(|e: Entry| e@)
}

/// The keys of `s` are strictly ascending in lexicographic order; in
/// particular they are unique.
pub open spec fn sorted_kv(s: Seq<(Seq<u8>, Seq<u8>)>) -> bool {
    forall|i: int, j: int| 0 <= i < j < s.len() ==> lex_lt(s[i].0, s[j].0)
}

/// The value stored under `k`, reading the list front to back.
pub open spec fn kv_lookup(s: Seq<(Seq<u8>, Seq<u8>)>, k: Seq<u8>) -> Option<Seq<u8>>
    decreases s.len(),
{
    if s.len() == 0 {
        None
    } else if s.first().0 == k {
        Some(s.first().1)
    } else {
        kv_lookup(s.drop_first(), k)
    }
}

/// The list with `v` stored under `k`: an existing entry for `k` is
/// replaced, otherwise the pair is placed at its ordered position.
pub open spec fn kv_insert(s: Seq<(Seq<u8>, Seq<u8>)>, k: Seq<u8>, v: Seq<u8>) -> Seq<
    (Seq<u8>, Seq<u8>),
>
    decreases s.len(),
{
    if s.len() == 0 {
        seq![(k, v)]
    } else if lex_lt(k, s.first().0) {
        seq![(k, v)] + s
    } else if k == s.first().0 {
        seq![(k, v)] + s.drop_first()
    } else {
        seq![s.first()] + kv_insert(s.drop_first(), k, v)
    }
}

/// Sorted lists are closed under `kv_insert`.
pub proof fn lemma_kv_insert_sorted(s: Seq<(Seq<u8>, Seq<u8>)>, k: Seq<u8>, v: Seq<u8>)
    requires
        sorted_kv(s),
    ensures
        sorted_kv(kv_insert(s, k, v)),
        forall|j: int|
            0 <= j < kv_insert(s, k, v).len() ==> #[trigger] kv_insert(s, k, v)[j].0 == k
                || exists|i: int| 0 <= i < s.len() && kv_insert(s, k, v)[j].0 == #[trigger] s[i].0,
    decreases s.len(),
{
    let r = kv_insert(s, k, v);
    if s.len() == 0 {
    } else if lex_lt(k, s.first().0) {
        assert forall|i: int, j: int| 0 <= i < j < r.len() implies lex_lt(r[i].0, r[j].0) by {
            if i == 0 {
                if j > 1 {
                    lemma_lex_trans(k, s[0].0, s[j - 1].0);
                }
            }
        }
    } else if k == s.first().0 {
        assert forall|i: int, j: int| 0 <= i < j < r.len() implies lex_lt(r[i].0, r[j].0) by {
            assert(r[j].0 == s[j].0);
        }
    } else {
        lemma_lex_connex(k, s.first().0);
        assert(lex_lt(s.first().0, k));
        assert(sorted_kv(s.drop_first()));
        lemma_kv_insert_sorted(s.drop_first(), k, v);
        let rr = kv_insert(s.drop_first(), k, v);
        assert forall|i: int, j: int| 0 <= i < j < r.len() implies lex_lt(r[i].0, r[j].0) by {
            if i == 0 {
                // r[j] is either k or some key of s.drop_first(); both are above s[0].0.
                assert(r[j].0 == rr[j - 1].0);
                if rr[j - 1].0 == k {
                } else {
                    let w = choose|w: int|
                        0 <= w < s.drop_first().len() && rr[j - 1].0 == #[trigger] s.drop_first()[w].0;
                    assert(s.drop_first()[w].0 == s[w + 1].0);
                    assert(lex_lt(s[0].0, s[w + 1].0));
                }
            }
        }
    }
}

/// Last write wins: looking up `k` right after storing `v` under `k`
/// returns `v`, whatever the list held before.
pub proof fn lemma_kv_lookup_insert_same(s: Seq<(Seq<u8>, Seq<u8>)>, k: Seq<u8>, v: Seq<u8>)
    ensures
        kv_lookup(kv_insert(s, k, v), k) == Some(v),
    decreases s.len(),
{
    let r = kv_insert(s, k, v);
    if s.len() == 0 {
        assert(r.first() == (k, v));
    } else if lex_lt(k, s.first().0) || k == s.first().0 {
        assert(r.first() == (k, v));
    } else {
        lemma_kv_lookup_insert_same(s.drop_first(), k, v);
        assert(r.first() == s.first());
        lemma_lex_irrefl(k);
        assert(r.first().0 != k);
        assert(r.drop_first() =~= kv_insert(s.drop_first(), k, v));
    }
}

/// Storing under `k` does not disturb what is stored under any other key.
pub proof fn lemma_kv_lookup_insert_other(
    s: Seq<(Seq<u8>, Seq<u8>)>,
    k: Seq<u8>,
    v: Seq<u8>,
    k2: Seq<u8>,
)
    requires
        k2 != k,
    ensures
        kv_lookup(kv_insert(s, k, v), k2) == kv_lookup(s, k2),
    decreases s.len(),
{
    let r = kv_insert(s, k, v);
    if s.len() == 0 {
        assert(r.first() == (k, v));
        assert(r.first().0 != k2);
        assert(r.drop_first() =~= Seq::<(Seq<u8>, Seq<u8>)>::empty());
        assert(kv_lookup(r, k2) == kv_lookup(r.drop_first(), k2));
    } else if lex_lt(k, s.first().0) {
        assert(r.first() == (k, v));
        assert(r.first().0 != k2);
        assert(r.drop_first() =~= s);
        assert(kv_lookup(r, k2) == kv_lookup(s, k2));
    } else if k == s.first().0 {
        assert(r.first() == (k, v));
        assert(r.first().0 != k2);
        assert(s.first().0 != k2);
        assert(r.drop_first() =~= s.drop_first());
        assert(kv_lookup(s, k2) == kv_lookup(s.drop_first(), k2));
        assert(kv_lookup(r, k2) == kv_lookup(r.drop_first(), k2));
    } else {
        lemma_kv_lookup_insert_other(s.drop_first(), k, v, k2);
        assert(r.first() == s.first());
        assert(r.drop_first() =~= kv_insert(s.drop_first(), k, v));
        if s.first().0 == k2 {
            assert(kv_lookup(r, k2) == Some(r.first().1));
            assert(kv_lookup(s, k2) == Some(s.first().1));
        } else {
            assert(kv_lookup(r, k2) == kv_lookup(r.drop_first(), k2));
            assert(kv_lookup(s, k2) == kv_lookup(s.drop_first(), k2));
        }
    }
}

/// Copies a byte slice into a fresh vector.
pub fn copy_bytes(src: &[u8]) -> (r: Vec<u8>)
    ensures
        r@ == src@,
{
    let mut out: Vec<u8> = Vec::new();
    let mut i: usize = 0;
    while i < src.len()
        invariant
            i <= src@.len(),
            out@ == src@.subrange(0, i as int),
        decreases src@.len() - i,
    {
        out.push(src[i]);
        proof {
            assert(out@ =~= src@.subrange(0, i + 1));
        }
        i = i + 1;
    }
    proof {
        assert(src@.subrange(0, src@.len() as int) =~= src@);
    }
    out
}

/// Finds the entry holding `key`, scanning front to back.
pub fn kv_find(es: &Vec<Entry>, key: &[u8]) -> (r: Option<usize>)
    ensures
        match r {
            Some(i) => i < es@.len() && es@[i as int].key@ == key@ && kv_lookup(
                kv_view(es@),
                key@,
            ) == Some(es@[i as int].value@),
            None => kv_lookup(kv_view(es@), key@) is None,
        },
{
    let ghost s = kv_view(es@);
    proof {
        assert(s.skip(0) =~= s);
    }
    let mut i: usize = 0;
    while i < es.len()
        invariant
            i <= es@.len(),
            s == kv_view(es@),
            kv_lookup(s, key@) == kv_lookup(s.skip(i as int), key@),
            forall|j: int| 0 <= j < i ==> es@[j].key@ != key@,
        decreases es@.len() - i,
    {
        if bytes_eq(es[i].key.as_slice(), key) {
            proof {
                assert(s.skip(i as int).first() == es@[i as int]@);
            }
            return Some(i);
        }
        proof {
            assert(s.skip(i as int).first() == es@[i as int]@);
            assert(s.skip(i as int).drop_first() =~= s.skip(i + 1));
        }
        i = i + 1;
    }
    proof {
        assert(s.skip(i as int).len() == 0);
    }
    None
}

/// Positional reading of `kv_insert`: replacing at the index that holds
/// `k` is the same as the recursive definition.
proof fn lemma_kv_insert_replace_at(s: Seq<(Seq<u8>, Seq<u8>)>, k: Seq<u8>, v: Seq<u8>, idx: int)
    requires
        sorted_kv(s),
        0 <= idx < s.len(),
        s[idx].0 == k,
        forall|j: int| 0 <= j < idx ==> lex_lt(#[trigger] s[j].0, k),
    ensures
        kv_insert(s, k, v) == s.update(idx, (k, v)),
    decreases s.len(),
{
    if idx == 0 {
        lemma_lex_irrefl(k);
        assert(kv_insert(s, k, v) =~= s.update(0, (k, v)));
    } else {
        assert(lex_lt(s[0].0, k));
        lemma_lex_asym(s[0].0, k);
        assert(sorted_kv(s.drop_first()));
        assert(s.drop_first()[idx - 1].0 == k);
        lemma_kv_insert_replace_at(s.drop_first(), k, v, idx - 1);
        assert(kv_insert(s, k, v) =~= s.update(idx, (k, v)));
    }
}

/// Positional reading of `kv_insert`: placing a fresh key at its ordered
/// position is the same as the recursive definition.
proof fn lemma_kv_insert_fresh_at(s: Seq<(Seq<u8>, Seq<u8>)>, k: Seq<u8>, v: Seq<u8>, idx: int)
    requires
        sorted_kv(s),
        0 <= idx <= s.len(),
        forall|j: int| 0 <= j < idx ==> lex_lt(#[trigger] s[j].0, k),
        idx < s.len() ==> lex_lt(k, s[idx].0),
    ensures
        kv_insert(s, k, v) == s.insert(idx, (k, v)),
    decreases s.len(),
{
    if s.len() == 0 {
        assert(kv_insert(s, k, v) =~= s.insert(0, (k, v)));
    } else if idx == 0 {
        lemma_lex_irrefl(k);
        lemma_lex_asym(k, s[0].0);
        assert(kv_insert(s, k, v) =~= s.insert(0, (k, v)));
    } else {
        assert(lex_lt(s[0].0, k));
        lemma_lex_asym(s[0].0, k);
        assert(sorted_kv(s.drop_first()));
        lemma_kv_insert_fresh_at(s.drop_first(), k, v, idx - 1);
        assert(kv_insert(s, k, v) =~= s.insert(idx, (k, v)));
    }
}

/// Stores `value` under `key` in a sorted entry list, replacing any entry
/// that already holds `key`.
pub fn kv_store(es: &mut Vec<Entry>, key: Vec<u8>, value: Vec<u8>)
    requires
        sorted_kv(kv_view(old(es)@)),
    ensures
        kv_view(final(es)@) == kv_insert(kv_view(old(es)@), key@, value@),
        sorted_kv(kv_view(final(es)@)),
{
    let ghost s = kv_view(es@);
    let mut i: usize = 0;
    while i < es.len() && bytes_lt(es[i].key.as_slice(), key.as_slice())
        invariant
            i <= es@.len(),
            s == kv_view(es@),
            sorted_kv(s),
            forall|j: int| 0 <= j < i ==> lex_lt(#[trigger] s[j].0, key@),
        decreases es@.len() - i,
    {
        i = i + 1;
    }
    if i < es.len() && bytes_eq(es[i].key.as_slice(), key.as_slice()) {
        proof {
            lemma_kv_insert_replace_at(s, key@, value@, i as int);
        }
        es.remove(i);
        es.insert(i, Entry { key, value });
        proof {
            assert(kv_view(es@) =~= s.update(i as int, (key@, value@)));
            lemma_kv_insert_sorted(s, key@, value@);
        }
    } else {
        proof {
            if i < es@.len() {
                lemma_lex_connex(key@, s[i as int].0);
            }
            lemma_kv_insert_fresh_at(s, key@, value@, i as int);
        }
        es.insert(i, Entry { key, value });
        proof {
            assert(kv_view(es@) =~= s.insert(i as int, (key@, value@)));
            lemma_kv_insert_sorted(s, key@, value@);
        }
    }
}


/// Every element of an insertion result is the new pair or one of the old
/// elements.
pub proof fn lemma_kv_insert_elems(s: Seq<(Seq<u8>, Seq<u8>)>, k: Seq<u8>, v: Seq<u8>)
    ensures
        forall|j: int|
            0 <= j < kv_insert(s, k, v).len() ==> #[trigger] kv_insert(s, k, v)[j] == (k, v)
                || exists|i: int| 0 <= i < s.len() && kv_insert(s, k, v)[j] == #[trigger] s[i],
    decreases s.len(),
{
    let r = kv_insert(s, k, v);
    if s.len() == 0 {
    } else if lex_lt(k, s.first().0) {
        assert forall|j: int| 0 <= j < r.len() implies #[trigger] r[j] == (k, v) || exists|i: int|
            0 <= i < s.len() && r[j] == #[trigger] s[i] by {
            if j > 0 {
                assert(r[j] == s[j - 1]);
            }
        }
    } else if k == s.first().0 {
        assert forall|j: int| 0 <= j < r.len() implies #[trigger] r[j] == (k, v) || exists|i: int|
            0 <= i < s.len() && r[j] == #[trigger] s[i] by {
            if j > 0 {
                assert(r[j] == s[j]);
            }
        }
    } else {
        lemma_kv_insert_elems(s.drop_first(), k, v);
        let rr = kv_insert(s.drop_first(), k, v);
        assert forall|j: int| 0 <= j < r.len() implies #[trigger] r[j] == (k, v) || exists|i: int|
            0 <= i < s.len() && r[j] == #[trigger] s[i] by {
            if j == 0 {
                assert(r[0] == s[0]);
            } else {
                assert(r[j] == rr[j - 1]);
                if rr[j - 1] != (k, v) {
                    let w = choose|w: int|
                        0 <= w < s.drop_first().len() && rr[j - 1] == #[trigger] s.drop_first()[w];
                    assert(r[j] == s[w + 1]);
                }
            }
        }
    }
}

/// A successful lookup names an element of the list.
pub proof fn lemma_kv_lookup_index(s: Seq<(Seq<u8>, Seq<u8>)>, k: Seq<u8>)
    requires
        kv_lookup(s, k) is Some,
    ensures
        exists|i: int|
            0 <= i < s.len() && #[trigger] s[i] == (k, kv_lookup(s, k).unwrap()),
    decreases s.len(),
{
    if s.len() > 0 {
        if s.first().0 == k {
            assert(s.first() == (s.first().0, s.first().1));
            assert(s[0] == (k, kv_lookup(s, k).unwrap()));
        } else {
            lemma_kv_lookup_index(s.drop_first(), k);
            let i = choose|i: int|
                0 <= i < s.drop_first().len() && #[trigger] s.drop_first()[i] == (
                    k,
                    kv_lookup(s.drop_first(), k).unwrap(),
                );
            assert(s[i + 1] == (k, kv_lookup(s, k).unwrap()));
        }
    }
}


/// Removing the entry that holds `k` from a sorted list keeps it sorted,
/// makes `k` absent, and disturbs no other key.
pub proof fn lemma_kv_remove(s: Seq<(Seq<u8>, Seq<u8>)>, k: Seq<u8>, idx: int)
    requires
        sorted_kv(s),
        0 <= idx < s.len(),
        s[idx].0 == k,
    ensures
        sorted_kv(s.remove(idx)),
        kv_lookup(s.remove(idx), k) is None,
        forall|k2: Seq<u8>| k2 != k ==> kv_lookup(s.remove(idx), k2) == kv_lookup(s, k2),
    decreases s.len(),
{
    let r = s.remove(idx);
    assert forall|i: int, j: int| 0 <= i < j < r.len() implies lex_lt(r[i].0, r[j].0) by {
        let i2: int = if i < idx { i } else { i + 1 };
        let j2: int = if j < idx { j } else { j + 1 };
        assert(r[i] == s[i2] && r[j] == s[j2]);
    }
    if idx == 0 {
        assert(r =~= s.drop_first());
        assert(kv_lookup(r, k) is None) by {
            lemma_sorted_absent(s, k, 1);
        }
        assert forall|k2: Seq<u8>| k2 != k implies kv_lookup(r, k2) == kv_lookup(s, k2) by {
            assert(kv_lookup(s, k2) == kv_lookup(s.drop_first(), k2));
        }
    } else {
        assert(sorted_kv(s.drop_first()));
        assert(s.drop_first()[idx - 1].0 == k);
        lemma_kv_remove(s.drop_first(), k, idx - 1);
        assert(r.first() == s.first());
        assert(r.drop_first() =~= s.drop_first().remove(idx - 1));
        assert(lex_lt(s[0].0, k));
        lemma_lex_irrefl(k);
        assert(r.first().0 != k);
        assert forall|k2: Seq<u8>| k2 != k implies kv_lookup(r, k2) == kv_lookup(s, k2) by {
            if s[0].0 == k2 {
                assert(kv_lookup(r, k2) == Some(r.first().1));
                assert(kv_lookup(s, k2) == Some(s.first().1));
            } else {
                assert(kv_lookup(r, k2) == kv_lookup(r.drop_first(), k2));
                assert(kv_lookup(s, k2) == kv_lookup(s.drop_first(), k2));
            }
        }
    }
}

/// In a sorted list whose keys from position `i` on all lie strictly above
/// `k`... they cannot hold `k`; here specialised to: the whole tail after
/// the front entry holding `k` is free of `k`.
proof fn lemma_sorted_absent(s: Seq<(Seq<u8>, Seq<u8>)>, k: Seq<u8>, i: int)
    requires
        sorted_kv(s),
        1 <= i <= s.len(),
        s.len() >= 1,
        s[0].0 == k,
    ensures
        kv_lookup(s.subrange(i, s.len() as int), k) is None,
    decreases s.len() - i,
{
    let tail = s.subrange(i, s.len() as int);
    if tail.len() > 0 {
        assert(tail.first() == s[i]);
        assert(lex_lt(s[0].0, s[i].0));
        lemma_lex_irrefl(k);
        assert(tail.first().0 != k);
        lemma_sorted_absent(s, k, i + 1);
        assert(tail.drop_first() =~= s.subrange(i + 1, s.len() as int));
    }
}


/// Storing a key keeps the length when the key was present and grows it
/// by one otherwise.
pub proof fn lemma_kv_insert_len(s: Seq<(Seq<u8>, Seq<u8>)>, k: Seq<u8>, v: Seq<u8>)
    requires
        sorted_kv(s),
    ensures
        kv_insert(s, k, v).len() == s.len() + (if kv_lookup(s, k) is Some {
            0int
        } else {
            1int
        }),
    decreases s.len(),
{
    if s.len() == 0 {
    } else if lex_lt(k, s.first().0) {
        assert forall|i: int| 0 <= i < s.len() implies !(#[trigger] s[i].0 == k) by {
            if i > 0 {
                lemma_lex_trans(k, s[0].0, s[i].0);
            }
            lemma_lex_asym(k, s[i].0);
        }
        lemma_absent_when_below(s, k);
    } else if k == s.first().0 {
    } else {
        assert(sorted_kv(s.drop_first()));
        lemma_kv_insert_len(s.drop_first(), k, v);
        assert(kv_lookup(s, k) == kv_lookup(s.drop_first(), k));
    }
}

/// A key strictly below every key of a sorted-front list is absent. Here
/// only the first comparison is needed: `kv_lookup` walks the front, and
/// the recursion carries the rest.
proof fn lemma_absent_when_below(s: Seq<(Seq<u8>, Seq<u8>)>, k: Seq<u8>)
    requires
        forall|i: int| 0 <= i < s.len() ==> !(#[trigger] s[i].0 == k),
    ensures
        kv_lookup(s, k) is None,
    decreases s.len(),
{
    if s.len() > 0 {
        assert(s[0].0 != k);
        assert(forall|i: int| 0 <= i < s.drop_first().len() ==> s.drop_first()[i] == s[i + 1]);
        lemma_absent_when_below(s.drop_first(), k);
    }
}

} // verus!
