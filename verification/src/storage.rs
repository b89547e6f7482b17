use vstd::prelude::*;

use crate::codec::{
    dec_desc, dec_vals, decode_desc, decode_vals, enc_desc, encode_desc, DESC_BYTES,
};
use crate::entries::{
    copy_bytes, kv_find, kv_lookup, kv_store, kv_view, lemma_kv_insert_elems,
    lemma_kv_insert_sorted, lemma_kv_lookup_index, lemma_kv_lookup_insert_other,
    lemma_kv_lookup_insert_same, sorted_kv, Entry,
};
use crate::error::Error;
use crate::header::{
    active_slot, header_is_zero, read_active, slot_next, slot_page_size, slot_txn, write_slot,
    NO_ROOT,
};
use crate::mem::region_of;
use crate::mvalues::sorted_vals;
use crate::order::{bytes_lt, lemma_lex_trans, lex_lt};
use crate::pages::{PageStore, MAX_PAGE_SIZE, MIN_PAGE_SIZE};
use crate::tree::{
    build_tree, check_entry_fits, entries_fit, entry_fits, lemma_subtree_frame, lemma_wf_cat_index,
    lemma_wf_mono, read_subtree, subtree, wf_below, wf_cat,
};

verus! {

/// The default page size when the caller configures none.
pub const DEFAULT_PAGE_SIZE: usize = 4096;

/// The table-type tags stored in a descriptor.
pub const TYPE_NORMAL: u8 = 0;

pub const TYPE_MULTIMAP: u8 = 1;

/// `n` is a power of two.
pub open spec fn pow2(n: int) -> bool
    decreases n,
{
    if n <= 0 {
        false
    } else if n == 1 {
        true
    } else if n % 2 == 1 {
        false
    } else {
        pow2(n / 2)
    }
}

/// Decides `pow2`.
pub fn is_power_of_two(n: usize) -> (r: bool)
    ensures
        r == pow2(n as int),
    decreases n,
{
    if n == 0 {
        false
    } else if n == 1 {
        true
    } else if n % 2 == 1 {
        false
    } else {
        is_power_of_two(n / 2)
    }
}

/// The entries of a tree root field: empty when the field holds no root.
pub open spec fn tree_entries(pages: Seq<Seq<u8>>, root: u64, lvl: u64) -> Seq<(Seq<u8>, Seq<u8>)> {
    if root == NO_ROOT {
        Seq::empty()
    } else {
        subtree(pages, root as int, lvl as nat)
    }
}

/// Every stored multimap value decodes to a non-empty, sorted,
/// de-duplicated value set that can be re-encoded.
pub open spec fn mm_entries_ok(es: Seq<(Seq<u8>, Seq<u8>)>) -> bool {
    forall|i: int|
        0 <= i < es.len() ==> match dec_vals(#[trigger] es[i].1) {
            None => false,
            Some(vs) => {
                &&& sorted_vals(vs)
                &&& vs.len() >= 1
                &&& vs.len() <= u32::MAX
                &&& forall|j: int| 0 <= j < vs.len() ==> #[trigger] vs[j].len() <= u32::MAX
            },
        }
}

/// A table's persistent state is sound: its tree is well-formed below the
/// watermark, non-empty when rooted, sorted, and every entry fits a page.
pub open spec fn table_ok(
    pages: Seq<Seq<u8>>,
    w: int,
    ps: int,
    ttype: u8,
    root: u64,
    lvl: u64,
) -> bool {
    &&& ttype == TYPE_NORMAL || ttype == TYPE_MULTIMAP
    &&& (root != NO_ROOT ==> {
        &&& wf_below(pages, root as int, lvl as nat, w)
        &&& subtree(pages, root as int, lvl as nat).len() >= 1
        &&& sorted_kv(subtree(pages, root as int, lvl as nat))
        &&& entries_fit(subtree(pages, root as int, lvl as nat), ps)
        &&& (ttype == TYPE_MULTIMAP ==> mm_entries_ok(subtree(pages, root as int, lvl as nat)))
    })
}

/// A master-table value is a descriptor of a sound table.
pub open spec fn desc_entry_ok(pages: Seq<Seq<u8>>, w: int, ps: int, v: Seq<u8>) -> bool {
    match dec_desc(v) {
        None => false,
        Some((id, t, root, lvl)) => table_ok(pages, w, ps, t, root, lvl),
    }
}

/// The master table is sorted by name, fits its pages, and every entry
/// describes a sound table.
pub open spec fn master_ok(pages: Seq<Seq<u8>>, w: int, ps: int, ms: Seq<(Seq<u8>, Seq<u8>)>) -> bool {
    &&& sorted_kv(ms)
    &&& entries_fit(ms, ps)
    &&& forall|i: int| 0 <= i < ms.len() ==> desc_entry_ok(pages, w, ps, #[trigger] ms[i].1)
}

/// Soundness of a table survives any change above the watermark and any
/// growth of the watermark.
pub proof fn lemma_table_ok_frame(
    pages1: Seq<Seq<u8>>,
    pages2: Seq<Seq<u8>>,
    w1: int,
    w2: int,
    ps: int,
    ttype: u8,
    root: u64,
    lvl: u64,
)
    requires
        table_ok(pages1, w1, ps, ttype, root, lvl),
        w1 <= w2 <= pages2.len(),
        forall|q: int| 1 <= q < w1 ==> pages2[q] == pages1[q],
    ensures
        table_ok(pages2, w2, ps, ttype, root, lvl),
        tree_entries(pages2, root, lvl) == tree_entries(pages1, root, lvl),
{
    if root != NO_ROOT {
        lemma_subtree_frame(pages1, pages2, root as int, lvl as nat, w1);
        lemma_wf_mono(pages2, root as int, lvl as nat, w1, w2);
    }
}

/// `master_ok` survives the same changes.
pub proof fn lemma_master_ok_frame(
    pages1: Seq<Seq<u8>>,
    pages2: Seq<Seq<u8>>,
    w1: int,
    w2: int,
    ps: int,
    ms: Seq<(Seq<u8>, Seq<u8>)>,
)
    requires
        master_ok(pages1, w1, ps, ms),
        w1 <= w2 <= pages2.len(),
        forall|q: int| 1 <= q < w1 ==> pages2[q] == pages1[q],
    ensures
        master_ok(pages2, w2, ps, ms),
{
    assert forall|i: int| 0 <= i < ms.len() implies desc_entry_ok(
        pages2,
        w2,
        ps,
        #[trigger] ms[i].1,
    ) by {
        match dec_desc(ms[i].1) {
            None => {},
            Some((id, t, root, lvl)) => {
                lemma_table_ok_frame(pages1, pages2, w1, w2, ps, t, root, lvl);
            },
        }
    }
}

/// A chain of adjacent comparisons spans any distance.
proof fn lemma_lt_chain(s: Seq<(Seq<u8>, Seq<u8>)>, i: int, j: int)
    requires
        forall|t: int| 0 <= t < s.len() - 1 ==> lex_lt(#[trigger] s[t].0, s[t + 1].0),
        0 <= i < j < s.len(),
    ensures
        lex_lt(s[i].0, s[j].0),
    decreases j - i,
{
    if j == i + 1 {
    } else {
        lemma_lt_chain(s, i, j - 1);
        lemma_lex_trans(s[i].0, s[j - 1].0, s[j].0);
    }
}

/// Checks that an entry list is strictly sorted by key.
pub fn check_sorted(es: &Vec<Entry>) -> (r: bool)
    ensures
        r == sorted_kv(kv_view(es@)),
{
    let ghost s = kv_view(es@);
    if es.len() == 0 {
        return true;
    }
    let mut i: usize = 0;
    while i < es.len() - 1
        invariant
            es@.len() >= 1,
            i < es@.len(),
            s == kv_view(es@),
            forall|t: int| 0 <= t < i ==> lex_lt(#[trigger] s[t].0, s[t + 1].0),
        decreases es@.len() - i,
    {
        if !bytes_lt(es[i].key.as_slice(), es[i + 1].key.as_slice()) {
            proof {
                assert(!sorted_kv(s)) by {
                    if sorted_kv(s) {
                        assert(lex_lt(s[i as int].0, s[i + 1].0));
                    }
                }
            }
            return false;
        }
        i = i + 1;
    }
    proof {
        assert forall|a: int, b: int| 0 <= a < b < s.len() implies lex_lt(s[a].0, s[b].0) by {
            lemma_lt_chain(s, a, b);
        }
    }
    true
}

/// Checks that every entry of a list fits the page size.
pub fn check_fits(es: &Vec<Entry>, page_size: usize) -> (r: bool)
    requires
        page_size <= MAX_PAGE_SIZE,
    ensures
        r == entries_fit(kv_view(es@), page_size as int),
{
    let ghost s = kv_view(es@);
    let mut i: usize = 0;
    while i < es.len()
        invariant
            i <= es@.len(),
            s == kv_view(es@),
            page_size <= MAX_PAGE_SIZE,
            forall|t: int| 0 <= t < i ==> entry_fits(#[trigger] s[t], page_size as int),
        decreases es@.len() - i,
    {
        if !check_entry_fits(es[i].key.as_slice(), es[i].value.as_slice(), page_size) {
            proof {
                assert(!entry_fits(s[i as int], page_size as int));
            }
            return false;
        }
        i = i + 1;
    }
    true
}

/// A run whose every link was checked is well-formed.
proof fn lemma_wf_cat_from_all(
    pages: Seq<Seq<u8>>,
    items: Seq<(Seq<u8>, Seq<u8>)>,
    lvl: nat,
    i: int,
    w: int,
)
    requires
        0 <= i <= items.len(),
        forall|j: int|
            i <= j < items.len() ==> (#[trigger] items[j].1).len() == 8 && wf_below(
                pages,
                crate::tree::child_num(items[j]),
                lvl,
                w,
            ),
    ensures
        wf_cat(pages, items, lvl, i, w),
    decreases items.len() - i,
{
    if i < items.len() {
        lemma_wf_cat_from_all(pages, items, lvl, i + 1, w);
        assert(items[i].1.len() == 8 && wf_below(pages, crate::tree::child_num(items[i]), lvl, w));
    }
}

/// Checks that page `p` roots a well-formed tree of exactly level `lvl`
/// below the current watermark.
pub fn check_tree(store: &PageStore, p: u64, lvl: u64) -> (r: bool)
    requires
        store.wf(),
    ensures
        r == wf_below(store.pages(), p as int, lvl as nat, store.next_page() as int),
    decreases lvl,
{
    proof {
        store.lemma_wf_bounds();
    }
    if p < 1 || p >= store.watermark() || p > store.capacity() {
        return false;
    }
    let page = store.read_page(p);
    proof {
        assert(crate::tree::page_at(store.pages(), p as int) == store.pages()[p as int]);
    }
    let decoded = crate::codec::decode_node(&page);
    match decoded {
        None => false,
        Some((l, items)) => {
            if l != lvl {
                return false;
            }
            if lvl == 0 {
                return true;
            }
            if items.len() == 0 {
                return false;
            }
            let ghost iv = kv_view(items@);
            let mut j: usize = 0;
            while j < items.len()
                invariant
                    store.wf(),
                    j <= items@.len(),
                    iv == kv_view(items@),
                    lvl >= 1,
                    crate::codec::dec_node(
                        crate::tree::page_at(store.pages(), p as int),
                    ) == Some((lvl, iv)),
                    forall|t: int| 0 <= t < j ==> (#[trigger] iv[t]).1.len() == 8,
                    forall|t: int|
                        0 <= t < j ==> wf_below(
                            store.pages(),
                            crate::tree::child_num(#[trigger] iv[t]),
                            (lvl - 1) as nat,
                            store.next_page() as int,
                        ),
                decreases items@.len() - j,
            {
                if items[j].value.len() != 8 {
                    proof {
                        assert(iv[j as int].1.len() != 8);
                        if wf_below(
                            store.pages(),
                            p as int,
                            lvl as nat,
                            store.next_page() as int,
                        ) {
                            assert(wf_cat(
                                store.pages(),
                                iv,
                                (lvl - 1) as nat,
                                0,
                                store.next_page() as int,
                            ));
                            lemma_wf_cat_index(
                                store.pages(),
                                iv,
                                (lvl - 1) as nat,
                                0,
                                j as int,
                                store.next_page() as int,
                            );
                        }
                    }
                    return false;
                }
                let child = vstd::bytes::u64_from_le_bytes(items[j].value.as_slice());
                proof {
                    assert(iv[j as int].1 == items@[j as int].value@);
                    assert(child as int == crate::tree::child_num(iv[j as int]));
                }
                if !check_tree(store, child, lvl - 1) {
                    proof {
                        if wf_below(
                            store.pages(),
                            p as int,
                            lvl as nat,
                            store.next_page() as int,
                        ) {
                            assert(wf_cat(
                                store.pages(),
                                iv,
                                (lvl - 1) as nat,
                                0,
                                store.next_page() as int,
                            ));
                            lemma_wf_cat_index(
                                store.pages(),
                                iv,
                                (lvl - 1) as nat,
                                0,
                                j as int,
                                store.next_page() as int,
                            );
                            assert(child as int == crate::tree::child_num(iv[j as int]));
                            assert(false);
                        }
                    }
                    return false;
                }
                proof {
                    assert(iv[j as int].1.len() == 8);
                    assert(wf_below(
                        store.pages(),
                        crate::tree::child_num(iv[j as int]),
                        (lvl - 1) as nat,
                        store.next_page() as int,
                    ));
                }
                j = j + 1;
            }
            proof {
                assert forall|t: int|
                    0 <= t < iv.len() implies (#[trigger] iv[t].1).len() == 8 && wf_below(
                    store.pages(),
                    crate::tree::child_num(iv[t]),
                    (lvl - 1) as nat,
                    store.next_page() as int,
                ) by {
                    assert(iv[t].1.len() == 8);
                }
                lemma_wf_cat_from_all(
                    store.pages(),
                    iv,
                    (lvl - 1) as nat,
                    0,
                    store.next_page() as int,
                );
            }
            true
        },
    }
}

/// Checks a stored multimap table: every value decodes to a sorted,
/// non-empty value set.
pub fn check_mm_entries(es: &Vec<Entry>) -> (r: bool)
    ensures
        r == mm_entries_ok(kv_view(es@)),
{
    let ghost s = kv_view(es@);
    let mut i: usize = 0;
    while i < es.len()
        invariant
            i <= es@.len(),
            s == kv_view(es@),
            forall|t: int|
                0 <= t < i ==> match dec_vals(#[trigger] s[t].1) {
                    None => false,
                    Some(vs) => {
                        &&& sorted_vals(vs)
                        &&& vs.len() >= 1
                        &&& vs.len() <= u32::MAX
                        &&& forall|j: int| 0 <= j < vs.len() ==> #[trigger] vs[j].len() <= u32::MAX
                    },
                },
        decreases es@.len() - i,
    {
        let decoded = decode_vals(es[i].value.as_slice());
        match decoded {
            None => {
                proof {
                    assert(dec_vals(s[i as int].1) is None);
                    assert(!mm_entries_ok(s));
                }
                return false;
            },
            Some(vs) => {
                if vs.len() == 0 {
                    proof {
                        assert(dec_vals(s[i as int].1) == Some(crate::mvalues::vals_view(vs@)));
                        assert(!mm_entries_ok(s));
                    }
                    return false;
                }
                if !check_vals_sorted(&vs) {
                    proof {
                        assert(dec_vals(s[i as int].1) == Some(crate::mvalues::vals_view(vs@)));
                        assert(!mm_entries_ok(s));
                    }
                    return false;
                }
                if vs.len() > u32::MAX as usize {
                    proof {
                        assert(dec_vals(s[i as int].1) == Some(crate::mvalues::vals_view(vs@)));
                        assert(!mm_entries_ok(s));
                    }
                    return false;
                }
                let ghost vv = crate::mvalues::vals_view(vs@);
                proof {
                    assert(s[i as int].1 == es@[i as int].value@);
                    assert(dec_vals(s[i as int].1) == Some(vv));
                }
                let mut jj: usize = 0;
                while jj < vs.len()
                    invariant
                        jj <= vs@.len(),
                        i < es@.len(),
                        s == kv_view(es@),
                        vv == crate::mvalues::vals_view(vs@),
                        dec_vals(s[i as int].1) == Some(vv),
                        forall|t: int| 0 <= t < jj ==> #[trigger] vv[t].len() <= u32::MAX,
                    decreases vs@.len() - jj,
                {
                    if vs[jj].len() > u32::MAX as usize {
                        proof {
                            assert(vv[jj as int].len() > u32::MAX);
                            assert(dec_vals(s[i as int].1) == Some(vv));
                            assert(!mm_entries_ok(s));
                        }
                        return false;
                    }
                    proof {
                        assert(vv[jj as int] == vs@[jj as int]@);
                    }
                    jj = jj + 1;
                }
                proof {
                    assert(s[i as int].1 == es@[i as int].value@);
                    assert(dec_vals(s[i as int].1) == Some(vv));
                }
            },
        }
        i = i + 1;
    }
    true
}

proof fn lemma_vals_lt_chain(s: Seq<Seq<u8>>, i: int, j: int)
    requires
        forall|t: int| 0 <= t < s.len() - 1 ==> lex_lt(#[trigger] s[t], s[t + 1]),
        0 <= i < j < s.len(),
    ensures
        lex_lt(s[i], s[j]),
    decreases j - i,
{
    if j == i + 1 {
    } else {
        lemma_vals_lt_chain(s, i, j - 1);
        lemma_lex_trans(s[i], s[j - 1], s[j]);
    }
}

/// Checks that a value list is strictly sorted.
pub fn check_vals_sorted(vs: &Vec<Vec<u8>>) -> (r: bool)
    ensures
        r == sorted_vals(crate::mvalues::vals_view(vs@)),
{
    let ghost s = crate::mvalues::vals_view(vs@);
    if vs.len() == 0 {
        return true;
    }
    let mut i: usize = 0;
    while i < vs.len() - 1
        invariant
            vs@.len() >= 1,
            i < vs@.len(),
            s == crate::mvalues::vals_view(vs@),
            forall|t: int| 0 <= t < i ==> lex_lt(#[trigger] s[t], s[t + 1]),
        decreases vs@.len() - i,
    {
        if !bytes_lt(vs[i].as_slice(), vs[i + 1].as_slice()) {
            proof {
                assert(!sorted_vals(s)) by {
                    if sorted_vals(s) {
                        assert(lex_lt(s[i as int], s[i + 1]));
                    }
                }
            }
            return false;
        }
        i = i + 1;
    }
    proof {
        assert forall|a: int, b: int| 0 <= a < b < s.len() implies lex_lt(s[a], s[b]) by {
            lemma_vals_lt_chain(s, a, b);
        }
    }
    true
}


/// The slot `read_active` chose is valid, carries its reported fields,
/// and the other slot never carries a higher transaction id.
proof fn lemma_active_gives_bound(h: Seq<u8>, a: int)
    requires
        active_slot(h) == Some(a),
        0 <= a <= 1,
    ensures
        crate::header::slot_valid(h, a),
        crate::header::slot_valid(h, 1 - a) ==> slot_txn(h, 1 - a) <= slot_txn(h, a),
{
}

/// The committed state of a named table, as read from a master-entry list
/// over a page array.
pub open spec fn table_lookup(
    pages: Seq<Seq<u8>>,
    ms: Seq<(Seq<u8>, Seq<u8>)>,
    name: Seq<u8>,
) -> Option<(u64, u8, Seq<(Seq<u8>, Seq<u8>)>)> {
    match kv_lookup(ms, name) {
        None => None,
        Some(v) => match dec_desc(v) {
            None => None,
            Some((id, t, root, lvl)) => Some((id, t, tree_entries(pages, root, lvl))),
        },
    }
}

/// No table changes when the pages below the watermark do not.
pub proof fn lemma_tables_preserved(
    pages1: Seq<Seq<u8>>,
    pages2: Seq<Seq<u8>>,
    w1: int,
    w2: int,
    ps: int,
    ms: Seq<(Seq<u8>, Seq<u8>)>,
)
    requires
        master_ok(pages1, w1, ps, ms),
        w1 <= w2 <= pages2.len(),
        forall|q: int| 1 <= q < w1 ==> pages2[q] == pages1[q],
    ensures
        forall|n: Seq<u8>| table_lookup(pages2, ms, n) == table_lookup(pages1, ms, n),
{
    assert forall|n: Seq<u8>| table_lookup(pages2, ms, n) == table_lookup(pages1, ms, n) by {
        match kv_lookup(ms, n) {
            None => {},
            Some(v) => {
                lemma_kv_lookup_index(ms, n);
                let i = choose|i: int| 0 <= i < ms.len() && #[trigger] ms[i] == (n, v);
                assert(desc_entry_ok(pages1, w1, ps, ms[i].1));
                match dec_desc(v) {
                    None => {},
                    Some((id, t, root, lvl)) => {
                        lemma_table_ok_frame(pages1, pages2, w1, w2, ps, t, root, lvl);
                    },
                }
            },
        }
    }
}

/// The page array a byte region carves into at page size `ps`: what a
/// mount makes of raw bytes.
pub open spec fn region_pages(r: Seq<u8>, ps: int) -> Seq<Seq<u8>> {
    Seq::new((r.len() as int / ps) as nat, |p: int| r.subrange(p * ps, (p + 1) * ps))
}

/// The page size a mount request asks for: the explicit one, or the
/// default.
pub open spec fn req_ps(req: Option<usize>) -> int {
    match req {
        Some(p) => p as int,
        None => DEFAULT_PAGE_SIZE as int,
    }
}

/// The requested page size is acceptable: absent, or a power of two in
/// the supported range.
pub open spec fn requested_ps_ok(req: Option<usize>) -> bool {
    match req {
        Some(p) => pow2(p as int) && MIN_PAGE_SIZE <= p <= MAX_PAGE_SIZE,
        None => true,
    }
}

/// The superblock area of a raw region.
pub open spec fn region_header(r: Seq<u8>) -> Seq<u8> {
    r.subrange(0, crate::pages::HEADER_BYTES as int)
}

/// The region was never initialized: its whole header area is zero.
pub open spec fn header_all_zero(r: Seq<u8>) -> bool {
    forall|i: int| 0 <= i < crate::pages::HEADER_BYTES ==> r[i] == 0u8
}

/// A region a mount request must initialize fresh and accept: the page
/// size is acceptable, the region holds the header page plus at least one
/// data page, and the header area is still zero.
pub open spec fn fresh_mountable(r: Seq<u8>, req: Option<usize>) -> bool {
    &&& requested_ps_ok(req)
    &&& r.len() >= crate::pages::HEADER_BYTES
    &&& r.len() as int / req_ps(req) >= 2
    &&& header_all_zero(r)
}

/// The engine's heart: the page store, the trusted superblock fields, and
/// the single-writer flag.
pub struct Storage {
    store: PageStore,
    active: u8,
    txn_id: u64,
    master_root: u64,
    master_lvl: u64,
    write_active: bool,
}

impl Storage {
    pub closed spec fn pages_view(self) -> Seq<Seq<u8>> {
        self.store.pages()
    }

    pub closed spec fn watermark(self) -> int {
        self.store.next_page() as int
    }

    pub closed spec fn page_size_spec(self) -> int {
        self.store.page_size() as int
    }

    pub closed spec fn num_pages_spec(self) -> u64 {
        self.store.num_pages()
    }

    pub closed spec fn txn(self) -> u64 {
        self.txn_id
    }

    pub closed spec fn is_write_active(self) -> bool {
        self.write_active
    }

    /// The master table: names mapped to encoded descriptors.
    pub closed spec fn master(self) -> Seq<(Seq<u8>, Seq<u8>)> {
        tree_entries(self.store.pages(), self.master_root, self.master_lvl)
    }

    /// The committed state of the named table: its id, its type tag and
    /// its ordered entries.
    pub open spec fn table_at(self, name: Seq<u8>) -> Option<(u64, u8, Seq<(Seq<u8>, Seq<u8>)>)> {
        table_lookup(self.pages_view(), self.master(), name)
    }

    pub closed spec fn wf(self) -> bool {
        &&& self.store.wf()
        &&& self.active <= 1
        &&& crate::header::slot_valid(self.store.header(), self.active as int)
        &&& slot_txn(self.store.header(), self.active as int) == self.txn_id
        &&& (crate::header::slot_valid(self.store.header(), 1 - self.active as int) ==> slot_txn(
            self.store.header(),
            1 - self.active as int,
        ) <= self.txn_id)
        &&& (self.master_root != NO_ROOT ==> subtree(
            self.store.pages(),
            self.master_root as int,
            self.master_lvl as nat,
        ).len() >= 1 && wf_below(
            self.store.pages(),
            self.master_root as int,
            self.master_lvl as nat,
            self.store.next_page() as int,
        ))
        &&& master_ok(
            self.store.pages(),
            self.store.next_page() as int,
            self.store.page_size() as int,
            self.master(),
        )
    }

    /// The page-size bounds a well-formed engine guarantees.
    pub proof fn lemma_bounds(&self)
        requires
            self.wf(),
        ensures
            MIN_PAGE_SIZE <= self.page_size_spec() <= MAX_PAGE_SIZE,
            1 <= self.watermark() <= self.num_pages_spec() + 1,
            self.pages_view().len() == self.num_pages_spec() + 1,
            self.num_pages_spec() < u64::MAX,
    {
        self.store.lemma_wf_bounds();
    }

    /// Mounts a region: initializes a fresh one, or validates and reuses a
    /// region this engine wrote before. Any other content is rejected with
    /// `CorruptDatabase`.
    pub fn new(mem: memmap2::MmapMut, page_size: Option<usize>) -> (r: Result<Storage, Error>)
        ensures
            fresh_mountable(region_of(mem), page_size) ==> r is Ok,
            match r {
                Ok(s) => {
                    &&& s.wf()
                    &&& !s.is_write_active()
                    &&& s.pages_view() == region_pages(s.region_spec(), s.page_size_spec())
                    &&& s.region_spec().len() == region_of(mem).len()
                    &&& (header_all_zero(region_of(mem)) ==> {
                        &&& s.txn() == 0
                        &&& s.page_size_spec() == req_ps(page_size)
                        &&& s.watermark() == 1
                        &&& s.master() == Seq::<(Seq<u8>, Seq<u8>)>::empty()
                        &&& forall|n: Seq<u8>| s.table_at(n) is None
                    })
                    &&& (!header_all_zero(region_of(mem)) ==> {
                        let h = region_header(region_of(mem));
                        let a = active_slot(h).unwrap();
                        &&& s.region_spec() == region_of(mem)
                        &&& active_slot(h) is Some
                        &&& s.txn() == slot_txn(h, a)
                        &&& s.page_size_spec() == slot_page_size(h, a) as int
                        &&& s.watermark() == slot_next(h, a) as int
                        &&& s.master() == tree_entries(
                            s.pages_view(),
                            crate::header::slot_root(h, a),
                            crate::header::slot_lvl(h, a),
                        )
                    })
                },
                Err(e) => {
                    &&& (e == Error::CorruptDatabase || e == Error::InvalidArgument)
                    &&& !fresh_mountable(region_of(mem), page_size)
                    &&& (e == Error::InvalidArgument ==> !requested_ps_ok(page_size) || (
                    page_size matches Some(p) && active_slot(
                        region_header(region_of(mem)),
                    ) matches Some(a) && slot_page_size(region_header(region_of(mem)), a)
                        != p as u64))
                },
            },
    {
        let ps0 = match page_size {
            Some(p) => {
                if !is_power_of_two(p) || p < MIN_PAGE_SIZE || p > MAX_PAGE_SIZE {
                    proof {
                        assert(!requested_ps_ok(page_size));
                    }
                    return Err(Error::InvalidArgument);
                }
                p
            },
            None => DEFAULT_PAGE_SIZE,
        };
        proof {
            assert(requested_ps_ok(page_size));
            assert(req_ps(page_size) == ps0 as int);
        }
        let mut st = match PageStore::new(mem, ps0, 1) {
            Ok(st) => st,
            Err(e) => {
                proof {
                    assert((region_of(mem).len() as int) / (ps0 as int) < 2);
                    assert(!fresh_mountable(region_of(mem), page_size));
                }
                return Err(e);
            },
        };
        let header_zero = header_is_zero(&st);
        proof {
            st.lemma_wf_bounds();
            if header_zero {
                assert forall|i: int|
                    0 <= i < crate::pages::HEADER_BYTES implies region_of(mem)[i] == 0u8 by {
                    assert(st.header()[i] == 0u8);
                    assert(st.header()[i] == region_of(mem)[i]);
                }
            } else {
                let w = choose|w: int|
                    0 <= w < st.header().len() && #[trigger] st.header()[w] != 0u8;
                assert(region_of(mem)[w] == st.header()[w]);
                assert(!header_all_zero(region_of(mem)));
            }
        }
        if header_zero {
            let ghost h0 = st.header();
            write_slot(&mut st, 0, 0, NO_ROOT, 0, ps0 as u64, 1);
            proof {
                st.lemma_wf_bounds();
                assert(crate::header::slot_bytes(st.header(), 1) == crate::header::slot_bytes(
                    h0,
                    1,
                ));
                assert(crate::header::slot_bytes(h0, 1)[crate::header::OFF_VALID as int] == 0u8);
                assert(!crate::header::slot_valid(st.header(), 1));
            }
            let s = Storage {
                store: st,
                active: 0,
                txn_id: 0,
                master_root: NO_ROOT,
                master_lvl: 0,
                write_active: false,
            };
            proof {
                assert(s.master() =~= Seq::<(Seq<u8>, Seq<u8>)>::empty());
                assert forall|n: Seq<u8>| s.table_at(n) is None by {
                    assert(kv_lookup(s.master(), n) is None);
                }
                assert(s.pages_view() =~= region_pages(s.region_spec(), s.page_size_spec()));
            }
            return Ok(s);
        }
        let d = match read_active(&st) {
            Some(d) => d,
            None => {
                return Err(Error::CorruptDatabase);
            },
        };
        if d.page_size < MIN_PAGE_SIZE as u64 || d.page_size > MAX_PAGE_SIZE as u64 {
            return Err(Error::CorruptDatabase);
        }
        let real_ps = d.page_size as usize;
        if match page_size {
            Some(p) => p != real_ps,
            None => false,
        } {
            return Err(Error::InvalidArgument);
        }
        let ghost region0 = st.region();
        let mut st = match st.remount(real_ps, d.next) {
            Ok(st) => st,
            Err(e) => {
                return Err(e);
            },
        };
        proof {
            assert(st.header() == region0.subrange(0, crate::pages::HEADER_BYTES as int));
        }
        // The header was parsed before the remount; the region is the same.
        let d2 = match read_active(&st) {
            Some(d2) => d2,
            None => {
                return Err(Error::CorruptDatabase);
            },
        };
        if d2.slot != d.slot || d2.txn != d.txn || d2.root != d.root || d2.lvl != d.lvl
            || d2.page_size != d.page_size || d2.next != d.next {
            return Err(Error::CorruptDatabase);
        }
        // Validate the master tree and every table it names.
        if d.root != NO_ROOT {
            if !check_tree(&st, d.root, d.lvl) {
                return Err(Error::CorruptDatabase);
            }
            let ms = read_subtree(&st, d.root, Ghost(d.lvl as nat));
            if ms.len() == 0 {
                return Err(Error::CorruptDatabase);
            }
            if !check_sorted(&ms) {
                return Err(Error::CorruptDatabase);
            }
            proof {
                st.lemma_wf_bounds();
            }
            if !check_fits(&ms, st.page_size_bytes()) {
                return Err(Error::CorruptDatabase);
            }
            let ghost msv = kv_view(ms@);
            let mut i: usize = 0;
            while i < ms.len()
                invariant
                    st.wf(),
                    i <= ms@.len(),
                    msv == kv_view(ms@),
                    !header_all_zero(region_of(mem)),
                    forall|t: int|
                        0 <= t < i ==> desc_entry_ok(
                            st.pages(),
                            st.next_page() as int,
                            st.page_size() as int,
                            #[trigger] msv[t].1,
                        ),
                decreases ms@.len() - i,
            {
                proof {
                    st.lemma_wf_bounds();
                }
                let dd = match decode_desc(ms[i].value.as_slice()) {
                    Some(dd) => dd,
                    None => {
                        return Err(Error::CorruptDatabase);
                    },
                };
                let (id, t, root, lvl) = dd;
                if t > 1 {
                    return Err(Error::CorruptDatabase);
                }
                if root != NO_ROOT {
                    if !check_tree(&st, root, lvl) {
                        return Err(Error::CorruptDatabase);
                    }
                    let es = read_subtree(&st, root, Ghost(lvl as nat));
                    if es.len() == 0 || !check_sorted(&es) || !check_fits(
                        &es,
                        st.page_size_bytes(),
                    ) {
                        return Err(Error::CorruptDatabase);
                    }
                    if t == TYPE_MULTIMAP {
                        if !check_mm_entries(&es) {
                            return Err(Error::CorruptDatabase);
                        }
                    }
                }
                proof {
                    assert(msv[i as int].1 == ms@[i as int].value@);
                    assert(desc_entry_ok(
                        st.pages(),
                        st.next_page() as int,
                        st.page_size() as int,
                        msv[i as int].1,
                    ));
                }
                i = i + 1;
            }
            let s = Storage {
                store: st,
                active: d.slot,
                txn_id: d.txn,
                master_root: d.root,
                master_lvl: d.lvl,
                write_active: false,
            };
            proof {
                lemma_active_gives_bound(st.header(), d.slot as int);
            }
            return Ok(s);
        }
        let s = Storage {
            store: st,
            active: d.slot,
            txn_id: d.txn,
            master_root: d.root,
            master_lvl: d.lvl,
            write_active: false,
        };
        proof {
            lemma_active_gives_bound(st.header(), d.slot as int);
            assert(s.master() =~= Seq::<(Seq<u8>, Seq<u8>)>::empty());
        }
        Ok(s)
    }

    /// Reads the whole master table.
    fn read_master_entries(&self) -> (r: Vec<Entry>)
        requires
            self.wf(),
        ensures
            kv_view(r@) == self.master(),
            r@.len() == self.master().len(),
    {
        if self.master_root == NO_ROOT {
            let r: Vec<Entry> = Vec::new();
            proof {
                assert(kv_view(r@) =~= self.master());
            }
            r
        } else {
            read_subtree(&self.store, self.master_root, Ghost(self.master_lvl as nat))
        }
    }

    /// Reads the entries a tree root holds, for a pinned snapshot.
    pub fn read_pinned(&self, root: u64, lvl: u64) -> (r: Vec<Entry>)
        requires
            self.wf(),
            root != NO_ROOT ==> wf_below(self.pages_view(), root as int, lvl as nat, self.watermark()),
        ensures
            kv_view(r@) == tree_entries(self.pages_view(), root, lvl),
    {
        if root == NO_ROOT {
            let r: Vec<Entry> = Vec::new();
            proof {
                assert(kv_view(r@) =~= tree_entries(self.pages_view(), root, lvl));
            }
            r
        } else {
            read_subtree(&self.store, root, Ghost(lvl as nat))
        }
    }

    /// Looks the named table up and pins its current root: the fields a
    /// read transaction snapshots.
    pub fn pin_table(&self, name: &[u8]) -> (r: Option<(u64, u8, u64, u64)>)
        requires
            self.wf(),
        ensures
            match r {
                Some((id, t, root, lvl)) => {
                    &&& self.table_at(name@) matches Some((id2, t2, es)) && id2 == id && t2 == t
                        && es == tree_entries(self.pages_view(), root, lvl)
                    &&& root != NO_ROOT ==> wf_below(
                        self.pages_view(),
                        root as int,
                        lvl as nat,
                        self.watermark(),
                    ) && sorted_kv(tree_entries(self.pages_view(), root, lvl))
                    &&& t == TYPE_NORMAL || t == TYPE_MULTIMAP
                    &&& (t == TYPE_MULTIMAP ==> mm_entries_ok(
                        tree_entries(self.pages_view(), root, lvl),
                    ))
                    &&& sorted_kv(tree_entries(self.pages_view(), root, lvl))
                    &&& entries_fit(tree_entries(self.pages_view(), root, lvl), self.page_size_spec())
                },
                None => self.table_at(name@) is None,
            },
    {
        let ms = self.read_master_entries();
        let found = kv_find(&ms, name);
        match found {
            None => None,
            Some(i) => {
                let dd = decode_desc(ms[i].value.as_slice());
                match dd {
                    None => {
                        proof {
                            assert(kv_view(ms@)[i as int].1 == ms@[i as int].value@);
                            assert(desc_entry_ok(
                                self.store.pages(),
                                self.store.next_page() as int,
                                self.store.page_size() as int,
                                kv_view(ms@)[i as int].1,
                            ));
                            assert(false);
                        }
                        None
                    },
                    Some((id, t, root, lvl)) => {
                        proof {
                            assert(kv_view(ms@)[i as int].1 == ms@[i as int].value@);
                            assert(desc_entry_ok(
                                self.store.pages(),
                                self.store.next_page() as int,
                                self.store.page_size() as int,
                                kv_view(ms@)[i as int].1,
                            ));
                            if root == NO_ROOT {
                                assert(tree_entries(self.pages_view(), root, lvl) =~= Seq::<
                                    (Seq<u8>, Seq<u8>),
                                >::empty());
                            }
                        }
                        Some((id, t, root, lvl))
                    },
                }
            },
        }
    }

    /// True while a write transaction holds the exclusive writer slot.
    pub fn write_in_progress(&self) -> (r: bool)
        ensures
            r == self.is_write_active(),
    {
        self.write_active
    }

    /// Takes the exclusive writer slot; `WriteConflict` when it is held.
    pub fn acquire_writer(&mut self) -> (r: Result<(), Error>)
        requires
            old(self).wf(),
        ensures
            final(self).wf(),
            match r {
                Ok(()) => !old(self).is_write_active() && final(self).is_write_active() && eq_but_writer(
                    *final(self),
                    *old(self),
                ),
                Err(e) => e == Error::WriteConflict && old(self).is_write_active() && *final(self)
                    == *old(self),
            },
    {
        if self.write_active {
            return Err(Error::WriteConflict);
        }
        self.write_active = true;
        Ok(())
    }

    /// Releases the exclusive writer slot without publishing: the abort of
    /// a write transaction, which leaves no visible effect.
    pub fn release_writer(&mut self)
        requires
            old(self).wf(),
        ensures
            final(self).wf(),
            !final(self).is_write_active(),
            eq_but_writer(*final(self), *old(self)),
    {
        self.write_active = false;
    }

    /// Builds a tree over the new master list, bumps the transaction id,
    /// and publishes both with one slot flip. On `OutOfSpace` the
    /// watermark is rewound and nothing committed changes.
    fn publish_new_master(&mut self, ms: &Vec<Entry>) -> (r: Result<(), Error>)
        requires
            old(self).wf(),
            ms@.len() >= 1,
            sorted_kv(kv_view(ms@)),
            entries_fit(kv_view(ms@), old(self).page_size_spec()),
            forall|i: int|
                0 <= i < ms@.len() ==> desc_entry_ok(
                    old(self).pages_view(),
                    old(self).watermark(),
                    old(self).page_size_spec(),
                    #[trigger] kv_view(ms@)[i].1,
                ),
        ensures
            final(self).wf(),
            final(self).is_write_active() == old(self).is_write_active(),
            final(self).page_size_spec() == old(self).page_size_spec(),
            final(self).num_pages_spec() == old(self).num_pages_spec(),
            final(self).pages_view().len() == old(self).pages_view().len(),
            final(self).watermark() >= old(self).watermark(),
            forall|q: int|
                1 <= q < old(self).watermark() ==> final(self).pages_view()[q] == old(
                    self,
                ).pages_view()[q],
            match r {
                Ok(()) => {
                    &&& final(self).txn() == old(self).txn() + 1
                    &&& final(self).master() == kv_view(ms@)
                    &&& final(self).watermark() == old(self).watermark() + crate::tree::tree_pages(
                        ms@.len() as nat,
                    )
                },
                Err(e) => {
                    &&& e == Error::OutOfSpace
                    &&& final(self).txn() == old(self).txn()
                    &&& final(self).watermark() == old(self).watermark()
                    &&& final(self).master() == old(self).master()
                    &&& forall|n: Seq<u8>| final(self).table_at(n) == old(self).table_at(n)
                    &&& (old(self).txn() == u64::MAX || old(self).watermark()
                        + crate::tree::tree_pages(ms@.len() as nat) > old(self).pages_view().len())
                },
            },
    {
        proof {
            self.lemma_bounds();
        }
        let ghost pages0 = self.store.pages();
        let ghost w0 = self.store.next_page() as int;
        let ghost ms0 = self.master();
        let w0e = self.store.watermark();
        if self.txn_id == u64::MAX {
            // The transaction counter is exhausted; treated as resource
            // exhaustion.
            proof {
                lemma_tables_preserved(
                    pages0,
                    self.store.pages(),
                    w0,
                    w0,
                    self.page_size_spec(),
                    ms0,
                );
            }
            return Err(Error::OutOfSpace);
        }
        let built = build_tree(&mut self.store, ms);
        let (mroot, mlvl) = match built {
            Ok(x) => x,
            Err(e) => {
                proof {
                    if self.master_root != NO_ROOT {
                        lemma_subtree_frame(
                            pages0,
                            self.store.pages(),
                            self.master_root as int,
                            self.master_lvl as nat,
                            w0,
                        );
                    }
                    lemma_master_ok_frame(
                        pages0,
                        self.store.pages(),
                        w0,
                        w0,
                        self.page_size_spec(),
                        ms0,
                    );
                    lemma_tables_preserved(
                        pages0,
                        self.store.pages(),
                        w0,
                        w0,
                        self.page_size_spec(),
                        ms0,
                    );
                    if self.master_root == NO_ROOT {
                        assert(self.master() =~= ms0);
                    }
                }
                return Err(e);
            },
        };
        let ghost pages1 = self.store.pages();
        let ghost w1 = self.store.next_page() as int;
        let new_txn = self.txn_id + 1;
        let target: u8 = 1 - self.active;
        let ps_field = self.store.page_size_bytes() as u64;
        let next_field = self.store.watermark();
        let ghost h1 = self.store.header();
        write_slot(&mut self.store, target, new_txn, mroot, mlvl, ps_field, next_field);
        proof {
            let h2 = self.store.header();
            assert(crate::header::slot_bytes(h2, self.active as int) == crate::header::slot_bytes(
                h1,
                self.active as int,
            ));
            assert(crate::header::slot_valid(h2, self.active as int));
            assert(slot_txn(h2, self.active as int) == self.txn_id);
            lemma_subtree_frame(pages1, self.store.pages(), mroot as int, mlvl as nat, w1);
            lemma_wf_mono(
                self.store.pages(),
                mroot as int,
                mlvl as nat,
                w1,
                self.store.next_page() as int,
            );
            assert(master_ok(pages0, w0, self.page_size_spec(), kv_view(ms@)));
            lemma_master_ok_frame(
                pages0,
                self.store.pages(),
                w0,
                self.store.next_page() as int,
                self.page_size_spec(),
                kv_view(ms@),
            );
        }
        self.active = target;
        self.txn_id = new_txn;
        self.master_root = mroot;
        self.master_lvl = mlvl;
        proof {
            assert(self.master() == kv_view(ms@));
        }
        Ok(())
    }

    /// Looks the named table up, creating it inside a one-operation write
    /// transaction when it is new. Opening an existing table returns its
    /// id and changes nothing; the second open of one name returns the
    /// same id as the first.
    pub fn open_table_raw(&mut self, name: &[u8], ttype: u8) -> (r: Result<u64, Error>)
        requires
            old(self).wf(),
            ttype == TYPE_NORMAL || ttype == TYPE_MULTIMAP,
        ensures
            final(self).wf(),
            final(self).page_size_spec() == old(self).page_size_spec(),
            final(self).num_pages_spec() == old(self).num_pages_spec(),
            final(self).is_write_active() == old(self).is_write_active(),
            final(self).watermark() >= old(self).watermark(),
            final(self).pages_view().len() == old(self).pages_view().len(),
            forall|q: int|
                1 <= q < old(self).watermark() ==> final(self).pages_view()[q] == old(
                    self,
                ).pages_view()[q],
            match r {
                Ok(id) => {
                    &&& name@.len() > 0
                    &&& !old(self).is_write_active()
                    &&& (old(self).table_at(name@) is Some ==> {
                        &&& old(self).table_at(name@).unwrap().0 == id
                        &&& old(self).table_at(name@).unwrap().1 == ttype
                        &&& *final(self) == *old(self)
                    })
                    &&& (old(self).table_at(name@) is None ==> {
                        &&& final(self).txn() == old(self).txn() + 1
                        &&& final(self).table_at(name@) == Some(
                            (id, ttype, Seq::<(Seq<u8>, Seq<u8>)>::empty()),
                        )
                        &&& forall|n2: Seq<u8>|
                            n2 != name@ ==> final(self).table_at(n2) == old(self).table_at(n2)
                        &&& forall|n2: Seq<u8>| #[trigger]
                            old(self).table_at(n2) is Some ==> old(self).table_at(n2).unwrap().0
                                != id
                    })
                },
                Err(e) => {
                    &&& (e == Error::WriteConflict <==> old(self).is_write_active())
                    &&& forall|n2: Seq<u8>| final(self).table_at(n2) == old(self).table_at(n2)
                    &&& final(self).txn() == old(self).txn()
                    &&& (e == Error::WriteConflict || e == Error::InvalidArgument || e
                        == Error::OutOfSpace)
                    &&& (e == Error::InvalidArgument <==> !old(self).is_write_active() && (
                    name@.len() == 0 || !entry_fits(
                        (name@, enc_desc(0, 0, 0, 0)),
                        old(self).page_size_spec(),
                    ) || (old(self).table_at(name@) matches Some((i2, t2, e2)) && t2 != ttype)))
                    &&& (e == Error::OutOfSpace ==> old(self).txn() == u64::MAX || old(
                        self,
                    ).watermark() + crate::tree::tree_pages((old(self).master().len() + 1) as nat)
                        > old(self).pages_view().len() || exists|i: int|
                        0 <= i < old(self).master().len() && dec_desc(
                            #[trigger] old(self).master()[i].1,
                        ).unwrap().0 == u64::MAX)
                },
            },
    {
        proof {
            self.lemma_bounds();
        }
        let ghost pages0 = self.store.pages();
        let ghost w0 = self.store.next_page() as int;
        let ghost ms0 = self.master();
        if self.write_active {
            return Err(Error::WriteConflict);
        }
        if name.len() == 0 {
            return Err(Error::InvalidArgument);
        }
        let probe = encode_desc(0, 0, 0, 0);
        if !check_entry_fits(name, probe.as_slice(), self.store.page_size_bytes()) {
            return Err(Error::InvalidArgument);
        }
        let ms = self.read_master_entries();
        let found = kv_find(&ms, name);
        match found {
            Some(i) => {
                proof {
                    assert(kv_view(ms@)[i as int].1 == ms@[i as int].value@);
                    lemma_kv_lookup_index(kv_view(ms@), name@);
                    let w = choose|w: int|
                        0 <= w < kv_view(ms@).len() && #[trigger] kv_view(ms@)[w] == (
                            name@,
                            kv_lookup(kv_view(ms@), name@).unwrap(),
                        );
                    assert(desc_entry_ok(
                        self.pages_view(),
                        self.watermark(),
                        self.page_size_spec(),
                        kv_view(ms@)[w].1,
                    ));
                }
                let dd = match decode_desc(ms[i].value.as_slice()) {
                    Some(dd) => dd,
                    None => {
                        proof {
                            assert(desc_entry_ok(
                                self.pages_view(),
                                self.watermark(),
                                self.page_size_spec(),
                                kv_view(ms@)[i as int].1,
                            ));
                            assert(false);
                        }
                        return Err(Error::CorruptDatabase);
                    },
                };
                let (id, t, _root, _lvl) = dd;
                if t != ttype {
                    proof {
                        assert(kv_lookup(self.master(), name@) == Some(ms@[i as int].value@));
                        assert(dec_desc(ms@[i as int].value@) == Some(dd));
                        assert(self.table_at(name@) matches Some((i2, t2, e2)) && t2 == t);
                    }
                    return Err(Error::InvalidArgument);
                }
                proof {
                    assert(kv_lookup(self.master(), name@) == Some(ms@[i as int].value@));
                    assert(dec_desc(ms@[i as int].value@) == Some(dd));
                    assert(self.table_at(name@) is Some);
                    assert(self.table_at(name@).unwrap().0 == id);
                    assert(self.table_at(name@).unwrap().1 == t);
                    assert(*self == *old(self));
                }
                Ok(id)
            },
            None => {
                proof {
                    assert(old(self).table_at(name@) is None);
                }
                // Assign the next id above every existing one.
                let mut max_id: u64 = 0;
                let mut j: usize = 0;
                while j < ms.len()
                    invariant
                        self.wf(),
                        j <= ms@.len(),
                        kv_view(ms@) == self.master(),
                        max_id == 0 || exists|t: int|
                            0 <= t < j && dec_desc(#[trigger] kv_view(ms@)[t].1).unwrap().0
                                == max_id,
                        forall|t: int|
                            0 <= t < j ==> dec_desc(#[trigger] kv_view(ms@)[t].1).unwrap().0
                                <= max_id,
                    decreases ms@.len() - j,
                {
                    proof {
                        assert(kv_view(ms@)[j as int].1 == ms@[j as int].value@);
                        assert(desc_entry_ok(
                            self.pages_view(),
                            self.watermark(),
                            self.page_size_spec(),
                            kv_view(ms@)[j as int].1,
                        ));
                    }
                    let dd = match decode_desc(ms[j].value.as_slice()) {
                        Some(dd) => dd,
                        None => {
                            proof {
                                assert(false);
                            }
                            return Err(Error::CorruptDatabase);
                        },
                    };
                    if dd.0 > max_id {
                        max_id = dd.0;
                    }
                    j = j + 1;
                }
                if max_id == u64::MAX {
                    proof {
                        lemma_tables_preserved(
                            pages0,
                            self.store.pages(),
                            w0,
                            w0,
                            self.page_size_spec(),
                            ms0,
                        );
                        assert(exists|t: int|
                            0 <= t < ms0.len() && dec_desc(#[trigger] ms0[t].1).unwrap().0
                                == u64::MAX);
                    }
                    return Err(Error::OutOfSpace);
                }
                let id = max_id + 1;
                let v_new = encode_desc(id, ttype, NO_ROOT, 0);
                let mut ms2 = ms;
                let ghost msv = kv_view(ms2@);
                let name_copy = copy_bytes(name);
                kv_store(&mut ms2, name_copy, v_new);
                proof {
                    lemma_kv_insert_sorted(msv, name@, enc_desc(id, ttype, NO_ROOT, 0));
                    lemma_kv_insert_elems(msv, name@, enc_desc(id, ttype, NO_ROOT, 0));
                    crate::codec::lemma_desc_round_trip(id, ttype, NO_ROOT, 0);
                    assert(enc_desc(id, ttype, NO_ROOT, 0).len() == DESC_BYTES);
                    assert forall|t: int| 0 <= t < kv_view(ms2@).len() implies entry_fits(
                        #[trigger] kv_view(ms2@)[t],
                        self.page_size_spec(),
                    ) && desc_entry_ok(
                        self.pages_view(),
                        self.watermark(),
                        self.page_size_spec(),
                        kv_view(ms2@)[t].1,
                    ) by {
                        if kv_view(ms2@)[t] == (name@, enc_desc(id, ttype, NO_ROOT, 0)) {
                            assert(tree_entries(self.pages_view(), NO_ROOT, 0) =~= Seq::<
                                (Seq<u8>, Seq<u8>),
                            >::empty());
                        } else {
                            let w = choose|w: int|
                                0 <= w < msv.len() && kv_view(ms2@)[t] == #[trigger] msv[w];
                            assert(entry_fits(msv[w], self.page_size_spec()));
                            assert(desc_entry_ok(
                                self.pages_view(),
                                self.watermark(),
                                self.page_size_spec(),
                                msv[w].1,
                            ));
                        }
                    }
                }
                proof {
                    crate::entries::lemma_kv_insert_len(msv, name@, enc_desc(id, ttype, NO_ROOT, 0));
                    assert(kv_view(ms2@).len() == ms0.len() + 1);
                }
                let res = self.publish_new_master(&ms2);
                match res {
                    Ok(()) => {
                        proof {
                            lemma_kv_lookup_insert_same(
                                msv,
                                name@,
                                enc_desc(id, ttype, NO_ROOT, 0),
                            );
                            assert forall|n2: Seq<u8>| n2 != name@ implies self.table_at(n2)
                                == old(self).table_at(n2) by {
                                lemma_kv_lookup_insert_other(
                                    msv,
                                    name@,
                                    enc_desc(id, ttype, NO_ROOT, 0),
                                    n2,
                                );
                                assert(kv_lookup(self.master(), n2) == kv_lookup(ms0, n2));
                                lemma_tables_preserved(
                                    pages0,
                                    self.store.pages(),
                                    w0,
                                    self.watermark(),
                                    self.page_size_spec(),
                                    ms0,
                                );
                                assert(table_lookup(self.pages_view(), ms0, n2) == table_lookup(
                                    pages0,
                                    ms0,
                                    n2,
                                ));
                            }
                            assert(tree_entries(self.pages_view(), NO_ROOT, 0) =~= Seq::<
                                (Seq<u8>, Seq<u8>),
                            >::empty());
                            assert forall|n2: Seq<u8>| #[trigger]
                                table_lookup(pages0, ms0, n2) is Some implies table_lookup(
                                pages0,
                                ms0,
                                n2,
                            ).unwrap().0 != id by {
                                let v = kv_lookup(ms0, n2).unwrap();
                                lemma_kv_lookup_index(ms0, n2);
                                let w = choose|w: int|
                                    0 <= w < ms0.len() && #[trigger] ms0[w] == (n2, v);
                                assert(dec_desc(ms0[w].1).unwrap().0 <= max_id);
                            }
                        }
                        Ok(id)
                    },
                    Err(e) => {
                        Err(e)
                    },
                }
            },
        }
    }

    /// Replaces the named table's contents with `entries` and commits:
    /// the new state becomes visible atomically, every other table is
    /// untouched, and on `OutOfSpace` the store is rolled back to the
    /// last committed state. Either way the writer slot is released.
    pub fn commit_table(&mut self, name: &[u8], entries: &Vec<Entry>) -> (r: Result<(), Error>)
        requires
            old(self).wf(),
            old(self).is_write_active(),
            old(self).table_at(name@) is Some,
            sorted_kv(kv_view(entries@)),
            entries_fit(kv_view(entries@), old(self).page_size_spec()),
            old(self).table_at(name@).unwrap().1 == TYPE_MULTIMAP ==> mm_entries_ok(
                kv_view(entries@),
            ),
        ensures
            final(self).wf(),
            !final(self).is_write_active(),
            final(self).page_size_spec() == old(self).page_size_spec(),
            final(self).num_pages_spec() == old(self).num_pages_spec(),
            final(self).pages_view().len() == old(self).pages_view().len(),
            final(self).watermark() >= old(self).watermark(),
            forall|q: int|
                1 <= q < old(self).watermark() ==> final(self).pages_view()[q] == old(
                    self,
                ).pages_view()[q],
            match r {
                Ok(()) => {
                    &&& final(self).txn() == old(self).txn() + 1
                    &&& final(self).table_at(name@) == Some(
                        (
                            old(self).table_at(name@).unwrap().0,
                            old(self).table_at(name@).unwrap().1,
                            kv_view(entries@),
                        ),
                    )
                    &&& forall|n2: Seq<u8>|
                        n2 != name@ ==> final(self).table_at(n2) == old(self).table_at(n2)
                },
                Err(e) => {
                    &&& e == Error::OutOfSpace
                    &&& final(self).txn() == old(self).txn()
                    &&& forall|n2: Seq<u8>| final(self).table_at(n2) == old(self).table_at(n2)
                    &&& (old(self).txn() == u64::MAX || old(self).watermark()
                        + crate::tree::tree_pages(kv_view(entries@).len() as nat)
                        + crate::tree::tree_pages(old(self).master().len() as nat) > old(
                        self,
                    ).pages_view().len())
                },
            },
    {
        proof {
            self.lemma_bounds();
        }
        let ghost pages0 = self.store.pages();
        let ghost w0 = self.store.next_page() as int;
        let ghost ms0 = self.master();
        let w0e = self.store.watermark();
        let ms = self.read_master_entries();
        let found = kv_find(&ms, name);
        let i = match found {
            Some(i) => i,
            None => {
                proof {
                    assert(false);
                }
                self.write_active = false;
                return Err(Error::OutOfSpace);
            },
        };
        proof {
            assert(kv_view(ms@)[i as int].1 == ms@[i as int].value@);
            lemma_kv_lookup_index(kv_view(ms@), name@);
            let w = choose|w: int|
                0 <= w < kv_view(ms@).len() && #[trigger] kv_view(ms@)[w] == (
                    name@,
                    kv_lookup(kv_view(ms@), name@).unwrap(),
                );
            assert(desc_entry_ok(
                self.pages_view(),
                self.watermark(),
                self.page_size_spec(),
                kv_view(ms@)[w].1,
            ));
        }
        let dd = match decode_desc(ms[i].value.as_slice()) {
            Some(dd) => dd,
            None => {
                proof {
                    assert(false);
                }
                self.write_active = false;
                return Err(Error::OutOfSpace);
            },
        };
        let (id, t, _oldroot, _oldlvl) = dd;
        proof {
            assert(kv_lookup(ms0, name@) == Some(ms@[i as int].value@));
            assert(dec_desc(ms@[i as int].value@) == Some(dd));
            assert(old(self).table_at(name@).unwrap().0 == id);
            assert(old(self).table_at(name@).unwrap().1 == t);
        }
        // Build the table's new tree.
        let (troot, tlvl): (u64, u64) = if entries.len() == 0 {
            (NO_ROOT, 0)
        } else {
            match build_tree(&mut self.store, entries) {
                Ok(x) => x,
                Err(e) => {
                    proof {
                        if self.master_root != NO_ROOT {
                            lemma_subtree_frame(
                                pages0,
                                self.store.pages(),
                                self.master_root as int,
                                self.master_lvl as nat,
                                w0,
                            );
                        }
                        lemma_master_ok_frame(
                            pages0,
                            self.store.pages(),
                            w0,
                            w0,
                            self.page_size_spec(),
                            ms0,
                        );
                        lemma_tables_preserved(
                            pages0,
                            self.store.pages(),
                            w0,
                            w0,
                            self.page_size_spec(),
                            ms0,
                        );
                        if self.master_root == NO_ROOT {
                            assert(self.master() =~= ms0);
                        }
                    }
                    self.write_active = false;
                    return Err(e);
                },
            }
        };
        let ghost pages1 = self.store.pages();
        let ghost w1 = self.store.next_page() as int;
        proof {
            // The engine's state is still sound after the fresh pages.
            if self.master_root != NO_ROOT {
                lemma_subtree_frame(
                    pages0,
                    pages1,
                    self.master_root as int,
                    self.master_lvl as nat,
                    w0,
                );
                lemma_wf_mono(pages1, self.master_root as int, self.master_lvl as nat, w0, w1);
            }
            lemma_master_ok_frame(pages0, pages1, w0, w1, self.page_size_spec(), ms0);
            if self.master_root == NO_ROOT {
                assert(self.master() =~= ms0);
            }
            assert(self.master() == ms0);
        }
        let v_new = encode_desc(id, t, troot, tlvl);
        let mut ms2 = ms;
        let ghost msv = kv_view(ms2@);
        let name_copy = copy_bytes(name);
        kv_store(&mut ms2, name_copy, v_new);
        proof {
            crate::entries::lemma_kv_insert_len(msv, name@, enc_desc(id, t, troot, tlvl));
            assert(kv_view(ms2@).len() == ms0.len());
            lemma_kv_insert_sorted(msv, name@, enc_desc(id, t, troot, tlvl));
            lemma_kv_insert_elems(msv, name@, enc_desc(id, t, troot, tlvl));
            crate::codec::lemma_desc_round_trip(id, t, troot, tlvl);
            lemma_kv_lookup_index(msv, name@);
            let wx = choose|wx: int|
                0 <= wx < msv.len() && #[trigger] msv[wx] == (
                    name@,
                    kv_lookup(msv, name@).unwrap(),
                );
            assert(entry_fits(msv[wx], self.page_size_spec()));
            assert(msv[wx].1.len() == DESC_BYTES);
            assert forall|tt: int| 0 <= tt < kv_view(ms2@).len() implies entry_fits(
                #[trigger] kv_view(ms2@)[tt],
                self.page_size_spec(),
            ) && desc_entry_ok(
                self.pages_view(),
                self.watermark(),
                self.page_size_spec(),
                kv_view(ms2@)[tt].1,
            ) by {
                if kv_view(ms2@)[tt] == (name@, enc_desc(id, t, troot, tlvl)) {
                    if troot != NO_ROOT {
                        assert(subtree(pages1, troot as int, tlvl as nat) == kv_view(entries@));
                    } else {
                        assert(tree_entries(self.pages_view(), troot, tlvl) =~= Seq::<
                            (Seq<u8>, Seq<u8>),
                        >::empty());
                        assert(kv_view(entries@) =~= Seq::<(Seq<u8>, Seq<u8>)>::empty());
                    }
                    assert(table_ok(
                        self.pages_view(),
                        self.watermark(),
                        self.page_size_spec(),
                        t,
                        troot,
                        tlvl,
                    ));
                } else {
                    let w = choose|w: int|
                        0 <= w < msv.len() && kv_view(ms2@)[tt] == #[trigger] msv[w];
                    assert(entry_fits(msv[w], self.page_size_spec()));
                    assert(desc_entry_ok(
                        self.pages_view(),
                        self.watermark(),
                        self.page_size_spec(),
                        msv[w].1,
                    ));
                }
            }
        }
        let res = self.publish_new_master(&ms2);
        self.write_active = false;
        match res {
            Ok(()) => {
                proof {
                    lemma_kv_lookup_insert_same(msv, name@, enc_desc(id, t, troot, tlvl));
                    if troot != NO_ROOT {
                        lemma_subtree_frame(pages1, self.store.pages(), troot as int, tlvl as nat, w1);
                        lemma_wf_mono(
                            self.store.pages(),
                            troot as int,
                            tlvl as nat,
                            w1,
                            self.store.next_page() as int,
                        );
                    } else {
                        assert(tree_entries(self.pages_view(), troot, tlvl) =~= kv_view(entries@));
                    }
                    assert(kv_lookup(self.master(), name@) == Some(enc_desc(id, t, troot, tlvl)));
                    assert(dec_desc(enc_desc(id, t, troot, tlvl)) == Some((id, t, troot, tlvl)));
                    assert(tree_entries(self.pages_view(), troot, tlvl) == kv_view(entries@));
                    assert(self.table_at(name@) == Some((id, t, kv_view(entries@))));
                    assert forall|n2: Seq<u8>| n2 != name@ implies self.table_at(n2) == old(
                        self,
                    ).table_at(n2) by {
                        lemma_kv_lookup_insert_other(msv, name@, enc_desc(id, t, troot, tlvl), n2);
                        assert(kv_lookup(self.master(), n2) == kv_lookup(ms0, n2));
                        lemma_tables_preserved(
                            pages0,
                            self.store.pages(),
                            w0,
                            self.watermark(),
                            self.page_size_spec(),
                            ms0,
                        );
                        assert(table_lookup(self.pages_view(), ms0, n2) == table_lookup(
                            pages0,
                            ms0,
                            n2,
                        ));
                    }
                }
                Ok(())
            },
            Err(e) => {
                proof {
                    assert forall|n2: Seq<u8>| self.table_at(n2) == old(self).table_at(n2) by {
                        lemma_tables_preserved(
                            pages0,
                            self.store.pages(),
                            w0,
                            self.watermark(),
                            self.page_size_spec(),
                            ms0,
                        );
                        assert(kv_lookup(self.master(), n2) == kv_lookup(ms0, n2));
                        assert(table_lookup(self.pages_view(), ms0, n2) == table_lookup(
                            pages0,
                            ms0,
                            n2,
                        ));
                    }
                }
                Err(e)
            },
        }
    }

    /// The whole mapped byte region.
    pub closed spec fn region_spec(self) -> Seq<u8> {
        self.store.region()
    }

    /// Gives the mapped region back, ending the engine's ownership: the
    /// caller may remount it later and finds the last committed state.
    pub fn into_region(self) -> (r: memmap2::MmapMut)
        ensures
            crate::mem::region_of(r) == self.region_spec(),
    {
        self.store.into_mem()
    }

    /// The fixed page size.
    pub fn page_size_exec(&self) -> (r: usize)
        requires
            self.wf(),
        ensures
            r == self.page_size_spec(),
    {
        self.store.page_size_bytes()
    }

    /// How many data pages exist, how many are still free, and the last
    /// committed transaction id.
    pub fn stats_raw(&self) -> (r: (u64, u64, u64))
        requires
            self.wf(),
        ensures
            r.0 == self.num_pages_spec(),
            r.1 == self.num_pages_spec() + 1 - self.watermark(),
            r.2 == self.txn(),
    {
        proof {
            self.lemma_bounds();
        }
        (self.store.capacity(), self.store.capacity() + 1 - self.store.watermark(), self.txn_id)
    }

    /// The number of levels of the master tree: zero when no table is
    /// registered, the root's level plus one otherwise.
    pub closed spec fn master_height_spec(self) -> u64 {
        if self.master_root == NO_ROOT {
            0
        } else if self.master_lvl == u64::MAX {
            u64::MAX
        } else {
            (self.master_lvl + 1) as u64
        }
    }

    pub fn master_height(&self) -> (r: u64)
        ensures
            r == self.master_height_spec(),
    {
        if self.master_root == NO_ROOT {
            0
        } else if self.master_lvl == u64::MAX {
            u64::MAX
        } else {
            self.master_lvl + 1
        }
    }
}

/// The two states agree on everything but the writer flag.
pub open spec fn eq_but_writer(a: Storage, b: Storage) -> bool {
    &&& a.pages_view() == b.pages_view()
    &&& a.watermark() == b.watermark()
    &&& a.page_size_spec() == b.page_size_spec()
    &&& a.num_pages_spec() == b.num_pages_spec()
    &&& a.txn() == b.txn()
    &&& a.master() == b.master()
    &&& forall|n: Seq<u8>| a.table_at(n) == b.table_at(n)
}

} // verus!
