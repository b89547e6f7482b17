use vstd::bytes::{
    lemma_auto_spec_u64_to_from_le_bytes, spec_u64_from_le_bytes, u64_from_le_bytes,
    u64_to_le_bytes,
};
use vstd::prelude::*;

use crate::codec::{
    dec_node, decode_node, enc_pairs, encode_node, lemma_enc_pair_len, lemma_enc_pairs_push,
    pair_fits, NODE_HEADER,
};
use crate::entries::{copy_bytes, kv_view, Entry};
use crate::error::Error;
use crate::pages::PageStore;

verus! {

/// The page image at index `p`, empty when out of range.
pub open spec fn page_at(pages: Seq<Seq<u8>>, p: int) -> Seq<u8> {
    if 0 <= p < pages.len() {
        pages[p]
    } else {
        Seq::empty()
    }
}

/// The child page number an internal item points at.
pub open spec fn child_num(item: (Seq<u8>, Seq<u8>)) -> int {
    spec_u64_from_le_bytes(item.1) as int
}

/// The entries a tree rooted at page `p` with level `lvl` holds, in
/// left-to-right order: a leaf's own pairs, or the concatenation of the
/// children's entries.
pub open spec fn subtree(pages: Seq<Seq<u8>>, p: int, lvl: nat) -> Seq<(Seq<u8>, Seq<u8>)>
    decreases lvl, 0nat,
{
    match dec_node(page_at(pages, p)) {
        None => Seq::empty(),
        Some((l, items)) => {
            if lvl == 0 {
                items
            } else {
                subtree_cat(pages, items, (lvl - 1) as nat, 0)
            }
        },
    }
}

/// The concatenated entries of the subtrees under `items[i..]`, each child
/// at level `lvl`.
pub open spec fn subtree_cat(
    pages: Seq<Seq<u8>>,
    items: Seq<(Seq<u8>, Seq<u8>)>,
    lvl: nat,
    i: int,
) -> Seq<(Seq<u8>, Seq<u8>)>
    decreases lvl, items.len() + 1 - i,
{
    if 0 <= i < items.len() {
        subtree(pages, child_num(items[i]), lvl) + subtree_cat(pages, items, lvl, i + 1)
    } else {
        Seq::empty()
    }
}

/// The tree rooted at `p` is well-formed and lives entirely below the
/// watermark `w`: the page decodes to a node of exactly level `lvl`, and
/// every child link leads to a well-formed subtree one level down.
pub open spec fn wf_below(pages: Seq<Seq<u8>>, p: int, lvl: nat, w: int) -> bool
    decreases lvl, 0nat,
{
    &&& 1 <= p < w
    &&& w <= pages.len()
    &&& match dec_node(page_at(pages, p)) {
        None => false,
        Some((l, items)) => {
            &&& l == lvl
            &&& (lvl > 0 ==> items.len() >= 1 && wf_cat(pages, items, (lvl - 1) as nat, 0, w))
        },
    }
}

/// Every item of `items[i..]` carries an 8-byte child reference to a
/// well-formed subtree at level `lvl` below `w`.
pub open spec fn wf_cat(
    pages: Seq<Seq<u8>>,
    items: Seq<(Seq<u8>, Seq<u8>)>,
    lvl: nat,
    i: int,
    w: int,
) -> bool
    decreases lvl, items.len() + 1 - i,
{
    if 0 <= i < items.len() {
        &&& items[i].1.len() == 8
        &&& wf_below(pages, child_num(items[i]), lvl, w)
        &&& wf_cat(pages, items, lvl, i + 1, w)
    } else {
        true
    }
}

/// Framing: a tree below the watermark is untouched by any change to the
/// pages at or above it.
pub proof fn lemma_subtree_frame(
    pages1: Seq<Seq<u8>>,
    pages2: Seq<Seq<u8>>,
    p: int,
    lvl: nat,
    w: int,
)
    requires
        wf_below(pages1, p, lvl, w),
        w <= pages2.len(),
        forall|q: int| 1 <= q < w ==> pages2[q] == pages1[q],
    ensures
        wf_below(pages2, p, lvl, w),
        subtree(pages2, p, lvl) == subtree(pages1, p, lvl),
    decreases lvl, 0nat,
{
    assert(page_at(pages2, p) == page_at(pages1, p));
    match dec_node(page_at(pages1, p)) {
        None => {},
        Some((l, items)) => {
            if lvl > 0 {
                lemma_cat_frame(pages1, pages2, items, (lvl - 1) as nat, 0, w);
            }
        },
    }
}

pub proof fn lemma_cat_frame(
    pages1: Seq<Seq<u8>>,
    pages2: Seq<Seq<u8>>,
    items: Seq<(Seq<u8>, Seq<u8>)>,
    lvl: nat,
    i: int,
    w: int,
)
    requires
        wf_cat(pages1, items, lvl, i, w),
        w <= pages2.len(),
        forall|q: int| 1 <= q < w ==> pages2[q] == pages1[q],
    ensures
        wf_cat(pages2, items, lvl, i, w),
        subtree_cat(pages2, items, lvl, i) == subtree_cat(pages1, items, lvl, i),
    decreases lvl, items.len() + 1 - i,
{
    if 0 <= i < items.len() {
        lemma_subtree_frame(pages1, pages2, child_num(items[i]), lvl, w);
        lemma_cat_frame(pages1, pages2, items, lvl, i + 1, w);
    }
}

/// A well-formed tree stays well-formed under a larger watermark.
pub proof fn lemma_wf_mono(pages: Seq<Seq<u8>>, p: int, lvl: nat, w: int, w2: int)
    requires
        wf_below(pages, p, lvl, w),
        w <= w2 <= pages.len(),
    ensures
        wf_below(pages, p, lvl, w2),
    decreases lvl, 0nat,
{
    match dec_node(page_at(pages, p)) {
        None => {},
        Some((l, items)) => {
            if lvl > 0 {
                lemma_wf_cat_mono(pages, items, (lvl - 1) as nat, 0, w, w2);
            }
        },
    }
}

pub proof fn lemma_wf_cat_mono(
    pages: Seq<Seq<u8>>,
    items: Seq<(Seq<u8>, Seq<u8>)>,
    lvl: nat,
    i: int,
    w: int,
    w2: int,
)
    requires
        wf_cat(pages, items, lvl, i, w),
        w <= w2 <= pages.len(),
    ensures
        wf_cat(pages, items, lvl, i, w2),
    decreases lvl, items.len() + 1 - i,
{
    if 0 <= i < items.len() {
        lemma_wf_mono(pages, child_num(items[i]), lvl, w, w2);
        lemma_wf_cat_mono(pages, items, lvl, i + 1, w, w2);
    }
}

/// Appending an item appends its subtree.
pub proof fn lemma_cat_push(
    pages: Seq<Seq<u8>>,
    items: Seq<(Seq<u8>, Seq<u8>)>,
    it: (Seq<u8>, Seq<u8>),
    lvl: nat,
    i: int,
)
    requires
        0 <= i <= items.len(),
    ensures
        subtree_cat(pages, items.push(it), lvl, i) == subtree_cat(pages, items, lvl, i) + subtree(
            pages,
            child_num(it),
            lvl,
        ),
    decreases items.len() + 1 - i,
{
    let lhs = subtree_cat(pages, items.push(it), lvl, i);
    let rhs = subtree_cat(pages, items, lvl, i) + subtree(pages, child_num(it), lvl);
    if i < items.len() {
        assert(items.push(it)[i] == items[i]);
        lemma_cat_push(pages, items, it, lvl, i + 1);
        assert(lhs =~= rhs);
    } else {
        assert(items.push(it)[i] == it);
        assert(subtree_cat(pages, items.push(it), lvl, i + 1) =~= Seq::<(Seq<u8>, Seq<u8>)>::empty());
        assert(lhs =~= rhs);
    }
}

/// Appending an item with a well-formed subtree keeps the run well-formed.
pub proof fn lemma_wf_cat_push(
    pages: Seq<Seq<u8>>,
    items: Seq<(Seq<u8>, Seq<u8>)>,
    it: (Seq<u8>, Seq<u8>),
    lvl: nat,
    i: int,
    w: int,
)
    requires
        0 <= i <= items.len(),
        wf_cat(pages, items, lvl, i, w),
        it.1.len() == 8,
        wf_below(pages, child_num(it), lvl, w),
    ensures
        wf_cat(pages, items.push(it), lvl, i, w),
    decreases items.len() + 1 - i,
{
    if i < items.len() {
        assert(items.push(it)[i] == items[i]);
        lemma_wf_cat_push(pages, items, it, lvl, i + 1, w);
    } else {
        assert(items.push(it)[i] == it);
        assert(wf_cat(pages, items.push(it), lvl, i + 1, w));
    }
}

/// Reads the whole tree rooted at `p` back into its ordered entry list.
pub fn read_subtree(store: &PageStore, p: u64, Ghost(lvl): Ghost<nat>) -> (r: Vec<Entry>)
    requires
        store.wf(),
        wf_below(store.pages(), p as int, lvl, store.next_page() as int),
    ensures
        kv_view(r@) == subtree(store.pages(), p as int, lvl),
    decreases lvl,
{
    let page = store.read_page(p);
    proof {
        assert(page_at(store.pages(), p as int) == store.pages()[p as int]);
    }
    let decoded = decode_node(&page);
    let (level, items) = match decoded {
        Some(x) => x,
        None => {
            proof {
                assert(false);
            }
            (0u64, Vec::new())
        },
    };
    if level == 0 {
        items
    } else {
        let ghost iv = kv_view(items@);
        let ghost l2 = (lvl - 1) as nat;
        let mut out: Vec<Entry> = Vec::new();
        let mut i: usize = 0;
        proof {
            assert(kv_view(out@) =~= Seq::<(Seq<u8>, Seq<u8>)>::empty());
            assert(kv_view(out@) + subtree_cat(store.pages(), iv, l2, 0) =~= subtree_cat(
                store.pages(),
                iv,
                l2,
                0,
            ));
        }
        while i < items.len()
            invariant
                store.wf(),
                i <= items@.len(),
                lvl == l2 + 1,
                iv == kv_view(items@),
                wf_cat(store.pages(), iv, l2, i as int, store.next_page() as int),
                subtree_cat(store.pages(), iv, l2, 0) == kv_view(out@) + subtree_cat(
                    store.pages(),
                    iv,
                    l2,
                    i as int,
                ),
            decreases items@.len() - i,
        {
            proof {
                assert(iv[i as int].1 == items@[i as int].value@);
            }
            let child = u64_from_le_bytes(items[i].value.as_slice());
            let mut sub = read_subtree(store, child, Ghost(l2));
            let ghost out_before = kv_view(out@);
            let ghost sub_v = kv_view(sub@);
            out.append(&mut sub);
            proof {
                assert(kv_view(out@) =~= out_before + sub_v);
                assert(subtree_cat(store.pages(), iv, l2, i as int) == subtree(
                    store.pages(),
                    child_num(iv[i as int]),
                    l2,
                ) + subtree_cat(store.pages(), iv, l2, i + 1));
            }
            i = i + 1;
        }
        proof {
            assert(subtree_cat(store.pages(), iv, l2, i as int) =~= Seq::<
                (Seq<u8>, Seq<u8>),
            >::empty());
            assert(kv_view(out@) + Seq::<(Seq<u8>, Seq<u8>)>::empty() =~= kv_view(out@));
        }
        out
    }
}

/// An entry small enough for the fixed page size: it fits a leaf page on
/// its own, and three items carrying its key as a separator fit an
/// internal page.
pub open spec fn entry_fits(e: (Seq<u8>, Seq<u8>), ps: int) -> bool {
    &&& NODE_HEADER + 8 + e.0.len() + e.1.len() <= ps
    &&& NODE_HEADER + 3 * (16 + e.0.len()) <= ps
}

pub open spec fn entries_fit(s: Seq<(Seq<u8>, Seq<u8>)>, ps: int) -> bool {
    forall|i: int| 0 <= i < s.len() ==> entry_fits(#[trigger] s[i], ps)
}

/// Checks `entry_fits` for a key-value pair about to be stored.
pub fn check_entry_fits(key: &[u8], value: &[u8], page_size: usize) -> (r: bool)
    requires
        page_size <= crate::pages::MAX_PAGE_SIZE,
    ensures
        r == entry_fits((key@, value@), page_size as int),
{
    let ks = key.len();
    let vs = value.len();
    if ks > page_size || vs > page_size {
        return false;
    }
    NODE_HEADER + 8 + ks + vs <= page_size && NODE_HEADER + 3 * (16 + ks) <= page_size
}


/// Looks up one link of a well-formed run.
pub proof fn lemma_wf_cat_index(
    pages: Seq<Seq<u8>>,
    items: Seq<(Seq<u8>, Seq<u8>)>,
    lvl: nat,
    i: int,
    j: int,
    w: int,
)
    requires
        wf_cat(pages, items, lvl, i, w),
        0 <= i <= j < items.len(),
    ensures
        items[j].1.len() == 8,
        wf_below(pages, child_num(items[j]), lvl, w),
    decreases j - i,
{
    if i < j {
        lemma_wf_cat_index(pages, items, lvl, i + 1, j, w);
    }
}

/// A well-formed run stays well-formed from any later position.
pub proof fn lemma_wf_cat_suffix(
    pages: Seq<Seq<u8>>,
    items: Seq<(Seq<u8>, Seq<u8>)>,
    lvl: nat,
    i: int,
    j: int,
    w: int,
)
    requires
        wf_cat(pages, items, lvl, i, w),
        0 <= i <= j <= items.len(),
    ensures
        wf_cat(pages, items, lvl, j, w),
    decreases j - i,
{
    if i < j {
        lemma_wf_cat_suffix(pages, items, lvl, i + 1, j, w);
    }
}

/// How many parent nodes one level of `k` children packs into: groups of
/// up to three.
pub open spec fn level_nodes(k: nat) -> nat {
    ((k + 2) / 3) as nat
}

/// The pages the internal levels above `k` level roots take, the final
/// single root included.
pub open spec fn upper_pages(k: nat) -> nat
    decreases k,
{
    if k <= 1 {
        0
    } else {
        level_nodes(k) + upper_pages(level_nodes(k))
    }
}

/// The exact number of pages a freshly built tree of `n` entries takes:
/// one leaf per entry plus its internal levels.
pub open spec fn tree_pages(n: nat) -> nat {
    if n == 0 {
        0
    } else {
        n + upper_pages(n)
    }
}

/// Writes one node into a freshly allocated page. Nothing below the old
/// watermark moves; the new page reads back as the node handed in.
fn write_node(store: &mut PageStore, level: u64, chunk: &Vec<Entry>) -> (r: Result<u64, Error>)
    requires
        old(store).wf(),
        chunk@.len() >= 1,
        chunk@.len() <= u32::MAX,
        crate::codec::pairs_fit(kv_view(chunk@)),
        NODE_HEADER + enc_pairs(kv_view(chunk@)).len() <= old(store).page_size(),
    ensures
        final(store).wf(),
        final(store).page_size() == old(store).page_size(),
        final(store).num_pages() == old(store).num_pages(),
        final(store).header() == old(store).header(),
        final(store).next_page() >= old(store).next_page(),
        forall|q: int|
            0 <= q < old(store).next_page() ==> final(store).pages()[q] == old(store).pages()[q],
        match r {
            Ok(p) => {
                &&& p == old(store).next_page()
                &&& final(store).next_page() == p + 1
                &&& 1 <= p <= final(store).num_pages()
                &&& dec_node(final(store).pages()[p as int]) == Some((level, kv_view(chunk@)))
            },
            Err(e) => e == Error::OutOfSpace && final(store).next_page() == old(
                store,
            ).next_page() && old(store).next_page() == old(store).num_pages() + 1,
        },
{
    let p = match store.allocate() {
        Ok(p) => p,
        Err(e) => {
            return Err(e);
        },
    };
    let img = encode_node(level, chunk, store.page_size_bytes());
    store.write_page(p, &img);
    Ok(p)
}

/// The byte length of the encoding of a singleton pair list.
proof fn lemma_enc_pairs_single(e: (Seq<u8>, Seq<u8>))
    ensures
        enc_pairs(seq![e]).len() == 8 + e.0.len() + e.1.len(),
    decreases 0int,
{
    let s = seq![e];
    assert(s.first() == e);
    assert(s.drop_first() =~= Seq::<(Seq<u8>, Seq<u8>)>::empty());
    assert(enc_pairs(s.drop_first()) =~= Seq::<u8>::empty());
    lemma_enc_pair_len(e);
}

/// Builds a fresh copy-on-write tree holding exactly `entries`, bottom-up:
/// one leaf per entry, then internal levels of up to three children each,
/// until a single root remains. Only pages at or above the watermark the
/// store started with are written; on `OutOfSpace` the watermark is
/// restored and the store is as before.
#[verifier::rlimit(80)]
pub fn build_tree(store: &mut PageStore, entries: &Vec<Entry>) -> (r: Result<(u64, u64), Error>)
    requires
        old(store).wf(),
        entries@.len() >= 1,
        entries_fit(kv_view(entries@), old(store).page_size() as int),
    ensures
        final(store).wf(),
        final(store).page_size() == old(store).page_size(),
        final(store).num_pages() == old(store).num_pages(),
        final(store).header() == old(store).header(),
        final(store).next_page() >= old(store).next_page(),
        forall|q: int|
            0 <= q < old(store).next_page() ==> final(store).pages()[q] == old(store).pages()[q],
        match r {
            Ok((root, lvl)) => {
                &&& wf_below(
                    final(store).pages(),
                    root as int,
                    lvl as nat,
                    final(store).next_page() as int,
                )
                &&& subtree(final(store).pages(), root as int, lvl as nat) == kv_view(entries@)
                &&& final(store).next_page() == old(store).next_page() + tree_pages(
                    entries@.len() as nat,
                )
            },
            Err(e) => {
                &&& e == Error::OutOfSpace
                &&& final(store).next_page() == old(store).next_page()
                &&& old(store).next_page() + tree_pages(entries@.len() as nat) > old(
                    store,
                ).num_pages() + 1
            },
        },
{
    let ghost ev = kv_view(entries@);
    let ghost ps_int = old(store).page_size() as int;
    let w0 = store.watermark();
    proof {
        lemma_auto_spec_u64_to_from_le_bytes();
        store.lemma_wf_bounds();
    }
    // Leaf level: one entry per leaf page.
    let mut items: Vec<Entry> = Vec::new();
    let mut i: usize = 0;
    proof {
        assert(kv_view(items@) =~= Seq::<(Seq<u8>, Seq<u8>)>::empty());
        assert(subtree_cat(store.pages(), kv_view(items@), 0, 0) =~= ev.subrange(0, 0));
    }
    while i < entries.len()
        invariant
            store.wf(),
            store.page_size() == old(store).page_size(),
            store.num_pages() == old(store).num_pages(),
            store.header() == old(store).header(),
            store.next_page() >= old(store).next_page(),
            forall|q: int|
                0 <= q < old(store).next_page() ==> store.pages()[q] == old(store).pages()[q],
            w0 == old(store).next_page(),
            1 <= w0,
            ps_int == store.page_size(),
            i <= entries@.len(),
            items@.len() == i,
            store.next_page() == old(store).next_page() + i,
            ev == kv_view(entries@),
            entries_fit(ev, ps_int),
            wf_cat(store.pages(), kv_view(items@), 0, 0, store.next_page() as int),
            subtree_cat(store.pages(), kv_view(items@), 0, 0) == ev.subrange(0, i as int),
            forall|t: int|
                0 <= t < items@.len() ==> #[trigger] kv_view(items@)[t].0 == ev[t].0,
        decreases entries@.len() - i,
    {
        let mut chunk: Vec<Entry> = Vec::new();
        chunk.push(
            Entry {
                key: copy_bytes(entries[i].key.as_slice()),
                value: copy_bytes(entries[i].value.as_slice()),
            },
        );
        proof {
            store.lemma_wf_bounds();
            assert(kv_view(chunk@) =~= seq![ev[i as int]]);
            lemma_enc_pairs_single(ev[i as int]);
            assert(entry_fits(ev[i as int], ps_int));
            assert(pair_fits(ev[i as int]));
            assert(crate::codec::pairs_fit(kv_view(chunk@)));
        }
        let ghost pages_before = store.pages();
        let ghost iv_before = kv_view(items@);
        let ghost w_before = store.next_page() as int;
        let p = match write_node(store, 0, &chunk) {
            Ok(p) => p,
            Err(e) => {
                proof {
                    let n0g = entries@.len() as nat;
                    assert(tree_pages(n0g) >= n0g);
                    assert(store.next_page() == store.num_pages() + 1);
                    assert(w0 + tree_pages(n0g) > store.num_pages() + 1);
                }
                store.rewind(w0);
                return Err(e);
            },
        };
        let sep = copy_bytes(entries[i].key.as_slice());
        let cb = u64_to_le_bytes(p);
        let ghost item_v = (sep@, cb@);
        items.push(Entry { key: sep, value: cb });
        proof {
            lemma_auto_spec_u64_to_from_le_bytes();
            store.lemma_wf_bounds();
            lemma_cat_frame(pages_before, store.pages(), iv_before, 0, 0, w_before);
            lemma_wf_cat_mono(store.pages(), iv_before, 0, 0, w_before, store.next_page() as int);
            assert(child_num(item_v) == p);
            assert(page_at(store.pages(), p as int) == store.pages()[p as int]);
            assert(subtree(store.pages(), p as int, 0) == kv_view(chunk@));
            assert(wf_below(store.pages(), p as int, 0, store.next_page() as int));
            lemma_cat_push(store.pages(), iv_before, item_v, 0, 0);
            lemma_wf_cat_push(store.pages(), iv_before, item_v, 0, 0, store.next_page() as int);
            assert(kv_view(items@) =~= iv_before.push(item_v));
            assert(subtree_cat(store.pages(), kv_view(items@), 0, 0) =~= ev.subrange(0, i + 1)) by {
                assert(subtree_cat(store.pages(), kv_view(items@), 0, 0) == ev.subrange(
                    0,
                    i as int,
                ) + seq![ev[i as int]]);
                assert(ev.subrange(0, i + 1) =~= ev.subrange(0, i as int) + seq![ev[i as int]]);
            }
        }
        i = i + 1;
    }
    proof {
        assert(ev.subrange(0, ev.len() as int) =~= ev);
        assert(tree_pages(entries@.len() as nat) == entries@.len() + upper_pages(
            entries@.len() as nat,
        ));
    }
    // Internal levels: up to three children per node, until one root.
    let n0 = items.len();
    let mut lvl: u64 = 0;
    while items.len() > 1
        invariant
            store.wf(),
            store.page_size() == old(store).page_size(),
            store.num_pages() == old(store).num_pages(),
            store.header() == old(store).header(),
            store.next_page() >= old(store).next_page(),
            forall|q: int|
                0 <= q < old(store).next_page() ==> store.pages()[q] == old(store).pages()[q],
            w0 == old(store).next_page(),
            1 <= w0,
            ps_int == store.page_size(),
            items@.len() >= 1,
            lvl as int + items@.len() <= n0 as int + 1,
            store.next_page() as int + upper_pages(items@.len() as nat) == w0 + tree_pages(
                entries@.len() as nat,
            ),
            ev == kv_view(entries@),
            wf_cat(store.pages(), kv_view(items@), lvl as nat, 0, store.next_page() as int),
            subtree_cat(store.pages(), kv_view(items@), lvl as nat, 0) == ev,
            forall|t: int|
                0 <= t < items@.len() ==> NODE_HEADER + 3 * (16 + #[trigger] kv_view(
                    items@,
                )[t].0.len()) <= ps_int,
        decreases items@.len(),
    {
        let ghost iv = kv_view(items@);
        let ghost l_nat = lvl as nat;
        let ghost next0 = store.next_page() as int;
        let mut parents: Vec<Entry> = Vec::new();
        let mut j: usize = 0;
        proof {
            assert(kv_view(parents@) =~= Seq::<(Seq<u8>, Seq<u8>)>::empty());
            assert(subtree_cat(store.pages(), kv_view(parents@), (lvl + 1) as nat, 0) =~= Seq::<
                (Seq<u8>, Seq<u8>),
            >::empty());
        }
        while j < items.len()
            invariant
                store.wf(),
                store.page_size() == old(store).page_size(),
                store.num_pages() == old(store).num_pages(),
                store.header() == old(store).header(),
                store.next_page() >= old(store).next_page(),
                forall|q: int|
                    0 <= q < old(store).next_page() ==> store.pages()[q] == old(store).pages()[q],
                w0 == old(store).next_page(),
                1 <= w0,
                ps_int == store.page_size(),
                iv == kv_view(items@),
                l_nat == lvl as nat,
                j <= items@.len(),
                items@.len() >= 2,
                lvl as int + items@.len() <= n0 as int + 1,
                n0 <= usize::MAX,
                wf_cat(store.pages(), iv, l_nat, 0, store.next_page() as int),
                wf_cat(
                    store.pages(),
                    kv_view(parents@),
                    (l_nat + 1) as nat,
                    0,
                    store.next_page() as int,
                ),
                subtree_cat(store.pages(), kv_view(parents@), (l_nat + 1) as nat, 0)
                    + subtree_cat(store.pages(), iv, l_nat, j as int) == subtree_cat(
                    store.pages(),
                    iv,
                    l_nat,
                    0,
                ),
                3 * parents@.len() <= j + 2,
                j <= 3 * parents@.len(),
                j < items@.len() ==> 3 * parents@.len() == j,
                j > 0 ==> parents@.len() >= 1,
                store.next_page() == next0 + parents@.len(),
                next0 + upper_pages(iv.len() as nat) == w0 + tree_pages(entries@.len() as nat),
                ev == kv_view(entries@),
                subtree_cat(store.pages(), iv, l_nat, 0) == ev,
                forall|t: int|
                    0 <= t < iv.len() ==> NODE_HEADER + 3 * (16 + #[trigger] iv[t].0.len())
                        <= ps_int,
                forall|t: int|
                    0 <= t < parents@.len() ==> NODE_HEADER + 3 * (16 + #[trigger] kv_view(
                        parents@,
                    )[t].0.len()) <= ps_int,
            decreases items@.len() - j,
        {
            let ghost j0 = j as int;
            let sep = copy_bytes(items[j].key.as_slice());
            let mut chunk: Vec<Entry> = Vec::new();
            let mut c: usize = 0;
            proof {
                assert(kv_view(chunk@) =~= Seq::<(Seq<u8>, Seq<u8>)>::empty());
                assert(subtree_cat(store.pages(), kv_view(chunk@), l_nat, 0) =~= Seq::<
                    (Seq<u8>, Seq<u8>),
                >::empty());
                assert(enc_pairs(kv_view(chunk@)).len() == 0);
            }
            while c < 3 && j < items.len()
                invariant
                    store.wf(),
                    ps_int == store.page_size(),
                    iv == kv_view(items@),
                    c <= 3,
                    j as int == j0 + c,
                    j0 >= 0,
                    j <= items@.len(),
                    chunk@.len() == c,
                    wf_cat(store.pages(), iv, l_nat, 0, store.next_page() as int),
                    wf_cat(store.pages(), kv_view(chunk@), l_nat, 0, store.next_page() as int),
                    subtree_cat(store.pages(), kv_view(chunk@), l_nat, 0) + subtree_cat(
                        store.pages(),
                        iv,
                        l_nat,
                        j as int,
                    ) == subtree_cat(store.pages(), iv, l_nat, j0),
                    crate::codec::pairs_fit(kv_view(chunk@)),
                    3 * enc_pairs(kv_view(chunk@)).len() <= c * (ps_int - NODE_HEADER),
                    forall|t: int|
                        0 <= t < iv.len() ==> NODE_HEADER + 3 * (16 + #[trigger] iv[t].0.len())
                            <= ps_int,
                decreases items@.len() - j,
            {
                proof {
                    lemma_wf_cat_index(
                        store.pages(),
                        iv,
                        l_nat,
                        0,
                        j as int,
                        store.next_page() as int,
                    );
                }
                let ck = copy_bytes(items[j].key.as_slice());
                let cv = copy_bytes(items[j].value.as_slice());
                let ghost item_v = (ck@, cv@);
                let ghost chunk_before = kv_view(chunk@);
                let ghost enc_before = enc_pairs(chunk_before).len() as int;
                chunk.push(Entry { key: ck, value: cv });
                proof {
                    store.lemma_wf_bounds();
                    assert(item_v == iv[j as int]);
                    assert(NODE_HEADER + 3 * (16 + iv[j as int].0.len()) <= ps_int);
                    assert(pair_fits(item_v));
                    assert(kv_view(chunk@) =~= chunk_before.push(item_v));
                    lemma_cat_push(store.pages(), chunk_before, item_v, l_nat, 0);
                    lemma_wf_cat_push(
                        store.pages(),
                        chunk_before,
                        item_v,
                        l_nat,
                        0,
                        store.next_page() as int,
                    );
                    assert(subtree_cat(store.pages(), iv, l_nat, j as int) == subtree(
                        store.pages(),
                        child_num(iv[j as int]),
                        l_nat,
                    ) + subtree_cat(store.pages(), iv, l_nat, j + 1));
                    lemma_enc_pairs_push(chunk_before, item_v);
                    lemma_enc_pair_len(item_v);
                    assert(3 * (16 + item_v.0.len()) <= ps_int - NODE_HEADER);
                    assert(3 * enc_pairs(kv_view(chunk@)).len() <= (c + 1) * (ps_int
                        - NODE_HEADER)) by (nonlinear_arith)
                        requires
                            enc_pairs(kv_view(chunk@)).len() == enc_before + 16 + item_v.0.len(),
                            3 * enc_before <= c * (ps_int - NODE_HEADER),
                            3 * (16 + item_v.0.len()) <= ps_int - NODE_HEADER,
                    ;
                }
                c = c + 1;
                j = j + 1;
            }
            proof {
                store.lemma_wf_bounds();
                assert(c >= 1);
                assert(3 * enc_pairs(kv_view(chunk@)).len() <= 3 * (ps_int - NODE_HEADER))
                    by (nonlinear_arith)
                    requires
                        3 * enc_pairs(kv_view(chunk@)).len() <= c * (ps_int - NODE_HEADER),
                        c <= 3,
                        ps_int - NODE_HEADER >= 0,
                ;
            }
            let ghost pages_before = store.pages();
            let ghost w_before = store.next_page() as int;
            let ghost parents_before = kv_view(parents@);
            let ghost chunk_v = kv_view(chunk@);
            let p = match write_node(store, lvl + 1, &chunk) {
                Ok(p) => p,
                Err(e) => {
                    proof {
                        let k = iv.len() as nat;
                        let pl = parents@.len() as int;
                        assert(3 * pl == j0);
                        assert(3 * (pl + 1) <= k + 2);
                        assert(pl + 1 <= level_nodes(k)) by (nonlinear_arith)
                            requires
                                3 * (pl + 1) <= k + 2,
                                level_nodes(k) == ((k + 2) / 3) as nat,
                                0 <= pl,
                        ;
                        assert(upper_pages(k) == level_nodes(k) + upper_pages(level_nodes(k)));
                        assert(store.next_page() == store.num_pages() + 1);
                        assert(w0 + tree_pages(entries@.len() as nat) > store.num_pages() + 1);
                    }
                    store.rewind(w0);
                    return Err(e);
                },
            };
            let cb = u64_to_le_bytes(p);
            let ghost item_v = (sep@, cb@);
            parents.push(Entry { key: sep, value: cb });
            proof {
                lemma_auto_spec_u64_to_from_le_bytes();
                store.lemma_wf_bounds();
                lemma_cat_frame(pages_before, store.pages(), iv, l_nat, 0, w_before);
                lemma_wf_cat_mono(store.pages(), iv, l_nat, 0, w_before, store.next_page() as int);
                lemma_wf_cat_suffix(pages_before, iv, l_nat, 0, j as int, w_before);
                lemma_cat_frame(pages_before, store.pages(), iv, l_nat, j as int, w_before);
                lemma_cat_frame(
                    pages_before,
                    store.pages(),
                    parents_before,
                    (l_nat + 1) as nat,
                    0,
                    w_before,
                );
                lemma_wf_cat_mono(
                    store.pages(),
                    parents_before,
                    (l_nat + 1) as nat,
                    0,
                    w_before,
                    store.next_page() as int,
                );
                lemma_cat_frame(pages_before, store.pages(), chunk_v, l_nat, 0, w_before);
                lemma_wf_cat_mono(
                    store.pages(),
                    chunk_v,
                    l_nat,
                    0,
                    w_before,
                    store.next_page() as int,
                );
                assert(child_num(item_v) == p);
                assert(page_at(store.pages(), p as int) == store.pages()[p as int]);
                assert(subtree(store.pages(), p as int, (l_nat + 1) as nat) == subtree_cat(
                    store.pages(),
                    chunk_v,
                    l_nat,
                    0,
                ));
                assert(wf_below(store.pages(), p as int, (l_nat + 1) as nat, store.next_page() as int));
                lemma_cat_push(store.pages(), parents_before, item_v, (l_nat + 1) as nat, 0);
                lemma_wf_cat_push(
                    store.pages(),
                    parents_before,
                    item_v,
                    (l_nat + 1) as nat,
                    0,
                    store.next_page() as int,
                );
                assert(kv_view(parents@) =~= parents_before.push(item_v));
                assert(item_v.0 == iv[j0].0);
                assert(NODE_HEADER + 3 * (16 + iv[j0].0.len()) <= ps_int);
                assert forall|t: int|
                    0 <= t < kv_view(parents@).len() implies NODE_HEADER + 3 * (16
                    + #[trigger] kv_view(parents@)[t].0.len()) <= ps_int by {
                    if t < parents_before.len() {
                        assert(parents_before.push(item_v)[t] == parents_before[t]);
                        assert(kv_view(parents@)[t] == parents_before[t]);
                        assert(NODE_HEADER + 3 * (16 + parents_before[t].0.len()) <= ps_int);
                    } else {
                        assert(parents_before.push(item_v)[t] == item_v);
                        assert(kv_view(parents@)[t] == item_v);
                    }
                }
            }
        }
        proof {
            assert(subtree_cat(store.pages(), iv, l_nat, j as int) =~= Seq::<
                (Seq<u8>, Seq<u8>),
            >::empty());
            assert(subtree_cat(store.pages(), kv_view(parents@), (l_nat + 1) as nat, 0) + Seq::<
                (Seq<u8>, Seq<u8>),
            >::empty() =~= subtree_cat(store.pages(), kv_view(parents@), (l_nat + 1) as nat, 0));
            assert(parents@.len() < items@.len());
            let k = iv.len() as nat;
            let pl = parents@.len() as int;
            assert(k <= 3 * pl && 3 * pl <= k + 2);
            assert(pl == level_nodes(k)) by (nonlinear_arith)
                requires
                    k <= 3 * pl <= k + 2,
                    level_nodes(k) == ((k + 2) / 3) as nat,
                    0 <= pl,
            ;
            assert(upper_pages(k) == level_nodes(k) + upper_pages(level_nodes(k)));
            assert(store.next_page() as int + upper_pages(parents@.len() as nat) == w0
                + tree_pages(entries@.len() as nat));
        }
        items = parents;
        lvl = lvl + 1;
    }
    let root = u64_from_le_bytes(items[0].value.as_slice());
    proof {
        let iv = kv_view(items@);
        lemma_wf_cat_index(store.pages(), iv, lvl as nat, 0, 0, store.next_page() as int);
        assert(iv[0].1 == items@[0].value@);
        assert(root as int == child_num(iv[0]));
        assert(subtree_cat(store.pages(), iv, lvl as nat, 0) == subtree(
            store.pages(),
            root as int,
            lvl as nat,
        ) + subtree_cat(store.pages(), iv, lvl as nat, 1));
        assert(subtree_cat(store.pages(), iv, lvl as nat, 1) =~= Seq::<(Seq<u8>, Seq<u8>)>::empty());
        assert(subtree(store.pages(), root as int, lvl as nat) + Seq::<
            (Seq<u8>, Seq<u8>),
        >::empty() =~= subtree(store.pages(), root as int, lvl as nat));
        assert(upper_pages(items@.len() as nat) == 0);
    }
    Ok((root, lvl))
}

} // verus!
