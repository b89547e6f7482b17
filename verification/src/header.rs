use vstd::bytes::{
    lemma_auto_spec_u64_to_from_le_bytes, spec_u64_from_le_bytes, spec_u64_to_le_bytes,
    u64_from_le_bytes, u64_to_le_bytes,
};
use vstd::prelude::*;
use vstd::slice::slice_subrange;

use crate::pages::{PageStore, HEADER_BYTES};

verus! {

/// The on-disk format tag every superblock slot starts with.
pub const MAGIC: u64 = 0x7265_6462_6b76_3031;

/// Each slot occupies 64 bytes; two slots fill the header region.
pub const SLOT_BYTES: usize = 64;

/// Bytes covered by the checksum: magic, valid byte and the five fields.
pub const SLOT_PAYLOAD: usize = 49;

pub const OFF_VALID: usize = 8;

pub const OFF_TXN: usize = 9;

pub const OFF_ROOT: usize = 17;

pub const OFF_LVL: usize = 25;

pub const OFF_PS: usize = 33;

pub const OFF_NEXT: usize = 41;

pub const OFF_SUM: usize = 49;

/// The root field's value for "no master tree yet".
pub const NO_ROOT: u64 = 0xffff_ffff_ffff_ffff;

/// The bytes of slot `s` of a header image.
pub open spec fn slot_bytes(h: Seq<u8>, s: int) -> Seq<u8> {
    h.subrange(s * 64, s * 64 + 64)
}

/// The sum of a byte string, the slot checksum's content.
pub open spec fn byte_sum(b: Seq<u8>) -> int
    decreases b.len(),
{
    if b.len() == 0 {
        0
    } else {
        byte_sum(b.drop_last()) + b.last()
    }
}

/// A slot is trusted only when its magic matches, its valid byte is set,
/// and its checksum equals the payload sum. The valid byte is written last
/// by `write_slot`, so a torn slot write leaves the slot untrusted.
pub open spec fn slot_valid(h: Seq<u8>, s: int) -> bool {
    &&& h.len() == HEADER_BYTES
    &&& spec_u64_from_le_bytes(slot_bytes(h, s).subrange(0, 8)) == MAGIC
    &&& slot_bytes(h, s)[OFF_VALID as int] == 1u8
    &&& spec_u64_from_le_bytes(
        slot_bytes(h, s).subrange(OFF_SUM as int, OFF_SUM + 8),
    ) as int == byte_sum(slot_bytes(h, s).subrange(0, OFF_SUM as int))
}

pub open spec fn slot_txn(h: Seq<u8>, s: int) -> u64 {
    spec_u64_from_le_bytes(slot_bytes(h, s).subrange(OFF_TXN as int, OFF_TXN + 8))
}

pub open spec fn slot_root(h: Seq<u8>, s: int) -> u64 {
    spec_u64_from_le_bytes(slot_bytes(h, s).subrange(OFF_ROOT as int, OFF_ROOT + 8))
}

pub open spec fn slot_lvl(h: Seq<u8>, s: int) -> u64 {
    spec_u64_from_le_bytes(slot_bytes(h, s).subrange(OFF_LVL as int, OFF_LVL + 8))
}

pub open spec fn slot_page_size(h: Seq<u8>, s: int) -> u64 {
    spec_u64_from_le_bytes(slot_bytes(h, s).subrange(OFF_PS as int, OFF_PS + 8))
}

pub open spec fn slot_next(h: Seq<u8>, s: int) -> u64 {
    spec_u64_from_le_bytes(slot_bytes(h, s).subrange(OFF_NEXT as int, OFF_NEXT + 8))
}

/// Which slot a fresh open trusts: the valid slot with the higher
/// transaction id; `None` when neither slot is valid.
pub open spec fn active_slot(h: Seq<u8>) -> Option<int> {
    if slot_valid(h, 0) && slot_valid(h, 1) {
        if slot_txn(h, 0) >= slot_txn(h, 1) {
            Some(0)
        } else {
            Some(1)
        }
    } else if slot_valid(h, 0) {
        Some(0)
    } else if slot_valid(h, 1) {
        Some(1)
    } else {
        None
    }
}

/// Commit atomicity, first half: while the inactive slot's valid byte is
/// cleared, writes confined to that slot — the only bytes a commit touches
/// in the header before its final flip — leave the trusted slot and every
/// field read from it exactly as they were.
pub proof fn lemma_publish_keeps_active(h: Seq<u8>, h2: Seq<u8>, s: int, a: int)
    requires
        h.len() == HEADER_BYTES,
        h2.len() == HEADER_BYTES,
        0 <= s <= 1,
        a == 1 - s,
        active_slot(h) == Some(a),
        forall|i: int| 0 <= i < h.len() && !(s * 64 <= i < s * 64 + 64) ==> h2[i] == h[i],
        slot_bytes(h2, s)[OFF_VALID as int] != 1u8,
    ensures
        active_slot(h2) == Some(a),
        slot_txn(h2, a) == slot_txn(h, a),
        slot_root(h2, a) == slot_root(h, a),
        slot_lvl(h2, a) == slot_lvl(h, a),
        slot_page_size(h2, a) == slot_page_size(h, a),
        slot_next(h2, a) == slot_next(h, a),
{
    assert(slot_bytes(h2, a) =~= slot_bytes(h, a)) by {
        assert forall|k: int| 0 <= k < 64 implies slot_bytes(h2, a)[k] == slot_bytes(h, a)[k] by {
            assert(slot_bytes(h2, a)[k] == h2[a * 64 + k]);
            assert(!(s * 64 <= a * 64 + k < s * 64 + 64));
        }
    }
    assert(!slot_valid(h2, s));
    assert(slot_valid(h2, a) == slot_valid(h, a));
}

/// Commit atomicity, second half: the single write that sets the fresh
/// slot's valid byte makes it the active slot, because it carries a higher
/// transaction id than the slot it replaces.
pub proof fn lemma_flip_activates(h: Seq<u8>, s: int)
    requires
        h.len() == HEADER_BYTES,
        0 <= s <= 1,
        slot_valid(h, s),
        slot_valid(h, 1 - s) ==> slot_txn(h, 1 - s) < slot_txn(h, s),
    ensures
        active_slot(h) == Some(s),
{
}

/// The fields read back from one slot.
pub struct SlotData {
    pub slot: u8,
    pub txn: u64,
    pub root: u64,
    pub lvl: u64,
    pub page_size: u64,
    pub next: u64,
}

/// Parses slot `s` of a header image.
fn parse_slot(header: &Vec<u8>, s: u8) -> (r: Option<SlotData>)
    requires
        header@.len() == HEADER_BYTES,
        s <= 1,
    ensures
        match r {
            Some(d) => {
                &&& slot_valid(header@, s as int)
                &&& d.slot == s
                &&& d.txn == slot_txn(header@, s as int)
                &&& d.root == slot_root(header@, s as int)
                &&& d.lvl == slot_lvl(header@, s as int)
                &&& d.page_size == slot_page_size(header@, s as int)
                &&& d.next == slot_next(header@, s as int)
            },
            None => !slot_valid(header@, s as int),
        },
{
    let base: usize = (s as usize) * 64;
    let sl = slice_subrange(header.as_slice(), base, base + 64);
    proof {
        assert(sl@ == slot_bytes(header@, s as int));
    }
    let magic = u64_from_le_bytes(slice_subrange(sl, 0, 8));
    proof {
        assert(sl@.subrange(0, 8) == slot_bytes(header@, s as int).subrange(0, 8));
    }
    if magic != MAGIC {
        return None;
    }
    if sl[OFF_VALID] != 1 {
        return None;
    }
    let stored_sum = u64_from_le_bytes(slice_subrange(sl, OFF_SUM, OFF_SUM + 8));
    let mut sum: u64 = 0;
    let mut j: usize = 0;
    while j < SLOT_PAYLOAD
        invariant
            j <= SLOT_PAYLOAD,
            sl@.len() == 64,
            sum == byte_sum(sl@.subrange(0, j as int)),
            sum <= j * 255,
        decreases SLOT_PAYLOAD - j,
    {
        proof {
            assert(sl@.subrange(0, j + 1).drop_last() =~= sl@.subrange(0, j as int));
            assert(sl@.subrange(0, j + 1).last() == sl@[j as int]);
        }
        sum = sum + sl[j] as u64;
        j = j + 1;
    }
    if stored_sum != sum {
        return None;
    }
    let txn = u64_from_le_bytes(slice_subrange(sl, OFF_TXN, OFF_TXN + 8));
    let root = u64_from_le_bytes(slice_subrange(sl, OFF_ROOT, OFF_ROOT + 8));
    let lvl = u64_from_le_bytes(slice_subrange(sl, OFF_LVL, OFF_LVL + 8));
    let page_size = u64_from_le_bytes(slice_subrange(sl, OFF_PS, OFF_PS + 8));
    let next = u64_from_le_bytes(slice_subrange(sl, OFF_NEXT, OFF_NEXT + 8));
    Some(SlotData { slot: s, txn, root, lvl, page_size, next })
}

/// Reads the header and returns the currently trusted slot, as
/// `active_slot` chooses it.
pub fn read_active(store: &PageStore) -> (r: Option<SlotData>)
    requires
        store.wf(),
    ensures
        match r {
            Some(d) => {
                &&& active_slot(store.header()) == Some(d.slot as int)
                &&& d.txn == slot_txn(store.header(), d.slot as int)
                &&& d.root == slot_root(store.header(), d.slot as int)
                &&& d.lvl == slot_lvl(store.header(), d.slot as int)
                &&& d.page_size == slot_page_size(store.header(), d.slot as int)
                &&& d.next == slot_next(store.header(), d.slot as int)
            },
            None => active_slot(store.header()) is None,
        },
{
    proof {
        store.lemma_wf_bounds();
    }
    let header = store.read_header();
    let s0 = parse_slot(&header, 0);
    let s1 = parse_slot(&header, 1);
    match (s0, s1) {
        (Some(d0), Some(d1)) => {
            if d0.txn >= d1.txn {
                Some(d0)
            } else {
                Some(d1)
            }
        },
        (Some(d0), None) => Some(d0),
        (None, Some(d1)) => Some(d1),
        (None, None) => None,
    }
}

/// Whether the whole header region is still zero: the mark of a fresh,
/// never-initialized region.
pub fn header_is_zero(store: &PageStore) -> (r: bool)
    requires
        store.wf(),
    ensures
        r == (forall|i: int| 0 <= i < store.header().len() ==> store.header()[i] == 0u8),
{
    proof {
        store.lemma_wf_bounds();
    }
    let header = store.read_header();
    let mut j: usize = 0;
    while j < HEADER_BYTES
        invariant
            j <= HEADER_BYTES,
            header@ == store.header(),
            header@.len() == HEADER_BYTES,
            forall|i: int| 0 <= i < j ==> header@[i] == 0u8,
        decreases HEADER_BYTES - j,
    {
        if header[j] != 0 {
            return false;
        }
        j = j + 1;
    }
    true
}

/// Writes slot `s` afresh and validates it last: the valid byte is cleared
/// first, every other byte of the slot is filled in, and only then is the
/// valid byte set — the commit protocol's single atomic flip.
pub fn write_slot(store: &mut PageStore, s: u8, txn: u64, root: u64, lvl: u64, ps_field: u64, next: u64)
    requires
        old(store).wf(),
        s <= 1,
    ensures
        final(store).wf(),
        final(store).page_size() == old(store).page_size(),
        final(store).num_pages() == old(store).num_pages(),
        final(store).next_page() == old(store).next_page(),
        final(store).region().len() == old(store).region().len(),
        forall|q: int|
            1 <= q <= final(store).num_pages() ==> final(store).pages()[q] == old(
                store,
            ).pages()[q],
        slot_bytes(final(store).header(), 1 - s as int) == slot_bytes(
            old(store).header(),
            1 - s as int,
        ),
        slot_valid(final(store).header(), s as int),
        slot_txn(final(store).header(), s as int) == txn,
        slot_root(final(store).header(), s as int) == root,
        slot_lvl(final(store).header(), s as int) == lvl,
        slot_page_size(final(store).header(), s as int) == ps_field,
        slot_next(final(store).header(), s as int) == next,
{
    proof {
        lemma_auto_spec_u64_to_from_le_bytes();
        old(store).lemma_wf_bounds();
    }
    // Build the 64-byte slot image: payload, checksum, zero padding.
    let mut img: Vec<u8> = u64_to_le_bytes(MAGIC);
    img.push(1u8);
    let mut f: Vec<u8> = u64_to_le_bytes(txn);
    img.append(&mut f);
    let mut f: Vec<u8> = u64_to_le_bytes(root);
    img.append(&mut f);
    let mut f: Vec<u8> = u64_to_le_bytes(lvl);
    img.append(&mut f);
    let mut f: Vec<u8> = u64_to_le_bytes(ps_field);
    img.append(&mut f);
    let mut f: Vec<u8> = u64_to_le_bytes(next);
    img.append(&mut f);
    proof {
        assert(img@.len() == SLOT_PAYLOAD);
        assert(img@.subrange(0, 8) =~= spec_u64_to_le_bytes(MAGIC));
        assert(img@[OFF_VALID as int] == 1u8);
        assert(img@.subrange(OFF_TXN as int, OFF_TXN + 8) =~= spec_u64_to_le_bytes(txn));
        assert(img@.subrange(OFF_ROOT as int, OFF_ROOT + 8) =~= spec_u64_to_le_bytes(root));
        assert(img@.subrange(OFF_LVL as int, OFF_LVL + 8) =~= spec_u64_to_le_bytes(lvl));
        assert(img@.subrange(OFF_PS as int, OFF_PS + 8) =~= spec_u64_to_le_bytes(ps_field));
        assert(img@.subrange(OFF_NEXT as int, OFF_NEXT + 8) =~= spec_u64_to_le_bytes(next));
    }
    let ghost payload = img@;
    let mut sum: u64 = 0;
    let mut j: usize = 0;
    while j < SLOT_PAYLOAD
        invariant
            j <= SLOT_PAYLOAD,
            img@ == payload,
            payload.len() == SLOT_PAYLOAD,
            sum == byte_sum(img@.subrange(0, j as int)),
            sum <= j * 255,
        decreases SLOT_PAYLOAD - j,
    {
        proof {
            assert(img@.subrange(0, j + 1).drop_last() =~= img@.subrange(0, j as int));
            assert(img@.subrange(0, j + 1).last() == img@[j as int]);
        }
        sum = sum + img[j] as u64;
        j = j + 1;
    }
    let mut f: Vec<u8> = u64_to_le_bytes(sum);
    img.append(&mut f);
    while img.len() < SLOT_BYTES
        invariant
            img@.len() >= SLOT_PAYLOAD + 8,
            img@.len() <= SLOT_BYTES,
            img@.subrange(0, (SLOT_PAYLOAD + 8) as int) == payload + spec_u64_to_le_bytes(sum),
        decreases SLOT_BYTES - img@.len(),
    {
        let ghost before = img@;
        img.push(0u8);
        proof {
            assert(img@.subrange(0, (SLOT_PAYLOAD + 8) as int) =~= before.subrange(
                0,
                (SLOT_PAYLOAD + 8) as int,
            ));
        }
    }
    proof {
        assert forall|k: int| 0 <= k < SLOT_PAYLOAD + 8 implies #[trigger] img@[k] == (payload
            + spec_u64_to_le_bytes(sum))[k] by {
            assert(img@.subrange(0, (SLOT_PAYLOAD + 8) as int)[k] == img@[k]);
        }
        assert(img@.subrange(0, SLOT_PAYLOAD as int) =~= payload);
        assert(img@.subrange(OFF_SUM as int, OFF_SUM + 8) =~= spec_u64_to_le_bytes(sum));
        assert(payload.subrange(0, SLOT_PAYLOAD as int) =~= payload);
        assert(byte_sum(img@.subrange(0, OFF_SUM as int)) == sum);
    }
    let base: usize = (s as usize) * 64;
    let ghost h0 = store.header();
    // Clear the valid byte first: from here to the final write the slot
    // cannot be trusted by any open.
    store.write_header_byte(base + OFF_VALID, 0u8);
    // Fill in every byte except the valid byte.
    let mut j: usize = 0;
    while j < SLOT_BYTES
        invariant
            store.wf(),
            j <= SLOT_BYTES,
            base == s * 64,
            s <= 1,
            img@.len() == SLOT_BYTES,
            store.page_size() == old(store).page_size(),
            store.num_pages() == old(store).num_pages(),
            store.next_page() == old(store).next_page(),
            store.region().len() == old(store).region().len(),
            forall|q: int|
                1 <= q <= store.num_pages() ==> store.pages()[q] == old(store).pages()[q],
            store.header().len() == h0.len(),
            h0.len() == HEADER_BYTES,
            forall|i: int|
                0 <= i < HEADER_BYTES && !(base <= i < base + SLOT_BYTES) ==> store.header()[i]
                    == h0[i],
            forall|i: int| 0 <= i < j && i != OFF_VALID ==> store.header()[base + i] == img@[i],
            store.header()[base + OFF_VALID] == 0u8,
        decreases SLOT_BYTES - j,
    {
        if j != OFF_VALID {
            store.write_header_byte(base + j, img[j]);
        }
        j = j + 1;
    }
    // The single flip: set the valid byte, completing the slot.
    store.write_header_byte(base + OFF_VALID, 1u8);
    proof {
        let h = store.header();
        let sb = slot_bytes(h, s as int);
        assert forall|k: int| 0 <= k < 64 implies #[trigger] sb[k] == img@[k] by {
            assert(sb[k] == h[s as int * 64 + k]);
        }
        assert forall|k: int| 0 <= k < SLOT_PAYLOAD implies #[trigger] img@[k] == payload[k] by {
            assert((payload + spec_u64_to_le_bytes(sum))[k] == payload[k]);
        }
        assert forall|k: int| 0 <= k < 8 implies #[trigger] img@[OFF_SUM + k]
            == spec_u64_to_le_bytes(sum)[k] by {
            assert((payload + spec_u64_to_le_bytes(sum))[OFF_SUM + k] == spec_u64_to_le_bytes(
                sum,
            )[k]);
        }
        assert(slot_bytes(h, 1 - s as int) =~= slot_bytes(h0, 1 - s as int)) by {
            let o = 1 - s as int;
            assert forall|k: int| 0 <= k < 64 implies #[trigger] slot_bytes(h, o)[k] == slot_bytes(
                h0,
                o,
            )[k] by {
                assert(slot_bytes(h, o)[k] == h[o * 64 + k]);
                assert(!(base <= o * 64 + k < base + SLOT_BYTES));
            }
        }
        assert(sb.subrange(0, 8) =~= spec_u64_to_le_bytes(MAGIC)) by {
            assert forall|k: int| 0 <= k < 8 implies sb.subrange(0, 8)[k] == spec_u64_to_le_bytes(MAGIC)[k] by {
                assert(sb.subrange(0, 8)[k] == sb[(0) + k]);
            }
        }
        assert(sb.subrange(OFF_TXN as int, OFF_TXN + 8) =~= spec_u64_to_le_bytes(txn)) by {
            assert forall|k: int| 0 <= k < 8 implies sb.subrange(OFF_TXN as int, OFF_TXN + 8)[k] == spec_u64_to_le_bytes(txn)[k] by {
                assert(sb.subrange(OFF_TXN as int, OFF_TXN + 8)[k] == sb[(OFF_TXN as int) + k]);
            }
        }
        assert(sb.subrange(OFF_ROOT as int, OFF_ROOT + 8) =~= spec_u64_to_le_bytes(root)) by {
            assert forall|k: int| 0 <= k < 8 implies sb.subrange(OFF_ROOT as int, OFF_ROOT + 8)[k] == spec_u64_to_le_bytes(root)[k] by {
                assert(sb.subrange(OFF_ROOT as int, OFF_ROOT + 8)[k] == sb[(OFF_ROOT as int) + k]);
            }
        }
        assert(sb.subrange(OFF_LVL as int, OFF_LVL + 8) =~= spec_u64_to_le_bytes(lvl)) by {
            assert forall|k: int| 0 <= k < 8 implies sb.subrange(OFF_LVL as int, OFF_LVL + 8)[k] == spec_u64_to_le_bytes(lvl)[k] by {
                assert(sb.subrange(OFF_LVL as int, OFF_LVL + 8)[k] == sb[(OFF_LVL as int) + k]);
            }
        }
        assert(sb.subrange(OFF_PS as int, OFF_PS + 8) =~= spec_u64_to_le_bytes(ps_field)) by {
            assert forall|k: int| 0 <= k < 8 implies sb.subrange(OFF_PS as int, OFF_PS + 8)[k] == spec_u64_to_le_bytes(ps_field)[k] by {
                assert(sb.subrange(OFF_PS as int, OFF_PS + 8)[k] == sb[(OFF_PS as int) + k]);
            }
        }
        assert(sb.subrange(OFF_NEXT as int, OFF_NEXT + 8) =~= spec_u64_to_le_bytes(next)) by {
            assert forall|k: int| 0 <= k < 8 implies sb.subrange(OFF_NEXT as int, OFF_NEXT + 8)[k] == spec_u64_to_le_bytes(next)[k] by {
                assert(sb.subrange(OFF_NEXT as int, OFF_NEXT + 8)[k] == sb[(OFF_NEXT as int) + k]);
            }
        }
        assert(sb.subrange(OFF_SUM as int, OFF_SUM + 8) =~= spec_u64_to_le_bytes(sum)) by {
            assert forall|k: int| 0 <= k < 8 implies sb.subrange(OFF_SUM as int, OFF_SUM + 8)[k] == spec_u64_to_le_bytes(sum)[k] by {
                assert(sb.subrange(OFF_SUM as int, OFF_SUM + 8)[k] == sb[(OFF_SUM as int) + k]);
            }
        }
        assert(sb.subrange(0, OFF_SUM as int) =~= payload) by {
            assert forall|k: int| 0 <= k < OFF_SUM implies sb.subrange(0, OFF_SUM as int)[k]
                == payload[k] by {
                assert(sb.subrange(0, OFF_SUM as int)[k] == sb[k]);
            }
        }
        assert(sb[OFF_VALID as int] == 1u8);
        assert(slot_valid(h, s as int));
    }
}

} // verus!
