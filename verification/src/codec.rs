use vstd::bytes::{
    spec_u32_from_le_bytes, spec_u32_to_le_bytes, spec_u64_from_le_bytes, spec_u64_to_le_bytes,
    lemma_auto_spec_u32_to_from_le_bytes, lemma_auto_spec_u64_to_from_le_bytes, u32_from_le_bytes,
    u32_to_le_bytes, u64_from_le_bytes, u64_to_le_bytes,
};
use vstd::prelude::*;
use vstd::slice::{slice_subrange, slice_to_vec};

use crate::entries::{kv_view, Entry};

verus! {

/// Bytes of a node page that precede the first pair: an 8-byte level and a
/// 4-byte pair count.
pub const NODE_HEADER: usize = 12;

/// Both components of the pair are short enough for their 4-byte length
/// prefixes.
pub open spec fn pair_fits(p: (Seq<u8>, Seq<u8>)) -> bool {
    p.0.len() <= u32::MAX && p.1.len() <= u32::MAX
}

pub open spec fn pairs_fit(s: Seq<(Seq<u8>, Seq<u8>)>) -> bool {
    forall|i: int| 0 <= i < s.len() ==> pair_fits(#[trigger] s[i])
}

/// The encoding of one pair: two 4-byte little-endian lengths, then the key
/// bytes, then the value bytes.
pub open spec fn enc_pair(p: (Seq<u8>, Seq<u8>)) -> Seq<u8> {
    spec_u32_to_le_bytes(p.0.len() as u32) + spec_u32_to_le_bytes(p.1.len() as u32) + p.0 + p.1
}

/// The concatenated encoding of a pair list.
pub open spec fn enc_pairs(s: Seq<(Seq<u8>, Seq<u8>)>) -> Seq<u8>
    decreases s.len(),
{
    if s.len() == 0 {
        Seq::empty()
    } else {
        enc_pair(s.first()) + enc_pairs(s.drop_first())
    }
}

pub proof fn lemma_enc_pair_len(p: (Seq<u8>, Seq<u8>))
    ensures
        enc_pair(p).len() == 8 + p.0.len() + p.1.len(),
{
    lemma_auto_spec_u32_to_from_le_bytes();
}

/// Appending a pair appends its encoding.
pub proof fn lemma_enc_pairs_push(s: Seq<(Seq<u8>, Seq<u8>)>, p: (Seq<u8>, Seq<u8>))
    ensures
        enc_pairs(s.push(p)) == enc_pairs(s) + enc_pair(p),
    decreases s.len(),
{
    if s.len() == 0 {
        assert(s.push(p).drop_first() =~= s);
        assert(enc_pairs(s) + enc_pair(p) =~= enc_pair(p) + Seq::empty());
    } else {
        assert(s.push(p).first() == s.first());
        assert(s.push(p).drop_first() =~= s.drop_first().push(p));
        lemma_enc_pairs_push(s.drop_first(), p);
        assert(enc_pairs(s.push(p)) =~= enc_pairs(s) + enc_pair(p));
    }
}

/// Reads `n` encoded pairs of `b` starting at `off`; returns the pairs and
/// the offset just past them.
pub open spec fn dec_pairs(b: Seq<u8>, off: int, n: nat) -> Option<
    (Seq<(Seq<u8>, Seq<u8>)>, int),
>
    decreases n,
{
    if n == 0 {
        Some((Seq::empty(), off))
    } else if off < 0 || off + 8 > b.len() {
        None
    } else {
        let kl = spec_u32_from_le_bytes(b.subrange(off, off + 4)) as int;
        let vl = spec_u32_from_le_bytes(b.subrange(off + 4, off + 8)) as int;
        if off + 8 + kl + vl > b.len() {
            None
        } else {
            let k = b.subrange(off + 8, off + 8 + kl);
            let v = b.subrange(off + 8 + kl, off + 8 + kl + vl);
            match dec_pairs(b, off + 8 + kl + vl, (n - 1) as nat) {
                None => None,
                Some((rest, end)) => Some((seq![(k, v)] + rest, end)),
            }
        }
    }
}

/// Decoding reads back exactly what was encoded, wherever the encoding
/// sits inside a larger byte string.
pub proof fn lemma_dec_pairs_of_enc(b: Seq<u8>, off: int, s: Seq<(Seq<u8>, Seq<u8>)>)
    requires
        0 <= off,
        off + enc_pairs(s).len() <= b.len(),
        pairs_fit(s),
        b.subrange(off, off + enc_pairs(s).len() as int) == enc_pairs(s),
    ensures
        dec_pairs(b, off, s.len() as nat) == Some((s, off + enc_pairs(s).len() as int)),
    decreases s.len(),
{
    lemma_auto_spec_u32_to_from_le_bytes();
    if s.len() == 0 {
        assert(s =~= Seq::<(Seq<u8>, Seq<u8>)>::empty());
    } else {
        let p = s.first();
        let kl = p.0.len() as int;
        let vl = p.1.len() as int;
        let e = enc_pairs(s);
        let ep = enc_pair(p);
        lemma_enc_pair_len(p);
        let ka = spec_u32_to_le_bytes(kl as u32);
        let va = spec_u32_to_le_bytes(vl as u32);
        assert(ka.len() == 4 && va.len() == 4);
        assert(e == ep + enc_pairs(s.drop_first()));
        assert(ep == ka + va + p.0 + p.1);
        assert forall|i: int| 0 <= i < e.len() implies b[off + i] == #[trigger] e[i] by {
            assert(b.subrange(off, off + e.len() as int)[i] == b[off + i]);
        }
        assert forall|i: int| 0 <= i < ep.len() implies #[trigger] e[i] == ep[i] by {
            assert((ep + enc_pairs(s.drop_first()))[i] == ep[i]);
        }
        assert forall|i: int| 0 <= i < 4 implies #[trigger] ep[i] == ka[i] by {
            assert((((ka + va) + p.0) + p.1)[i] == ((ka + va) + p.0)[i]);
            assert(((ka + va) + p.0)[i] == (ka + va)[i]);
            assert((ka + va)[i] == ka[i]);
        }
        assert forall|i: int| 0 <= i < 4 implies #[trigger] ep[4 + i] == va[i] by {
            assert((((ka + va) + p.0) + p.1)[4 + i] == ((ka + va) + p.0)[4 + i]);
            assert(((ka + va) + p.0)[4 + i] == (ka + va)[4 + i]);
            assert((ka + va)[4 + i] == va[i]);
        }
        assert forall|i: int| 0 <= i < kl implies #[trigger] ep[8 + i] == p.0[i] by {
            assert((((ka + va) + p.0) + p.1)[8 + i] == ((ka + va) + p.0)[8 + i]);
            assert(((ka + va) + p.0)[8 + i] == p.0[i]);
        }
        assert forall|i: int| 0 <= i < vl implies #[trigger] ep[8 + kl + i] == p.1[i] by {
            assert((((ka + va) + p.0) + p.1)[8 + kl + i] == p.1[i]);
        }
        assert(b.subrange(off, off + 4) =~= ka) by {
            assert forall|k: int| 0 <= k < 4 implies b.subrange(off, off + 4)[k] == ka[k] by {
                assert(b[off + k] == e[k]);
                assert(e[k] == ep[k]);
            }
        }
        assert(b.subrange(off + 4, off + 8) =~= va) by {
            assert forall|k: int| 0 <= k < 4 implies b.subrange(off + 4, off + 8)[k] == va[k] by {
                assert(b[off + (4 + k)] == e[4 + k]);
                assert(e[4 + k] == ep[4 + k]);
            }
        }
        assert(spec_u32_from_le_bytes(b.subrange(off, off + 4)) == kl as u32);
        assert(spec_u32_from_le_bytes(b.subrange(off + 4, off + 8)) == vl as u32);
        assert(b.subrange(off + 8, off + 8 + kl) =~= p.0) by {
            assert forall|k: int| 0 <= k < kl implies b.subrange(off + 8, off + 8 + kl)[k]
                == p.0[k] by {
                assert(b[off + (8 + k)] == e[8 + k]);
                assert(e[8 + k] == ep[8 + k]);
            }
        }
        assert(b.subrange(off + 8 + kl, off + 8 + kl + vl) =~= p.1) by {
            assert forall|k: int| 0 <= k < vl implies b.subrange(off + 8 + kl, off + 8 + kl + vl)[k]
                == p.1[k] by {
                assert(b[off + (8 + kl + k)] == e[8 + kl + k]);
                assert(e[8 + kl + k] == ep[8 + kl + k]);
            }
        }
        let off2 = off + 8 + kl + vl;
        let rest = s.drop_first();
        assert(b.subrange(off2, off2 + enc_pairs(rest).len() as int) =~= enc_pairs(rest)) by {
            assert forall|i: int|
                0 <= i < enc_pairs(rest).len() implies b.subrange(
                off2,
                off2 + enc_pairs(rest).len() as int,
            )[i] == enc_pairs(rest)[i] by {
                assert(b[off + (ep.len() + i)] == e[ep.len() + i]);
                assert((ep + enc_pairs(rest))[ep.len() + i] == enc_pairs(rest)[i]);
            }
        }
        lemma_dec_pairs_of_enc(b, off2, rest);
        assert(seq![(p.0, p.1)] + rest =~= s);
        assert(dec_pairs(b, off, s.len() as nat) == Some(
            (s, off + enc_pairs(s).len() as int),
        ));
    }
}

/// Reads a node page: its level, then its pairs. Trailing padding is
/// ignored.
pub open spec fn dec_node(page: Seq<u8>) -> Option<(u64, Seq<(Seq<u8>, Seq<u8>)>)> {
    if page.len() < NODE_HEADER {
        None
    } else {
        let level = spec_u64_from_le_bytes(page.subrange(0, 8));
        let n = spec_u32_from_le_bytes(page.subrange(8, 12)) as nat;
        match dec_pairs(page, 12, n) {
            None => None,
            Some((s, end)) => Some((level, s)),
        }
    }
}

/// Builds the page image of a node: level, pair count, the encoded pairs,
/// and zero padding up to the page size. The page reads back as exactly
/// what was handed in.
pub fn encode_node(level: u64, es: &Vec<Entry>, page_size: usize) -> (r: Vec<u8>)
    requires
        es@.len() <= u32::MAX,
        pairs_fit(kv_view(es@)),
        NODE_HEADER + enc_pairs(kv_view(es@)).len() <= page_size,
    ensures
        r@.len() == page_size,
        dec_node(r@) == Some((level, kv_view(es@))),
{
    proof {
        lemma_auto_spec_u32_to_from_le_bytes();
        lemma_auto_spec_u64_to_from_le_bytes();
    }
    let ghost all = kv_view(es@);
    let mut out: Vec<u8> = u64_to_le_bytes(level);
    let mut cnt: Vec<u8> = u32_to_le_bytes(es.len() as u32);
    out.append(&mut cnt);
    proof {
        assert(out@ =~= spec_u64_to_le_bytes(level) + spec_u32_to_le_bytes(es@.len() as u32));
        assert(enc_pairs(all.subrange(0, 0)) =~= Seq::empty());
        assert(out@ + Seq::<u8>::empty() =~= out@);
    }
    let ghost prefix = out@;
    let mut i: usize = 0;
    while i < es.len()
        invariant
            i <= es@.len(),
            all == kv_view(es@),
            pairs_fit(all),
            prefix.len() == NODE_HEADER,
            NODE_HEADER + enc_pairs(all).len() <= page_size,
            out@ == prefix + enc_pairs(all.subrange(0, i as int)),
        decreases es@.len() - i,
    {
        proof {
            lemma_enc_pairs_prefix_len(all, i as int);
            lemma_enc_pair_len(all[i as int]);
        }
        let e = &es[i];
        let mut kl: Vec<u8> = u32_to_le_bytes(e.key.len() as u32);
        let mut vl: Vec<u8> = u32_to_le_bytes(e.value.len() as u32);
        out.append(&mut kl);
        out.append(&mut vl);
        let mut kb: Vec<u8> = slice_to_vec(e.key.as_slice());
        let mut vb: Vec<u8> = slice_to_vec(e.value.as_slice());
        out.append(&mut kb);
        out.append(&mut vb);
        proof {
            lemma_enc_pairs_push(all.subrange(0, i as int), all[i as int]);
            assert(all.subrange(0, i as int).push(all[i as int]) =~= all.subrange(0, i + 1));
            assert(out@ =~= prefix + enc_pairs(all.subrange(0, i + 1)));
        }
        i = i + 1;
    }
    proof {
        assert(all.subrange(0, all.len() as int) =~= all);
    }
    while out.len() < page_size
        invariant
            out@.subrange(0, (NODE_HEADER + enc_pairs(all).len()) as int) == prefix + enc_pairs(
                all,
            ),
            NODE_HEADER + enc_pairs(all).len() <= out@.len() <= page_size,
        decreases page_size - out@.len(),
    {
        let ghost before = out@;
        out.push(0u8);
        proof {
            let l = (NODE_HEADER + enc_pairs(all).len()) as int;
            assert(out@.subrange(0, l) =~= before.subrange(0, l));
        }
    }
    proof {
        let l = (NODE_HEADER + enc_pairs(all).len()) as int;
        let body = prefix + enc_pairs(all);
        assert forall|k: int| 0 <= k < l implies #[trigger] out@[k] == body[k] by {
            assert(out@.subrange(0, l)[k] == out@[k]);
        }
        assert(out@.subrange(0, 8) =~= spec_u64_to_le_bytes(level)) by {
            assert forall|k: int| 0 <= k < 8 implies #[trigger] out@[k] == spec_u64_to_le_bytes(
                level,
            )[k] by {
                assert(body[k] == prefix[k]);
                assert(prefix[k] == (spec_u64_to_le_bytes(level) + spec_u32_to_le_bytes(
                    es@.len() as u32,
                ))[k]);
            }
        }
        assert(out@.subrange(8, 12) =~= spec_u32_to_le_bytes(es@.len() as u32)) by {
            assert forall|k: int| 0 <= k < 4 implies #[trigger] out@[8 + k] == spec_u32_to_le_bytes(
                es@.len() as u32,
            )[k] by {
                assert(body[8 + k] == prefix[8 + k]);
                assert(prefix[8 + k] == (spec_u64_to_le_bytes(level) + spec_u32_to_le_bytes(
                    es@.len() as u32,
                ))[8 + k]);
            }
            assert(forall|k: int|
                0 <= k < 4 ==> out@.subrange(8, 12)[k] == #[trigger] out@[8 + k]);
        }
        assert(out@.subrange(NODE_HEADER as int, l) =~= enc_pairs(all)) by {
            assert forall|k: int| 0 <= k < enc_pairs(all).len() implies #[trigger] out@[NODE_HEADER
                + k] == enc_pairs(all)[k] by {
                assert(body[NODE_HEADER + k] == enc_pairs(all)[k]);
            }
            assert(forall|k: int|
                0 <= k < enc_pairs(all).len() ==> out@.subrange(NODE_HEADER as int, l)[k]
                    == #[trigger] out@[NODE_HEADER + k]);
        }
        lemma_dec_pairs_of_enc(out@, NODE_HEADER as int, all);
        assert(spec_u64_from_le_bytes(out@.subrange(0, 8)) == level);
        assert(spec_u32_from_le_bytes(out@.subrange(8, 12)) == es@.len() as u32);
    }
    out
}

/// The byte length of the encoding of the first `i` pairs grows with `i`.
proof fn lemma_enc_pairs_prefix_len(s: Seq<(Seq<u8>, Seq<u8>)>, i: int)
    requires
        0 <= i < s.len(),
    ensures
        enc_pairs(s.subrange(0, i)).len() + enc_pair(s[i]).len() == enc_pairs(
            s.subrange(0, i + 1),
        ).len(),
        enc_pairs(s.subrange(0, i + 1)).len() <= enc_pairs(s).len(),
{
    lemma_enc_pairs_push(s.subrange(0, i), s[i]);
    assert(s.subrange(0, i).push(s[i]) =~= s.subrange(0, i + 1));
    lemma_enc_pairs_mono(s, i + 1);
}

/// Encoding a prefix never takes more bytes than encoding the whole list.
proof fn lemma_enc_pairs_mono(s: Seq<(Seq<u8>, Seq<u8>)>, i: int)
    requires
        0 <= i <= s.len(),
    ensures
        enc_pairs(s.subrange(0, i)).len() <= enc_pairs(s).len(),
    decreases s.len() - i,
{
    if i < s.len() {
        lemma_enc_pairs_push(s.subrange(0, i), s[i]);
        assert(s.subrange(0, i).push(s[i]) =~= s.subrange(0, i + 1));
        lemma_enc_pairs_mono(s, i + 1);
        assert(s.subrange(0, s.len() as int) =~= s);
    } else {
        assert(s.subrange(0, i) =~= s);
    }
}

/// Reads a node page back into its level and entry list, mirroring
/// `dec_node`.
pub fn decode_node(page: &Vec<u8>) -> (r: Option<(u64, Vec<Entry>)>)
    ensures
        match r {
            Some((level, es)) => dec_node(page@) == Some((level, kv_view(es@))),
            None => dec_node(page@) is None,
        },
{
    if page.len() < NODE_HEADER {
        return None;
    }
    let level = u64_from_le_bytes(slice_subrange(page.as_slice(), 0, 8));
    let n = u32_from_le_bytes(slice_subrange(page.as_slice(), 8, 12));
    let mut es: Vec<Entry> = Vec::new();
    let mut off: usize = NODE_HEADER;
    let mut i: u32 = 0;
    proof {
        match dec_pairs(page@, NODE_HEADER as int, n as nat) {
            None => {},
            Some((rest, end)) => {
                assert(kv_view(es@) + rest =~= rest);
            },
        }
    }
    while i < n
        invariant
            i <= n,
            off <= page@.len(),
            page@.len() >= NODE_HEADER,
            level == spec_u64_from_le_bytes(page@.subrange(0, 8)),
            n == spec_u32_from_le_bytes(page@.subrange(8, 12)),
            dec_pairs(page@, NODE_HEADER as int, n as nat) == (match dec_pairs(
                page@,
                off as int,
                (n - i) as nat,
            ) {
                None => None::<(Seq<(Seq<u8>, Seq<u8>)>, int)>,
                Some((rest, end)) => Some((kv_view(es@) + rest, end)),
            }),
        decreases n - i,
    {
        if off > page.len() - 8 {
            proof {
                assert(dec_pairs(page@, off as int, (n - i) as nat) is None);
            }
            return None;
        }
        let kl = u32_from_le_bytes(slice_subrange(page.as_slice(), off, off + 4));
        let vl = u32_from_le_bytes(slice_subrange(page.as_slice(), off + 4, off + 8));
        if kl as usize > page.len() - off - 8 || vl as usize > page.len() - off - 8 - kl as usize {
            proof {
                assert(dec_pairs(page@, off as int, (n - i) as nat) is None);
            }
            return None;
        }
        let key = slice_to_vec(slice_subrange(page.as_slice(), off + 8, off + 8 + kl as usize));
        let value = slice_to_vec(
            slice_subrange(
                page.as_slice(),
                off + 8 + kl as usize,
                off + 8 + kl as usize + vl as usize,
            ),
        );
        let ghost es_before = kv_view(es@);
        let ghost kg = key@;
        let ghost vg = value@;
        es.push(Entry { key, value });
        proof {
            assert(kv_view(es@) =~= es_before.push((kg, vg)));
            let tail = dec_pairs(page@, off + 8 + kl + vl, (n - i - 1) as nat);
            match tail {
                None => {},
                Some((rest2, end2)) => {
                    assert(es_before + (seq![(kg, vg)] + rest2) =~= kv_view(es@) + rest2);
                },
            }
        }
        off = off + 8 + kl as usize + vl as usize;
        i = i + 1;
    }
    proof {
        assert(dec_pairs(page@, off as int, 0nat) == Some(
            (Seq::<(Seq<u8>, Seq<u8>)>::empty(), off as int),
        ));
        assert(kv_view(es@) + Seq::<(Seq<u8>, Seq<u8>)>::empty() =~= kv_view(es@));
    }
    Some((level, es))
}


/// Byte length of an encoded table descriptor: id, table type, root page,
/// root level.
pub const DESC_BYTES: usize = 25;

/// The encoding of a table descriptor.
pub open spec fn enc_desc(id: u64, ttype: u8, root: u64, lvl: u64) -> Seq<u8> {
    spec_u64_to_le_bytes(id) + seq![ttype] + spec_u64_to_le_bytes(root) + spec_u64_to_le_bytes(lvl)
}

/// Reads a table descriptor back; `None` unless the value is exactly one
/// descriptor long.
pub open spec fn dec_desc(b: Seq<u8>) -> Option<(u64, u8, u64, u64)> {
    if b.len() != DESC_BYTES {
        None
    } else {
        Some(
            (
                spec_u64_from_le_bytes(b.subrange(0, 8)),
                b[8],
                spec_u64_from_le_bytes(b.subrange(9, 17)),
                spec_u64_from_le_bytes(b.subrange(17, 25)),
            ),
        )
    }
}

/// Descriptor decoding reads back what was encoded.
pub proof fn lemma_desc_round_trip(id: u64, ttype: u8, root: u64, lvl: u64)
    ensures
        dec_desc(enc_desc(id, ttype, root, lvl)) == Some((id, ttype, root, lvl)),
{
    lemma_auto_spec_u64_to_from_le_bytes();
    let e = enc_desc(id, ttype, root, lvl);
    let a = spec_u64_to_le_bytes(id);
    let c = spec_u64_to_le_bytes(root);
    let d = spec_u64_to_le_bytes(lvl);
    assert(e.len() == 25);
    assert(e.subrange(0, 8) =~= a) by {
        assert(forall|k: int| 0 <= k < 8 ==> #[trigger] e[k] == a[k]);
    }
    assert(e[8] == ttype);
    assert(e.subrange(9, 17) =~= c) by {
        assert(forall|k: int| 0 <= k < 8 ==> #[trigger] e[9 + k] == c[k]);
    }
    assert(e.subrange(17, 25) =~= d) by {
        assert(forall|k: int| 0 <= k < 8 ==> #[trigger] e[17 + k] == d[k]);
    }
}

/// Builds the value bytes of a master-table entry.
pub fn encode_desc(id: u64, ttype: u8, root: u64, lvl: u64) -> (r: Vec<u8>)
    ensures
        r@ == enc_desc(id, ttype, root, lvl),
{
    let mut out: Vec<u8> = u64_to_le_bytes(id);
    out.push(ttype);
    let mut f: Vec<u8> = u64_to_le_bytes(root);
    out.append(&mut f);
    let mut f: Vec<u8> = u64_to_le_bytes(lvl);
    out.append(&mut f);
    proof {
        assert(out@ =~= enc_desc(id, ttype, root, lvl));
    }
    out
}

/// Parses the value bytes of a master-table entry.
pub fn decode_desc(b: &[u8]) -> (r: Option<(u64, u8, u64, u64)>)
    ensures
        r == dec_desc(b@),
{
    if b.len() != DESC_BYTES {
        return None;
    }
    let id = u64_from_le_bytes(slice_subrange(b, 0, 8));
    let ttype = b[8];
    let root = u64_from_le_bytes(slice_subrange(b, 9, 17));
    let lvl = u64_from_le_bytes(slice_subrange(b, 17, 25));
    Some((id, ttype, root, lvl))
}

/// The view of a value set as a pair list with empty second components,
/// so the one pair-list encoding serves it too.
pub open spec fn vals_as_pairs(vs: Seq<Seq<u8>>) -> Seq<(Seq<u8>, Seq<u8>)> {
    vs.map_values(|v: Seq<u8>| (v, Seq::<u8>::empty()))
}

/// The encoding of a multimap value set: a 4-byte count, then the values
/// as length-prefixed pairs.
pub open spec fn enc_vals(vs: Seq<Seq<u8>>) -> Seq<u8> {
    spec_u32_to_le_bytes(vs.len() as u32) + enc_pairs(vals_as_pairs(vs))
}

/// Reads a multimap value set back.
pub open spec fn dec_vals(b: Seq<u8>) -> Option<Seq<Seq<u8>>> {
    if b.len() < 4 {
        None
    } else {
        let n = spec_u32_from_le_bytes(b.subrange(0, 4)) as nat;
        match dec_pairs(b, 4, n) {
            None => None,
            Some((ps, end)) => Some(ps.map_values(|p: (Seq<u8>, Seq<u8>)| p.0)),
        }
    }
}

/// Value-set decoding reads back what was encoded.
pub proof fn lemma_vals_round_trip(vs: Seq<Seq<u8>>)
    requires
        vs.len() <= u32::MAX,
        forall|i: int| 0 <= i < vs.len() ==> #[trigger] vs[i].len() <= u32::MAX,
    ensures
        dec_vals(enc_vals(vs)) == Some(vs),
{
    lemma_auto_spec_u32_to_from_le_bytes();
    let b = enc_vals(vs);
    let cnt = spec_u32_to_le_bytes(vs.len() as u32);
    let body = enc_pairs(vals_as_pairs(vs));
    assert(b.subrange(0, 4) =~= cnt) by {
        assert(forall|k: int| 0 <= k < 4 ==> #[trigger] b[k] == cnt[k]);
    }
    assert(pairs_fit(vals_as_pairs(vs)));
    assert(b.subrange(4, 4 + body.len() as int) =~= body) by {
        assert(forall|k: int| 0 <= k < body.len() ==> #[trigger] b[4 + k] == body[k]);
    }
    lemma_dec_pairs_of_enc(b, 4, vals_as_pairs(vs));
    assert(vals_as_pairs(vs).map_values(|p: (Seq<u8>, Seq<u8>)| p.0) =~= vs);
}

/// Builds the stored bytes of a multimap value set.
pub fn encode_vals(vs: &Vec<Vec<u8>>) -> (r: Vec<u8>)
    requires
        vs@.len() <= u32::MAX,
    ensures
        r@ == enc_vals(crate::mvalues::vals_view(vs@)),
{
    let ghost vsv = crate::mvalues::vals_view(vs@);
    let mut out: Vec<u8> = u32_to_le_bytes(vs.len() as u32);
    let ghost prefix = out@;
    let mut i: usize = 0;
    proof {
        assert(vals_as_pairs(vsv).subrange(0, 0) =~= Seq::<(Seq<u8>, Seq<u8>)>::empty());
        assert(out@ =~= prefix + enc_pairs(vals_as_pairs(vsv).subrange(0, 0)));
    }
    while i < vs.len()
        invariant
            i <= vs@.len(),
            vsv == crate::mvalues::vals_view(vs@),
            prefix == spec_u32_to_le_bytes(vs@.len() as u32),
            out@ == prefix + enc_pairs(vals_as_pairs(vsv).subrange(0, i as int)),
        decreases vs@.len() - i,
    {
        let ghost pre = vals_as_pairs(vsv).subrange(0, i as int);
        let mut kl: Vec<u8> = u32_to_le_bytes(vs[i].len() as u32);
        let mut vl: Vec<u8> = u32_to_le_bytes(0u32);
        out.append(&mut kl);
        out.append(&mut vl);
        let mut kb: Vec<u8> = crate::entries::copy_bytes(vs[i].as_slice());
        out.append(&mut kb);
        proof {
            let it = vals_as_pairs(vsv)[i as int];
            lemma_enc_pairs_push(pre, it);
            assert(pre.push(it) =~= vals_as_pairs(vsv).subrange(0, i + 1));
            assert(it.0 == vsv[i as int] && it.1 =~= Seq::<u8>::empty());
            assert(enc_pair(it) =~= spec_u32_to_le_bytes(it.0.len() as u32) + spec_u32_to_le_bytes(
                0u32,
            ) + it.0);
            assert(out@ =~= prefix + enc_pairs(vals_as_pairs(vsv).subrange(0, i + 1)));
        }
        i = i + 1;
    }
    proof {
        assert(vals_as_pairs(vsv).subrange(0, vsv.len() as int) =~= vals_as_pairs(vsv));
    }
    out
}

/// Parses the stored bytes of a multimap value set.
pub fn decode_vals(b: &[u8]) -> (r: Option<Vec<Vec<u8>>>)
    ensures
        match r {
            Some(vs) => dec_vals(b@) == Some(crate::mvalues::vals_view(vs@)),
            None => dec_vals(b@) is None,
        },
{
    if b.len() < 4 {
        return None;
    }
    let n = u32_from_le_bytes(slice_subrange(b, 0, 4));
    let mut vs: Vec<Vec<u8>> = Vec::new();
    let mut off: usize = 4;
    let mut i: u32 = 0;
    let ghost mut done: Seq<(Seq<u8>, Seq<u8>)> = Seq::empty();
    proof {
        match dec_pairs(b@, 4, n as nat) {
            None => {},
            Some((rest, end)) => {
                assert(done + rest =~= rest);
            },
        }
    }
    while i < n
        invariant
            i <= n,
            off <= b@.len(),
            b@.len() >= 4,
            n == spec_u32_from_le_bytes(b@.subrange(0, 4)),
            crate::mvalues::vals_view(vs@) == done.map_values(|p: (Seq<u8>, Seq<u8>)| p.0),
            dec_pairs(b@, 4, n as nat) == (match dec_pairs(b@, off as int, (n - i) as nat) {
                None => None::<(Seq<(Seq<u8>, Seq<u8>)>, int)>,
                Some((rest, end)) => Some((done + rest, end)),
            }),
        decreases n - i,
    {
        if b.len() < 8 || off > b.len() - 8 {
            proof {
                assert(dec_pairs(b@, off as int, (n - i) as nat) is None);
            }
            return None;
        }
        let kl = u32_from_le_bytes(slice_subrange(b, off, off + 4));
        let vl = u32_from_le_bytes(slice_subrange(b, off + 4, off + 8));
        if kl as usize > b.len() - off - 8 || vl as usize > b.len() - off - 8 - kl as usize {
            proof {
                assert(dec_pairs(b@, off as int, (n - i) as nat) is None);
            }
            return None;
        }
        let val = crate::entries::copy_bytes(slice_subrange(b, off + 8, off + 8 + kl as usize));
        let ghost vs_before = crate::mvalues::vals_view(vs@);
        let ghost vg = val@;
        let ghost second = b@.subrange(off + 8 + kl, off + 8 + kl + vl);
        vs.push(val);
        proof {
            assert(crate::mvalues::vals_view(vs@) =~= vs_before.push(vg));
            let tail = dec_pairs(b@, off + 8 + kl + vl, (n - i - 1) as nat);
            match tail {
                None => {},
                Some((rest2, end2)) => {
                    assert(done + (seq![(vg, second)] + rest2) =~= done.push((vg, second))
                        + rest2);
                },
            }
            done = done.push((vg, second));
            assert(crate::mvalues::vals_view(vs@) =~= done.map_values(
                |p: (Seq<u8>, Seq<u8>)| p.0,
            ));
        }
        off = off + 8 + kl as usize + vl as usize;
        i = i + 1;
    }
    proof {
        assert(dec_pairs(b@, off as int, 0nat) == Some(
            (Seq::<(Seq<u8>, Seq<u8>)>::empty(), off as int),
        ));
        assert(done + Seq::<(Seq<u8>, Seq<u8>)>::empty() =~= done);
    }
    Some(vs)
}

} // verus!
