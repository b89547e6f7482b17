use vstd::prelude::*;

use crate::codec::{dec_vals, decode_vals, enc_vals, encode_vals, lemma_vals_round_trip};

use crate::db::{mm_values, Database};
use crate::entries::{
    copy_bytes, kv_find, kv_insert, kv_store, kv_view, lemma_kv_insert_sorted,
    lemma_kv_lookup_insert_other,
    lemma_kv_lookup_insert_same, lemma_kv_remove, sorted_kv, Entry,
};
use crate::error::Error;
use crate::header::NO_ROOT;
use crate::mvalues::{
    lemma_vs_remove_keeps, sorted_vals, vals_add, vals_del, vals_view, vs_insert, vs_remove,
};
use crate::pages::{MAX_PAGE_SIZE, MIN_PAGE_SIZE};
use crate::storage::{mm_entries_ok, TYPE_MULTIMAP};
use crate::tree::{check_entry_fits, entries_fit, entry_fits, tree_pages, wf_below};

verus! {

/// A handle onto a multimap table: each key holds a sorted, de-duplicated
/// set of values.
pub struct MultiMapTable {
    name: Vec<u8>,
    id: u64,
}

/// Builds a handle from the parts `open_multimap_table` resolved.
pub(crate) fn make_mm_table(name: Vec<u8>, id: u64) -> (r: MultiMapTable)
    ensures
        r.name() == name@,
        r.id_spec() == id,
{
    MultiMapTable { name, id }
}

impl MultiMapTable {
    pub closed spec fn name(self) -> Seq<u8> {
        self.name@
    }

    pub closed spec fn id_spec(self) -> u64 {
        self.id
    }

    /// The table's unique, stable id.
    pub fn get_id(&self) -> (r: u64)
        ensures
            r == self.id_spec(),
    {
        self.id
    }

    /// Pins the committed root of this table when it exists with the
    /// multimap type.
    fn pin_mm(&self, db: &Database) -> (r: Option<(u64, u64)>)
        requires
            db.wf(),
        ensures
            match r {
                Some((root, lvl)) => {
                    &&& db.table_at(self.name()) matches Some((id, t, es)) && t == TYPE_MULTIMAP
                        && es == crate::storage::tree_entries(db.pages_view(), root, lvl)
                    &&& (root != NO_ROOT ==> wf_below(
                        db.pages_view(),
                        root as int,
                        lvl as nat,
                        db.watermark(),
                    ))
                    &&& sorted_kv(crate::storage::tree_entries(db.pages_view(), root, lvl))
                    &&& entries_fit(
                        crate::storage::tree_entries(db.pages_view(), root, lvl),
                        db.page_size_spec(),
                    )
                    &&& mm_entries_ok(crate::storage::tree_entries(db.pages_view(), root, lvl))
                },
                None => !(db.table_at(self.name()) matches Some((id, t, es)) && t
                    == TYPE_MULTIMAP),
            },
    {
        match db.storage_ref().pin_table(self.name.as_slice()) {
            Some((_id, t, root, lvl)) => {
                if t == TYPE_MULTIMAP {
                    Some((root, lvl))
                } else {
                    None
                }
            },
            None => None,
        }
    }

    /// Starts the exclusive write transaction on this multimap table.
    pub fn begin_write(&self, db: &mut Database) -> (r: Result<MultiMapWriteTxn, Error>)
        requires
            old(db).wf(),
        ensures
            final(db).wf(),
            final(db).pages_view() == old(db).pages_view(),
            final(db).watermark() == old(db).watermark(),
            final(db).page_size_spec() == old(db).page_size_spec(),
            final(db).txn() == old(db).txn(),
            forall|n2: Seq<u8>| final(db).table_at(n2) == old(db).table_at(n2),
            match r {
                Ok(txn) => {
                    &&& !old(db).is_write_active()
                    &&& final(db).is_write_active()
                    &&& txn.inv()
                    &&& txn.name() == self.name()
                    &&& txn.page_size_spec() == old(db).page_size_spec()
                    &&& old(db).table_at(self.name()) matches Some((id, t, es)) && t
                        == TYPE_MULTIMAP && txn.view() == es
                },
                Err(e) => {
                    &&& final(db).is_write_active() == old(db).is_write_active()
                    &&& (e == Error::WriteConflict <==> old(db).is_write_active())
                    &&& (e == Error::InvalidArgument <==> !old(db).is_write_active() && !(old(
                        db,
                    ).table_at(self.name()) matches Some((id, t, es)) && t == TYPE_MULTIMAP))
                    &&& (e == Error::WriteConflict || e == Error::InvalidArgument)
                },
            },
    {
        match db.storage_mut().acquire_writer() {
            Ok(()) => {},
            Err(e) => {
                return Err(e);
            },
        }
        let pinned = self.pin_mm(db);
        let (root, lvl) = match pinned {
            Some(x) => x,
            None => {
                db.storage_mut().release_writer();
                return Err(Error::InvalidArgument);
            },
        };
        let pending = db.storage_ref().read_pinned(root, lvl);
        proof {
            db.storage_spec().lemma_bounds();
        }
        Ok(
            MultiMapWriteTxn {
                name: copy_bytes(self.name.as_slice()),
                pending,
                page_size: db.storage_ref().page_size_exec(),
            },
        )
    }

    /// Pins a read snapshot of this multimap table.
    pub fn read_transaction(&self, db: &Database) -> (r: Result<MultiMapReadTxn, Error>)
        requires
            db.wf(),
        ensures
            match r {
                Ok(rt) => {
                    &&& rt.valid(*db)
                    &&& db.table_at(self.name()) matches Some((id, t, es)) && t == TYPE_MULTIMAP
                        && rt.view(*db) == es
                },
                Err(e) => e == Error::InvalidArgument && !(db.table_at(self.name()) matches Some(
                    (id, t, es),
                ) && t == TYPE_MULTIMAP),
            },
    {
        match self.pin_mm(db) {
            Some((root, lvl)) => Ok(MultiMapReadTxn { root, lvl }),
            None => Err(Error::InvalidArgument),
        }
    }
}

/// Adding `v` under `k` must be refused: the value or the grown set
/// overflows a 32-bit length prefix, or the entry would no longer fit one
/// page.
pub open spec fn mm_insert_rejected(s: Seq<(Seq<u8>, Seq<u8>)>, k: Seq<u8>, v: Seq<u8>, ps: int) -> bool {
    let nv = vs_insert(mm_values(s, k), v);
    ||| v.len() > u32::MAX
    ||| nv.len() > u32::MAX
    ||| !entry_fits((k, enc_vals(nv)), ps)
}

/// Removing `v` under `k` must be refused: the surviving, non-empty set
/// cannot be stored back.
pub open spec fn mm_remove_rejected(s: Seq<(Seq<u8>, Seq<u8>)>, k: Seq<u8>, v: Seq<u8>, ps: int) -> bool {
    let nv = vs_remove(mm_values(s, k), v);
    &&& nv.len() >= 1
    &&& (nv.len() > u32::MAX || !entry_fits((k, enc_vals(nv)), ps))
}

/// The exclusive write transaction of a multimap table.
pub struct MultiMapWriteTxn {
    name: Vec<u8>,
    pending: Vec<Entry>,
    page_size: usize,
}

impl MultiMapWriteTxn {
    /// The state the table will hold if this transaction commits: each
    /// entry's value bytes encode that key's value set.
    pub closed spec fn view(self) -> Seq<(Seq<u8>, Seq<u8>)> {
        kv_view(self.pending@)
    }

    pub closed spec fn name(self) -> Seq<u8> {
        self.name@
    }

    pub closed spec fn page_size_spec(self) -> int {
        self.page_size as int
    }

    pub closed spec fn inv(self) -> bool {
        &&& sorted_kv(self.view())
        &&& entries_fit(self.view(), self.page_size as int)
        &&& mm_entries_ok(self.view())
        &&& MIN_PAGE_SIZE <= self.page_size <= MAX_PAGE_SIZE
    }

    /// Adds `value` to the set under `key`; adding a pair already present
    /// changes nothing. The call fails, with `InvalidArgument` and no
    /// change, exactly when the grown set cannot be stored: the value or
    /// the set count overflows a length prefix, or the entry no longer
    /// fits one page.
    pub fn insert(&mut self, key: &[u8], value: &[u8]) -> (r: Result<(), Error>)
        requires
            old(self).inv(),
        ensures
            final(self).inv(),
            final(self).name() == old(self).name(),
            final(self).page_size_spec() == old(self).page_size_spec(),
            match r {
                Ok(()) => {
                    &&& mm_values(final(self).view(), key@) == vs_insert(
                        mm_values(old(self).view(), key@),
                        value@,
                    )
                    &&& forall|k2: Seq<u8>|
                        k2 != key@ ==> mm_values(final(self).view(), k2) == mm_values(
                            old(self).view(),
                            k2,
                        )
                    &&& !mm_insert_rejected(old(self).view(), key@, value@, old(
                        self,
                    ).page_size_spec())
                },
                Err(e) => {
                    &&& e == Error::InvalidArgument
                    &&& *final(self) == *old(self)
                    &&& mm_insert_rejected(old(self).view(), key@, value@, old(
                        self,
                    ).page_size_spec())
                },
            },
    {
        let ghost v0 = self.view();
        let found = kv_find(&self.pending, key);
        let mut vs: Vec<Vec<u8>> = match found {
            Some(i) => {
                proof {
                    lemma_mm_ok_at(v0, i as int);
                    assert(v0[i as int].1 == self.pending@[i as int].value@);
                }
                match decode_vals(self.pending[i].value.as_slice()) {
                    Some(vs) => vs,
                    None => {
                        proof {
                            assert(false);
                        }
                        return Err(Error::InvalidArgument);
                    },
                }
            },
            None => Vec::new(),
        };
        proof {
            if found is None {
                assert(vals_view(vs@) =~= Seq::<Seq<u8>>::empty());
                assert(mm_values(v0, key@) =~= vals_view(vs@));
            } else {
                assert(mm_values(v0, key@) == vals_view(vs@));
            }
            assert(sorted_vals(vals_view(vs@)));
        }
        // The new value itself must be short enough for its length prefix.
        if value.len() as u64 > u32::MAX as u64 {
            return Err(Error::InvalidArgument);
        }
        let ghost vs0 = vals_view(vs@);
        vals_add(&mut vs, copy_bytes(value));
        if vs.len() as u64 > u32::MAX as u64 {
            return Err(Error::InvalidArgument);
        }
        let ghost vs1 = vals_view(vs@);
        proof {
            crate::mvalues::lemma_vs_insert_sorted(vs0, value@);
            assert forall|j: int| 0 <= j < vs1.len() implies #[trigger] vs1[j].len()
                <= u32::MAX by {
                if vs1[j] != value@ {
                    assert(vs0.contains(vs1[j]));
                }
            }
        }
        let bytes = encode_vals(&vs);
        proof {
            lemma_vals_round_trip(vs1);
        }
        if !check_entry_fits(key, bytes.as_slice(), self.page_size) {
            return Err(Error::InvalidArgument);
        }
        let ghost newv = enc_vals(vs1);
        kv_store(&mut self.pending, copy_bytes(key), bytes);
        proof {
            lemma_kv_insert_sorted(v0, key@, newv);
            lemma_kv_lookup_insert_same(v0, key@, newv);
            crate::entries::lemma_kv_insert_elems(v0, key@, newv);
            lemma_mm_inv_after_store(v0, key@, newv, self.view(), self.page_size as int, vs1);
            assert(mm_values(self.view(), key@) == vs1);
            assert forall|k2: Seq<u8>| k2 != key@ implies mm_values(self.view(), k2) == mm_values(
                v0,
                k2,
            ) by {
                lemma_kv_lookup_insert_other(v0, key@, newv, k2);
            }
        }
        Ok(())
    }

    /// Removes `value` from the set under `key`; removing the last value
    /// removes the key's entry; removing an absent pair changes nothing.
    /// The call fails, with `InvalidArgument` and no change, exactly when
    /// the shrunken set cannot be stored back.
    pub fn remove(&mut self, key: &[u8], value: &[u8]) -> (r: Result<(), Error>)
        requires
            old(self).inv(),
        ensures
            final(self).inv(),
            final(self).name() == old(self).name(),
            final(self).page_size_spec() == old(self).page_size_spec(),
            match r {
                Ok(()) => {
                    &&& mm_values(final(self).view(), key@) == vs_remove(
                        mm_values(old(self).view(), key@),
                        value@,
                    )
                    &&& forall|k2: Seq<u8>|
                        k2 != key@ ==> mm_values(final(self).view(), k2) == mm_values(
                            old(self).view(),
                            k2,
                        )
                    &&& !mm_remove_rejected(old(self).view(), key@, value@, old(
                        self,
                    ).page_size_spec())
                },
                Err(e) => {
                    &&& e == Error::InvalidArgument
                    &&& *final(self) == *old(self)
                    &&& mm_remove_rejected(old(self).view(), key@, value@, old(
                        self,
                    ).page_size_spec())
                },
            },
    {
        let ghost v0 = self.view();
        let found = kv_find(&self.pending, key);
        let i = match found {
            None => {
                proof {
                    assert(mm_values(v0, key@) =~= Seq::<Seq<u8>>::empty());
                    assert(vs_remove(mm_values(v0, key@), value@) =~= mm_values(v0, key@));
                }
                return Ok(());
            },
            Some(i) => i,
        };
        proof {
            lemma_mm_ok_at(v0, i as int);
            assert(v0[i as int].1 == self.pending@[i as int].value@);
        }
        let mut vs = match decode_vals(self.pending[i].value.as_slice()) {
            Some(vs) => vs,
            None => {
                proof {
                    assert(false);
                }
                return Err(Error::InvalidArgument);
            },
        };
        let ghost vs0 = vals_view(vs@);
        proof {
            assert(mm_values(v0, key@) == vs0);
        }
        vals_del(&mut vs, value);
        if vs.len() as u64 > u32::MAX as u64 {
            return Err(Error::InvalidArgument);
        }
        let ghost vs1 = vals_view(vs@);
        if vs.len() == 0 {
            proof {
                lemma_kv_remove(v0, key@, i as int);
                assert(vs1 =~= Seq::<Seq<u8>>::empty());
            }
            self.pending.remove(i);
            proof {
                assert(kv_view(self.pending@) =~= v0.remove(i as int));
                assert(mm_values(self.view(), key@) =~= vs_remove(vs0, value@));
                lemma_mm_inv_after_remove(v0, i as int, self.view(), self.page_size as int);
            }
            return Ok(());
        }
        proof {
            lemma_vs_remove_keeps(vs0, value@);
            assert forall|j: int| 0 <= j < vs1.len() implies #[trigger] vs1[j].len()
                <= u32::MAX by {
                let w = choose|w: int| 0 <= w < vs0.len() && #[trigger] vs1[j] == vs0[w];
            }
        }
        let bytes = encode_vals(&vs);
        proof {
            lemma_vals_round_trip(vs1);
        }
        if !check_entry_fits(key, bytes.as_slice(), self.page_size) {
            return Err(Error::InvalidArgument);
        }
        let ghost newv = enc_vals(vs1);
        kv_store(&mut self.pending, copy_bytes(key), bytes);
        proof {
            lemma_kv_insert_sorted(v0, key@, newv);
            lemma_kv_lookup_insert_same(v0, key@, newv);
            crate::entries::lemma_kv_insert_elems(v0, key@, newv);
            lemma_mm_inv_after_store(v0, key@, newv, self.view(), self.page_size as int, vs1);
            assert(mm_values(self.view(), key@) == vs1);
            assert forall|k2: Seq<u8>| k2 != key@ implies mm_values(self.view(), k2) == mm_values(
                v0,
                k2,
            ) by {
                lemma_kv_lookup_insert_other(v0, key@, newv, k2);
            }
        }
        Ok(())
    }

    /// Commits the pending multimap state atomically, as
    /// `WriteTxn::commit` does for ordered tables.
    pub fn commit(self, db: &mut Database) -> (r: Result<(), Error>)
        requires
            old(db).wf(),
            self.inv(),
            old(db).is_write_active(),
            self.page_size_spec() == old(db).page_size_spec(),
            old(db).table_at(self.name()) matches Some((id, t, es)) && t == TYPE_MULTIMAP,
        ensures
            final(db).wf(),
            !final(db).is_write_active(),
            final(db).page_size_spec() == old(db).page_size_spec(),
            final(db).pages_view().len() == old(db).pages_view().len(),
            final(db).watermark() >= old(db).watermark(),
            forall|q: int|
                1 <= q < old(db).watermark() ==> final(db).pages_view()[q] == old(
                    db,
                ).pages_view()[q],
            match r {
                Ok(()) => {
                    &&& final(db).txn() == old(db).txn() + 1
                    &&& final(db).table_at(self.name()) == Some(
                        (
                            old(db).table_at(self.name()).unwrap().0,
                            TYPE_MULTIMAP,
                            self.view(),
                        ),
                    )
                    &&& forall|n2: Seq<u8>|
                        n2 != self.name() ==> final(db).table_at(n2) == old(db).table_at(n2)
                },
                Err(e) => {
                    &&& e == Error::OutOfSpace
                    &&& final(db).txn() == old(db).txn()
                    &&& forall|n2: Seq<u8>| final(db).table_at(n2) == old(db).table_at(n2)
                    &&& (old(db).txn() == u64::MAX || old(db).watermark() + tree_pages(
                        self.view().len() as nat,
                    ) + tree_pages(old(db).storage_spec().master().len() as nat) > old(
                        db,
                    ).pages_view().len())
                },
            },
    {
        db.storage_mut().commit_table(self.name.as_slice(), &self.pending)
    }

    /// Abandons the transaction with no visible effect.
    pub fn abort(self, db: &mut Database)
        requires
            old(db).wf(),
        ensures
            final(db).wf(),
            !final(db).is_write_active(),
            final(db).pages_view() == old(db).pages_view(),
            final(db).txn() == old(db).txn(),
            forall|n2: Seq<u8>| final(db).table_at(n2) == old(db).table_at(n2),
    {
        db.storage_mut().release_writer();
    }
}

/// One entry of a sound multimap state decodes to a sound value set.
proof fn lemma_mm_ok_at(s: Seq<(Seq<u8>, Seq<u8>)>, i: int)
    requires
        mm_entries_ok(s),
        0 <= i < s.len(),
    ensures
        dec_vals(s[i].1) is Some,
        sorted_vals(dec_vals(s[i].1).unwrap()),
        dec_vals(s[i].1).unwrap().len() >= 1,
        dec_vals(s[i].1).unwrap().len() <= u32::MAX,
        forall|j: int|
            0 <= j < dec_vals(s[i].1).unwrap().len() ==> #[trigger] dec_vals(
                s[i].1,
            ).unwrap()[j].len() <= u32::MAX,
{
}

/// Replacing one key's value bytes with a sound encoded set keeps the
/// whole state sound.
proof fn lemma_mm_inv_after_store(
    v0: Seq<(Seq<u8>, Seq<u8>)>,
    k: Seq<u8>,
    newv: Seq<u8>,
    v1: Seq<(Seq<u8>, Seq<u8>)>,
    ps: int,
    vs1: Seq<Seq<u8>>,
)
    requires
        sorted_kv(v0),
        entries_fit(v0, ps),
        mm_entries_ok(v0),
        v1 == kv_insert(v0, k, newv),
        dec_vals(newv) == Some(vs1),
        sorted_vals(vs1),
        vs1.len() >= 1,
        vs1.len() <= u32::MAX,
        forall|j: int| 0 <= j < vs1.len() ==> #[trigger] vs1[j].len() <= u32::MAX,
        entry_fits((k, newv), ps),
    ensures
        sorted_kv(v1),
        entries_fit(v1, ps),
        mm_entries_ok(v1),
{
    lemma_kv_insert_sorted(v0, k, newv);
    crate::entries::lemma_kv_insert_elems(v0, k, newv);
    assert forall|j: int| 0 <= j < v1.len() implies entry_fits(#[trigger] v1[j], ps) && (match
        dec_vals(v1[j].1) {
        None => false,
        Some(vs) => {
            &&& sorted_vals(vs)
            &&& vs.len() >= 1
            &&& vs.len() <= u32::MAX
            &&& forall|t: int| 0 <= t < vs.len() ==> #[trigger] vs[t].len() <= u32::MAX
        },
    }) by {
        if v1[j] == (k, newv) {
        } else {
            let w = choose|w: int| 0 <= w < v0.len() && v1[j] == #[trigger] v0[w];
            assert(entry_fits(v0[w], ps));
            assert(dec_vals(v0[w].1) is Some);
        }
    }
}

/// Dropping one entry keeps the whole state sound.
proof fn lemma_mm_inv_after_remove(
    v0: Seq<(Seq<u8>, Seq<u8>)>,
    i: int,
    v1: Seq<(Seq<u8>, Seq<u8>)>,
    ps: int,
)
    requires
        sorted_kv(v0),
        entries_fit(v0, ps),
        mm_entries_ok(v0),
        0 <= i < v0.len(),
        v1 == v0.remove(i),
    ensures
        entries_fit(v1, ps),
        mm_entries_ok(v1),
        sorted_kv(v1),
{
    lemma_kv_remove(v0, v0[i].0, i);
    assert forall|j: int| 0 <= j < v1.len() implies entry_fits(#[trigger] v1[j], ps) && (match
        dec_vals(v1[j].1) {
        None => false,
        Some(vs) => {
            &&& sorted_vals(vs)
            &&& vs.len() >= 1
            &&& vs.len() <= u32::MAX
            &&& forall|t: int| 0 <= t < vs.len() ==> #[trigger] vs[t].len() <= u32::MAX
        },
    }) by {
        let w: int = if j < i {
            j
        } else {
            j + 1
        };
        assert(v1[j] == v0[w]);
        assert(entry_fits(v0[w], ps));
        assert(dec_vals(v0[w].1) is Some);
    }
}

/// A read snapshot of a multimap table.
pub struct MultiMapReadTxn {
    root: u64,
    lvl: u64,
}

impl MultiMapReadTxn {
    pub closed spec fn root_spec(self) -> u64 {
        self.root
    }

    pub closed spec fn lvl_spec(self) -> u64 {
        self.lvl
    }

    pub open spec fn view(self, db: Database) -> Seq<(Seq<u8>, Seq<u8>)> {
        crate::storage::tree_entries(db.pages_view(), self.root_spec(), self.lvl_spec())
    }

    pub open spec fn valid(self, db: Database) -> bool {
        &&& (self.root_spec() != NO_ROOT ==> wf_below(
            db.pages_view(),
            self.root_spec() as int,
            self.lvl_spec() as nat,
            db.watermark(),
        ))
        &&& sorted_kv(self.view(db))
        &&& mm_entries_ok(self.view(db))
    }

    /// The number of distinct keys the snapshot holds.
    pub fn len(&self, db: &Database) -> (r: Result<usize, Error>)
        requires
            db.wf(),
            self.valid(*db),
        ensures
            r matches Ok(n) && n == self.view(*db).len(),
    {
        let es = db.storage_ref().read_pinned(self.root, self.lvl);
        Ok(es.len())
    }

    /// The whole snapshot in ascending key order: each entry's value
    /// bytes encode that key's value set.
    pub fn iterate(&self, db: &Database) -> (r: Result<Vec<Entry>, Error>)
        requires
            db.wf(),
            self.valid(*db),
        ensures
            r matches Ok(es) && kv_view(es@) == self.view(*db) && sorted_kv(kv_view(es@)),
    {
        Ok(db.storage_ref().read_pinned(self.root, self.lvl))
    }

    /// The value set under `key`, in ascending order; empty when the key
    /// is absent.
    pub fn get(&self, db: &Database, key: &[u8]) -> (r: Result<Vec<Vec<u8>>, Error>)
        requires
            db.wf(),
            self.valid(*db),
        ensures
            r matches Ok(vs) && vals_view(vs@) == mm_values(self.view(*db), key@),
    {
        let es = db.storage_ref().read_pinned(self.root, self.lvl);
        match kv_find(&es, key) {
            Some(i) => {
                proof {
                    lemma_mm_ok_at(self.view(*db), i as int);
                    assert(kv_view(es@)[i as int].1 == es@[i as int].value@);
                }
                match decode_vals(es[i].value.as_slice()) {
                    Some(vs) => Ok(vs),
                    None => {
                        proof {
                            assert(false);
                        }
                        Ok(Vec::new())
                    },
                }
            },
            None => {
                let r: Vec<Vec<u8>> = Vec::new();
                proof {
                    assert(vals_view(r@) =~= Seq::<Seq<u8>>::empty());
                    assert(mm_values(self.view(*db), key@) =~= Seq::<Seq<u8>>::empty());
                }
                Ok(r)
            },
        }
    }
}

} // verus!
