use vstd::prelude::*;

use crate::codec::{dec_desc, dec_vals, enc_desc};
use crate::entries::{
    copy_bytes, kv_find, kv_insert, kv_lookup, kv_store, kv_view, lemma_kv_insert_sorted,
    lemma_kv_lookup_insert_other, lemma_kv_lookup_insert_same, sorted_kv, Entry,
};
use crate::error::Error;
use crate::header::NO_ROOT;
use crate::mm::MultiMapTable;
use crate::pages::{MAX_PAGE_SIZE, MIN_PAGE_SIZE};
use crate::storage::{Storage, TYPE_MULTIMAP, TYPE_NORMAL};
use crate::tree::{
    check_entry_fits, entries_fit, entry_fits, lemma_subtree_frame, lemma_wf_mono, tree_pages,
    wf_below,
};

verus! {

/// Page counts, the master tree's height and the last committed
/// transaction id, for diagnostics.
pub struct DbStats {
    pub total_pages: u64,
    pub used_pages: u64,
    pub free_pages: u64,
    pub tree_height: u64,
    pub txn_id: u64,
}

/// An open database: the verified engine over one mapped region.
pub struct Database {
    storage: Storage,
}

/// The value set stored under `k` in a multimap entry list.
pub open spec fn mm_values(s: Seq<(Seq<u8>, Seq<u8>)>, k: Seq<u8>) -> Seq<Seq<u8>> {
    match kv_lookup(s, k) {
        None => Seq::empty(),
        Some(v) => match dec_vals(v) {
            None => Seq::empty(),
            Some(vs) => vs,
        },
    }
}

impl Database {
    pub closed spec fn storage_spec(self) -> Storage {
        self.storage
    }

    pub open spec fn wf(self) -> bool {
        self.storage_spec().wf()
    }

    pub open spec fn is_write_active(self) -> bool {
        self.storage_spec().is_write_active()
    }

    pub open spec fn pages_view(self) -> Seq<Seq<u8>> {
        self.storage_spec().pages_view()
    }

    pub open spec fn watermark(self) -> int {
        self.storage_spec().watermark()
    }

    pub open spec fn page_size_spec(self) -> int {
        self.storage_spec().page_size_spec()
    }

    pub open spec fn txn(self) -> u64 {
        self.storage_spec().txn()
    }

    /// The committed state of the named table.
    pub open spec fn table_at(self, name: Seq<u8>) -> Option<(u64, u8, Seq<(Seq<u8>, Seq<u8>)>)> {
        self.storage_spec().table_at(name)
    }

    pub(crate) fn storage_ref(&self) -> (r: &Storage)
        ensures
            r == self.storage_spec(),
    {
        &self.storage
    }

    pub(crate) fn storage_mut(&mut self) -> (r: &mut Storage)
        ensures
            *r == old(self).storage_spec(),
            final(self).storage_spec() == *final(r),
    {
        &mut self.storage
    }

    /// Mounts an already-mapped region as a database: a zeroed region is
    /// initialized fresh; a region this engine wrote before is validated
    /// and reused; anything else is `CorruptDatabase`.
    pub fn new(mem: memmap2::MmapMut, page_size: Option<usize>) -> (r: Result<Database, Error>)
        ensures
            crate::storage::fresh_mountable(crate::mem::region_of(mem), page_size) ==> r is Ok,
            match r {
                Ok(db) => {
                    &&& db.wf()
                    &&& !db.is_write_active()
                    &&& db.pages_view() == crate::storage::region_pages(
                        db.storage_spec().region_spec(),
                        db.page_size_spec(),
                    )
                    &&& db.storage_spec().region_spec().len() == crate::mem::region_of(mem).len()
                    &&& (crate::storage::header_all_zero(crate::mem::region_of(mem)) ==> {
                        &&& db.txn() == 0
                        &&& db.page_size_spec() == crate::storage::req_ps(page_size)
                        &&& db.watermark() == 1
                        &&& db.storage_spec().master() == Seq::<(Seq<u8>, Seq<u8>)>::empty()
                        &&& forall|n: Seq<u8>| db.table_at(n) is None
                    })
                    &&& (!crate::storage::header_all_zero(crate::mem::region_of(mem)) ==> {
                        let h = crate::storage::region_header(crate::mem::region_of(mem));
                        let a = crate::header::active_slot(h).unwrap();
                        &&& db.storage_spec().region_spec() == crate::mem::region_of(mem)
                        &&& crate::header::active_slot(h) is Some
                        &&& db.txn() == crate::header::slot_txn(h, a)
                        &&& db.page_size_spec() == crate::header::slot_page_size(h, a) as int
                        &&& db.watermark() == crate::header::slot_next(h, a) as int
                        &&& db.storage_spec().master() == crate::storage::tree_entries(
                            db.pages_view(),
                            crate::header::slot_root(h, a),
                            crate::header::slot_lvl(h, a),
                        )
                    })
                },
                Err(e) => {
                    &&& (e == Error::CorruptDatabase || e == Error::InvalidArgument)
                    &&& !crate::storage::fresh_mountable(crate::mem::region_of(mem), page_size)
                    &&& (e == Error::InvalidArgument ==> !crate::storage::requested_ps_ok(page_size)
                        || (page_size matches Some(p) && crate::header::active_slot(
                        crate::storage::region_header(crate::mem::region_of(mem)),
                    ) matches Some(a) && crate::header::slot_page_size(
                        crate::storage::region_header(crate::mem::region_of(mem)),
                        a,
                    ) != p as u64))
                },
            },
    {
        match Storage::new(mem, page_size) {
            Ok(storage) => Ok(Database { storage }),
            Err(e) => Err(e),
        }
    }

    /// Opens (creating if new) an ordered table. Opening the same name a
    /// second time returns the same table id and changes nothing.
    pub fn open_table(&mut self, name: &[u8]) -> (r: Result<Table, Error>)
        requires
            old(self).wf(),
        ensures
            final(self).wf(),
            final(self).page_size_spec() == old(self).page_size_spec(),
            final(self).is_write_active() == old(self).is_write_active(),
            final(self).pages_view().len() == old(self).pages_view().len(),
            final(self).watermark() >= old(self).watermark(),
            forall|q: int|
                1 <= q < old(self).watermark() ==> final(self).pages_view()[q] == old(
                    self,
                ).pages_view()[q],
            match r {
                Ok(t) => {
                    &&& t.name() == name@
                    &&& name@.len() > 0
                    &&& !old(self).is_write_active()
                    &&& (old(self).table_at(name@) is Some ==> old(self).table_at(
                        name@,
                    ).unwrap().0 == t.id_spec() && old(self).table_at(name@).unwrap().1
                        == TYPE_NORMAL && *final(self) == *old(self))
                    &&& (old(self).table_at(name@) is None ==> final(self).table_at(name@) == Some(
                        (t.id_spec(), TYPE_NORMAL, Seq::<(Seq<u8>, Seq<u8>)>::empty()),
                    ) && (forall|n2: Seq<u8>|
                        n2 != name@ ==> final(self).table_at(n2) == old(self).table_at(n2)) && (
                    forall|n2: Seq<u8>| #[trigger]
                        old(self).table_at(n2) is Some ==> old(self).table_at(n2).unwrap().0
                            != t.id_spec()))
                },
                Err(e) => {
                    &&& (e == Error::WriteConflict <==> old(self).is_write_active())
                    &&& forall|n2: Seq<u8>| final(self).table_at(n2) == old(self).table_at(n2)
                    &&& (e == Error::WriteConflict || e == Error::InvalidArgument || e
                        == Error::OutOfSpace)
                    &&& (e == Error::InvalidArgument <==> !old(self).is_write_active() && (
                    name@.len() == 0 || !entry_fits(
                        (name@, enc_desc(0, 0, 0, 0)),
                        old(self).page_size_spec(),
                    ) || (old(self).table_at(name@) matches Some((i2, t2, e2)) && t2
                        != TYPE_NORMAL)))
                    &&& (e == Error::OutOfSpace ==> old(self).txn() == u64::MAX || old(
                        self,
                    ).watermark() + tree_pages(
                        (old(self).storage_spec().master().len() + 1) as nat,
                    ) > old(self).pages_view().len() || exists|i: int|
                        0 <= i < old(self).storage_spec().master().len() && dec_desc(
                            #[trigger] old(self).storage_spec().master()[i].1,
                        ).unwrap().0 == u64::MAX)
                },
            },
    {
        match self.storage.open_table_raw(name, TYPE_NORMAL) {
            Ok(id) => Ok(Table { name: copy_bytes(name), id }),
            Err(e) => Err(e),
        }
    }

    /// Opens (creating if new) a multimap table, under the same contract
    /// as `open_table` with the multimap type tag.
    pub fn open_multimap_table(&mut self, name: &[u8]) -> (r: Result<MultiMapTable, Error>)
        requires
            old(self).wf(),
        ensures
            final(self).wf(),
            final(self).page_size_spec() == old(self).page_size_spec(),
            final(self).is_write_active() == old(self).is_write_active(),
            final(self).pages_view().len() == old(self).pages_view().len(),
            final(self).watermark() >= old(self).watermark(),
            forall|q: int|
                1 <= q < old(self).watermark() ==> final(self).pages_view()[q] == old(
                    self,
                ).pages_view()[q],
            match r {
                Ok(t) => {
                    &&& t.name() == name@
                    &&& name@.len() > 0
                    &&& !old(self).is_write_active()
                    &&& (old(self).table_at(name@) is Some ==> old(self).table_at(
                        name@,
                    ).unwrap().0 == t.id_spec() && old(self).table_at(name@).unwrap().1
                        == TYPE_MULTIMAP && *final(self) == *old(self))
                    &&& (old(self).table_at(name@) is None ==> final(self).table_at(name@) == Some(
                        (t.id_spec(), TYPE_MULTIMAP, Seq::<(Seq<u8>, Seq<u8>)>::empty()),
                    ) && (forall|n2: Seq<u8>|
                        n2 != name@ ==> final(self).table_at(n2) == old(self).table_at(n2)) && (
                    forall|n2: Seq<u8>| #[trigger]
                        old(self).table_at(n2) is Some ==> old(self).table_at(n2).unwrap().0
                            != t.id_spec()))
                },
                Err(e) => {
                    &&& (e == Error::WriteConflict <==> old(self).is_write_active())
                    &&& forall|n2: Seq<u8>| final(self).table_at(n2) == old(self).table_at(n2)
                    &&& (e == Error::WriteConflict || e == Error::InvalidArgument || e
                        == Error::OutOfSpace)
                    &&& (e == Error::InvalidArgument <==> !old(self).is_write_active() && (
                    name@.len() == 0 || !entry_fits(
                        (name@, enc_desc(0, 0, 0, 0)),
                        old(self).page_size_spec(),
                    ) || (old(self).table_at(name@) matches Some((i2, t2, e2)) && t2
                        != TYPE_MULTIMAP)))
                    &&& (e == Error::OutOfSpace ==> old(self).txn() == u64::MAX || old(
                        self,
                    ).watermark() + tree_pages(
                        (old(self).storage_spec().master().len() + 1) as nat,
                    ) > old(self).pages_view().len() || exists|i: int|
                        0 <= i < old(self).storage_spec().master().len() && dec_desc(
                            #[trigger] old(self).storage_spec().master()[i].1,
                        ).unwrap().0 == u64::MAX)
                },
            },
    {
        match self.storage.open_table_raw(name, TYPE_MULTIMAP) {
            Ok(id) => Ok(crate::mm::make_mm_table(copy_bytes(name), id)),
            Err(e) => Err(e),
        }
    }

    /// Page counts, master-tree height and the last committed
    /// transaction id.
    pub fn stats(&self) -> (r: Result<DbStats, Error>)
        requires
            self.wf(),
        ensures
            r matches Ok(st) && st.total_pages as int + 1 == self.pages_view().len()
                && st.used_pages as int == self.watermark() - 1 && st.free_pages as int
                == self.pages_view().len() - self.watermark() && st.tree_height
                == self.storage_spec().master_height_spec() && st.txn_id == self.txn(),
    {
        let (total, free, txn) = self.storage.stats_raw();
        let height = self.storage.master_height();
        proof {
            self.storage_spec().lemma_bounds();
        }
        Ok(
            DbStats {
                total_pages: total,
                used_pages: total - free,
                free_pages: free,
                tree_height: height,
                txn_id: txn,
            },
        )
    }

    /// Gives the mapped region back: what a process restart would find.
    /// Remounting it shows exactly the last committed state; everything a
    /// live write transaction held in memory is gone.
    pub fn into_region(self) -> (r: memmap2::MmapMut)
        ensures
            crate::mem::region_of(r) == self.storage_spec().region_spec(),
    {
        self.storage.into_region()
    }

    /// A short ASCII dump of the store's shape, for operator inspection.
    /// Its exact text carries no stability contract.
    pub fn print_debug(&self) -> (r: Vec<u8>)
        requires
            self.wf(),
        ensures
            r@.len() > 0,
    {
        let (total, free, txn) = self.storage.stats_raw();
        let mut out: Vec<u8> = Vec::new();
        // "pages total=", " free=", " txn=" as ASCII bytes.
        let mut label: Vec<u8> = Vec::new();
        label.push(112u8);
        label.push(97u8);
        label.push(103u8);
        label.push(101u8);
        label.push(115u8);
        label.push(32u8);
        label.push(116u8);
        label.push(111u8);
        label.push(116u8);
        label.push(97u8);
        label.push(108u8);
        label.push(61u8);
        push_label(&mut out, &label);
        push_u64(&mut out, total);
        let mut label: Vec<u8> = Vec::new();
        label.push(32u8);
        label.push(102u8);
        label.push(114u8);
        label.push(101u8);
        label.push(101u8);
        label.push(61u8);
        push_label(&mut out, &label);
        push_u64(&mut out, free);
        let mut label: Vec<u8> = Vec::new();
        label.push(32u8);
        label.push(116u8);
        label.push(120u8);
        label.push(110u8);
        label.push(61u8);
        push_label(&mut out, &label);
        push_u64(&mut out, txn);
        out.push(10u8);
        out
    }
}

fn push_label(out: &mut Vec<u8>, label: &Vec<u8>)
    ensures
        final(out)@.len() >= old(out)@.len(),
{
    let mut i: usize = 0;
    while i < label.len()
        invariant
            out@.len() >= old(out)@.len(),
        decreases label@.len() - i,
    {
        out.push(label[i]);
        i = i + 1;
    }
}

/// Appends the decimal digits of `n`.
fn push_u64(out: &mut Vec<u8>, n: u64)
    ensures
        final(out)@.len() > old(out)@.len(),
{
    let mut digits: Vec<u8> = Vec::new();
    let mut m: u64 = n;
    loop
        invariant_except_break
            true,
        ensures
            digits@.len() > 0,
        decreases m,
    {
        let d = (m % 10) as u8;
        digits.push(48 + d);
        m = m / 10;
        if m == 0 {
            break;
        }
    }
    let mut i: usize = digits.len();
    while i > 0
        invariant
            i <= digits@.len(),
            out@.len() >= old(out)@.len() + digits@.len() - i,
        decreases i,
    {
        i = i - 1;
        out.push(digits[i]);
    }
    proof {
        assert(out@.len() >= old(out)@.len() + digits@.len());
    }
}

/// A builder that fixes the page size before the region is mounted.
pub struct DatabaseBuilder {
    page_size: Option<usize>,
}

impl DatabaseBuilder {
    pub closed spec fn page_size_opt(self) -> Option<usize> {
        self.page_size
    }

    pub fn new() -> (r: Self)
        ensures
            r.page_size_opt() is None,
    {
        Self { page_size: None }
    }

    /// Fixes the page size; it must be a power of two. A non-power-of-two
    /// size is excluded here by precondition (callers that cannot prove it
    /// must test first); a size outside the supported range is still
    /// rejected with `InvalidArgument` when the region is mounted.
    pub fn set_page_size(&mut self, size: usize)
        requires
            crate::storage::pow2(size as int),
        ensures
            final(self).page_size_opt() == Some(size),
    {
        self.page_size = Some(size);
    }

    /// Mounts a region with the configured page size, as `Database::new`.
    pub fn create(&self, mem: memmap2::MmapMut) -> (r: Result<Database, Error>)
        ensures
            crate::storage::fresh_mountable(crate::mem::region_of(mem), self.page_size_opt()) ==> r is Ok,
            match r {
                Ok(db) => {
                    &&& db.wf()
                    &&& !db.is_write_active()
                    &&& db.pages_view() == crate::storage::region_pages(
                        db.storage_spec().region_spec(),
                        db.page_size_spec(),
                    )
                    &&& db.storage_spec().region_spec().len() == crate::mem::region_of(mem).len()
                    &&& (crate::storage::header_all_zero(crate::mem::region_of(mem)) ==> {
                        &&& db.txn() == 0
                        &&& db.page_size_spec() == crate::storage::req_ps(self.page_size_opt())
                        &&& db.watermark() == 1
                        &&& db.storage_spec().master() == Seq::<(Seq<u8>, Seq<u8>)>::empty()
                        &&& forall|n: Seq<u8>| db.table_at(n) is None
                    })
                    &&& (!crate::storage::header_all_zero(crate::mem::region_of(mem)) ==> {
                        let h = crate::storage::region_header(crate::mem::region_of(mem));
                        let a = crate::header::active_slot(h).unwrap();
                        &&& db.storage_spec().region_spec() == crate::mem::region_of(mem)
                        &&& crate::header::active_slot(h) is Some
                        &&& db.txn() == crate::header::slot_txn(h, a)
                        &&& db.page_size_spec() == crate::header::slot_page_size(h, a) as int
                        &&& db.watermark() == crate::header::slot_next(h, a) as int
                        &&& db.storage_spec().master() == crate::storage::tree_entries(
                            db.pages_view(),
                            crate::header::slot_root(h, a),
                            crate::header::slot_lvl(h, a),
                        )
                    })
                },
                Err(e) => {
                    &&& (e == Error::CorruptDatabase || e == Error::InvalidArgument)
                    &&& !crate::storage::fresh_mountable(crate::mem::region_of(mem), self.page_size_opt())
                    &&& (e == Error::InvalidArgument ==> !crate::storage::requested_ps_ok(self.page_size_opt())
                        || (self.page_size_opt() matches Some(p) && crate::header::active_slot(
                        crate::storage::region_header(crate::mem::region_of(mem)),
                    ) matches Some(a) && crate::header::slot_page_size(
                        crate::storage::region_header(crate::mem::region_of(mem)),
                        a,
                    ) != p as u64))
                },
            },
    {
        match &self.page_size {
            Some(p) => Database::new(mem, Some(*p)),
            None => Database::new(mem, None),
        }
    }
}

/// A handle onto an ordered table: a name and the stable table id.
pub struct Table {
    name: Vec<u8>,
    id: u64,
}

impl Table {
    pub closed spec fn name(self) -> Seq<u8> {
        self.name@
    }

    pub closed spec fn id_spec(self) -> u64 {
        self.id
    }

    /// The table's unique, stable id.
    pub fn get_id(&self) -> (r: u64)
        ensures
            r == self.id_spec(),
    {
        self.id
    }

    /// Starts the exclusive write transaction on this table, seeded with
    /// the table's committed entries.
    pub fn begin_write(&self, db: &mut Database) -> (r: Result<WriteTxn, Error>)
        requires
            old(db).wf(),
        ensures
            final(db).wf(),
            final(db).pages_view() == old(db).pages_view(),
            final(db).watermark() == old(db).watermark(),
            final(db).page_size_spec() == old(db).page_size_spec(),
            final(db).txn() == old(db).txn(),
            forall|n2: Seq<u8>| final(db).table_at(n2) == old(db).table_at(n2),
            match r {
                Ok(txn) => {
                    &&& !old(db).is_write_active()
                    &&& final(db).is_write_active()
                    &&& txn.inv()
                    &&& txn.name() == self.name()
                    &&& txn.page_size_spec() == old(db).page_size_spec()
                    &&& old(db).table_at(self.name()) matches Some((id, t, es)) && t == TYPE_NORMAL
                        && txn.view() == es
                },
                Err(e) => {
                    &&& final(db).is_write_active() == old(db).is_write_active()
                    &&& (e == Error::WriteConflict <==> old(db).is_write_active())
                    &&& (e == Error::InvalidArgument <==> !old(db).is_write_active() && !(old(
                        db,
                    ).table_at(self.name()) matches Some((id, t, es)) && t == TYPE_NORMAL))
                    &&& (e == Error::WriteConflict || e == Error::InvalidArgument)
                },
            },
    {
        match db.storage.acquire_writer() {
            Ok(()) => {},
            Err(e) => {
                return Err(e);
            },
        }
        let pinned = self.pin_normal(db);
        let (root, lvl) = match pinned {
            Some(x) => x,
            None => {
                db.storage.release_writer();
                return Err(Error::InvalidArgument);
            },
        };
        let pending = db.storage.read_pinned(root, lvl);
        proof {
            db.storage_spec().lemma_bounds();
        }
        Ok(
            WriteTxn {
                name: copy_bytes(self.name.as_slice()),
                pending,
                page_size: db.storage.page_size_exec(),
            },
        )
    }

    /// Pins the committed root of this table when it exists with the
    /// ordered-table type.
    fn pin_normal(&self, db: &Database) -> (r: Option<(u64, u64)>)
        requires
            db.wf(),
        ensures
            match r {
                Some((root, lvl)) => {
                    &&& db.table_at(self.name()) matches Some((id, t, es)) && t == TYPE_NORMAL
                        && es == crate::storage::tree_entries(db.pages_view(), root, lvl)
                    &&& (root != NO_ROOT ==> wf_below(
                        db.pages_view(),
                        root as int,
                        lvl as nat,
                        db.watermark(),
                    ))
                    &&& sorted_kv(crate::storage::tree_entries(db.pages_view(), root, lvl))
                    &&& entries_fit(
                        crate::storage::tree_entries(db.pages_view(), root, lvl),
                        db.page_size_spec(),
                    )
                },
                None => !(db.table_at(self.name()) matches Some((id, t, es)) && t == TYPE_NORMAL),
            },
    {
        match db.storage.pin_table(self.name.as_slice()) {
            Some((_id, t, root, lvl)) => {
                if t == TYPE_NORMAL {
                    Some((root, lvl))
                } else {
                    None
                }
            },
            None => None,
        }
    }

    /// Pins a read snapshot of this table. Readers never block the writer
    /// and are never blocked; the snapshot stays frozen for the
    /// transaction's whole lifetime, whatever commits later.
    pub fn read_transaction(&self, db: &Database) -> (r: Result<ReadTxn, Error>)
        requires
            db.wf(),
        ensures
            match r {
                Ok(rt) => {
                    &&& rt.valid(*db)
                    &&& db.table_at(self.name()) matches Some((id, t, es)) && t == TYPE_NORMAL
                        && rt.view(*db) == es
                },
                Err(e) => e == Error::InvalidArgument && !(db.table_at(self.name()) matches Some(
                    (id, t, es),
                ) && t == TYPE_NORMAL),
            },
    {
        match self.pin_normal(db) {
            Some((root, lvl)) => Ok(ReadTxn { root, lvl }),
            None => Err(Error::InvalidArgument),
        }
    }
}

/// The exclusive write transaction of an ordered table: it accumulates
/// the table's next state and publishes it atomically on commit.
pub struct WriteTxn {
    name: Vec<u8>,
    pending: Vec<Entry>,
    page_size: usize,
}

impl WriteTxn {
    /// The state the table will hold if this transaction commits.
    pub closed spec fn view(self) -> Seq<(Seq<u8>, Seq<u8>)> {
        kv_view(self.pending@)
    }

    pub closed spec fn name(self) -> Seq<u8> {
        self.name@
    }

    pub closed spec fn page_size_spec(self) -> int {
        self.page_size as int
    }

    pub closed spec fn inv(self) -> bool {
        &&& sorted_kv(self.view())
        &&& entries_fit(self.view(), self.page_size as int)
        &&& MIN_PAGE_SIZE <= self.page_size <= MAX_PAGE_SIZE
    }

    /// Stores `value` under `key` in the pending state: last write wins.
    /// An entry too large for a page is rejected with `InvalidArgument`
    /// and changes nothing.
    pub fn insert(&mut self, key: &[u8], value: &[u8]) -> (r: Result<(), Error>)
        requires
            old(self).inv(),
        ensures
            final(self).inv(),
            final(self).name() == old(self).name(),
            final(self).page_size_spec() == old(self).page_size_spec(),
            match r {
                Ok(()) => {
                    &&& entry_fits((key@, value@), old(self).page_size_spec())
                    &&& final(self).view() == kv_insert(old(self).view(), key@, value@)
                    &&& kv_lookup(final(self).view(), key@) == Some(value@)
                    &&& forall|k2: Seq<u8>|
                        k2 != key@ ==> kv_lookup(final(self).view(), k2) == kv_lookup(
                            old(self).view(),
                            k2,
                        )
                },
                Err(e) => {
                    &&& e == Error::InvalidArgument
                    &&& !entry_fits((key@, value@), old(self).page_size_spec())
                    &&& *final(self) == *old(self)
                },
            },
    {
        if !check_entry_fits(key, value, self.page_size) {
            return Err(Error::InvalidArgument);
        }
        let ghost v0 = self.view();
        kv_store(&mut self.pending, copy_bytes(key), copy_bytes(value));
        proof {
            lemma_kv_insert_sorted(v0, key@, value@);
            lemma_kv_lookup_insert_same(v0, key@, value@);
            crate::entries::lemma_kv_insert_elems(v0, key@, value@);
            assert forall|j: int| 0 <= j < self.view().len() implies entry_fits(
                #[trigger] self.view()[j],
                self.page_size as int,
            ) by {
                if self.view()[j] != (key@, value@) {
                    let w = choose|w: int| 0 <= w < v0.len() && self.view()[j] == #[trigger] v0[w];
                }
            }
            assert forall|k2: Seq<u8>| k2 != key@ implies kv_lookup(self.view(), k2) == kv_lookup(
                v0,
                k2,
            ) by {
                lemma_kv_lookup_insert_other(v0, key@, value@, k2);
            }
        }
        Ok(())
    }

    /// Looks a key up in the pending state.
    pub fn get(&self, key: &[u8]) -> (r: Option<Vec<u8>>)
        ensures
            match r {
                Some(v) => kv_lookup(self.view(), key@) == Some(v@),
                None => kv_lookup(self.view(), key@) is None,
            },
    {
        match kv_find(&self.pending, key) {
            Some(i) => Some(copy_bytes(self.pending[i].value.as_slice())),
            None => None,
        }
    }

    /// Commits: the pending state becomes the table's committed state in
    /// one atomic step; every other table is untouched. `OutOfSpace`
    /// aborts the transaction instead, leaving all committed data intact.
    /// Either way the exclusive writer slot is released.
    pub fn commit(self, db: &mut Database) -> (r: Result<(), Error>)
        requires
            old(db).wf(),
            self.inv(),
            old(db).is_write_active(),
            self.page_size_spec() == old(db).page_size_spec(),
            old(db).table_at(self.name()) matches Some((id, t, es)) && t == TYPE_NORMAL,
        ensures
            final(db).wf(),
            !final(db).is_write_active(),
            final(db).page_size_spec() == old(db).page_size_spec(),
            final(db).pages_view().len() == old(db).pages_view().len(),
            final(db).watermark() >= old(db).watermark(),
            forall|q: int|
                1 <= q < old(db).watermark() ==> final(db).pages_view()[q] == old(
                    db,
                ).pages_view()[q],
            match r {
                Ok(()) => {
                    &&& final(db).txn() == old(db).txn() + 1
                    &&& final(db).table_at(self.name()) == Some(
                        (
                            old(db).table_at(self.name()).unwrap().0,
                            TYPE_NORMAL,
                            self.view(),
                        ),
                    )
                    &&& forall|n2: Seq<u8>|
                        n2 != self.name() ==> final(db).table_at(n2) == old(db).table_at(n2)
                },
                Err(e) => {
                    &&& e == Error::OutOfSpace
                    &&& final(db).txn() == old(db).txn()
                    &&& forall|n2: Seq<u8>| final(db).table_at(n2) == old(db).table_at(n2)
                    &&& (old(db).txn() == u64::MAX || old(db).watermark() + tree_pages(
                        self.view().len() as nat,
                    ) + tree_pages(old(db).storage_spec().master().len() as nat) > old(
                        db,
                    ).pages_view().len())
                },
            },
    {
        db.storage.commit_table(self.name.as_slice(), &self.pending)
    }

    /// Abandons the transaction: nothing was published, so nothing
    /// changes; the exclusive writer slot is released.
    pub fn abort(self, db: &mut Database)
        requires
            old(db).wf(),
        ensures
            final(db).wf(),
            !final(db).is_write_active(),
            final(db).pages_view() == old(db).pages_view(),
            final(db).txn() == old(db).txn(),
            forall|n2: Seq<u8>| final(db).table_at(n2) == old(db).table_at(n2),
    {
        db.storage.release_writer();
    }
}

/// A read snapshot: the root the table had when the transaction started.
/// Pages reachable from a committed root are never rewritten, so the view
/// through this root is frozen however many writes commit afterwards.
pub struct ReadTxn {
    root: u64,
    lvl: u64,
}

impl ReadTxn {
    /// The snapshot is still backed by well-formed pages of `db`; commits
    /// preserve this (see `lemma_read_snapshot_isolated`).
    pub open spec fn valid(self, db: Database) -> bool {
        &&& (self.root_spec() != NO_ROOT ==> wf_below(
            db.pages_view(),
            self.root_spec() as int,
            self.lvl_spec() as nat,
            db.watermark(),
        ))
        &&& sorted_kv(self.view(db))
    }

    pub closed spec fn root_spec(self) -> u64 {
        self.root
    }

    pub closed spec fn lvl_spec(self) -> u64 {
        self.lvl
    }

    /// What the snapshot holds.
    pub open spec fn view(self, db: Database) -> Seq<(Seq<u8>, Seq<u8>)> {
        crate::storage::tree_entries(db.pages_view(), self.root_spec(), self.lvl_spec())
    }

    /// The number of entries the snapshot holds.
    pub fn len(&self, db: &Database) -> (r: Result<usize, Error>)
        requires
            db.wf(),
            self.valid(*db),
        ensures
            r matches Ok(n) && n == self.view(*db).len(),
    {
        let es = db.storage.read_pinned(self.root, self.lvl);
        Ok(es.len())
    }

    /// Point lookup in the snapshot.
    pub fn get(&self, db: &Database, key: &[u8]) -> (r: Result<Option<Vec<u8>>, Error>)
        requires
            db.wf(),
            self.valid(*db),
        ensures
            match r {
                Ok(Some(v)) => kv_lookup(self.view(*db), key@) == Some(v@),
                Ok(None) => kv_lookup(self.view(*db), key@) is None,
                Err(e) => false,
            },
    {
        let es = db.storage.read_pinned(self.root, self.lvl);
        match kv_find(&es, key) {
            Some(i) => Ok(Some(copy_bytes(es[i].value.as_slice()))),
            None => Ok(None),
        }
    }

    /// The whole snapshot in ascending key order.
    pub fn iterate(&self, db: &Database) -> (r: Result<Vec<Entry>, Error>)
        requires
            db.wf(),
            self.valid(*db),
        ensures
            r matches Ok(es) && kv_view(es@) == self.view(*db) && sorted_kv(kv_view(es@)),
    {
        Ok(db.storage.read_pinned(self.root, self.lvl))
    }
}

/// Isolation: a snapshot pinned before a commit observes nothing of it.
/// A commit only writes pages at or above the watermark it started with
/// and only grows the watermark, and that is exactly what this law needs:
/// the snapshot stays valid and its view is bit-for-bit the old one.
pub proof fn lemma_read_snapshot_isolated(rt: ReadTxn, db1: Database, db2: Database)
    requires
        rt.valid(db1),
        db2.watermark() >= db1.watermark(),
        db2.watermark() <= db2.pages_view().len(),
        forall|q: int| 1 <= q < db1.watermark() ==> db2.pages_view()[q] == db1.pages_view()[q],
    ensures
        rt.valid(db2),
        rt.view(db2) == rt.view(db1),
{
    if rt.root_spec() != NO_ROOT {
        lemma_subtree_frame(
            db1.pages_view(),
            db2.pages_view(),
            rt.root_spec() as int,
            rt.lvl_spec() as nat,
            db1.watermark(),
        );
        lemma_wf_mono(
            db2.pages_view(),
            rt.root_spec() as int,
            rt.lvl_spec() as nat,
            db1.watermark(),
            db2.watermark(),
        );
    } else {
        assert(rt.view(db2) =~= rt.view(db1));
    }
}

} // verus!
