//! Catalogs: typed collections of records with per-record exclusive locks,
//! an append-only change log, and prototype propagation.
//!
//! A catalog's state lives inside a [`Library`](crate::library::Library);
//! the public [`Catalog`] value is a lightweight handle naming one catalog
//! of that library.  Every mutation appends exactly one
//! [`ChangeRecord`] per touched record, stamped with a library-wide
//! strictly increasing log sequence number (LSN).

use vstd::prelude::*;

use crate::library::{lemma_wf_after_catalog_change, Library, LibraryModel, Sequencer};
use crate::record::{merged_fields, Locked, Record, RecordId, ValueModel};

verus! {

/// Internal envelope around a user record, carrying its prototype linkage.
/// Wrappers are immutable snapshots: a commit replaces the wrapper stored
/// for a record id rather than mutating it.
pub struct RecordWrapper {
    /// The record this one inherits from, if any.
    pub prototype_id: Option<RecordId>,
    /// The records that inherit from this one.
    pub prototype_instances: Vec<RecordId>,
    /// The user payload.
    pub inner: Record,
}

/// Mathematical value of a [`RecordWrapper`].
#[verifier::ext_equal]
pub struct WrapperModel {
    pub prototype_id: Option<int>,
    pub prototype_instances: Seq<int>,
    pub inner: Seq<ValueModel>,
}

impl View for RecordWrapper {
    type V = WrapperModel;

    open spec fn view(&self) -> WrapperModel {
        WrapperModel {
            prototype_id: match self.prototype_id {
                Some(p) => Some(p.0 as int),
                None => None,
            },
            prototype_instances: self.prototype_instances@.map_values(|r: RecordId| r.0 as int),
            inner: self.inner@,
        }
    }
}

impl Clone for RecordWrapper {
    fn clone(&self) -> (res: Self)
        ensures
            res@ == self@,
    {
        let res = RecordWrapper {
            prototype_id: self.prototype_id,
            prototype_instances: self.prototype_instances.clone(),
            inner: self.inner.clone(),
        };
        proof {
            assert(res.prototype_instances@ =~= self.prototype_instances@);
            assert(res@ =~= self@);
        }
        res
    }
}

/// Immutable entry appended to a catalog's change log on every create and
/// commit.  `old_record` is absent exactly when the entry records a
/// creation.
pub struct ChangeRecord {
    pub record_id: RecordId,
    pub lsn: u64,
    pub old_record: Option<RecordWrapper>,
    pub new_record: RecordWrapper,
}

/// Mathematical value of a [`ChangeRecord`].
#[verifier::ext_equal]
pub struct ChangeModel {
    pub record_id: int,
    pub lsn: int,
    pub old_record: Option<WrapperModel>,
    pub new_record: WrapperModel,
}

impl View for ChangeRecord {
    type V = ChangeModel;

    open spec fn view(&self) -> ChangeModel {
        ChangeModel {
            record_id: self.record_id.0 as int,
            lsn: self.lsn as int,
            old_record: match self.old_record {
                Some(w) => Some(w@),
                None => None,
            },
            new_record: self.new_record@,
        }
    }
}

/// Per-catalog state: current wrappers indexed by record id, a parallel
/// sequence of lock flags, and the change log.
pub struct CatalogState {
    pub records: Vec<RecordWrapper>,
    pub locks: Vec<bool>,
    pub change_log: Vec<ChangeRecord>,
}

/// Mathematical value of a whole catalog.
#[verifier::ext_equal]
pub struct CatalogModel {
    pub records: Seq<WrapperModel>,
    pub locks: Seq<bool>,
    pub change_log: Seq<ChangeModel>,
}

impl View for CatalogState {
    type V = CatalogModel;

    open spec fn view(&self) -> CatalogModel {
        CatalogModel {
            records: self.records@.map_values(|w: RecordWrapper| w@),
            locks: self.locks@,
            change_log: self.change_log@.map_values(|c: ChangeRecord| c@),
        }
    }
}

/// Bidirectional prototype linkage: a record's prototype has a smaller id
/// and lists the record among its instances; every listed instance has a
/// greater id and points back at its prototype; instance lists never
/// repeat an id.
pub open spec fn records_links_wf(records: Seq<WrapperModel>) -> bool {
    &&& forall|r: int|
        0 <= r < records.len() ==> match (#[trigger] records[r]).prototype_id {
            Some(p) => 0 <= p < r && records[p].prototype_instances.contains(r),
            None => true,
        }
    &&& forall|r: int, j: int|
        0 <= r < records.len() && 0 <= j < records[r].prototype_instances.len() ==> {
            let c = #[trigger] records[r].prototype_instances[j];
            &&& r < c < records.len()
            &&& records[c].prototype_id == Some(r)
        }
    &&& forall|r: int|
        0 <= r < records.len() ==> (#[trigger] records[r]).prototype_instances.no_duplicates()
}

/// Holds when `r` inherits, directly or through intermediate records, from
/// `a`.  Prototype links always point to a smaller record id, so the chain
/// above `r` is strictly decreasing.
pub open spec fn is_descendant(records: Seq<WrapperModel>, r: int, a: int) -> bool
    decreases r,
{
    if 0 <= r < records.len() {
        match records[r].prototype_id {
            Some(p) => 0 <= p < r && (p == a || is_descendant(records, p, a)),
            None => false,
        }
    } else {
        false
    }
}

impl CatalogModel {
    /// Lock flags parallel the records, and the prototype linkage is
    /// bidirectionally consistent.
    pub open spec fn links_wf(self) -> bool {
        &&& self.locks.len() == self.records.len()
        &&& records_links_wf(self.records)
    }

    /// The change log only names records of this catalog, and its LSNs are
    /// strictly increasing in append order.
    pub open spec fn log_wf(self) -> bool {
        &&& forall|i: int|
            0 <= i < self.change_log.len() ==> 0 <= (#[trigger] self.change_log[i]).record_id
                < self.records.len()
        &&& forall|i: int, j: int|
            0 <= i < j < self.change_log.len() ==> (#[trigger] self.change_log[i]).lsn < (
            #[trigger] self.change_log[j]).lsn
    }

    pub open spec fn wf(self) -> bool {
        self.links_wf() && self.log_wf()
    }

    /// The catalog after a record is created: one more wrapper with no
    /// instances yet, one more (unheld) lock flag, and one creation entry
    /// in the change log.
    pub open spec fn after_create(
        self,
        prototype_id: Option<int>,
        inner: Seq<ValueModel>,
        lsn: int,
    ) -> CatalogModel {
        let w = WrapperModel { prototype_id, prototype_instances: Seq::empty(), inner };
        CatalogModel {
            records: self.records.push(w),
            locks: self.locks.push(false),
            change_log: self.change_log.push(
                ChangeModel {
                    record_id: self.records.len() as int,
                    lsn,
                    old_record: None,
                    new_record: w,
                },
            ),
        }
    }

    /// The catalog after `child` is linked into the instance list of its
    /// prototype `p`.
    pub open spec fn with_instance_linked(self, p: int, child: int) -> CatalogModel {
        let w = self.records[p];
        CatalogModel {
            records: self.records.update(
                p,
                WrapperModel {
                    prototype_id: w.prototype_id,
                    prototype_instances: w.prototype_instances.push(child),
                    inner: w.inner,
                },
            ),
            locks: self.locks,
            change_log: self.change_log,
        }
    }

    /// The catalog with one lock flag set or cleared.
    pub open spec fn with_lock(self, id: int, held: bool) -> CatalogModel {
        CatalogModel {
            records: self.records,
            locks: self.locks.update(id, held),
            change_log: self.change_log,
        }
    }
}

/// Creating a record with no prototype preserves the linkage invariant.
proof fn lemma_links_wf_after_root_create(cat: CatalogModel, inner: Seq<ValueModel>, lsn: int)
    requires
        cat.links_wf(),
    ensures
        cat.after_create(None, inner, lsn).links_wf(),
{
    let post = cat.after_create(None, inner, lsn);
    let n = cat.records.len() as int;
    assert forall|r: int|
        0 <= r < post.records.len() implies match (#[trigger] post.records[r]).prototype_id {
        Some(p) => 0 <= p < r && post.records[p].prototype_instances.contains(r),
        None => true,
    } by {
        if r < n {
            assert(post.records[r] == cat.records[r]);
            match cat.records[r].prototype_id {
                Some(p) => {
                    assert(post.records[p] == cat.records[p]);
                },
                None => {},
            }
        }
    }
    assert forall|r: int, j: int|
        0 <= r < post.records.len() && 0 <= j < post.records[r].prototype_instances.len() implies {
        let c = #[trigger] post.records[r].prototype_instances[j];
        &&& r < c < post.records.len()
        &&& post.records[c].prototype_id == Some(r)
    } by {
        assert(r < n);
        assert(post.records[r] == cat.records[r]);
        let c = cat.records[r].prototype_instances[j];
        assert(r < c < cat.records.len());
        assert(post.records[c] == cat.records[c]);
    }
    assert forall|r: int|
        0 <= r < post.records.len() implies (
    #[trigger] post.records[r]).prototype_instances.no_duplicates() by {
        if r < n {
            assert(post.records[r] == cat.records[r]);
        } else {
            assert(post.records[r].prototype_instances =~= Seq::<int>::empty());
        }
    }
}

/// Creating a record from a prototype and then linking it into the
/// prototype's instance list preserves the linkage invariant.
proof fn lemma_links_wf_after_prototype_create(cat: CatalogModel, p: int, lsn: int)
    requires
        cat.links_wf(),
        0 <= p < cat.records.len(),
    ensures
        cat.after_create(Some(p), cat.records[p].inner, lsn).with_instance_linked(
            p,
            cat.records.len() as int,
        ).links_wf(),
{
    let n = cat.records.len() as int;
    let post = cat.after_create(Some(p), cat.records[p].inner, lsn).with_instance_linked(p, n);
    let mid = cat.after_create(Some(p), cat.records[p].inner, lsn);
    assert(post.records.len() == n + 1);
    assert(post.records[p].prototype_instances == cat.records[p].prototype_instances.push(n));
    assert forall|r: int|
        0 <= r < post.records.len() implies match (#[trigger] post.records[r]).prototype_id {
        Some(q) => 0 <= q < r && post.records[q].prototype_instances.contains(r),
        None => true,
    } by {
        if r == n {
            assert(post.records[r].prototype_id == Some(p));
            let list = post.records[p].prototype_instances;
            assert(list[list.len() - 1] == n);
            assert(list.contains(n));
        } else {
            assert(post.records[r].prototype_id == cat.records[r].prototype_id);
            match cat.records[r].prototype_id {
                Some(q) => {
                    assert(cat.records[q].prototype_instances.contains(r));
                    if q == p {
                        let list = cat.records[p].prototype_instances;
                        let k = choose|k: int| 0 <= k < list.len() && list[k] == r;
                        assert(list.push(n)[k] == r);
                        assert(post.records[p].prototype_instances.contains(r));
                    } else {
                        assert(post.records[q] == cat.records[q]);
                    }
                },
                None => {},
            }
        }
    }
    assert forall|r: int, j: int|
        0 <= r < post.records.len() && 0 <= j < post.records[r].prototype_instances.len() implies {
        let c = #[trigger] post.records[r].prototype_instances[j];
        &&& r < c < post.records.len()
        &&& post.records[c].prototype_id == Some(r)
    } by {
        if r == n {
            assert(post.records[r].prototype_instances =~= Seq::<int>::empty());
        } else if r == p {
            let list = cat.records[p].prototype_instances;
            let c = post.records[r].prototype_instances[j];
            if j < list.len() {
                assert(c == list[j]);
                assert(p < c < cat.records.len());
                assert(post.records[c].prototype_id == cat.records[c].prototype_id);
            } else {
                assert(c == n);
                assert(post.records[n].prototype_id == Some(p));
            }
        } else {
            assert(post.records[r] == cat.records[r]);
            let c = cat.records[r].prototype_instances[j];
            assert(r < c < cat.records.len());
            assert(post.records[c].prototype_id == cat.records[c].prototype_id);
        }
    }
    assert forall|r: int|
        0 <= r < post.records.len() implies (
    #[trigger] post.records[r]).prototype_instances.no_duplicates() by {
        if r == n {
            assert(post.records[r].prototype_instances =~= Seq::<int>::empty());
        } else if r == p {
            let list = cat.records[p].prototype_instances;
            assert(list.no_duplicates());
            assert forall|k: int| 0 <= k < list.len() implies list[k] != n by {
                assert(p < list[k] < cat.records.len());
            }
            assert(list.push(n).no_duplicates());
        } else {
            assert(post.records[r] == cat.records[r]);
        }
    }
}

/// Handle naming one catalog of a library.  Obtained from
/// [`Library::checkout`]; any number of handles may name the same catalog.
#[derive(Clone, Copy)]
pub struct Catalog {
    pub index: usize,
}

impl View for Catalog {
    type V = int;

    open spec fn view(&self) -> int {
        self.index as int
    }
}

impl Catalog {
    /// The catalog this handle names, within a given library.
    pub open spec fn model(self, library: LibraryModel) -> CatalogModel {
        library.catalogs[self@]
    }

    /// Whether this handle names a catalog of `library`.
    pub open spec fn valid(self, library: LibraryModel) -> bool {
        0 <= self@ < library.catalogs.len()
    }

    /// Appends a fresh wrapper and its creation log entry; shared tail of
    /// `create` and `create_from_prototype`.
    fn create_internal(&self, library: &mut Library, record_wrapper: RecordWrapper) -> (id:
        RecordId)
        requires
            self.valid(old(library)@),
            old(library)@.next_lsn < u64::MAX,
            record_wrapper@.prototype_instances == Seq::<int>::empty(),
        ensures
            id.0 as int == self.model(old(library)@).records.len(),
            final(library)@ == old(library)@.with_catalog(
                self@,
                self.model(old(library)@).after_create(
                    record_wrapper@.prototype_id,
                    record_wrapper@.inner,
                    old(library)@.next_lsn,
                ),
            ).with_next_lsn(old(library)@.next_lsn + 1),
    {
        let ghost pre = library@;
        let lsn = library.sequencer.next();
        let snapshot = record_wrapper.clone();
        let state = &mut library.catalogs[self.index];
        let id = state.records.len();
        state.records.push(record_wrapper);
        state.locks.push(false);
        state.change_log.push(
            ChangeRecord { record_id: RecordId(id), lsn, old_record: None, new_record: snapshot },
        );
        proof {
            let target = pre.with_catalog(
                self@,
                pre.catalogs[self@].after_create(
                    record_wrapper@.prototype_id,
                    record_wrapper@.inner,
                    pre.next_lsn,
                ),
            ).with_next_lsn(pre.next_lsn + 1);
            assert(library@.catalogs =~~= target.catalogs);
            assert(library@ =~~= target);
        }
        RecordId(id)
    }

    /// Appends a new record with no prototype and logs its creation.
    /// Returns the record's id: the next dense index of this catalog.
    pub fn create(&self, library: &mut Library, record: Record) -> (id: RecordId)
        requires
            old(library)@.wf(),
            self.valid(old(library)@),
            old(library)@.next_lsn < u64::MAX,
        ensures
            final(library)@.wf(),
            id.0 as int == self.model(old(library)@).records.len(),
            final(library)@ == old(library)@.with_catalog(
                self@,
                self.model(old(library)@).after_create(None, record@, old(library)@.next_lsn),
            ).with_next_lsn(old(library)@.next_lsn + 1),
    {
        let ghost pre = library@;
        let record_wrapper = RecordWrapper {
            prototype_id: None,
            prototype_instances: Vec::new(),
            inner: record,
        };
        proof {
            assert(record_wrapper@.prototype_instances =~= Seq::<int>::empty());
        }
        let id = self.create_internal(library, record_wrapper);
        proof {
            lemma_links_wf_after_root_create(pre.catalogs[self@], record@, pre.next_lsn);
            lemma_wf_after_catalog_change(pre, library@, self@);
        }
        id
    }

    /// Creates a new record inheriting from `prototype_id`: the child
    /// starts as a copy of the prototype's current value, points back at
    /// it, and is linked into its instance list.  The prototype must not be
    /// exclusively held by another caller.
    pub fn create_from_prototype(&self, library: &mut Library, prototype_id: RecordId) -> (id:
        RecordId)
        requires
            old(library)@.wf(),
            self.valid(old(library)@),
            prototype_id.0 < self.model(old(library)@).records.len(),
            !self.model(old(library)@).locks[prototype_id.0 as int],
            old(library)@.next_lsn < u64::MAX,
        ensures
            final(library)@.wf(),
            id.0 as int == self.model(old(library)@).records.len(),
            final(library)@ == old(library)@.with_catalog(
                self@,
                self.model(old(library)@).after_create(
                    Some(prototype_id.0 as int),
                    self.model(old(library)@).records[prototype_id.0 as int].inner,
                    old(library)@.next_lsn,
                ).with_instance_linked(
                    prototype_id.0 as int,
                    self.model(old(library)@).records.len() as int,
                ),
            ).with_next_lsn(old(library)@.next_lsn + 1),
    {
        let ghost pre = library@;
        let p = prototype_id.0;
        // Exclusive lock on the prototype for the duration of the call.
        self.lock_flag(library, prototype_id, true);
        proof {
            assert(library@ == pre.with_catalog(
                self@,
                pre.catalogs[self@].with_lock(p as int, true),
            ));
            assert(library@.catalogs.len() == pre.catalogs.len());
            assert(library.catalogs@.len() == library@.catalogs.len());
            assert(library@.catalogs[self@].records == pre.catalogs[self@].records);
            assert(library.catalogs@[self@]@ == library@.catalogs[self@]);
        }
        let instance = {
            let state = &library.catalogs[self.index];
            proof {
                assert(state@.records.len() == state.records@.len());
            }
            state.records[p].inner.clone()
        };
        let record_wrapper = RecordWrapper {
            prototype_id: Some(prototype_id),
            prototype_instances: Vec::new(),
            inner: instance,
        };
        proof {
            assert(record_wrapper@.prototype_instances =~= Seq::<int>::empty());
        }
        let instance_id = self.create_internal(library, record_wrapper);
        let ghost created_lib = library@;
        proof {
            assert(library@.catalogs.len() == pre.catalogs.len());
            assert(library.catalogs@.len() == library@.catalogs.len());
            assert(library.catalogs@[self@]@ == library@.catalogs[self@]);
            assert(library@.catalogs[self@].records.len() == pre.catalogs[
                self@
            ].records.len() + 1);
        }
        {
            let state = &mut library.catalogs[self.index];
            proof {
                assert(state.records@.len() == state@.records.len());
            }
            let parent = &mut state.records[p];
            parent.prototype_instances.push(instance_id);
        }
        proof {
            let linked = created_lib.with_catalog(
                self@,
                created_lib.catalogs[self@].with_instance_linked(p as int, instance_id.0 as int),
            );
            assert(library@.catalogs =~~= linked.catalogs);
            assert(library@ =~~= linked);
        }
        // Release the prototype.
        self.lock_flag(library, prototype_id, false);
        proof {
            let cat0 = pre.catalogs[self@];
            let target_cat = cat0.after_create(
                Some(p as int),
                cat0.records[p as int].inner,
                pre.next_lsn,
            ).with_instance_linked(p as int, cat0.records.len() as int);
            let target = pre.with_catalog(self@, target_cat).with_next_lsn(pre.next_lsn + 1);
            assert(library@.catalogs[self@].locks =~= target_cat.locks);
            assert(library@.catalogs =~~= target.catalogs);
            assert(library@ =~~= target);
            lemma_links_wf_after_prototype_create(cat0, p as int, pre.next_lsn);
            lemma_wf_after_catalog_change(pre, library@, self@);
        }
        instance_id
    }

    /// Replaces the record named by `locked` with `new_record` and
    /// propagates the change through its prototype subtree, depth first:
    /// each descendant integrates the change field by field, keeping its
    /// local overrides, under its own transiently held lock.  Every touched
    /// record — the committed one first — gets exactly one change log
    /// entry carrying its pre-commit and post-commit wrappers and a fresh
    /// LSN.  The caller must hold the lock on the committed record (and
    /// release it afterwards via `unlock`); no descendant may be
    /// exclusively held, or the commit would block forever.
    pub fn commit(&self, library: &mut Library, locked: &Locked, new_record: Record)
        requires
            old(library)@.wf(),
            self.valid(old(library)@),
            locked.id.0 < self.model(old(library)@).records.len(),
            self.model(old(library)@).locks[locked.id.0 as int],
            forall|r: int|
                0 <= r < self.model(old(library)@).records.len() && r != locked.id.0 as int
                    && is_descendant(
                    self.model(old(library)@).records,
                    r,
                    locked.id.0 as int,
                ) ==> !(#[trigger] self.model(old(library)@).locks[r]),
            old(library)@.next_lsn + self.model(old(library)@).records.len() <= u64::MAX,
        ensures
            final(library)@.wf(),
            final(library)@.names == old(library)@.names,
            final(library)@.catalogs.len() == old(library)@.catalogs.len(),
            forall|d: int|
                0 <= d < old(library)@.catalogs.len() && d != self@ ==> (
                #[trigger] final(library)@.catalogs[d]) == old(library)@.catalogs[d],
            final(library)@.catalogs[self@].locks == self.model(old(library)@).locks,
            records_after_commit(
                self.model(old(library)@).records,
                final(library)@.catalogs[self@].records,
                locked.id.0 as int,
                new_record@,
            ),
            log_after_commit(
                self.model(old(library)@),
                final(library)@.catalogs[self@],
                locked.id.0 as int,
                old(library)@.next_lsn,
            ),
            final(library)@.next_lsn == old(library)@.next_lsn + (
            final(library)@.catalogs[self@].change_log.len()
                - self.model(old(library)@).change_log.len()),
            lib_commit_rel(old(library)@, final(library)@, self@, locked.id.0 as int, new_record@),
    {
        let ghost pre = library@;
        let ghost orig = pre.catalogs[self@];
        let ghost t0 = locked.id.0 as int;
        proof {
            assert(links_match(orig.records, orig.records));
            assert(commit_batch_wf(orig, orig, t0, pre.next_lsn));
        }
        commit_rec(
            &mut library.catalogs[self.index],
            &mut library.sequencer,
            locked.id,
            new_record,
            Ghost(orig),
            Ghost(t0),
            Ghost(pre.next_lsn),
        );
        proof {
            let fin = library@.catalogs[self@];
            assert(library@.catalogs =~= pre.catalogs.update(self@, fin));
            assert(library@.names =~= pre.names);
            let base0 = orig.change_log.len() as int;
            // how many entries were appended: distinct records of `[t0, len)`
            let appended = Seq::new(
                (fin.change_log.len() - base0) as nat,
                |k: int| fin.change_log[base0 + k].record_id,
            );
            assert forall|k: int| 0 <= k < appended.len() implies t0 <= #[trigger] appended[k]
                < orig.records.len() by {
                let e = fin.change_log[base0 + k];
                if e.record_id != t0 {
                    lemma_descendant_bounds(orig.records, e.record_id, t0);
                }
            }
            assert(appended.no_duplicates()) by {
                assert forall|k1: int, k2: int|
                    0 <= k1 < k2 < appended.len() implies appended[k1] != appended[k2] by {
                    assert(fin.change_log[base0 + k1].record_id != fin.change_log[base0
                        + k2].record_id);
                }
            }
            lemma_distinct_in_range_len(appended, t0, orig.records.len() as int);
            assert(library@.next_lsn <= u64::MAX);
            // the committed catalog is still well linked, so the library is
            // well formed again
            assert(fin.links_wf()) by {
                lemma_links_wf_same_links(orig, fin);
            }
            lemma_wf_after_catalog_change(pre, library@, self@);
            assert(records_after_commit(orig.records, fin.records, t0, new_record@)) by {
                assert forall|r: int|
                    0 <= r < orig.records.len() && r != t0 implies match orig.records[r].prototype_id {
                    Some(p) => if is_descendant(orig.records, r, t0) {
                        (#[trigger] fin.records[r]).inner == merged_fields(
                            orig.records[r].inner,
                            orig.records[p].inner,
                            fin.records[p].inner,
                        )
                    } else {
                        (#[trigger] fin.records[r]).inner == orig.records[r].inner
                    },
                    None => (#[trigger] fin.records[r]).inner == orig.records[r].inner,
                } by {}
            }
            assert(log_after_commit(orig, fin, t0, pre.next_lsn));
        }
    }

    /// Reads the current value of a record.  Does not take the per-record
    /// lock; concurrent commits replace the stored wrapper rather than
    /// mutating it, so a read always observes a consistent snapshot.
    pub fn get<'a>(&self, library: &'a Library, id: RecordId) -> (r: &'a Record)
        requires
            self.valid(library@),
            id.0 < self.model(library@).records.len(),
        ensures
            r@ == self.model(library@).records[id.0 as int].inner,
    {
        &library.catalogs[self.index].records[id.0].inner
    }

    /// Sets or clears one lock flag; shared by `lock`, `unlock` and the
    /// propagation machinery.
    fn lock_flag(&self, library: &mut Library, id: RecordId, held: bool)
        requires
            self.valid(old(library)@),
            id.0 < self.model(old(library)@).locks.len(),
        ensures
            final(library)@ == old(library)@.with_catalog(
                self@,
                self.model(old(library)@).with_lock(id.0 as int, held),
            ),
    {
        let ghost pre = library@;
        let state = &mut library.catalogs[self.index];
        proof {
            assert(state@.locks.len() == pre.catalogs[self@].locks.len());
        }
        assert(id.0 < state.locks.len()) by {
            assert(state@.locks.len() == state.locks@.len());
        }
        state.locks[id.0] = held;
        proof {
            let target = pre.with_catalog(
                self@,
                pre.catalogs[self@].with_lock(id.0 as int, held),
            );
            assert(library@.catalogs =~~= target.catalogs);
            assert(library@ =~~= target);
        }
    }

    /// Acquires the exclusive lock on `id` and returns a handle carrying
    /// the record value observed at acquisition time.  A record already
    /// exclusively held stays unavailable until its holder unlocks it.
    pub fn lock(&self, library: &mut Library, id: RecordId) -> (locked: Locked)
        requires
            old(library)@.wf(),
            self.valid(old(library)@),
            id.0 < self.model(old(library)@).records.len(),
            !self.model(old(library)@).locks[id.0 as int],
        ensures
            final(library)@.wf(),
            final(library)@ == old(library)@.with_catalog(
                self@,
                self.model(old(library)@).with_lock(id.0 as int, true),
            ),
            locked.id == id,
            locked.value@ == self.model(old(library)@).records[id.0 as int].inner,
    {
        let ghost pre = library@;
        let value = {
            let state = &library.catalogs[self.index];
            state.records[id.0].inner.clone()
        };
        self.lock_flag(library, id, true);
        proof {
            lemma_wf_with_lock(pre, library@, self@, id.0 as int, true);
        }
        Locked { id, value }
    }

    /// Clears the lock flag on `id`, making the record available to other
    /// callers.  Surrenders the lock handle taken by `lock`.
    pub fn unlock(&self, library: &mut Library, id: RecordId)
        requires
            old(library)@.wf(),
            self.valid(old(library)@),
            id.0 < self.model(old(library)@).records.len(),
        ensures
            final(library)@.wf(),
            final(library)@ == old(library)@.with_catalog(
                self@,
                self.model(old(library)@).with_lock(id.0 as int, false),
            ),
    {
        let ghost pre = library@;
        self.lock_flag(library, id, false);
        proof {
            lemma_wf_with_lock(pre, library@, self@, id.0 as int, false);
        }
    }
}

/// How a commit of `v` to record `t` transforms the records of a catalog:
/// `t` takes `v` as its value, every descendant of `t` integrates its
/// prototype's change through the field merge rule, every other record is
/// untouched, and no prototype link moves.
pub open spec fn records_after_commit(
    pre: Seq<WrapperModel>,
    post: Seq<WrapperModel>,
    t: int,
    v: Seq<ValueModel>,
) -> bool {
    &&& post.len() == pre.len()
    &&& forall|r: int|
        0 <= r < pre.len() ==> (#[trigger] post[r]).prototype_id == pre[r].prototype_id
    &&& forall|r: int|
        0 <= r < pre.len() ==> (#[trigger] post[r]).prototype_instances
            == pre[r].prototype_instances
    &&& 0 <= t < pre.len() && post[t].inner == v
    &&& forall|r: int|
        0 <= r < pre.len() && r != t ==> match pre[r].prototype_id {
            Some(p) => if is_descendant(pre, r, t) {
                (#[trigger] post[r]).inner == merged_fields(pre[r].inner, pre[p].inner, post[p].inner)
            } else {
                (#[trigger] post[r]).inner == pre[r].inner
            },
            None => (#[trigger] post[r]).inner == pre[r].inner,
        }
}

/// How a commit of record `t` extends a catalog's change log: one entry for
/// `t` itself first, then one entry for each propagated descendant, each
/// carrying the record's pre-commit wrapper as `old_record`, its final
/// wrapper as `new_record`, and a fresh LSN; consecutive LSNs are drawn
/// starting at `next0`, and no record is logged twice.
pub open spec fn log_after_commit(pre: CatalogModel, post: CatalogModel, t: int, next0: int) -> bool {
    let base = pre.change_log.len() as int;
    &&& post.change_log.len() >= base + 1
    &&& forall|i: int| 0 <= i < base ==> #[trigger] post.change_log[i] == pre.change_log[i]
    &&& forall|i: int|
        base <= i < post.change_log.len() ==> {
            let e = #[trigger] post.change_log[i];
            &&& e.lsn == next0 + i - base
            &&& 0 <= e.record_id < pre.records.len()
            &&& (e.record_id == t <==> i == base)
            &&& (e.record_id == t || is_descendant(pre.records, e.record_id, t))
            &&& e.old_record == Some(pre.records[e.record_id])
            &&& e.new_record == post.records[e.record_id]
        }
    &&& forall|i: int, j: int|
        base <= i < j < post.change_log.len() ==> (#[trigger] post.change_log[i]).record_id != (
        #[trigger] post.change_log[j]).record_id
}

/// Law: a commit on record `t` puts exactly one entry for `t` itself into
/// the log — the first appended one — carrying `t`'s pre-commit wrapper
/// as `old_record` and its post-commit wrapper as `new_record`.
pub proof fn lemma_commit_logged_exactly_once(
    pre: CatalogModel,
    post: CatalogModel,
    t: int,
    next0: int,
)
    requires
        log_after_commit(pre, post, t, next0),
    ensures
        post.change_log[pre.change_log.len() as int].record_id == t,
        post.change_log[pre.change_log.len() as int].old_record == Some(pre.records[t]),
        post.change_log[pre.change_log.len() as int].new_record == post.records[t],
        forall|i: int|
            pre.change_log.len() < i < post.change_log.len() ==> (
            #[trigger] post.change_log[i]).record_id != t,
{
}

/// Law: after a commit of `v` to `t`, every field of a record `r` in
/// `t`'s subtree follows its own prototype `p` exactly where it had not
/// been locally overridden — it adopts `p`'s new value where it matched
/// `p`'s old value, and keeps its own value otherwise.  Applied at each
/// level of a prototype chain, this carries a prototype edit through the
/// whole chain while preserving every local override.
pub proof fn lemma_descendant_field_update(
    pre: Seq<WrapperModel>,
    post: Seq<WrapperModel>,
    t: int,
    v: Seq<ValueModel>,
    r: int,
    f: int,
)
    requires
        records_after_commit(pre, post, t, v),
        0 <= r < pre.len(),
        r != t,
        is_descendant(pre, r, t),
        pre[r].prototype_id is Some,
        0 <= f < pre[r].inner.len(),
        f < pre[pre[r].prototype_id->Some_0].inner.len(),
        f < post[pre[r].prototype_id->Some_0].inner.len(),
    ensures
        pre[r].inner[f] == pre[pre[r].prototype_id->Some_0].inner[f] ==> post[r].inner[f]
            == post[pre[r].prototype_id->Some_0].inner[f],
        pre[r].inner[f] != pre[pre[r].prototype_id->Some_0].inner[f] ==> post[r].inner[f]
            == pre[r].inner[f],
{
    let p = pre[r].prototype_id->Some_0;
    assert(post[r].inner == merged_fields(pre[r].inner, pre[p].inner, post[p].inner));
}

/// Law: repeated lock-and-commit increments accumulate without loss.
/// After a sequence of commits that each replace the integer field `f` of
/// record `t` with its current value plus `k`, the field holds its
/// initial value plus `k` times the number of commits.
pub proof fn lemma_increments_accumulate(
    libs: Seq<LibraryModel>,
    c: int,
    t: int,
    f: int,
    k: int,
)
    requires
        libs.len() >= 1,
        0 <= c < libs[0].catalogs.len(),
        0 <= t < libs[0].catalogs[c].records.len(),
        0 <= f < libs[0].catalogs[c].records[t].inner.len(),
        libs[0].catalogs[c].records[t].inner[f] is Int,
        forall|i: int|
            0 <= i < libs.len() - 1 ==> {
                let cur = (#[trigger] libs[i]).catalogs[c].records[t].inner;
                lib_commit_rel(
                    libs[i],
                    libs[i + 1],
                    c,
                    t,
                    cur.update(f, ValueModel::Int(cur[f]->Int_0 + k)),
                )
            },
    ensures
        0 <= c < libs.last().catalogs.len(),
        0 <= t < libs.last().catalogs[c].records.len(),
        0 <= f < libs.last().catalogs[c].records[t].inner.len(),
        libs.last().catalogs[c].records[t].inner[f] == ValueModel::Int(
            libs[0].catalogs[c].records[t].inner[f]->Int_0 + k * (libs.len() - 1),
        ),
    decreases libs.len(),
{
    if libs.len() == 1 {
        assert(libs.last() == libs[0]);
        assert(k * 0 == 0) by (nonlinear_arith);
        assert(libs[0].catalogs[c].records[t].inner[f] == ValueModel::Int(
            libs[0].catalogs[c].records[t].inner[f]->Int_0,
        ));
    } else {
        let prefix = libs.drop_last();
        assert forall|i: int|
            0 <= i < prefix.len() - 1 implies {
            let cur = (#[trigger] prefix[i]).catalogs[c].records[t].inner;
            lib_commit_rel(
                prefix[i],
                prefix[i + 1],
                c,
                t,
                cur.update(f, ValueModel::Int(cur[f]->Int_0 + k)),
            )
        } by {
            assert(prefix[i] == libs[i]);
            assert(prefix[i + 1] == libs[i + 1]);
            let cur = libs[i].catalogs[c].records[t].inner;
            assert(lib_commit_rel(
                libs[i],
                libs[i + 1],
                c,
                t,
                cur.update(f, ValueModel::Int(cur[f]->Int_0 + k)),
            ));
        }
        lemma_increments_accumulate(prefix, c, t, f, k);
        let n = libs.len() - 1;
        let before = prefix.last();
        assert(before == libs[n - 1]);
        let cur = before.catalogs[c].records[t].inner;
        assert(lib_commit_rel(libs[n - 1], libs[n], c, t, cur.update(
            f,
            ValueModel::Int(cur[f]->Int_0 + k),
        )));
        assert(libs[n].catalogs[c].records[t].inner == cur.update(
            f,
            ValueModel::Int(cur[f]->Int_0 + k),
        ));
        let base = libs[0].catalogs[c].records[t].inner[f]->Int_0;
        assert(cur[f] == ValueModel::Int(base + k * (n - 1)));
        assert(base + k * (n - 1) + k == base + k * n) by (nonlinear_arith);
        assert(libs.last() == libs[n]);
    }
}

/// Two record sequences with identical prototype linkage (only the inner
/// values may differ).
pub open spec fn links_match(a: Seq<WrapperModel>, b: Seq<WrapperModel>) -> bool {
    &&& b.len() == a.len()
    &&& forall|r: int| 0 <= r < a.len() ==> (#[trigger] b[r]).prototype_id == a[r].prototype_id
    &&& forall|r: int|
        0 <= r < a.len() ==> (#[trigger] b[r]).prototype_instances == a[r].prototype_instances
}

/// Mid-propagation shape of the change log: the log of `orig` is intact,
/// and everything appended since belongs to the commit of `t0` — entry by
/// entry, a record of `t0`'s subtree, logged once, with its pre-commit
/// wrapper as `old_record`, its current wrapper as `new_record`, and LSNs
/// counting up from `next0`; `t0` itself opens the batch.
pub open spec fn commit_batch_wf(orig: CatalogModel, cur: CatalogModel, t0: int, next0: int) -> bool {
    let base = orig.change_log.len() as int;
    &&& cur.change_log.len() >= base
    &&& forall|i: int| 0 <= i < base ==> #[trigger] cur.change_log[i] == orig.change_log[i]
    &&& forall|i: int|
        base <= i < cur.change_log.len() ==> {
            let e = #[trigger] cur.change_log[i];
            &&& e.lsn == next0 + i - base
            &&& 0 <= e.record_id < orig.records.len()
            &&& (e.record_id == t0 <==> i == base)
            &&& (e.record_id == t0 || is_descendant(orig.records, e.record_id, t0))
            &&& e.old_record == Some(orig.records[e.record_id])
            &&& e.new_record == cur.records[e.record_id]
        }
    &&& forall|i: int, j: int|
        base <= i < j < cur.change_log.len() ==> (#[trigger] cur.change_log[i]).record_id != (
        #[trigger] cur.change_log[j]).record_id
}

/// The whole effect of a commit on a library: one catalog's records and
/// change log change as `records_after_commit` and `log_after_commit`
/// describe, the sequencer advances once per appended entry, and nothing
/// else — names, other catalogs, lock flags — moves.
pub open spec fn lib_commit_rel(
    pre: LibraryModel,
    post: LibraryModel,
    c: int,
    t: int,
    v: Seq<ValueModel>,
) -> bool {
    &&& pre.wf()
    &&& post.wf()
    &&& 0 <= c < pre.catalogs.len()
    &&& post.names == pre.names
    &&& post.catalogs.len() == pre.catalogs.len()
    &&& forall|d: int|
        0 <= d < pre.catalogs.len() && d != c ==> (#[trigger] post.catalogs[d]) == pre.catalogs[d]
    &&& post.catalogs[c].locks == pre.catalogs[c].locks
    &&& records_after_commit(pre.catalogs[c].records, post.catalogs[c].records, t, v)
    &&& log_after_commit(pre.catalogs[c], post.catalogs[c], t, pre.next_lsn)
    &&& post.next_lsn == pre.next_lsn + (post.catalogs[c].change_log.len()
        - pre.catalogs[c].change_log.len())
}

/// A descendant's id lies strictly between its ancestor's id and the
/// catalog's size: prototype links always point backwards.
pub proof fn lemma_descendant_bounds(records: Seq<WrapperModel>, r: int, a: int)
    requires
        is_descendant(records, r, a),
    ensures
        a < r < records.len(),
    decreases r,
{
    match records[r].prototype_id {
        Some(p) => {
            if p != a {
                lemma_descendant_bounds(records, p, a);
            }
        },
        None => {},
    }
}

/// Being a descendant is transitive along the prototype chain.
pub proof fn lemma_descendant_trans(records: Seq<WrapperModel>, r: int, b: int, a: int)
    requires
        is_descendant(records, r, b),
        is_descendant(records, b, a),
    ensures
        is_descendant(records, r, a),
    decreases r,
{
    match records[r].prototype_id {
        Some(p) => {
            if p == b {
            } else {
                lemma_descendant_trans(records, p, b, a);
            }
        },
        None => {},
    }
}

/// Two ancestors of one record are related: the prototype chain above a
/// record is a single path.
proof fn lemma_ancestors_related(records: Seq<WrapperModel>, r: int, a: int, b: int)
    requires
        is_descendant(records, r, a),
        is_descendant(records, r, b),
        a != b,
    ensures
        is_descendant(records, a, b) || is_descendant(records, b, a),
    decreases r,
{
    match records[r].prototype_id {
        Some(p) => {
            if p == a {
                assert(is_descendant(records, a, b));
            } else if p == b {
                assert(is_descendant(records, b, a));
            } else {
                lemma_ancestors_related(records, p, a, b);
            }
        },
        None => {},
    }
}

/// Subtrees hanging off two distinct children of one record never meet:
/// whatever descends from one sibling does not descend from, nor equal,
/// the other.
proof fn lemma_sibling_subtrees_disjoint(
    records: Seq<WrapperModel>,
    parent: int,
    c1: int,
    c2: int,
    x: int,
)
    requires
        0 <= c1 < records.len(),
        0 <= c2 < records.len(),
        records[c1].prototype_id == Some(parent),
        records[c2].prototype_id == Some(parent),
        parent < c1,
        parent < c2,
        c1 != c2,
        x == c1 || is_descendant(records, x, c1),
    ensures
        x != c2,
        !is_descendant(records, x, c2),
    decreases (if x == c1 { 0int } else { 1int }),
{
    if x == c1 {
        if is_descendant(records, c1, c2) {
            // c1's chain starts at parent, which is below c2.
            assert(records[c1].prototype_id == Some(parent));
            if parent == c2 {
                lemma_descendant_bounds(records, c2, parent);
            } else {
                assert(is_descendant(records, parent, c2));
                lemma_descendant_bounds(records, parent, c2);
            }
        }
    } else {
        lemma_descendant_bounds(records, x, c1);
        if x == c2 {
            // c2 would descend from its sibling c1.
            lemma_sibling_subtrees_disjoint(records, parent, c2, c1, c2);
            assert(false);
        } else if is_descendant(records, x, c2) {
            lemma_ancestors_related(records, x, c1, c2);
            if is_descendant(records, c1, c2) {
                lemma_sibling_subtrees_disjoint(records, parent, c1, c2, c1);
            } else {
                lemma_sibling_subtrees_disjoint(records, parent, c2, c1, c2);
            }
        }
    }
}

/// Every strict descendant of `a` lies in the subtree hanging off one of
/// `a`'s direct instances.
proof fn lemma_descendant_through_child(records: Seq<WrapperModel>, r: int, a: int)
    requires
        records_links_wf(records),
        is_descendant(records, r, a),
        0 <= a < records.len(),
    ensures
        exists|k: int|
            0 <= k < records[a].prototype_instances.len() && (r
                == #[trigger] records[a].prototype_instances[k] || is_descendant(
                records,
                r,
                records[a].prototype_instances[k],
            )),
    decreases r,
{
    let p = records[r].prototype_id->Some_0;
    if p == a {
        // `r` is itself a direct instance of `a`.
        assert(records[a].prototype_instances.contains(r));
        let k = choose|k: int|
            0 <= k < records[a].prototype_instances.len() && records[a].prototype_instances[k] == r;
        assert(r == records[a].prototype_instances[k]);
    } else {
        lemma_descendant_through_child(records, p, a);
        let k = choose|k: int|
            0 <= k < records[a].prototype_instances.len() && (p
                == records[a].prototype_instances[k] || is_descendant(
                records,
                p,
                records[a].prototype_instances[k],
            ));
        let c = records[a].prototype_instances[k];
        if p == c {
            assert(is_descendant(records, r, c));
        } else {
            assert(is_descendant(records, r, c));
        }
    }
}

/// A sequence of distinct integers drawn from `[lo, hi)` has at most
/// `hi - lo` elements.
pub(crate) proof fn lemma_distinct_in_range_len(s: Seq<int>, lo: int, hi: int)
    requires
        s.no_duplicates(),
        forall|k: int| 0 <= k < s.len() ==> lo <= #[trigger] s[k] < hi,
        lo <= hi,
    ensures
        s.len() <= hi - lo,
{
    s.unique_seq_to_set();
    let range = vstd::set_lib::set_int_range(lo, hi);
    assert(s.to_set().subset_of(range)) by {
        assert forall|x: int| s.to_set().contains(x) implies range.contains(x) by {
            let k = choose|k: int| 0 <= k < s.len() && s[k] == x;
            assert(lo <= s[k] < hi);
        }
    }
    vstd::set_lib::lemma_int_range(lo, hi);
    vstd::set_lib::lemma_len_subset(s.to_set(), range);
}

/// Linkage well-formedness carries over to any catalog with the same
/// prototype links and matching lock count.
proof fn lemma_links_wf_same_links(a: CatalogModel, b: CatalogModel)
    requires
        a.links_wf(),
        b.records.len() == a.records.len(),
        b.locks.len() == b.records.len(),
        forall|r: int|
            0 <= r < a.records.len() ==> (#[trigger] b.records[r]).prototype_id
                == a.records[r].prototype_id,
        forall|r: int|
            0 <= r < a.records.len() ==> (#[trigger] b.records[r]).prototype_instances
                == a.records[r].prototype_instances,
    ensures
        b.links_wf(),
{
    assert forall|r: int|
        0 <= r < b.records.len() implies match (#[trigger] b.records[r]).prototype_id {
        Some(p) => 0 <= p < r && b.records[p].prototype_instances.contains(r),
        None => true,
    } by {
        match a.records[r].prototype_id {
            Some(p) => {
                assert(a.records[p].prototype_instances.contains(r));
            },
            None => {},
        }
    }
    assert forall|r: int, j: int|
        0 <= r < b.records.len() && 0 <= j < b.records[r].prototype_instances.len() implies {
        let c = #[trigger] b.records[r].prototype_instances[j];
        &&& r < c < b.records.len()
        &&& b.records[c].prototype_id == Some(r)
    } by {
        assert(b.records[r].prototype_instances == a.records[r].prototype_instances);
        let c = a.records[r].prototype_instances[j];
        assert(r < c < a.records.len());
        assert(b.records[c].prototype_id == a.records[c].prototype_id);
    }
    assert forall|r: int|
        0 <= r < b.records.len() implies (
    #[trigger] b.records[r]).prototype_instances.no_duplicates() by {
        assert(b.records[r].prototype_instances == a.records[r].prototype_instances);
    }
}

/// After one child subtree has been propagated, the merged values already
/// established for earlier children (and for the child itself) still hold:
/// the child call only touched its own subtree, which is disjoint from the
/// others, and prototypes sit outside the subtrees of their descendants.
proof fn lemma_merged_values_persist(
    orig: CatalogModel,
    tid: int,
    children: Seq<int>,
    jnew: int,
    cid: int,
    mid: CatalogModel,
    cur: CatalogModel,
    new_inner: Seq<ValueModel>,
)
    requires
        records_links_wf(orig.records),
        0 <= tid < orig.records.len(),
        children == orig.records[tid].prototype_instances,
        0 < jnew <= children.len(),
        cid == children[jnew - 1],
        mid.records.len() == orig.records.len(),
        cur.records.len() == orig.records.len(),
        forall|r: int|
            0 <= r < orig.records.len() && !(r == cid || is_descendant(orig.records, r, cid))
                ==> #[trigger] cur.records[r] == mid.records[r],
        cur.records[cid].inner == merged_fields(
            orig.records[cid].inner,
            orig.records[tid].inner,
            new_inner,
        ),
        cur.records[tid].inner == new_inner,
        forall|r: int|
            0 <= r < orig.records.len() && r != cid && is_descendant(orig.records, r, cid)
                ==> match orig.records[r].prototype_id {
                Some(p) => (#[trigger] cur.records[r]).inner == merged_fields(
                    orig.records[r].inner,
                    orig.records[p].inner,
                    cur.records[p].inner,
                ),
                None => true,
            },
        forall|r: int, k: int|
            #![trigger mid.records[r], children[k]]
            0 <= k < jnew - 1 && 0 <= r < orig.records.len() && (r == children[k] || is_descendant(
                orig.records,
                r,
                children[k],
            )) ==> match orig.records[r].prototype_id {
                Some(p) => mid.records[r].inner == merged_fields(
                    orig.records[r].inner,
                    orig.records[p].inner,
                    mid.records[p].inner,
                ),
                None => true,
            },
        mid.records[tid].inner == new_inner,
    ensures
        forall|r: int, k: int|
            #![trigger cur.records[r], children[k]]
            0 <= k < jnew && 0 <= r < orig.records.len() && (r == children[k] || is_descendant(
                orig.records,
                r,
                children[k],
            )) ==> match orig.records[r].prototype_id {
                Some(p) => cur.records[r].inner == merged_fields(
                    orig.records[r].inner,
                    orig.records[p].inner,
                    cur.records[p].inner,
                ),
                None => true,
            },
{
    assert forall|r: int, k: int|
        #![trigger cur.records[r], children[k]]
        0 <= k < jnew && 0 <= r < orig.records.len() && (r == children[k] || is_descendant(
            orig.records,
            r,
            children[k],
        )) implies match orig.records[r].prototype_id {
        Some(p) => cur.records[r].inner == merged_fields(
            orig.records[r].inner,
            orig.records[p].inner,
            cur.records[p].inner,
        ),
        None => true,
    } by {
        assert(orig.records[tid].prototype_instances[k] == children[k]);
        assert(tid < children[k] < orig.records.len());
        assert(orig.records[children[k]].prototype_id == Some(tid));
        if k < jnew - 1 {
            lemma_sibling_subtrees_disjoint(orig.records, tid, children[k], cid, r);
            assert(cur.records[r] == mid.records[r]);
            match orig.records[r].prototype_id {
                Some(p) => {
                    if r == children[k] {
                        assert(p == tid);
                        if is_descendant(orig.records, tid, cid) {
                            lemma_descendant_bounds(orig.records, tid, cid);
                        }
                        assert(cur.records[p] == mid.records[p]);
                        assert(cur.records[p].inner == new_inner);
                    } else {
                        assert(is_descendant(orig.records, r, children[k]));
                        if p == children[k] {
                            lemma_sibling_subtrees_disjoint(orig.records, tid, children[k], cid, p);
                        } else {
                            assert(is_descendant(orig.records, p, children[k])) by {
                                lemma_prototype_of_descendant(orig.records, r, children[k]);
                            }
                            lemma_sibling_subtrees_disjoint(orig.records, tid, children[k], cid, p);
                        }
                        assert(cur.records[p] == mid.records[p]);
                    }
                },
                None => {},
            }
        } else {
            if r == cid {
            } else {
                assert(is_descendant(orig.records, r, cid));
            }
        }
    }
}

/// The prototype of a strict descendant of `a` (other than a direct child)
/// is itself in `a`'s subtree.
proof fn lemma_prototype_of_descendant(records: Seq<WrapperModel>, r: int, a: int)
    requires
        is_descendant(records, r, a),
        records[r].prototype_id != Some(a),
    ensures
        match records[r].prototype_id {
            Some(p) => is_descendant(records, p, a),
            None => false,
        },
{
}


/// Nothing logged so far during this commit touches the subtree of the
/// child about to be processed: earlier entries live under `id` itself or
/// under already-processed siblings.
proof fn lemma_child_subtree_unlogged(
    orig: CatalogModel,
    tid: int,
    children: Seq<int>,
    j: int,
    cid: int,
    base0: int,
    entry_len: int,
    cur: CatalogModel,
)
    requires
        records_links_wf(orig.records),
        0 <= tid < orig.records.len(),
        children == orig.records[tid].prototype_instances,
        0 <= j < children.len(),
        cid == children[j],
        0 <= base0 <= entry_len < cur.change_log.len(),
        forall|i: int|
            base0 <= i < entry_len ==> (#[trigger] cur.change_log[i]).record_id != tid
                && !is_descendant(orig.records, cur.change_log[i].record_id, tid),
        forall|i: int|
            entry_len <= i < cur.change_log.len() ==> {
                let e = #[trigger] cur.change_log[i];
                &&& (e.record_id == tid <==> i == entry_len)
                &&& (e.record_id == tid || is_descendant(orig.records, e.record_id, tid))
            },
        forall|i: int|
            entry_len < i < cur.change_log.len() ==> exists|k: int|
                0 <= k < j && ((#[trigger] cur.change_log[i]).record_id == #[trigger] children[k]
                    || is_descendant(orig.records, cur.change_log[i].record_id, children[k])),
    ensures
        forall|i: int|
            base0 <= i < cur.change_log.len() ==> (#[trigger] cur.change_log[i]).record_id != cid
                && !is_descendant(orig.records, cur.change_log[i].record_id, cid),
{
    assert(orig.records[tid].prototype_instances[j] == cid);
    assert(tid < cid < orig.records.len());
    assert(orig.records[cid].prototype_id == Some(tid));
    assert(is_descendant(orig.records, cid, tid));
    assert forall|i: int|
        base0 <= i < cur.change_log.len() implies (#[trigger] cur.change_log[i]).record_id != cid
        && !is_descendant(orig.records, cur.change_log[i].record_id, cid) by {
        let e = cur.change_log[i];
        if e.record_id == cid || is_descendant(orig.records, e.record_id, cid) {
            if i < entry_len {
                if e.record_id != cid {
                    lemma_descendant_trans(orig.records, e.record_id, cid, tid);
                }
                assert(false);
            } else if e.record_id == tid {
                if is_descendant(orig.records, tid, cid) {
                    lemma_descendant_bounds(orig.records, tid, cid);
                }
                assert(false);
            } else {
                let k = choose|k: int|
                    0 <= k < j && (cur.change_log[i].record_id == children[k] || is_descendant(
                        orig.records,
                        cur.change_log[i].record_id,
                        children[k],
                    ));
                assert(orig.records[tid].prototype_instances[k] == children[k]);
                lemma_sibling_subtrees_disjoint(orig.records, tid, children[k], cid, e.record_id);
                assert(false);
            }
        }
    }
}

/// Re-establishes the per-entry loop facts after one child subtree has
/// been committed: the child's entries slot in behind the existing ones,
/// and the subtrees of unprocessed siblings remain untouched and unlogged.
proof fn lemma_commit_loop_step(
    orig: CatalogModel,
    tid: int,
    children: Seq<int>,
    jnew: int,
    cid: int,
    base0: int,
    entry_len: int,
    mid: CatalogModel,
    cur: CatalogModel,
)
    requires
        records_links_wf(orig.records),
        0 <= tid < orig.records.len(),
        children == orig.records[tid].prototype_instances,
        0 < jnew <= children.len(),
        cid == children[jnew - 1],
        0 <= base0 <= entry_len < mid.change_log.len(),
        mid.records.len() == orig.records.len(),
        cur.records.len() == orig.records.len(),
        // the child call's frame
        cur.change_log.len() > mid.change_log.len(),
        forall|i: int|
            0 <= i < mid.change_log.len() ==> #[trigger] cur.change_log[i] == mid.change_log[i],
        forall|i: int|
            mid.change_log.len() <= i < cur.change_log.len() ==> {
                let e = #[trigger] cur.change_log[i];
                &&& (e.record_id == cid <==> i == mid.change_log.len())
                &&& (e.record_id == cid || is_descendant(orig.records, e.record_id, cid))
            },
        forall|r: int|
            0 <= r < orig.records.len() && !(r == cid || is_descendant(orig.records, r, cid))
                ==> #[trigger] cur.records[r] == mid.records[r],
        // the loop facts before this child was processed
        forall|i: int|
            entry_len <= i < mid.change_log.len() ==> {
                let e = #[trigger] mid.change_log[i];
                &&& (e.record_id == tid <==> i == entry_len)
                &&& (e.record_id == tid || is_descendant(orig.records, e.record_id, tid))
            },
        forall|i: int|
            entry_len < i < mid.change_log.len() ==> exists|k: int|
                0 <= k < jnew - 1 && ((#[trigger] mid.change_log[i]).record_id == #[trigger] children[k]
                    || is_descendant(orig.records, mid.change_log[i].record_id, children[k])),
        forall|r: int, k: int|
            #![trigger mid.records[r], children[k]]
            jnew - 1 <= k < children.len() && 0 <= r < orig.records.len() && (r == children[k]
                || is_descendant(orig.records, r, children[k])) ==> mid.records[r].inner
                == orig.records[r].inner,
        forall|i: int, k: int|
            #![trigger mid.change_log[i], children[k]]
            jnew - 1 <= k < children.len() && base0 <= i < mid.change_log.len()
                ==> mid.change_log[i].record_id != children[k] && !is_descendant(
                orig.records,
                mid.change_log[i].record_id,
                children[k],
            ),
    ensures
        forall|i: int|
            entry_len <= i < cur.change_log.len() ==> {
                let e = #[trigger] cur.change_log[i];
                &&& (e.record_id == tid <==> i == entry_len)
                &&& (e.record_id == tid || is_descendant(orig.records, e.record_id, tid))
            },
        forall|i: int|
            entry_len < i < cur.change_log.len() ==> exists|k: int|
                0 <= k < jnew && ((#[trigger] cur.change_log[i]).record_id == #[trigger] children[k]
                    || is_descendant(orig.records, cur.change_log[i].record_id, children[k])),
        forall|r: int, k: int|
            #![trigger cur.records[r], children[k]]
            jnew <= k < children.len() && 0 <= r < orig.records.len() && (r == children[k]
                || is_descendant(orig.records, r, children[k])) ==> cur.records[r].inner
                == orig.records[r].inner,
        forall|i: int, k: int|
            #![trigger cur.change_log[i], children[k]]
            jnew <= k < children.len() && base0 <= i < cur.change_log.len()
                ==> cur.change_log[i].record_id != children[k] && !is_descendant(
                orig.records,
                cur.change_log[i].record_id,
                children[k],
            ),
{
    let mlen = mid.change_log.len() as int;
    assert(orig.records[tid].prototype_instances[jnew - 1] == cid);
    assert(tid < cid < orig.records.len());
    assert(orig.records[cid].prototype_id == Some(tid));
    assert(is_descendant(orig.records, cid, tid));
    assert forall|i: int|
        entry_len <= i < cur.change_log.len() implies {
            let e = #[trigger] cur.change_log[i];
            &&& (e.record_id == tid <==> i == entry_len)
            &&& (e.record_id == tid || is_descendant(orig.records, e.record_id, tid))
        } by {
        let e = cur.change_log[i];
        if i >= mlen {
            assert(e.record_id == cid || is_descendant(orig.records, e.record_id, cid));
            if e.record_id != cid {
                lemma_descendant_trans(orig.records, e.record_id, cid, tid);
            }
            lemma_descendant_bounds(orig.records, e.record_id, tid);
        } else {
            assert(e == mid.change_log[i]);
        }
    }
    assert forall|i: int|
        entry_len < i < cur.change_log.len() implies exists|k: int|
            0 <= k < jnew && ((#[trigger] cur.change_log[i]).record_id == #[trigger] children[k]
                || is_descendant(orig.records, cur.change_log[i].record_id, children[k])) by {
        let e = cur.change_log[i];
        if i >= mlen {
            assert(e.record_id == cid || is_descendant(orig.records, e.record_id, cid));
            assert(children[jnew - 1] == cid);
        } else {
            assert(e == mid.change_log[i]);
            let kprev = choose|kprev: int|
                0 <= kprev < jnew - 1 && (mid.change_log[i].record_id == children[kprev]
                    || is_descendant(orig.records, mid.change_log[i].record_id, children[kprev]));
            assert(e.record_id == children[kprev] || is_descendant(
                orig.records,
                e.record_id,
                children[kprev],
            ));
        }
    }
    assert forall|r: int, k: int|
        #![trigger cur.records[r], children[k]]
        jnew <= k < children.len() && 0 <= r < orig.records.len() && (r == children[k]
            || is_descendant(orig.records, r, children[k])) implies cur.records[r].inner
        == orig.records[r].inner by {
        assert(orig.records[tid].prototype_instances[k] == children[k]);
        lemma_sibling_subtrees_disjoint(orig.records, tid, children[k], cid, r);
        assert(cur.records[r] == mid.records[r]);
    }
    assert forall|i: int, k: int|
        #![trigger cur.change_log[i], children[k]]
        jnew <= k < children.len() && base0 <= i < cur.change_log.len()
            implies cur.change_log[i].record_id != children[k] && !is_descendant(
            orig.records,
            cur.change_log[i].record_id,
            children[k],
        ) by {
        let e = cur.change_log[i];
        assert(orig.records[tid].prototype_instances[k] == children[k]);
        if i >= mlen {
            assert(e.record_id == cid || is_descendant(orig.records, e.record_id, cid));
            lemma_sibling_subtrees_disjoint(orig.records, tid, cid, children[k], e.record_id);
        } else {
            assert(e == mid.change_log[i]);
        }
    }
}

/// Depth-first commit of `new_record` to `id` and propagation to its
/// subtree.  `orig` is the catalog as it stood when the outermost commit
/// (of record `t0`, with the sequencer at `next0`) began; the contract is
/// stated against that baseline so that recursive calls compose.
/// Loop invariant of the propagation pass inside a commit: `entry` is the
/// catalog as this level of the recursion found it, `st` the catalog now,
/// `seqv` the sequencer now, `new_inner` the value committed to `tid`, and
/// `j` the number of direct instances of `tid` already propagated.
pub open spec fn commit_loop_inv(
    orig: CatalogModel,
    t0: int,
    next0: int,
    tid: int,
    entry: CatalogModel,
    st: CatalogModel,
    seqv: int,
    new_inner: Seq<ValueModel>,
    j: int,
) -> bool {
    let base0 = orig.change_log.len() as int;
    let entry_len = entry.change_log.len() as int;
    let children = orig.records[tid].prototype_instances;
    &&& records_links_wf(orig.records)
    &&& 0 <= t0 < orig.records.len()
    &&& 0 <= next0
    &&& next0 + (orig.records.len() - t0) <= u64::MAX
    &&& tid == t0 || is_descendant(orig.records, tid, t0)
    &&& 0 <= tid < orig.records.len()
    &&& base0 <= entry_len
    &&& 0 <= j <= children.len()
    &&& links_match(orig.records, st.records)
    &&& links_match(orig.records, entry.records)
    &&& entry.locks.len() == orig.records.len()
    &&& forall|r: int|
        0 <= r < orig.records.len() && r != tid && is_descendant(orig.records, r, tid) ==> !(
        #[trigger] entry.locks[r])
    &&& forall|i: int|
        base0 <= i < entry_len ==> (#[trigger] entry.change_log[i]).record_id != tid
            && !is_descendant(orig.records, entry.change_log[i].record_id, tid)
    &&& st.locks == entry.locks
    &&& commit_batch_wf(orig, st, t0, next0)
    &&& seqv == next0 + (st.change_log.len() - base0)
    &&& st.change_log.len() > entry_len
    &&& forall|i: int| 0 <= i < entry_len ==> #[trigger] st.change_log[i] == entry.change_log[i]
    &&& forall|i: int|
        entry_len <= i < st.change_log.len() ==> {
            let e = #[trigger] st.change_log[i];
            &&& (e.record_id == tid <==> i == entry_len)
            &&& (e.record_id == tid || is_descendant(orig.records, e.record_id, tid))
        }
    &&& st.records[tid].inner == new_inner
    &&& forall|r: int|
        0 <= r < orig.records.len() && !(r == tid || is_descendant(orig.records, r, tid)) ==> (
        #[trigger] st.records[r]) == entry.records[r]
    &&& forall|r: int, k: int|
        #![trigger st.records[r], children[k]]
        j <= k < children.len() && 0 <= r < orig.records.len() && (r == children[k]
            || is_descendant(orig.records, r, children[k])) ==> st.records[r].inner
            == orig.records[r].inner
    &&& forall|i: int, k: int|
        #![trigger st.change_log[i], children[k]]
        j <= k < children.len() && base0 <= i < st.change_log.len() ==> st.change_log[i].record_id
            != children[k] && !is_descendant(orig.records, st.change_log[i].record_id, children[k])
    &&& forall|i: int|
        entry_len < i < st.change_log.len() ==> exists|k: int|
            0 <= k < j && ((#[trigger] st.change_log[i]).record_id == #[trigger] children[k]
                || is_descendant(orig.records, st.change_log[i].record_id, children[k]))
    &&& forall|r: int, k: int|
        #![trigger st.records[r], children[k]]
        0 <= k < j && 0 <= r < orig.records.len() && (r == children[k] || is_descendant(
            orig.records,
            r,
            children[k],
        )) ==> match orig.records[r].prototype_id {
            Some(p) => st.records[r].inner == merged_fields(
                orig.records[r].inner,
                orig.records[p].inner,
                st.records[p].inner,
            ),
            None => true,
        }
}

/// Depth-first commit of `new_record` to `id` and propagation to its
/// subtree.  `orig` is the catalog as it stood when the outermost commit
/// (of record `t0`, with the sequencer at `next0`) began; the contract is
/// stated against that baseline so that recursive calls compose.
#[verifier::rlimit(100)]
fn commit_rec(
    state: &mut CatalogState,
    sequencer: &mut Sequencer,
    id: RecordId,
    new_record: Record,
    Ghost(orig): Ghost<CatalogModel>,
    Ghost(t0): Ghost<int>,
    Ghost(next0): Ghost<int>,
)
    requires
        records_links_wf(orig.records),
        0 <= t0 < orig.records.len(),
        0 <= next0,
        next0 + (orig.records.len() - t0) <= u64::MAX,
        id.0 as int == t0 || is_descendant(orig.records, id.0 as int, t0),
        (id.0 as int == t0) <==> (old(state)@.change_log.len() == orig.change_log.len()),
        links_match(orig.records, old(state)@.records),
        old(state)@.locks.len() == orig.records.len(),
        forall|r: int|
            0 <= r < orig.records.len() && r != id.0 as int && is_descendant(
                orig.records,
                r,
                id.0 as int,
            ) ==> !(#[trigger] old(state)@.locks[r]),
        commit_batch_wf(orig, old(state)@, t0, next0),
        old(sequencer)@ == next0 + (old(state)@.change_log.len() - orig.change_log.len()),
        // the subtree rooted at `id` still holds its original values ...
        forall|r: int|
            0 <= r < orig.records.len() && (r == id.0 as int || is_descendant(
                orig.records,
                r,
                id.0 as int,
            )) ==> (#[trigger] old(state)@.records[r]).inner == orig.records[r].inner,
        // ... and has no change log entry yet
        forall|i: int|
            orig.change_log.len() <= i < old(state)@.change_log.len() ==> (
            #[trigger] old(state)@.change_log[i]).record_id != id.0 as int && !is_descendant(
                orig.records,
                old(state)@.change_log[i].record_id,
                id.0 as int,
            ),
    ensures
        links_match(orig.records, final(state)@.records),
        final(state)@.locks == old(state)@.locks,
        commit_batch_wf(orig, final(state)@, t0, next0),
        final(sequencer)@ == next0 + (final(state)@.change_log.len() - orig.change_log.len()),
        final(state)@.change_log.len() > old(state)@.change_log.len(),
        forall|i: int|
            0 <= i < old(state)@.change_log.len() ==> #[trigger] final(state)@.change_log[i]
                == old(state)@.change_log[i],
        // everything appended belongs to the subtree of `id`, `id` first
        forall|i: int|
            old(state)@.change_log.len() <= i < final(state)@.change_log.len() ==> {
                let e = #[trigger] final(state)@.change_log[i];
                &&& (e.record_id == id.0 as int <==> i == old(state)@.change_log.len())
                &&& (e.record_id == id.0 as int || is_descendant(
                    orig.records,
                    e.record_id,
                    id.0 as int,
                ))
            },
        // records outside the subtree of `id` are untouched
        forall|r: int|
            0 <= r < orig.records.len() && !(r == id.0 as int || is_descendant(
                orig.records,
                r,
                id.0 as int,
            )) ==> #[trigger] final(state)@.records[r] == old(state)@.records[r],
        // `id` takes the committed value, its descendants the merged one
        final(state)@.records[id.0 as int].inner == new_record@,
        forall|r: int|
            0 <= r < orig.records.len() && r != id.0 as int && is_descendant(
                orig.records,
                r,
                id.0 as int,
            ) ==> match orig.records[r].prototype_id {
                Some(p) => (#[trigger] final(state)@.records[r]).inner == merged_fields(
                    orig.records[r].inner,
                    orig.records[p].inner,
                    final(state)@.records[p].inner,
                ),
                None => true,
            },
    decreases orig.records.len() - id.0 as int, 1int,
{
    let ghost entry_state = state@;
    let ghost base0 = orig.change_log.len() as int;
    let ghost entry_len = entry_state.change_log.len() as int;
    let ghost tid = id.0 as int;
    proof {
        if tid != t0 {
            lemma_descendant_bounds(orig.records, tid, t0);
        }
    }
    let snapshot_old = state.records[id.0].clone();
    proof {
        assert(entry_state.records[tid].inner == orig.records[tid].inner);
        assert(entry_state.records[tid].prototype_id == orig.records[tid].prototype_id);
        assert(entry_state.records[tid].prototype_instances == orig.records[tid].prototype_instances);
        assert(snapshot_old@ == entry_state.records[tid]);
        assert(snapshot_old@ =~= orig.records[tid]);
    }
    let new_wrapper = RecordWrapper {
        prototype_id: snapshot_old.prototype_id,
        prototype_instances: snapshot_old.prototype_instances.clone(),
        inner: new_record,
    };
    let log_new = new_wrapper.clone();
    proof {
        assert(new_wrapper@.prototype_id == snapshot_old@.prototype_id);
        assert(new_wrapper@.prototype_instances =~= snapshot_old@.prototype_instances);
        assert(new_wrapper@.inner == new_record@);
    }
    state.records[id.0] = new_wrapper;
    proof {
        // LSN headroom: every record logged so far is distinct, lies in
        // `[t0, len)`, and `id` is not yet among them.
        let appended = Seq::new(
            (entry_len - base0) as nat,
            |k: int| entry_state.change_log[base0 + k].record_id,
        );
        let with_id = appended.push(tid);
        assert forall|k: int| 0 <= k < with_id.len() implies t0 <= #[trigger] with_id[k]
            < orig.records.len() by {
            if k < appended.len() {
                let e = entry_state.change_log[base0 + k];
                if e.record_id != t0 {
                    lemma_descendant_bounds(orig.records, e.record_id, t0);
                }
            }
        }
        assert(with_id.no_duplicates()) by {
            assert forall|k1: int, k2: int|
                0 <= k1 < k2 < with_id.len() implies with_id[k1] != with_id[k2] by {
                if k2 < appended.len() {
                    assert(entry_state.change_log[base0 + k1].record_id
                        != entry_state.change_log[base0 + k2].record_id);
                } else {
                    assert(entry_state.change_log[base0 + k1].record_id != tid);
                }
            }
        }
        lemma_distinct_in_range_len(with_id, t0, orig.records.len() as int);
        assert(entry_len - base0 + 1 <= orig.records.len() - t0);
    }
    let lsn = sequencer.next();
    state.change_log.push(
        ChangeRecord { record_id: id, lsn, old_record: Some(snapshot_old.clone()), new_record: log_new },
    );
    let ghost children = orig.records[tid].prototype_instances;
    proof {
        assert(snapshot_old@.prototype_instances == children);
        assert(snapshot_old.prototype_instances@.len() == children.len());
        assert(state@.change_log.len() == entry_len + 1);
        assert forall|i: int| 0 <= i < entry_len implies #[trigger] state@.change_log[i]
            == entry_state.change_log[i] by {}
        assert(state@.change_log[entry_len].record_id == tid);
        assert(state@.change_log[entry_len].lsn == next0 + entry_len - base0);
        assert(state@.change_log[entry_len].old_record == Some(orig.records[tid]));
        assert(state@.change_log[entry_len].new_record == state@.records[tid]);
        assert(state@.records =~= entry_state.records.update(tid, new_wrapper@));
        assert(commit_batch_wf(orig, state@, t0, next0)) by {
            assert forall|i: int| base0 <= i < state@.change_log.len() implies {
                let e = #[trigger] state@.change_log[i];
                &&& e.lsn == next0 + i - base0
                &&& 0 <= e.record_id < orig.records.len()
                &&& (e.record_id == t0 <==> i == base0)
                &&& (e.record_id == t0 || is_descendant(orig.records, e.record_id, t0))
                &&& e.old_record == Some(orig.records[e.record_id])
                &&& e.new_record == state@.records[e.record_id]
            } by {
                if i < entry_len {
                    let e = entry_state.change_log[i];
                    assert(e.record_id != tid);
                    assert(state@.records[e.record_id] == entry_state.records[e.record_id]);
                } else {
                    assert(tid == t0 <==> entry_len == base0);
                }
            }
        }
    }
    proof {
        // before any child is processed, every child subtree still holds
        // its original values and has no log entry
        assert forall|r: int, k: int|
            #![trigger state@.records[r], children[k]]
            0 <= k < children.len() && 0 <= r < orig.records.len() && (r == children[k]
                || is_descendant(orig.records, r, children[k])) implies state@.records[r].inner
            == orig.records[r].inner by {
            assert(orig.records[tid].prototype_instances[k] == children[k]);
            assert(is_descendant(orig.records, children[k], tid));
            if r != children[k] {
                lemma_descendant_trans(orig.records, r, children[k], tid);
            }
            lemma_descendant_bounds(orig.records, r, tid);
            assert(state@.records[r] == entry_state.records[r]);
        }
        assert forall|i: int, k: int|
            #![trigger state@.change_log[i], children[k]]
            0 <= k < children.len() && base0 <= i < state@.change_log.len() implies state@.change_log[i].record_id
            != children[k] && !is_descendant(
            orig.records,
            state@.change_log[i].record_id,
            children[k],
        ) by {
            let e = state@.change_log[i];
            assert(orig.records[tid].prototype_instances[k] == children[k]);
            assert(is_descendant(orig.records, children[k], tid));
            if e.record_id == children[k] || is_descendant(orig.records, e.record_id, children[k]) {
                if i < entry_len {
                    assert(e == entry_state.change_log[i]);
                    if e.record_id != children[k] {
                        lemma_descendant_trans(orig.records, e.record_id, children[k], tid);
                    }
                    assert(false);
                } else {
                    // the only new entry is `id`'s own, below its children
                    assert(e.record_id == tid);
                    if is_descendant(orig.records, tid, children[k]) {
                        lemma_descendant_bounds(orig.records, tid, children[k]);
                    }
                    assert(false);
                }
            }
        }
    }
    let mut j: usize = 0;
    while j < snapshot_old.prototype_instances.len()
        invariant
            commit_loop_inv(
                orig,
                t0,
                next0,
                tid,
                entry_state,
                state@,
                sequencer@,
                new_record@,
                j as int,
            ),
            tid == id.0 as int,
            entry_state == old(state)@,
            children == orig.records[tid].prototype_instances,
            snapshot_old@ == orig.records[tid],
            snapshot_old.prototype_instances@.len() == children.len(),
            forall|k: int|
                0 <= k < children.len() ==> (
                #[trigger] snapshot_old.prototype_instances@[k]).0 as int == children[k],
        decreases children.len() - j,
    {
        let child = snapshot_old.prototype_instances[j];
        proof {
            assert(child.0 as int == children[j as int]);
        }
        commit_child(
            state,
            sequencer,
            id,
            child,
            &snapshot_old,
            Ghost(orig),
            Ghost(t0),
            Ghost(next0),
            Ghost(entry_state),
            Ghost(new_record@),
            Ghost(j as int),
        );
        j += 1;
    }
    proof {
        // every strict descendant of `id` lies under one of its children
        assert forall|r: int|
            0 <= r < orig.records.len() && r != tid && is_descendant(orig.records, r, tid) implies match orig.records[r].prototype_id {
            Some(p) => (#[trigger] state@.records[r]).inner == merged_fields(
                orig.records[r].inner,
                orig.records[p].inner,
                state@.records[p].inner,
            ),
            None => true,
        } by {
            lemma_descendant_through_child(orig.records, r, tid);
        }
        assert forall|r: int|
            0 <= r < orig.records.len() && !(r == tid || is_descendant(orig.records, r, tid))
                implies #[trigger] state@.records[r] == entry_state.records[r] by {}
    }
}

/// After one child subtree has been committed and the child unlocked, the
/// propagation loop invariant holds again with one more child processed.
/// `pre` is the catalog before the child was locked, `mid` the same catalog
/// with the child's lock set, `cur` the catalog after the recursive commit,
/// and `fin` the catalog after the unlock.
#[verifier::rlimit(100)]
proof fn lemma_commit_child_post(
    orig: CatalogModel,
    t0: int,
    next0: int,
    tid: int,
    cid: int,
    j: int,
    entry: CatalogModel,
    pre: CatalogModel,
    mid: CatalogModel,
    cur: CatalogModel,
    fin: CatalogModel,
    seq_pre: int,
    seq_fin: int,
    new_inner: Seq<ValueModel>,
    merged_inner: Seq<ValueModel>,
)
    requires
        commit_loop_inv(orig, t0, next0, tid, entry, pre, seq_pre, new_inner, j),
        0 <= j < orig.records[tid].prototype_instances.len(),
        cid == orig.records[tid].prototype_instances[j],
        mid == (CatalogModel {
            records: pre.records,
            locks: pre.locks.update(cid, true),
            change_log: pre.change_log,
        }),
        fin == (CatalogModel {
            records: cur.records,
            locks: cur.locks.update(cid, false),
            change_log: cur.change_log,
        }),
        merged_inner == merged_fields(orig.records[cid].inner, orig.records[tid].inner, new_inner),
        // what the recursive commit of the child guarantees
        links_match(orig.records, cur.records),
        cur.locks == mid.locks,
        commit_batch_wf(orig, cur, t0, next0),
        seq_fin == next0 + (cur.change_log.len() - orig.change_log.len()),
        cur.change_log.len() > mid.change_log.len(),
        forall|i: int|
            0 <= i < mid.change_log.len() ==> #[trigger] cur.change_log[i] == mid.change_log[i],
        forall|i: int|
            mid.change_log.len() <= i < cur.change_log.len() ==> {
                let e = #[trigger] cur.change_log[i];
                &&& (e.record_id == cid <==> i == mid.change_log.len())
                &&& (e.record_id == cid || is_descendant(orig.records, e.record_id, cid))
            },
        forall|r: int|
            0 <= r < orig.records.len() && !(r == cid || is_descendant(orig.records, r, cid))
                ==> #[trigger] cur.records[r] == mid.records[r],
        cur.records[cid].inner == merged_inner,
        forall|r: int|
            0 <= r < orig.records.len() && r != cid && is_descendant(orig.records, r, cid)
                ==> match orig.records[r].prototype_id {
                Some(p) => (#[trigger] cur.records[r]).inner == merged_fields(
                    orig.records[r].inner,
                    orig.records[p].inner,
                    cur.records[p].inner,
                ),
                None => true,
            },
    ensures
        commit_loop_inv(orig, t0, next0, tid, entry, fin, seq_fin, new_inner, j + 1),
{
    let children = orig.records[tid].prototype_instances;
    let base0 = orig.change_log.len() as int;
    let entry_len = entry.change_log.len() as int;
    assert(orig.records[tid].prototype_instances[j] == cid);
    assert(tid < cid < orig.records.len());
    assert(orig.records[cid].prototype_id == Some(tid));
    assert(is_descendant(orig.records, cid, tid));
    assert(cur.records[tid].inner == new_inner) by {
        if is_descendant(orig.records, tid, cid) {
            lemma_descendant_bounds(orig.records, tid, cid);
        }
        assert(cur.records[tid] == mid.records[tid]);
    }
    lemma_commit_loop_step(orig, tid, children, j + 1, cid, base0, entry_len, mid, cur);
    lemma_merged_values_persist(orig, tid, children, j + 1, cid, mid, cur, new_inner);
    assert(fin.locks =~= entry.locks);
    assert forall|r: int|
        0 <= r < orig.records.len() && !(r == tid || is_descendant(orig.records, r, tid))
            implies (#[trigger] fin.records[r]) == entry.records[r] by {
        if r == cid || is_descendant(orig.records, r, cid) {
            if r != cid {
                lemma_descendant_trans(orig.records, r, cid, tid);
            }
            assert(false);
        }
        assert(cur.records[r] == mid.records[r]);
    }
    assert(fin.change_log == cur.change_log);
    assert(fin.records == cur.records);
    assert(pre.change_log.len() > entry_len);
    assert forall|i: int|
        0 <= i < entry_len implies #[trigger] fin.change_log[i] == entry.change_log[i] by {
        assert(cur.change_log[i] == mid.change_log[i]);
        assert(pre.change_log[i] == entry.change_log[i]);
    }
    assert forall|i: int|
        entry_len <= i < fin.change_log.len() implies {
            let e = #[trigger] fin.change_log[i];
            &&& (e.record_id == tid <==> i == entry_len)
            &&& (e.record_id == tid || is_descendant(orig.records, e.record_id, tid))
        } by {
        assert(fin.change_log[i] == cur.change_log[i]);
    }
}

/// Propagates the already-committed value of `id` into its `j`-th direct
/// instance: locks the child, recursively commits the field-merged value
/// to it, and unlocks it again.
#[verifier::rlimit(100)]
fn commit_child(
    state: &mut CatalogState,
    sequencer: &mut Sequencer,
    id: RecordId,
    child: RecordId,
    snapshot_old: &RecordWrapper,
    Ghost(orig): Ghost<CatalogModel>,
    Ghost(t0): Ghost<int>,
    Ghost(next0): Ghost<int>,
    Ghost(entry): Ghost<CatalogModel>,
    Ghost(new_inner): Ghost<Seq<ValueModel>>,
    Ghost(j): Ghost<int>,
)
    requires
        commit_loop_inv(
            orig,
            t0,
            next0,
            id.0 as int,
            entry,
            old(state)@,
            old(sequencer)@,
            new_inner,
            j,
        ),
        0 <= j < orig.records[id.0 as int].prototype_instances.len(),
        child.0 as int == orig.records[id.0 as int].prototype_instances[j],
        snapshot_old@ == orig.records[id.0 as int],
    ensures
        commit_loop_inv(
            orig,
            t0,
            next0,
            id.0 as int,
            entry,
            final(state)@,
            final(sequencer)@,
            new_inner,
            j + 1,
        ),
    decreases orig.records.len() - id.0 as int, 0int,
{
    let ghost tid = id.0 as int;
    let ghost cid = child.0 as int;
    let ghost children = orig.records[tid].prototype_instances;
    let ghost base0 = orig.change_log.len() as int;
    let ghost entry_len = entry.change_log.len() as int;
    proof {
        assert(orig.records[tid].prototype_instances[j] == cid);
        assert(tid < cid < orig.records.len());
        assert(orig.records[cid].prototype_id == Some(tid));
        assert(is_descendant(orig.records, cid, tid));
        assert(state@.records[cid].inner == orig.records[cid].inner);
    }
    let merged = {
        let child_record = &state.records[child.0];
        let parent_record = &state.records[id.0];
        child_record.inner.proto_update(&snapshot_old.inner, &parent_record.inner)
    };
    proof {
        assert(merged@ == merged_fields(
            orig.records[cid].inner,
            orig.records[tid].inner,
            new_inner,
        ));
        // the subtree of this child is disjoint from everything logged so far
        lemma_child_subtree_unlogged(orig, tid, children, j, cid, base0, entry_len, state@);
        assert(cid != t0) by {
            if tid != t0 {
                lemma_descendant_bounds(orig.records, tid, t0);
            }
        }
        assert forall|r: int|
            0 <= r < orig.records.len() && r != cid && is_descendant(orig.records, r, cid)
                implies !(#[trigger] state@.locks.update(cid, true)[r]) by {
            lemma_descendant_bounds(orig.records, r, cid);
            lemma_descendant_trans(orig.records, r, cid, tid);
        }
    }
    let ghost pre = state@;
    let ghost seq_pre = sequencer@;
    state.locks[child.0] = true;
    let ghost mid = state@;
    proof {
        assert(mid =~= (CatalogModel {
            records: pre.records,
            locks: pre.locks.update(cid, true),
            change_log: pre.change_log,
        }));
    }
    commit_rec(state, sequencer, child, merged, Ghost(orig), Ghost(t0), Ghost(next0));
    let ghost cur = state@;
    state.locks[child.0] = false;
    proof {
        assert(state@ =~= (CatalogModel {
            records: cur.records,
            locks: cur.locks.update(cid, false),
            change_log: cur.change_log,
        }));
        lemma_commit_child_post(
            orig,
            t0,
            next0,
            tid,
            cid,
            j,
            entry,
            pre,
            mid,
            cur,
            state@,
            seq_pre,
            sequencer@,
            new_inner,
            merged@,
        );
    }
}

/// Toggling a lock flag preserves library well-formedness.
proof fn lemma_wf_with_lock(pre: LibraryModel, post: LibraryModel, c: int, id: int, held: bool)
    requires
        pre.wf(),
        0 <= c < pre.catalogs.len(),
        0 <= id < pre.catalogs[c].records.len(),
        post == pre.with_catalog(c, pre.catalogs[c].with_lock(id, held)),
    ensures
        post.wf(),
{
    assert(post.catalogs[c].links_wf()) by {
        assert(post.catalogs[c].records == pre.catalogs[c].records);
        assert(post.catalogs[c].locks.len() == pre.catalogs[c].locks.len());
        assert forall|r: int|
            0 <= r < post.catalogs[c].records.len() implies match (#[trigger] post.catalogs[c].records[r]).prototype_id {
            Some(p) => 0 <= p < r && post.catalogs[c].records[p].prototype_instances.contains(r),
            None => true,
        } by {
            assert(post.catalogs[c].records[r] == pre.catalogs[c].records[r]);
        }
    }
    lemma_wf_after_catalog_change(pre, post, c);
}

} // verus!
