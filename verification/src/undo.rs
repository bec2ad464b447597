//! Global undo/redo across all watched record types.
//!
//! Watchers consume each catalog's change log on demand and wrap every
//! change as an undoable operation.  The [`UndoRedo`] engine merges the
//! pending operations of all watchers into one undo stack sorted by LSN,
//! so that interleaved edits across catalogs replay in their original
//! order; a pause scope discards the edits made inside it, and a combine
//! scope bundles them into a single undoable unit.

use vstd::multiset::Multiset;
use vstd::prelude::*;

use crate::catalog::{
    lib_commit_rel, log_after_commit, records_after_commit, Catalog, CatalogModel, ChangeModel,
};
use crate::change_log::Watermark;
use crate::library::{Library, LibraryModel};
use crate::record::{Record, RecordId, ValueModel};

verus! {

/// One catalog change held for replay: the record's value before and
/// after the change, plus its origin and LSN.
pub struct UndoRecord {
    pub catalog: Catalog,
    pub record_id: RecordId,
    pub lsn: u64,
    pub old_record: Option<Record>,
    pub new_record: Record,
}

/// Mathematical value of an [`UndoRecord`].
#[verifier::ext_equal]
pub struct UndoRecordView {
    pub catalog: int,
    pub record_id: int,
    pub lsn: int,
    pub old_record: Option<Seq<ValueModel>>,
    pub new_record: Seq<ValueModel>,
}

impl View for UndoRecord {
    type V = UndoRecordView;

    open spec fn view(&self) -> UndoRecordView {
        UndoRecordView {
            catalog: self.catalog@,
            record_id: self.record_id.0 as int,
            lsn: self.lsn as int,
            old_record: match self.old_record {
                Some(r) => Some(r@),
                None => None,
            },
            new_record: self.new_record@,
        }
    }
}

impl Clone for UndoRecord {
    fn clone(&self) -> (res: Self)
        ensures
            res@ == self@,
    {
        let res = UndoRecord {
            catalog: self.catalog,
            record_id: self.record_id,
            lsn: self.lsn,
            old_record: match &self.old_record {
                Some(r) => Some(r.clone()),
                None => None,
            },
            new_record: self.new_record.clone(),
        };
        proof {
            assert(res@ =~= self@);
        }
        res
    }
}

/// An operation replayable as undo or redo: a single change, or a bundle
/// of changes treated atomically.
pub enum Undoable {
    Single(UndoRecord),
    Bundle(Vec<UndoRecord>),
}

/// Mathematical value of an [`Undoable`].
#[verifier::ext_equal]
pub enum UndoableView {
    Single(UndoRecordView),
    Bundle(Seq<UndoRecordView>),
}

impl View for Undoable {
    type V = UndoableView;

    open spec fn view(&self) -> UndoableView {
        match self {
            Undoable::Single(u) => UndoableView::Single(u@),
            Undoable::Bundle(v) => UndoableView::Bundle(v@.map_values(|u: UndoRecord| u@)),
        }
    }
}

/// The views of a sequence of undo records.
pub open spec fn views_of(s: Seq<UndoRecord>) -> Seq<UndoRecordView> {
    s.map_values(|u: UndoRecord| u@)
}

/// The effective LSN of an undoable for cross-catalog ordering: its own
/// LSN for a single change, the last member's for a bundle.
pub open spec fn undoable_lsn(u: UndoableView) -> int {
    match u {
        UndoableView::Single(m) => m.lsn,
        UndoableView::Bundle(ms) => ms.last().lsn,
    }
}

/// The changes an undoable carries.
pub open spec fn undoable_members(u: UndoableView) -> Seq<UndoRecordView> {
    match u {
        UndoableView::Single(m) => seq![m],
        UndoableView::Bundle(ms) => ms,
    }
}

/// Ascending LSN order.
pub open spec fn sorted_by_lsn(s: Seq<UndoRecordView>) -> bool {
    forall|i: int, j: int| 0 <= i < j < s.len() ==> (#[trigger] s[i]).lsn <= (#[trigger] s[j]).lsn
}

/// `batch` is the pending changes `pend` rearranged into ascending LSN
/// order.
pub open spec fn merge_batch_ok(batch: Seq<UndoRecordView>, pend: Seq<UndoRecordView>) -> bool {
    &&& sorted_by_lsn(batch)
    &&& batch.to_multiset() == pend.to_multiset()
}

/// The undo record names a record that exists in the library.
pub open spec fn record_wf(lib: LibraryModel, u: UndoRecordView) -> bool {
    &&& 0 <= u.catalog < lib.catalogs.len()
    &&& 0 <= u.record_id < lib.catalogs[u.catalog].records.len()
}

/// Every change of the undoable names an existing record; a bundle is
/// never empty and keeps its members in ascending LSN order.
pub open spec fn undoable_wf(lib: LibraryModel, u: UndoableView) -> bool {
    match u {
        UndoableView::Single(m) => record_wf(lib, m),
        UndoableView::Bundle(ms) => {
            &&& ms.len() > 0
            &&& sorted_by_lsn(ms)
            &&& forall|i: int| 0 <= i < ms.len() ==> record_wf(lib, #[trigger] ms[i])
        },
    }
}

/// No record anywhere in the library is exclusively held.
pub open spec fn all_unlocked(lib: LibraryModel) -> bool {
    forall|c: int, r: int|
        0 <= c < lib.catalogs.len() && 0 <= r < lib.catalogs[c].locks.len() ==> !(
        #[trigger] lib.catalogs[c].locks[r])
}

/// Replaying the inverse of one change: the pre-change value is committed
/// back; a creation (no pre-change value) replays as a no-op.
pub open spec fn record_undo_rel(pre: LibraryModel, post: LibraryModel, u: UndoRecordView) -> bool {
    match u.old_record {
        None => post == pre,
        Some(o) => lib_commit_rel(pre, post, u.catalog, u.record_id, o),
    }
}

/// Replaying one change forward: the post-change value is committed.
pub open spec fn record_redo_rel(pre: LibraryModel, post: LibraryModel, u: UndoRecordView) -> bool {
    lib_commit_rel(pre, post, u.catalog, u.record_id, u.new_record)
}

/// A chain of library states witnessing the undo replay of a bundle:
/// `libs[0]` is the starting state, and step `k` undoes the `k`-th member
/// counted from the back — members replay newest first.
pub open spec fn undo_chain_wf(libs: Seq<LibraryModel>, ms: Seq<UndoRecordView>) -> bool {
    &&& libs.len() == ms.len() + 1
    &&& forall|k: int|
        0 <= k < ms.len() ==> record_undo_rel(
            #[trigger] libs[k],
            libs[k + 1],
            ms[ms.len() - 1 - k],
        )
}

/// A chain of library states witnessing the redo replay of a bundle:
/// step `k` redoes the `k`-th member — members replay oldest first.
pub open spec fn redo_chain_wf(libs: Seq<LibraryModel>, ms: Seq<UndoRecordView>) -> bool {
    &&& libs.len() == ms.len() + 1
    &&& forall|k: int|
        0 <= k < ms.len() ==> record_redo_rel(#[trigger] libs[k], libs[k + 1], ms[k])
}

/// Undoing a bundle replays its members' inverses in reverse order.
pub open spec fn bundle_undo_rel(
    pre: LibraryModel,
    post: LibraryModel,
    ms: Seq<UndoRecordView>,
) -> bool {
    exists|libs: Seq<LibraryModel>|
        #[trigger] undo_chain_wf(libs, ms) && libs.first() == pre && libs.last() == post
}

/// Redoing a bundle replays its members in forward order.
pub open spec fn bundle_redo_rel(
    pre: LibraryModel,
    post: LibraryModel,
    ms: Seq<UndoRecordView>,
) -> bool {
    exists|libs: Seq<LibraryModel>|
        #[trigger] redo_chain_wf(libs, ms) && libs.first() == pre && libs.last() == post
}

/// What replaying one undoable as an undo does to the library.
pub open spec fn undoable_undo_rel(pre: LibraryModel, post: LibraryModel, u: UndoableView) -> bool {
    match u {
        UndoableView::Single(m) => record_undo_rel(pre, post, m),
        UndoableView::Bundle(ms) => bundle_undo_rel(pre, post, ms),
    }
}

/// What replaying one undoable as a redo does to the library.
pub open spec fn undoable_redo_rel(pre: LibraryModel, post: LibraryModel, u: UndoableView) -> bool {
    match u {
        UndoableView::Single(m) => record_redo_rel(pre, post, m),
        UndoableView::Bundle(ms) => bundle_redo_rel(pre, post, ms),
    }
}

/// Law: after an edit is undone, the edited record holds exactly the
/// value recorded before the edit; undoing a creation leaves the library
/// untouched.
pub proof fn lemma_undo_restores_old_value(
    pre: LibraryModel,
    post: LibraryModel,
    m: UndoRecordView,
)
    requires
        record_undo_rel(pre, post, m),
    ensures
        m.old_record matches Some(o) ==> post.catalogs[m.catalog].records[m.record_id].inner == o,
        m.old_record is None ==> post == pre,
{
}

/// Law: after an edit is redone, the edited record holds exactly the
/// value recorded after the edit.
pub proof fn lemma_redo_restores_new_value(
    pre: LibraryModel,
    post: LibraryModel,
    m: UndoRecordView,
)
    requires
        record_redo_rel(pre, post, m),
    ensures
        post.catalogs[m.catalog].records[m.record_id].inner == m.new_record,
{
}

/// Law: one undo of a bundle reverts all of its edits to a record — the
/// record ends at the value recorded before the bundle's earliest edit,
/// because members replay newest first.
pub proof fn lemma_bundle_undo_restores_first(
    pre: LibraryModel,
    post: LibraryModel,
    ms: Seq<UndoRecordView>,
    c: int,
    r: int,
)
    requires
        bundle_undo_rel(pre, post, ms),
        ms.len() > 0,
        forall|i: int|
            0 <= i < ms.len() ==> (#[trigger] ms[i]).catalog == c && ms[i].record_id == r,
        ms[0].old_record is Some,
    ensures
        post.catalogs[c].records[r].inner == ms[0].old_record->Some_0,
{
    let libs = choose|libs: Seq<LibraryModel>|
        #[trigger] undo_chain_wf(libs, ms) && libs.first() == pre && libs.last() == post;
    let k = ms.len() - 1;
    assert(record_undo_rel(libs[k], libs[k + 1], ms[0]));
    assert(libs[k + 1] == post);
}

/// Law: one redo of a bundle reapplies all of its edits to a record — the
/// record ends at the value recorded after the bundle's newest edit,
/// because members replay oldest first.
pub proof fn lemma_bundle_redo_restores_last(
    pre: LibraryModel,
    post: LibraryModel,
    ms: Seq<UndoRecordView>,
    c: int,
    r: int,
)
    requires
        bundle_redo_rel(pre, post, ms),
        ms.len() > 0,
        forall|i: int|
            0 <= i < ms.len() ==> (#[trigger] ms[i]).catalog == c && ms[i].record_id == r,
    ensures
        post.catalogs[c].records[r].inner == ms.last().new_record,
{
    let libs = choose|libs: Seq<LibraryModel>|
        #[trigger] redo_chain_wf(libs, ms) && libs.first() == pre && libs.last() == post;
    let k = ms.len() - 1;
    assert(record_redo_rel(libs[k], libs[k + 1], ms[k]));
    assert(libs[k + 1] == post);
}

/// The largest record count of any catalog among the first `k`.
pub open spec fn max_records_upto(lib: LibraryModel, k: int) -> int
    decreases k,
{
    if k <= 0 {
        0
    } else {
        let rest = max_records_upto(lib, k - 1);
        let here = lib.catalogs[k - 1].records.len() as int;
        if here > rest {
            here
        } else {
            rest
        }
    }
}

/// The largest record count of any catalog of the library.
pub open spec fn lib_max_records(lib: LibraryModel) -> int {
    max_records_upto(lib, lib.catalogs.len() as int)
}

proof fn lemma_lib_max_records(lib: LibraryModel, c: int)
    requires
        0 <= c < lib.catalogs.len(),
    ensures
        lib.catalogs[c].records.len() <= lib_max_records(lib),
        lib_max_records(lib) >= 0,
    decreases lib.catalogs.len(),
{
    lemma_max_records_upto(lib, c, lib.catalogs.len() as int);
}

proof fn lemma_max_records_upto(lib: LibraryModel, c: int, k: int)
    requires
        0 <= c < k,
    ensures
        lib.catalogs[c].records.len() <= max_records_upto(lib, k),
        max_records_upto(lib, k) >= 0,
    decreases k,
{
    if c < k - 1 {
        lemma_max_records_upto(lib, c, k - 1);
    }
}

/// Two libraries whose catalogs hold the same record counts have the same
/// maximum record count.
proof fn lemma_max_records_same(a: LibraryModel, b: LibraryModel, k: int)
    requires
        a.catalogs.len() == b.catalogs.len(),
        forall|c: int|
            0 <= c < a.catalogs.len() ==> (#[trigger] b.catalogs[c]).records.len()
                == a.catalogs[c].records.len(),
        0 <= k <= a.catalogs.len(),
    ensures
        max_records_upto(b, k) == max_records_upto(a, k),
    decreases k,
{
    if k > 0 {
        lemma_max_records_same(a, b, k - 1);
    }
}

/// A commit appends at most one change log entry per record of its
/// catalog: the appended record ids are distinct and in range.
proof fn lemma_commit_growth_bounded(pre: CatalogModel, post: CatalogModel, t: int, next0: int)
    requires
        log_after_commit(pre, post, t, next0),
    ensures
        post.change_log.len() - pre.change_log.len() <= pre.records.len(),
{
    let base = pre.change_log.len() as int;
    let appended = Seq::new(
        (post.change_log.len() - base) as nat,
        |k: int| post.change_log[base + k].record_id,
    );
    assert forall|k: int| 0 <= k < appended.len() implies 0 <= #[trigger] appended[k]
        < pre.records.len() by {
        assert(0 <= post.change_log[base + k].record_id < pre.records.len());
    }
    assert(appended.no_duplicates()) by {
        assert forall|k1: int, k2: int|
            0 <= k1 < k2 < appended.len() implies appended[k1] != appended[k2] by {
            assert(post.change_log[base + k1].record_id != post.change_log[base + k2].record_id);
        }
    }
    crate::catalog::lemma_distinct_in_range_len(appended, 0, pre.records.len() as int);
}

impl UndoRecord {
    /// The LSN of the change this record holds.
    pub fn lsn(&self) -> (r: u64)
        ensures
            r as int == self@.lsn,
    {
        self.lsn
    }

    /// Replays the inverse of this change on the library: locks the
    /// record, commits its pre-change value back, and unlocks it.  A
    /// creation has no pre-change value and replays as a no-op.
    pub fn undo(&self, library: &mut Library)
        requires
            old(library)@.wf(),
            record_wf(old(library)@, self@),
            all_unlocked(old(library)@),
            old(library)@.next_lsn + old(library)@.catalogs[self@.catalog].records.len()
                <= u64::MAX,
        ensures
            final(library)@.wf(),
            all_unlocked(final(library)@),
            record_undo_rel(old(library)@, final(library)@, self@),
            final(library)@.catalogs.len() == old(library)@.catalogs.len(),
            forall|c: int|
                0 <= c < old(library)@.catalogs.len() ==> (
                #[trigger] final(library)@.catalogs[c]).records.len()
                    == old(library)@.catalogs[c].records.len(),
            forall|c: int|
                0 <= c < old(library)@.catalogs.len() ==> (
                #[trigger] final(library)@.catalogs[c]).change_log.len()
                    >= old(library)@.catalogs[c].change_log.len(),
            forall|c: int, li: int|
                0 <= c < old(library)@.catalogs.len() && 0 <= li < old(
                library,
                )@.catalogs[c].change_log.len() ==> (
                #[trigger] final(library)@.catalogs[c].change_log[li]) == old(
                library,
                )@.catalogs[c].change_log[li],
            forall|c: int, li: int|
                0 <= c < old(library)@.catalogs.len() && old(
                library,
                )@.catalogs[c].change_log.len() <= li < final(library)@.catalogs[c].change_log.len()
                    ==> (#[trigger] final(library)@.catalogs[c].change_log[li]).lsn >= old(
                    library,
                )@.next_lsn,
            final(library)@.next_lsn <= old(library)@.next_lsn
                + old(library)@.catalogs[self@.catalog].records.len(),
            final(library)@.next_lsn >= old(library)@.next_lsn,
    {
        match &self.old_record {
            Some(old_value) => {
                let ghost pre = library@;
                let catalog = self.catalog;
                let locked = catalog.lock(library, self.record_id);
                let ghost locked_lib = library@;
                catalog.commit(library, &locked, old_value.clone());
                let ghost committed_lib = library@;
                catalog.unlock(library, self.record_id);
                proof {
                    lemma_replay_commit_rel(
                        pre,
                        locked_lib,
                        committed_lib,
                        library@,
                        self@.catalog,
                        self@.record_id,
                        old_value@,
                    );
                }
            },
            None => {},
        }
    }

    /// Replays this change forward on the library: locks the record,
    /// commits its post-change value, and unlocks it.
    pub fn redo(&self, library: &mut Library)
        requires
            old(library)@.wf(),
            record_wf(old(library)@, self@),
            all_unlocked(old(library)@),
            old(library)@.next_lsn + old(library)@.catalogs[self@.catalog].records.len()
                <= u64::MAX,
        ensures
            final(library)@.wf(),
            all_unlocked(final(library)@),
            record_redo_rel(old(library)@, final(library)@, self@),
            final(library)@.catalogs.len() == old(library)@.catalogs.len(),
            forall|c: int|
                0 <= c < old(library)@.catalogs.len() ==> (
                #[trigger] final(library)@.catalogs[c]).records.len()
                    == old(library)@.catalogs[c].records.len(),
            forall|c: int|
                0 <= c < old(library)@.catalogs.len() ==> (
                #[trigger] final(library)@.catalogs[c]).change_log.len()
                    >= old(library)@.catalogs[c].change_log.len(),
            forall|c: int, li: int|
                0 <= c < old(library)@.catalogs.len() && 0 <= li < old(
                library,
                )@.catalogs[c].change_log.len() ==> (
                #[trigger] final(library)@.catalogs[c].change_log[li]) == old(
                library,
                )@.catalogs[c].change_log[li],
            forall|c: int, li: int|
                0 <= c < old(library)@.catalogs.len() && old(
                library,
                )@.catalogs[c].change_log.len() <= li < final(library)@.catalogs[c].change_log.len()
                    ==> (#[trigger] final(library)@.catalogs[c].change_log[li]).lsn >= old(
                    library,
                )@.next_lsn,
            final(library)@.next_lsn <= old(library)@.next_lsn
                + old(library)@.catalogs[self@.catalog].records.len(),
            final(library)@.next_lsn >= old(library)@.next_lsn,
    {
        let ghost pre = library@;
        let catalog = self.catalog;
        let locked = catalog.lock(library, self.record_id);
        let ghost locked_lib = library@;
        catalog.commit(library, &locked, self.new_record.clone());
        let ghost committed_lib = library@;
        catalog.unlock(library, self.record_id);
        proof {
            lemma_replay_commit_rel(
                pre,
                locked_lib,
                committed_lib,
                library@,
                self@.catalog,
                self@.record_id,
                self@.new_record,
            );
        }
    }
}

/// A lock–commit–unlock sequence on an otherwise unlocked library amounts
/// to the bare commit relation: the transient lock flag is restored, and
/// records, logs and sequencer move exactly as the commit says.
proof fn lemma_replay_commit_rel(
    pre: LibraryModel,
    locked_lib: LibraryModel,
    committed_lib: LibraryModel,
    post: LibraryModel,
    c: int,
    t: int,
    v: Seq<ValueModel>,
)
    requires
        pre.wf(),
        all_unlocked(pre),
        0 <= c < pre.catalogs.len(),
        0 <= t < pre.catalogs[c].records.len(),
        locked_lib == pre.with_catalog(c, pre.catalogs[c].with_lock(t, true)),
        lib_commit_rel(locked_lib, committed_lib, c, t, v),
        post == committed_lib.with_catalog(c, committed_lib.catalogs[c].with_lock(t, false)),
        post.wf(),
    ensures
        lib_commit_rel(pre, post, c, t, v),
        all_unlocked(post),
        post.catalogs.len() == pre.catalogs.len(),
        forall|d: int|
            0 <= d < pre.catalogs.len() ==> (#[trigger] post.catalogs[d]).records.len()
                == pre.catalogs[d].records.len(),
        post.next_lsn == pre.next_lsn + (post.catalogs[c].change_log.len()
            - pre.catalogs[c].change_log.len()),
        pre.next_lsn <= post.next_lsn <= pre.next_lsn + pre.catalogs[c].records.len(),
        forall|d: int|
            0 <= d < pre.catalogs.len() ==> (#[trigger] post.catalogs[d]).change_log.len()
                >= pre.catalogs[d].change_log.len(),
        forall|d: int, li: int|
            0 <= d < pre.catalogs.len() && 0 <= li < pre.catalogs[d].change_log.len() ==> (
            #[trigger] post.catalogs[d].change_log[li]) == pre.catalogs[d].change_log[li],
        forall|d: int, li: int|
            0 <= d < pre.catalogs.len() && pre.catalogs[d].change_log.len() <= li
                < post.catalogs[d].change_log.len() ==> (
            #[trigger] post.catalogs[d].change_log[li]).lsn >= pre.next_lsn,
    {
    assert(pre.catalogs[c].locks.len() == pre.catalogs[c].records.len());
    assert(post.catalogs[c].locks =~= pre.catalogs[c].locks);
    assert(post.catalogs[c].records == committed_lib.catalogs[c].records);
    assert(post.catalogs[c].change_log == committed_lib.catalogs[c].change_log);
    assert(locked_lib.catalogs[c].records == pre.catalogs[c].records);
    assert(locked_lib.catalogs[c].change_log == pre.catalogs[c].change_log);
    assert forall|d: int|
        0 <= d < pre.catalogs.len() && d != c implies (#[trigger] post.catalogs[d])
        == pre.catalogs[d] by {
        assert(committed_lib.catalogs[d] == locked_lib.catalogs[d]);
    }
    assert(records_after_commit(pre.catalogs[c].records, post.catalogs[c].records, t, v));
    assert(log_after_commit(pre.catalogs[c], post.catalogs[c], t, pre.next_lsn));
    assert forall|d: int, r: int|
        0 <= d < post.catalogs.len() && 0 <= r < post.catalogs[d].locks.len() implies !(
    #[trigger] post.catalogs[d].locks[r]) by {
        if d != c {
            assert(post.catalogs[d] == pre.catalogs[d]);
            assert(!pre.catalogs[d].locks[r]);
        } else {
            assert(post.catalogs[c].locks[r] == pre.catalogs[c].locks[r]);
            assert(!pre.catalogs[c].locks[r]);
        }
    }
    assert forall|d: int|
        0 <= d < pre.catalogs.len() implies (#[trigger] post.catalogs[d]).records.len()
        == pre.catalogs[d].records.len() by {
        if d != c {
            assert(post.catalogs[d] == pre.catalogs[d]);
        }
    }
    lemma_commit_growth_bounded(pre.catalogs[c], post.catalogs[c], t, pre.next_lsn);
    assert forall|d: int, li: int|
        0 <= d < pre.catalogs.len() && 0 <= li < pre.catalogs[d].change_log.len() implies (
    #[trigger] post.catalogs[d].change_log[li]) == pre.catalogs[d].change_log[li] by {
        if d != c {
            assert(post.catalogs[d] == pre.catalogs[d]);
        }
    }
    assert forall|d: int, li: int|
        0 <= d < pre.catalogs.len() && pre.catalogs[d].change_log.len() <= li
            < post.catalogs[d].change_log.len() implies (
    #[trigger] post.catalogs[d].change_log[li]).lsn >= pre.next_lsn by {
        if d != c {
            assert(post.catalogs[d] == pre.catalogs[d]);
        }
    }
}

/// Sorts undo records into ascending LSN order by repeatedly extracting a
/// minimal element.
fn sort_records_by_lsn(records: &mut Vec<UndoRecord>)
    ensures
        sorted_by_lsn(views_of(final(records)@)),
        views_of(final(records)@).to_multiset() == views_of(old(records)@).to_multiset(),
        final(records)@.len() == old(records)@.len(),
{
    broadcast use vstd::seq_lib::group_to_multiset_ensures;

    let mut out: Vec<UndoRecord> = Vec::new();
    proof {
        assert(views_of(out@) =~= Seq::<UndoRecordView>::empty());
        assert(views_of(out@).to_multiset().add(views_of(records@).to_multiset()) =~= views_of(
            records@,
        ).to_multiset());
    }
    while records.len() > 0
        invariant
            views_of(out@).to_multiset().add(views_of(records@).to_multiset()) == views_of(
                old(records)@,
            ).to_multiset(),
            out@.len() + records@.len() == old(records)@.len(),
            sorted_by_lsn(views_of(out@)),
            forall|i: int, j: int|
                0 <= i < out@.len() && 0 <= j < records@.len() ==> (#[trigger] views_of(out@)[i]).lsn
                    <= (#[trigger] views_of(records@)[j]).lsn,
        decreases records.len(),
    {
        let mut m: usize = 0;
        let mut k: usize = 1;
        while k < records.len()
            invariant
                0 < records@.len(),
                m < k <= records@.len(),
                forall|j: int|
                    0 <= j < k ==> (#[trigger] records@[j])@.lsn >= records@[m as int]@.lsn,
            decreases records.len() - k,
        {
            if records[k].lsn < records[m].lsn {
                m = k;
            }
            k += 1;
        }
        let ghost pre_records = records@;
        let ghost pre_out = out@;
        let x = records.remove(m);
        out.push(x);
        proof {
            broadcast use vstd::multiset::group_multiset_axioms;

            let vs = views_of(pre_records);
            let vo = views_of(pre_out);
            vs.to_multiset_ensures();
            vo.to_multiset_ensures();
            assert(vs[m as int] == x@);
            assert(views_of(records@) =~= vs.remove(m as int));
            assert(views_of(out@) =~= vo.push(x@));
            assert(vs.remove(m as int).to_multiset() =~= vs.to_multiset().remove(vs[m as int]));
            assert(vo.push(x@).to_multiset() =~= vo.to_multiset().insert(x@));
            assert(vs.to_multiset().count(x@) > 0) by {
                assert(vs.contains(x@));
            }
            assert(views_of(out@).to_multiset().add(views_of(records@).to_multiset()) =~= vo.to_multiset().add(
                vs.to_multiset(),
            ));
            assert forall|i: int, j: int|
                0 <= i < out@.len() && 0 <= j < records@.len() implies (
            #[trigger] views_of(out@)[i]).lsn <= (#[trigger] views_of(records@)[j]).lsn by {
                assert(records@[j] == if j < m { pre_records[j] } else { pre_records[j + 1] });
                if i < out@.len() - 1 {
                    assert(views_of(out@)[i] == vo[i]);
                } else {
                    assert(views_of(out@)[i] == x@);
                }
            }
            assert(sorted_by_lsn(views_of(out@))) by {
                assert forall|i: int, j: int|
                    0 <= i < j < out@.len() implies (#[trigger] views_of(out@)[i]).lsn <= (
                #[trigger] views_of(out@)[j]).lsn by {
                    if j == out@.len() - 1 {
                        assert(views_of(out@)[j] == x@);
                        assert(views_of(out@)[i] == vo[i]);
                    } else {
                        assert(views_of(out@)[i] == vo[i]);
                        assert(views_of(out@)[j] == vo[j]);
                    }
                }
            }
        }
    }
    proof {
        assert(views_of(records@).to_multiset() =~= Multiset::<UndoRecordView>::empty());
        assert(views_of(out@).to_multiset() =~= views_of(out@).to_multiset().add(
            views_of(records@).to_multiset(),
        ));
    }
    *records = out;
}

impl Undoable {
    /// The effective LSN of this undoable.  Computing it for an empty
    /// bundle is a caller error: bundles are built non-empty.
    pub fn lsn(&self) -> (r: u64)
        requires
            self@ matches UndoableView::Bundle(ms) ==> ms.len() > 0,
        ensures
            r as int == undoable_lsn(self@),
    {
        match self {
            Undoable::Single(u) => u.lsn(),
            Undoable::Bundle(v) => v[v.len() - 1].lsn(),
        }
    }

    /// Replays this undoable as an undo: a single change is inverted; a
    /// bundle's members are inverted in reverse order, newest first.
    pub fn undo(&self, library: &mut Library)
        requires
            old(library)@.wf(),
            all_unlocked(old(library)@),
            undoable_wf(old(library)@, self@),
            old(library)@.next_lsn + undoable_members(self@).len() * (lib_max_records(
                old(library)@,
            ) + 1) <= u64::MAX,
        ensures
            final(library)@.wf(),
            all_unlocked(final(library)@),
            undoable_undo_rel(old(library)@, final(library)@, self@),
            final(library)@.catalogs.len() == old(library)@.catalogs.len(),
            forall|c: int|
                0 <= c < old(library)@.catalogs.len() ==> (
                #[trigger] final(library)@.catalogs[c]).records.len()
                    == old(library)@.catalogs[c].records.len(),
            forall|c: int|
                0 <= c < old(library)@.catalogs.len() ==> (
                #[trigger] final(library)@.catalogs[c]).change_log.len()
                    >= old(library)@.catalogs[c].change_log.len(),
            forall|c: int, li: int|
                0 <= c < old(library)@.catalogs.len() && 0 <= li < old(
                library,
                )@.catalogs[c].change_log.len() ==> (
                #[trigger] final(library)@.catalogs[c].change_log[li]) == old(
                library,
                )@.catalogs[c].change_log[li],
            forall|c: int, li: int|
                0 <= c < old(library)@.catalogs.len() && old(
                library,
                )@.catalogs[c].change_log.len() <= li < final(library)@.catalogs[c].change_log.len()
                    ==> (#[trigger] final(library)@.catalogs[c].change_log[li]).lsn >= old(
                    library,
                )@.next_lsn,
            final(library)@.next_lsn >= old(library)@.next_lsn,
    {
        match self {
            Undoable::Single(u) => {
                proof {
                    lemma_lib_max_records(library@, u@.catalog);
                    let maxlen = lib_max_records(library@);
                    assert(undoable_members(self@).len() == 1);
                    assert(1 * (maxlen + 1) == maxlen + 1) by (nonlinear_arith);
                    assert(library@.next_lsn + library@.catalogs[u@.catalog].records.len()
                        <= u64::MAX);
                }
                u.undo(library);
            },
            Undoable::Bundle(v) => {
                let ghost pre = library@;
                let ghost ms = v@.map_values(|u: UndoRecord| u@);
                let ghost maxlen = lib_max_records(pre);
                let mut i: usize = v.len();
                let ghost mut libs: Seq<LibraryModel> = seq![pre];
                while i > 0
                    invariant
                        0 <= i <= v@.len(),
                        ms == v@.map_values(|u: UndoRecord| u@),
                        ms.len() == v@.len(),
                        sorted_by_lsn(ms),
                        forall|k: int| 0 <= k < ms.len() ==> record_wf(pre, #[trigger] ms[k]),
                        maxlen == lib_max_records(pre),
                        pre.next_lsn + ms.len() * (maxlen + 1) <= u64::MAX,
                        library@.wf(),
                        all_unlocked(library@),
                        library@.catalogs.len() == pre.catalogs.len(),
                        forall|c: int|
                            0 <= c < pre.catalogs.len() ==> (
                            #[trigger] library@.catalogs[c]).records.len()
                                == pre.catalogs[c].records.len(),
                        library@.next_lsn >= pre.next_lsn,
                        forall|c: int|
                            0 <= c < pre.catalogs.len() ==> (
                            #[trigger] library@.catalogs[c]).change_log.len()
                                >= pre.catalogs[c].change_log.len(),
                        forall|c: int, li: int|
                            0 <= c < pre.catalogs.len() && 0 <= li
                                < pre.catalogs[c].change_log.len() ==> (
                            #[trigger] library@.catalogs[c].change_log[li])
                                == pre.catalogs[c].change_log[li],
                        forall|c: int, li: int|
                            0 <= c < pre.catalogs.len() && pre.catalogs[c].change_log.len() <= li
                                < library@.catalogs[c].change_log.len() ==> (
                            #[trigger] library@.catalogs[c].change_log[li]).lsn >= pre.next_lsn,
                        library@.next_lsn <= pre.next_lsn + (ms.len() - i) * (maxlen + 1),
                        libs.len() == ms.len() - i + 1,
                        libs.first() == pre,
                        libs.last() == library@,
                        forall|k: int|
                            0 <= k < ms.len() - i ==> record_undo_rel(
                                #[trigger] libs[k],
                                libs[k + 1],
                                ms[ms.len() - 1 - k],
                            ),
                    decreases i,
                {
                    i -= 1;
                    let ghost cur = library@;
                    let ghost done = (ms.len() - i - 1) as int;
                    proof {
                        lemma_max_records_same(pre, cur, pre.catalogs.len() as int);
                        lemma_lib_max_records(cur, ms[i as int].catalog);
                        assert(cur.catalogs[ms[i as int].catalog].records.len() <= maxlen);
                        assert(cur.next_lsn + maxlen <= pre.next_lsn + done * (maxlen + 1) + (maxlen
                            + 1));
                        assert(done * (maxlen + 1) + (maxlen + 1) == (done + 1) * (maxlen + 1))
                            by (nonlinear_arith);
                        assert((done + 1) * (maxlen + 1) <= ms.len() * (maxlen + 1))
                            by (nonlinear_arith)
                            requires
                                0 <= done + 1 <= ms.len(),
                                maxlen >= 0,
                        ;
                    }
                    let u = &v[i];
                    proof {
                        assert(u@ == ms[i as int]);
                        assert(library@.next_lsn + maxlen <= pre.next_lsn + (done + 1) * (maxlen
                            + 1));
                        assert(pre.next_lsn + (done + 1) * (maxlen + 1) <= pre.next_lsn + ms.len()
                            * (maxlen + 1));
                        assert(library@.next_lsn + library@.catalogs[u@.catalog].records.len()
                            <= u64::MAX);
                    }
                    u.undo(library);
                    proof {
                        assert(record_undo_rel(cur, library@, ms[i as int]));
                        libs = libs.push(library@);
                        assert(libs.last() == library@);
                        assert forall|k: int|
                            0 <= k < ms.len() - i implies record_undo_rel(
                            #[trigger] libs[k],
                            libs[k + 1],
                            ms[ms.len() - 1 - k],
                        ) by {
                            if k < ms.len() - i - 1 {
                                assert(libs[k] == libs.drop_last()[k]);
                                assert(libs[k + 1] == libs.drop_last()[k + 1]);
                            } else {
                                assert(libs[k] == cur);
                                assert(libs[k + 1] == library@);
                                assert(ms.len() - 1 - k == i as int);
                            }
                        }
                        assert(library@.next_lsn <= cur.next_lsn + maxlen);
                        assert((done + 1) * (maxlen + 1) == done * (maxlen + 1) + (maxlen + 1))
                            by (nonlinear_arith);
                    }
                }
                proof {
                    assert(undo_chain_wf(libs, ms));
                    assert(bundle_undo_rel(pre, library@, ms));
                }
            },
        }
    }

    /// Replays this undoable as a redo: a single change is reapplied; a
    /// bundle's members are reapplied in forward order, oldest first.
    pub fn redo(&self, library: &mut Library)
        requires
            old(library)@.wf(),
            all_unlocked(old(library)@),
            undoable_wf(old(library)@, self@),
            old(library)@.next_lsn + undoable_members(self@).len() * (lib_max_records(
                old(library)@,
            ) + 1) <= u64::MAX,
        ensures
            final(library)@.wf(),
            all_unlocked(final(library)@),
            undoable_redo_rel(old(library)@, final(library)@, self@),
            final(library)@.catalogs.len() == old(library)@.catalogs.len(),
            forall|c: int|
                0 <= c < old(library)@.catalogs.len() ==> (
                #[trigger] final(library)@.catalogs[c]).records.len()
                    == old(library)@.catalogs[c].records.len(),
            forall|c: int|
                0 <= c < old(library)@.catalogs.len() ==> (
                #[trigger] final(library)@.catalogs[c]).change_log.len()
                    >= old(library)@.catalogs[c].change_log.len(),
            forall|c: int, li: int|
                0 <= c < old(library)@.catalogs.len() && 0 <= li < old(
                library,
                )@.catalogs[c].change_log.len() ==> (
                #[trigger] final(library)@.catalogs[c].change_log[li]) == old(
                library,
                )@.catalogs[c].change_log[li],
            forall|c: int, li: int|
                0 <= c < old(library)@.catalogs.len() && old(
                library,
                )@.catalogs[c].change_log.len() <= li < final(library)@.catalogs[c].change_log.len()
                    ==> (#[trigger] final(library)@.catalogs[c].change_log[li]).lsn >= old(
                    library,
                )@.next_lsn,
            final(library)@.next_lsn >= old(library)@.next_lsn,
    {
        match self {
            Undoable::Single(u) => {
                proof {
                    lemma_lib_max_records(library@, u@.catalog);
                    let maxlen = lib_max_records(library@);
                    assert(undoable_members(self@).len() == 1);
                    assert(1 * (maxlen + 1) == maxlen + 1) by (nonlinear_arith);
                    assert(library@.next_lsn + library@.catalogs[u@.catalog].records.len()
                        <= u64::MAX);
                }
                u.redo(library);
            },
            Undoable::Bundle(v) => {
                let ghost pre = library@;
                let ghost ms = v@.map_values(|u: UndoRecord| u@);
                let ghost maxlen = lib_max_records(pre);
                let mut i: usize = 0;
                let ghost mut libs: Seq<LibraryModel> = seq![pre];
                while i < v.len()
                    invariant
                        0 <= i <= v@.len(),
                        ms == v@.map_values(|u: UndoRecord| u@),
                        ms.len() == v@.len(),
                        forall|k: int| 0 <= k < ms.len() ==> record_wf(pre, #[trigger] ms[k]),
                        maxlen == lib_max_records(pre),
                        pre.next_lsn + ms.len() * (maxlen + 1) <= u64::MAX,
                        library@.wf(),
                        all_unlocked(library@),
                        library@.catalogs.len() == pre.catalogs.len(),
                        forall|c: int|
                            0 <= c < pre.catalogs.len() ==> (
                            #[trigger] library@.catalogs[c]).records.len()
                                == pre.catalogs[c].records.len(),
                        library@.next_lsn >= pre.next_lsn,
                        forall|c: int|
                            0 <= c < pre.catalogs.len() ==> (
                            #[trigger] library@.catalogs[c]).change_log.len()
                                >= pre.catalogs[c].change_log.len(),
                        forall|c: int, li: int|
                            0 <= c < pre.catalogs.len() && 0 <= li
                                < pre.catalogs[c].change_log.len() ==> (
                            #[trigger] library@.catalogs[c].change_log[li])
                                == pre.catalogs[c].change_log[li],
                        forall|c: int, li: int|
                            0 <= c < pre.catalogs.len() && pre.catalogs[c].change_log.len() <= li
                                < library@.catalogs[c].change_log.len() ==> (
                            #[trigger] library@.catalogs[c].change_log[li]).lsn >= pre.next_lsn,
                        library@.next_lsn <= pre.next_lsn + i * (maxlen + 1),
                        libs.len() == i + 1,
                        libs.first() == pre,
                        libs.last() == library@,
                        forall|k: int|
                            0 <= k < i ==> record_redo_rel(#[trigger] libs[k], libs[k + 1], ms[k]),
                    decreases v@.len() - i,
                {
                    let ghost cur = library@;
                    let ghost done = i as int;
                    proof {
                        lemma_max_records_same(pre, cur, pre.catalogs.len() as int);
                        lemma_lib_max_records(cur, ms[i as int].catalog);
                        assert(cur.catalogs[ms[i as int].catalog].records.len() <= maxlen);
                        assert(cur.next_lsn + maxlen <= pre.next_lsn + done * (maxlen + 1) + (maxlen
                            + 1));
                        assert(done * (maxlen + 1) + (maxlen + 1) == (done + 1) * (maxlen + 1))
                            by (nonlinear_arith);
                        assert((done + 1) * (maxlen + 1) <= ms.len() * (maxlen + 1))
                            by (nonlinear_arith)
                            requires
                                0 <= done + 1 <= ms.len(),
                                maxlen >= 0,
                        ;
                    }
                    let u = &v[i];
                    proof {
                        assert(u@ == ms[i as int]);
                    }
                    u.redo(library);
                    i += 1;
                    proof {
                        assert(record_redo_rel(cur, library@, ms[i - 1]));
                        libs = libs.push(library@);
                        assert forall|k: int|
                            0 <= k < i implies record_redo_rel(
                            #[trigger] libs[k],
                            libs[k + 1],
                            ms[k],
                        ) by {
                            if k < i - 1 {
                                assert(libs[k] == libs.drop_last()[k]);
                                assert(libs[k + 1] == libs.drop_last()[k + 1]);
                            } else {
                                assert(libs[k] == cur);
                                assert(libs[k + 1] == library@);
                            }
                        }
                        assert((done + 1) * (maxlen + 1) == done * (maxlen + 1) + (maxlen + 1))
                            by (nonlinear_arith);
                    }
                }
                proof {
                    assert(redo_chain_wf(libs, ms));
                    assert(bundle_redo_rel(pre, library@, ms));
                }
            },
        }
    }
}

/// Per-record-type tracker: remembers how far into its catalog's change
/// log the undo/redo engine has looked.
#[derive(Clone, Copy)]
pub struct WatcherState {
    pub catalog: Catalog,
    pub cur_watermark: Watermark,
}

/// Mathematical value of a [`WatcherState`].
#[verifier::ext_equal]
pub struct WatcherView {
    pub catalog: int,
    pub mark: int,
}

impl View for WatcherState {
    type V = WatcherView;

    open spec fn view(&self) -> WatcherView {
        WatcherView { catalog: self.catalog@, mark: self.cur_watermark@ }
    }
}

/// The watcher points at a catalog of the library and its watermark does
/// not run past that catalog's log.
pub open spec fn watcher_wf(lib: LibraryModel, w: WatcherView) -> bool {
    &&& 0 <= w.catalog < lib.catalogs.len()
    &&& 0 <= w.mark <= lib.catalogs[w.catalog].change_log.len()
}

/// The undoable operation a change log entry of catalog `c` turns into.
pub open spec fn record_of_entry(c: int, e: ChangeModel) -> UndoRecordView {
    UndoRecordView {
        catalog: c,
        record_id: e.record_id,
        lsn: e.lsn,
        old_record: match e.old_record {
            Some(w) => Some(w.inner),
            None => None,
        },
        new_record: e.new_record.inner,
    }
}

/// The changes a watcher has not consumed yet, in log order.
pub open spec fn pending_for(lib: LibraryModel, w: WatcherView) -> Seq<UndoRecordView> {
    lib.catalogs[w.catalog].change_log.subrange(
        w.mark,
        lib.catalogs[w.catalog].change_log.len() as int,
    ).map_values(|e: ChangeModel| record_of_entry(w.catalog, e))
}

impl WatcherState {
    /// A watcher for the record type registered under `name`, starting at
    /// the catalog's current watermark.
    pub fn new(library: &Library, name: &str) -> (w: WatcherState)
        requires
            library@.names.len() == library@.catalogs.len(),
            library@.registered(name@),
        ensures
            watcher_wf(library@, w@),
            library@.names[w@.catalog] == name@,
            w@.mark == library@.catalogs[w@.catalog].change_log.len(),
    {
        let catalog = library.checkout(name);
        let cur_watermark = catalog.watermark(library);
        WatcherState { catalog, cur_watermark }
    }

    /// Materializes every change between the stored watermark and the
    /// catalog's current end as undoable records, and advances the
    /// watermark past them.
    pub fn consume_change_log(&mut self, library: &Library) -> (out: Vec<UndoRecord>)
        requires
            watcher_wf(library@, old(self)@),
        ensures
            final(self)@.catalog == old(self)@.catalog,
            final(self)@.mark == library@.catalogs[old(self)@.catalog].change_log.len(),
            watcher_wf(library@, final(self)@),
            views_of(out@) == pending_for(library@, old(self)@),
    {
        let ghost c = self@.catalog;
        let ghost mark0 = self@.mark;
        let new_watermark = self.catalog.watermark(library);
        let mut iter = self.catalog.changes(self.cur_watermark, new_watermark);
        let mut out: Vec<UndoRecord> = Vec::new();
        while iter.cur_watermark.0 < iter.end_watermark.0
            invariant
                iter.catalog@ == c,
                0 <= c < library@.catalogs.len(),
                iter.end_watermark@ == library@.catalogs[c].change_log.len(),
                0 <= mark0 <= iter.cur_watermark@ <= iter.end_watermark@,
                self@.catalog == c,
                views_of(out@) =~= library@.catalogs[c].change_log.subrange(
                    mark0,
                    iter.cur_watermark@,
                ).map_values(|e: ChangeModel| record_of_entry(c, e)),
            decreases iter.end_watermark@ - iter.cur_watermark@,
        {
            let ghost cur0 = iter.cur_watermark@;
            let ghost pre_out = out@;
            match iter.next(library) {
                Some(change) => {
                    let record = UndoRecord {
                        catalog: self.catalog,
                        record_id: change.record_id,
                        lsn: change.lsn,
                        old_record: change.old_record,
                        new_record: change.new_record,
                    };
                    proof {
                        assert(record@ =~= record_of_entry(
                            c,
                            library@.catalogs[c].change_log[cur0],
                        ));
                    }
                    out.push(record);
                    proof {
                        let log = library@.catalogs[c].change_log;
                        assert(log.subrange(mark0, cur0 + 1) =~= log.subrange(mark0, cur0).push(
                            log[cur0],
                        ));
                        assert(views_of(out@) =~= views_of(pre_out).push(record@));
                        assert(views_of(out@) =~= log.subrange(mark0, iter.cur_watermark@)
                            .map_values(|e: ChangeModel| record_of_entry(c, e)));
                    }
                },
                None => {
                    proof {
                        assert(false);
                    }
                },
            }
        }
        self.cur_watermark = new_watermark;
        proof {
            assert(views_of(out@) =~= pending_for(library@, WatcherView { catalog: c, mark: mark0 }));
        }
        out
    }

    /// Advances the stored watermark to the catalog's current end without
    /// emitting undoables, discarding the changes in between.
    pub fn advance_watermark(&mut self, library: &Library)
        requires
            watcher_wf(library@, old(self)@),
        ensures
            final(self)@.catalog == old(self)@.catalog,
            final(self)@.mark == library@.catalogs[old(self)@.catalog].change_log.len(),
            watcher_wf(library@, final(self)@),
    {
        let new_watermark = self.catalog.watermark(library);
        self.cur_watermark = new_watermark;
    }
}


/// The not-yet-consumed changes of the first `n` watchers, in watcher
/// order.
pub open spec fn pending_upto(lib: LibraryModel, ws: Seq<WatcherView>, n: int) -> Seq<
    UndoRecordView,
>
    decreases n,
{
    if n <= 0 {
        Seq::empty()
    } else {
        pending_upto(lib, ws, n - 1) + pending_for(lib, ws[n - 1])
    }
}

/// The not-yet-consumed changes of all watchers.
pub open spec fn pending_all(lib: LibraryModel, ws: Seq<WatcherView>) -> Seq<UndoRecordView> {
    pending_upto(lib, ws, ws.len() as int)
}

/// Mathematical value of an [`UndoRedo`] engine.
#[verifier::ext_equal]
pub struct UndoRedoView {
    pub library: LibraryModel,
    pub undo_stack: Seq<UndoableView>,
    pub redo_stack: Seq<UndoableView>,
    pub watchers: Seq<WatcherView>,
}

/// The engine invariant: the library is well formed; every watcher and
/// every stacked operation names real records; the undo stack ascends by
/// LSN and the redo stack descends, the whole undo stack sitting below the
/// whole redo stack; no stacked LSN reaches the sequencer; and every
/// change log entry not yet consumed by a watcher is newer than everything
/// on either stack.
pub open spec fn engine_inv(v: UndoRedoView) -> bool {
    &&& v.library.wf()
    &&& forall|k: int| 0 <= k < v.watchers.len() ==> watcher_wf(v.library, #[trigger] v.watchers[k])
    &&& forall|i: int|
        0 <= i < v.undo_stack.len() ==> undoable_wf(v.library, #[trigger] v.undo_stack[i])
    &&& forall|i: int|
        0 <= i < v.redo_stack.len() ==> undoable_wf(v.library, #[trigger] v.redo_stack[i])
    &&& forall|i: int, j: int|
        0 <= i < j < v.undo_stack.len() ==> undoable_lsn(#[trigger] v.undo_stack[i])
            <= undoable_lsn(#[trigger] v.undo_stack[j])
    &&& forall|i: int, j: int|
        0 <= i < j < v.redo_stack.len() ==> undoable_lsn(#[trigger] v.redo_stack[i])
            >= undoable_lsn(#[trigger] v.redo_stack[j])
    &&& forall|i: int, j: int|
        0 <= i < v.undo_stack.len() && 0 <= j < v.redo_stack.len() ==> undoable_lsn(
            #[trigger] v.undo_stack[i],
        ) <= undoable_lsn(#[trigger] v.redo_stack[j])
    &&& forall|i: int|
        0 <= i < v.undo_stack.len() ==> undoable_lsn(#[trigger] v.undo_stack[i])
            < v.library.next_lsn
    &&& forall|i: int|
        0 <= i < v.redo_stack.len() ==> undoable_lsn(#[trigger] v.redo_stack[i])
            < v.library.next_lsn
    &&& forall|i: int, kw: int, li: int|
        #![trigger v.undo_stack[i], v.watchers[kw], v.library.catalogs[v.watchers[kw].catalog].change_log[li]]
        0 <= i < v.undo_stack.len() && 0 <= kw < v.watchers.len() && v.watchers[kw].mark <= li
            < v.library.catalogs[v.watchers[kw].catalog].change_log.len() ==> undoable_lsn(
            v.undo_stack[i],
        ) < v.library.catalogs[v.watchers[kw].catalog].change_log[li].lsn
    &&& forall|i: int, kw: int, li: int|
        #![trigger v.redo_stack[i], v.watchers[kw], v.library.catalogs[v.watchers[kw].catalog].change_log[li]]
        0 <= i < v.redo_stack.len() && 0 <= kw < v.watchers.len() && v.watchers[kw].mark <= li
            < v.library.catalogs[v.watchers[kw].catalog].change_log.len() ==> undoable_lsn(
            v.redo_stack[i],
        ) < v.library.catalogs[v.watchers[kw].catalog].change_log[li].lsn
}

/// All members of every stacked undoable, counted once each.
pub open spec fn stack_members(s: Seq<UndoableView>) -> int
    decreases s.len(),
{
    if s.len() == 0 {
        0
    } else {
        stack_members(s.drop_last()) + undoable_members(s.last()).len()
    }
}

proof fn lemma_stack_members_bounds(s: Seq<UndoableView>)
    ensures
        stack_members(s) >= 0,
        forall|i: int|
            0 <= i < s.len() ==> undoable_members(#[trigger] s[i]).len() <= stack_members(s),
    decreases s.len(),
{
    if s.len() > 0 {
        lemma_stack_members_bounds(s.drop_last());
        assert forall|i: int|
            0 <= i < s.len() implies undoable_members(#[trigger] s[i]).len() <= stack_members(
            s,
        ) by {
            if i < s.len() - 1 {
                assert(s.drop_last()[i] == s[i]);
            }
        }
    }
}

/// A multiset rearrangement keeps every element: whatever stands in `b`
/// already stood somewhere in `a`.
proof fn lemma_multiset_members(a: Seq<UndoRecordView>, b: Seq<UndoRecordView>)
    requires
        a.to_multiset() == b.to_multiset(),
    ensures
        forall|k: int| 0 <= k < b.len() ==> a.contains(#[trigger] b[k]),
        a.len() == b.len(),
{
    a.to_multiset_ensures();
    b.to_multiset_ensures();
    assert forall|k: int| 0 <= k < b.len() implies a.contains(#[trigger] b[k]) by {
        assert(b.contains(b[k]));
        assert(b.to_multiset().count(b[k]) > 0);
    }
}

/// Global undo/redo engine: owns the library, one watcher per watched
/// record type, and the two history stacks.
pub struct UndoRedo {
    pub library: Library,
    pub undo_stack: Vec<Undoable>,
    pub redo_stack: Vec<Undoable>,
    pub watchers: Vec<WatcherState>,
}

impl View for UndoRedo {
    type V = UndoRedoView;

    open spec fn view(&self) -> UndoRedoView {
        UndoRedoView {
            library: self.library@,
            undo_stack: self.undo_stack@.map_values(|u: Undoable| u@),
            redo_stack: self.redo_stack@.map_values(|u: Undoable| u@),
            watchers: self.watchers@.map_values(|w: WatcherState| w@),
        }
    }
}

/// Scoped pause: edits made while it is open are discarded from history
/// when it is surrendered to [`UndoRedo::drop_pause_scope`].
pub struct PauseScope {}

/// Scoped combine: edits made while it is open become one atomic undoable
/// when it is surrendered to [`UndoRedo::drop_combine_scope`].
pub struct CombineScope {}

impl UndoRedo {
    /// An engine over `library` with empty history.
    pub fn new(library: Library) -> (engine: UndoRedo)
        ensures
            engine@.library == library@,
            engine@.undo_stack == Seq::<UndoableView>::empty(),
            engine@.redo_stack == Seq::<UndoableView>::empty(),
            engine@.watchers == Seq::<WatcherView>::empty(),
            library@.wf() ==> engine_inv(engine@),
    {
        let engine = UndoRedo {
            library,
            undo_stack: Vec::new(),
            redo_stack: Vec::new(),
            watchers: Vec::new(),
        };
        proof {
            assert(engine@.undo_stack =~= Seq::<UndoableView>::empty());
            assert(engine@.redo_stack =~= Seq::<UndoableView>::empty());
            assert(engine@.watchers =~= Seq::<WatcherView>::empty());
        }
        engine
    }

    /// Starts watching the record type registered under `name`.  Must be
    /// called after the type was registered with the library.
    pub fn watch(&mut self, name: &str)
        requires
            engine_inv(old(self)@),
            old(self)@.library.registered(name@),
            old(self)@.library.names.len() == old(self)@.library.catalogs.len(),
        ensures
            engine_inv(final(self)@),
            final(self)@.library == old(self)@.library,
            final(self)@.undo_stack == old(self)@.undo_stack,
            final(self)@.redo_stack == old(self)@.redo_stack,
            final(self)@.watchers.len() == old(self)@.watchers.len() + 1,
            forall|k: int|
                0 <= k < old(self)@.watchers.len() ==> #[trigger] final(self)@.watchers[k] == old(
                self,
                )@.watchers[k],
            final(self)@.watchers.last().mark == old(self)@.library.catalogs[final(self)@.watchers.last().catalog].change_log.len(),
            old(self)@.library.names[final(self)@.watchers.last().catalog] == name@,
    {
        let watcher = WatcherState::new(&self.library, name);
        self.watchers.push(watcher);
        proof {
            assert(self@.watchers =~= old(self)@.watchers.push(watcher@));
            assert(self@.undo_stack =~= old(self)@.undo_stack);
            assert(self@.redo_stack =~= old(self)@.redo_stack);
        }
    }

    /// Drains every watcher's pending changes, clears the redo stack if
    /// there were any, and returns them sorted ascending by LSN.  Shared
    /// by reconciliation and by the combine scope.
    fn undoables_for_consumption(&mut self) -> (out: Vec<UndoRecord>)
        requires
            engine_inv(old(self)@),
        ensures
            engine_inv(final(self)@),
            final(self)@.library == old(self)@.library,
            final(self)@.undo_stack == old(self)@.undo_stack,
            final(self)@.redo_stack == (if pending_all(
                old(self)@.library,
                old(self)@.watchers,
            ).len() > 0 {
                Seq::<UndoableView>::empty()
            } else {
                old(self)@.redo_stack
            }),
            final(self)@.watchers.len() == old(self)@.watchers.len(),
            forall|k: int|
                0 <= k < old(self)@.watchers.len() ==> (#[trigger] final(self)@.watchers[k]).catalog
                    == old(self)@.watchers[k].catalog && final(self)@.watchers[k].mark == old(
                    self,
                )@.library.catalogs[old(self)@.watchers[k].catalog].change_log.len(),
            merge_batch_ok(
                views_of(out@),
                pending_all(old(self)@.library, old(self)@.watchers),
            ),
            out@.len() == pending_all(old(self)@.library, old(self)@.watchers).len(),
            forall|t: int|
                0 <= t < out@.len() ==> {
                    let m = #[trigger] views_of(out@)[t];
                    &&& record_wf(old(self)@.library, m)
                    &&& 0 <= m.lsn < old(self)@.library.next_lsn
                    &&& forall|i: int|
                        0 <= i < old(self)@.undo_stack.len() ==> undoable_lsn(
                            #[trigger] old(self)@.undo_stack[i],
                        ) < m.lsn
                    &&& forall|i: int|
                        0 <= i < old(self)@.redo_stack.len() ==> undoable_lsn(
                            #[trigger] old(self)@.redo_stack[i],
                        ) < m.lsn
                },
    {
        let ghost pre = self@;
        let mut collected: Vec<UndoRecord> = Vec::new();
        let mut k: usize = 0;
        proof {
            assert(views_of(collected@) =~= pending_upto(pre.library, pre.watchers, 0));
        }
        while k < self.watchers.len()
            invariant
                engine_inv(pre),
                pre == old(self)@,
                k <= self.watchers@.len(),
                self@.library == pre.library,
                self@.undo_stack == pre.undo_stack,
                self@.watchers.len() == pre.watchers.len(),
                self@.redo_stack == (if pending_upto(pre.library, pre.watchers, k as int).len() > 0 {
                    Seq::<UndoableView>::empty()
                } else {
                    pre.redo_stack
                }),
                forall|j: int|
                    k <= j < pre.watchers.len() ==> #[trigger] self@.watchers[j]
                        == pre.watchers[j],
                forall|j: int|
                    0 <= j < k ==> (#[trigger] self@.watchers[j]).catalog
                        == pre.watchers[j].catalog && self@.watchers[j].mark
                        == pre.library.catalogs[pre.watchers[j].catalog].change_log.len(),
                views_of(collected@) == pending_upto(pre.library, pre.watchers, k as int),
            decreases self.watchers@.len() - k,
        {
            let ghost prev = self@;
            let ghost prev_collected = collected@;
            let mut w = self.watchers[k];
            proof {
                assert(w@ == self@.watchers[k as int]);
                assert(self@.watchers[k as int] == pre.watchers[k as int]);
                assert(watcher_wf(pre.library, w@));
            }
            let mut new_records = w.consume_change_log(&self.library);
            if new_records.len() > 0 {
                self.redo_stack.clear();
            }
            collected.append(&mut new_records);
            self.watchers[k] = w;
            k += 1;
            proof {
                assert(self@.watchers =~= prev.watchers.update(k - 1, w@));
                assert(self@.undo_stack =~= prev.undo_stack);
                assert(self@.library == prev.library);
                assert(views_of(collected@) =~= views_of(prev_collected) + pending_for(
                    pre.library,
                    pre.watchers[k - 1],
                ));
                assert(views_of(collected@) =~= pending_upto(pre.library, pre.watchers, k as int));
                if pending_for(pre.library, pre.watchers[k - 1]).len() > 0 {
                    assert(pending_upto(pre.library, pre.watchers, k as int).len() > 0);
                    assert(self@.redo_stack =~= Seq::<UndoableView>::empty());
                } else {
                    assert(pending_upto(pre.library, pre.watchers, k as int).len()
                        == pending_upto(pre.library, pre.watchers, k - 1).len());
                    assert(self@.redo_stack == prev.redo_stack);
                }
            }
        }
        proof {
            assert(views_of(collected@) == pending_all(pre.library, pre.watchers));
            lemma_pending_facts(pre, pre.watchers.len() as int);
        }
        let ghost unsorted = collected@;
        sort_records_by_lsn(&mut collected);
        proof {
            lemma_multiset_members(views_of(unsorted), views_of(collected@));
            assert forall|t: int|
                0 <= t < collected@.len() implies {
                let m = #[trigger] views_of(collected@)[t];
                &&& record_wf(pre.library, m)
                &&& 0 <= m.lsn < pre.library.next_lsn
                &&& forall|i: int|
                    0 <= i < pre.undo_stack.len() ==> undoable_lsn(#[trigger] pre.undo_stack[i])
                        < m.lsn
                &&& forall|i: int|
                    0 <= i < pre.redo_stack.len() ==> undoable_lsn(#[trigger] pre.redo_stack[i])
                        < m.lsn
            } by {
                assert(views_of(unsorted).contains(views_of(collected@)[t]));
                let j = choose|j: int|
                    0 <= j < views_of(unsorted).len() && views_of(unsorted)[j] == views_of(
                        collected@,
                    )[t];
                assert(pending_all(pre.library, pre.watchers)[j] == views_of(collected@)[t]);
            }
            lemma_engine_inv_marks(pre, self@);
        }
        collected
    }

    /// Reconciliation: drains all pending changes and appends them — each
    /// as its own undoable, sorted ascending by LSN — to the undo stack;
    /// if anything was pending, the redo stack is cleared.
    fn consume_change_logs(&mut self)
        requires
            engine_inv(old(self)@),
        ensures
            engine_inv(final(self)@),
            final(self)@.library == old(self)@.library,
            final(self)@.watchers.len() == old(self)@.watchers.len(),
            forall|k: int|
                0 <= k < old(self)@.watchers.len() ==> (#[trigger] final(self)@.watchers[k]).catalog
                    == old(self)@.watchers[k].catalog && final(self)@.watchers[k].mark == old(
                    self,
                )@.library.catalogs[old(self)@.watchers[k].catalog].change_log.len(),
            final(self)@.redo_stack == (if pending_all(
                old(self)@.library,
                old(self)@.watchers,
            ).len() > 0 {
                Seq::<UndoableView>::empty()
            } else {
                old(self)@.redo_stack
            }),
            exists|batch: Seq<UndoRecordView>|
                #[trigger] merge_batch_ok(batch, pending_all(old(self)@.library, old(self)@.watchers))
                    && final(self)@.undo_stack == old(self)@.undo_stack + batch.map_values(
                    |m: UndoRecordView| UndoableView::Single(m),
                ) && batch.len() == pending_all(old(self)@.library, old(self)@.watchers).len(),
    {
        let ghost pre = self@;
        let records = self.undoables_for_consumption();
        let ghost mid = self@;
        let ghost batch = views_of(records@);
        let mut t: usize = 0;
        while t < records.len()
            invariant
                engine_inv(pre),
                pre == old(self)@,
                t <= records@.len(),
                batch == views_of(records@),
                merge_batch_ok(batch, pending_all(pre.library, pre.watchers)),
                batch.len() == pending_all(pre.library, pre.watchers).len(),
                forall|q: int|
                    0 <= q < records@.len() ==> {
                        let m = #[trigger] views_of(records@)[q];
                        &&& record_wf(pre.library, m)
                        &&& 0 <= m.lsn < pre.library.next_lsn
                        &&& forall|i: int|
                            0 <= i < pre.undo_stack.len() ==> undoable_lsn(
                                #[trigger] pre.undo_stack[i],
                            ) < m.lsn
                    },
                self@.library == mid.library,
                self@.redo_stack == mid.redo_stack,
                self@.watchers == mid.watchers,
                mid.library == pre.library,
                mid.undo_stack == pre.undo_stack,
                mid.watchers.len() == pre.watchers.len(),
                engine_inv(mid),
                mid.redo_stack == (if pending_all(pre.library, pre.watchers).len() > 0 {
                    Seq::<UndoableView>::empty()
                } else {
                    pre.redo_stack
                }),
                forall|k: int|
                    0 <= k < pre.watchers.len() ==> (#[trigger] mid.watchers[k]).catalog
                        == pre.watchers[k].catalog && mid.watchers[k].mark
                        == pre.library.catalogs[pre.watchers[k].catalog].change_log.len(),
                self@.undo_stack == pre.undo_stack + batch.take(t as int).map_values(
                    |m: UndoRecordView| UndoableView::Single(m),
                ),
                engine_inv(self@),
            decreases records@.len() - t,
        {
            let ghost prev = self@;
            let record = records[t].clone();
            proof {
                assert(record@ == batch[t as int]);
            }
            let single = Undoable::Single(record);
            proof {
                assert(single@ == UndoableView::Single(batch[t as int]));
            }
            self.undo_stack.push(single);
            t += 1;
            proof {
                assert(self@.undo_stack =~= prev.undo_stack.push(
                    UndoableView::Single(batch[t - 1]),
                ));
                assert(self@.undo_stack =~= pre.undo_stack + batch.take(t as int).map_values(
                    |m: UndoRecordView| UndoableView::Single(m),
                ));
                assert forall|k2: int|
                    0 <= k2 < prev.watchers.len() implies (#[trigger] prev.watchers[k2]).mark
                    == prev.library.catalogs[prev.watchers[k2].catalog].change_log.len() by {
                    assert(prev.watchers[k2] == mid.watchers[k2]);
                }
                lemma_consume_push_inv(pre, prev, self@, batch, t - 1);
            }
        }
        proof {
            assert(batch.take(batch.len() as int) =~= batch);
            assert(self@.undo_stack == pre.undo_stack + batch.map_values(
                |m: UndoRecordView| UndoableView::Single(m),
            ));
        }
    }

    /// Undo: reconciles pending edits into the undo stack (clearing the
    /// redo stack if any arrived), then pops the newest undoable, replays
    /// its inverse on the library, pushes it onto the redo stack, and
    /// advances every watermark so the replay is not itself recorded as a
    /// new edit.  With nothing to undo this is a no-op on the library.
    pub fn undo(&mut self)
        requires
            engine_inv(old(self)@),
            all_unlocked(old(self)@.library),
            undo_headroom(old(self)@),
        ensures
            engine_inv(final(self)@),
            all_unlocked(final(self)@.library),
            final(self)@.watchers.len() == old(self)@.watchers.len(),
            forall|k: int|
                0 <= k < old(self)@.watchers.len() ==> (#[trigger] final(self)@.watchers[k]).catalog
                    == old(self)@.watchers[k].catalog && final(self)@.watchers[k].mark == final(self)@.library.catalogs[old(self)@.watchers[k].catalog].change_log.len(),
            exists|batch: Seq<UndoRecordView>|
                {
                    let cleared = if pending_all(old(self)@.library, old(self)@.watchers).len()
                        > 0 {
                        Seq::<UndoableView>::empty()
                    } else {
                        old(self)@.redo_stack
                    };
                    let rec = old(self)@.undo_stack + batch.map_values(
                        |m: UndoRecordView| UndoableView::Single(m),
                    );
                    &&& #[trigger] merge_batch_ok(
                        batch,
                        pending_all(old(self)@.library, old(self)@.watchers),
                    )
                    &&& if rec.len() == 0 {
                        &&& final(self)@.library == old(self)@.library
                        &&& final(self)@.undo_stack == rec
                        &&& final(self)@.redo_stack == cleared
                    } else {
                        &&& final(self)@.undo_stack == rec.drop_last()
                        &&& final(self)@.redo_stack == cleared.push(rec.last())
                        &&& undoable_undo_rel(old(self)@.library, final(self)@.library, rec.last())
                        &&& forall|i: int|
                            0 <= i < final(self)@.undo_stack.len() ==> undoable_lsn(
                                #[trigger] final(self)@.undo_stack[i],
                            ) <= undoable_lsn(rec.last())
                    }
                },
    {
        let ghost pre = self@;
        self.consume_change_logs();
        let ghost mid = self@;
        let ghost batch = choose|b: Seq<UndoRecordView>|
            merge_batch_ok(b, pending_all(pre.library, pre.watchers)) && mid.undo_stack
                == pre.undo_stack + b.map_values(|m: UndoRecordView| UndoableView::Single(m))
                && b.len() == pending_all(pre.library, pre.watchers).len();
        if self.undo_stack.len() > 0 {
            let top = self.undo_stack.pop().unwrap();
            proof {
                assert(top@ == mid.undo_stack.last());
                assert(undoable_wf(mid.library, top@));
                lemma_replay_budget(pre, mid.undo_stack, batch, top@);
            }
            top.undo(&mut self.library);
            let ghost replayed = self@;
            self.redo_stack.push(top);
            proof {
                assert(self@.undo_stack =~= mid.undo_stack.drop_last());
                assert(self@.redo_stack =~= mid.redo_stack.push(top@));
                assert(self@.watchers =~= mid.watchers);
                lemma_engine_inv_after_replay(mid, self@, top@, true);
            }
            self.advance_watermarks();
            proof {
                let cleared = if pending_all(pre.library, pre.watchers).len() > 0 {
                    Seq::<UndoableView>::empty()
                } else {
                    pre.redo_stack
                };
                let rec = pre.undo_stack + batch.map_values(
                    |m: UndoRecordView| UndoableView::Single(m),
                );
                assert(rec == mid.undo_stack);
                assert(merge_batch_ok(batch, pending_all(pre.library, pre.watchers)));
                assert(self@.undo_stack == rec.drop_last());
                assert(self@.redo_stack == cleared.push(rec.last()));
                assert(undoable_undo_rel(pre.library, self@.library, rec.last()));
                assert forall|i: int|
                    0 <= i < self@.undo_stack.len() implies undoable_lsn(
                    #[trigger] self@.undo_stack[i],
                ) <= undoable_lsn(rec.last()) by {
                    assert(self@.undo_stack[i] == mid.undo_stack[i]);
                }
            }
        } else {
            proof {
                let rec = pre.undo_stack + batch.map_values(
                    |m: UndoRecordView| UndoableView::Single(m),
                );
                assert(rec == mid.undo_stack);
                assert(rec.len() == 0);
                assert(merge_batch_ok(batch, pending_all(pre.library, pre.watchers)));
            }
        }
    }

    /// Redo: reconciles first — a new edit empties the redo stack, making
    /// this a no-op — then pops the next undoable off the redo stack,
    /// replays it forward, pushes it back onto the undo stack, and
    /// advances every watermark past the replay.
    pub fn redo(&mut self)
        requires
            engine_inv(old(self)@),
            all_unlocked(old(self)@.library),
            undo_headroom(old(self)@),
        ensures
            engine_inv(final(self)@),
            all_unlocked(final(self)@.library),
            final(self)@.watchers.len() == old(self)@.watchers.len(),
            forall|k: int|
                0 <= k < old(self)@.watchers.len() ==> (#[trigger] final(self)@.watchers[k]).catalog
                    == old(self)@.watchers[k].catalog && final(self)@.watchers[k].mark == final(self)@.library.catalogs[old(self)@.watchers[k].catalog].change_log.len(),
            exists|batch: Seq<UndoRecordView>|
                {
                    let cleared = if pending_all(old(self)@.library, old(self)@.watchers).len()
                        > 0 {
                        Seq::<UndoableView>::empty()
                    } else {
                        old(self)@.redo_stack
                    };
                    let grown = old(self)@.undo_stack + batch.map_values(
                        |m: UndoRecordView| UndoableView::Single(m),
                    );
                    &&& #[trigger] merge_batch_ok(
                        batch,
                        pending_all(old(self)@.library, old(self)@.watchers),
                    )
                    &&& if cleared.len() == 0 {
                        &&& final(self)@.library == old(self)@.library
                        &&& final(self)@.undo_stack == grown
                        &&& final(self)@.redo_stack == cleared
                    } else {
                        &&& final(self)@.redo_stack == cleared.drop_last()
                        &&& final(self)@.undo_stack == grown.push(cleared.last())
                        &&& undoable_redo_rel(
                            old(self)@.library,
                            final(self)@.library,
                            cleared.last(),
                        )
                    }
                },
    {
        let ghost pre = self@;
        self.consume_change_logs();
        let ghost mid = self@;
        let ghost batch = choose|b: Seq<UndoRecordView>|
            merge_batch_ok(b, pending_all(pre.library, pre.watchers)) && mid.undo_stack
                == pre.undo_stack + b.map_values(|m: UndoRecordView| UndoableView::Single(m))
                && b.len() == pending_all(pre.library, pre.watchers).len();
        if self.redo_stack.len() > 0 {
            let top = self.redo_stack.pop().unwrap();
            proof {
                assert(top@ == mid.redo_stack.last());
                assert(undoable_wf(mid.library, top@));
                assert(pending_all(pre.library, pre.watchers).len() == 0);
                assert(mid.redo_stack == pre.redo_stack);
                lemma_replay_budget_redo(pre, top@);
            }
            top.redo(&mut self.library);
            self.undo_stack.push(top);
            proof {
                assert(self@.redo_stack =~= mid.redo_stack.drop_last());
                assert(self@.undo_stack =~= mid.undo_stack.push(top@));
                assert(self@.watchers =~= mid.watchers);
                lemma_engine_inv_after_replay(mid, self@, top@, false);
            }
            self.advance_watermarks();
            proof {
                let cleared = if pending_all(pre.library, pre.watchers).len() > 0 {
                    Seq::<UndoableView>::empty()
                } else {
                    pre.redo_stack
                };
                let grown = pre.undo_stack + batch.map_values(
                    |m: UndoRecordView| UndoableView::Single(m),
                );
                assert(grown == mid.undo_stack);
                assert(cleared == mid.redo_stack);
                assert(merge_batch_ok(batch, pending_all(pre.library, pre.watchers)));
                assert(self@.redo_stack == cleared.drop_last());
                assert(self@.undo_stack == grown.push(cleared.last()));
                assert(undoable_redo_rel(pre.library, self@.library, cleared.last()));
            }
        } else {
            proof {
                let cleared = if pending_all(pre.library, pre.watchers).len() > 0 {
                    Seq::<UndoableView>::empty()
                } else {
                    pre.redo_stack
                };
                assert(cleared == mid.redo_stack);
                assert(cleared.len() == 0);
                assert(merge_batch_ok(batch, pending_all(pre.library, pre.watchers)));
            }
        }
    }

    /// Opens a pause scope: reconciles pending edits first, then hands
    /// back a token.  Edits made before the token is surrendered to
    /// [`UndoRedo::drop_pause_scope`] will be discarded from history.
    pub fn pause_scope(&mut self) -> (scope: PauseScope)
        requires
            engine_inv(old(self)@),
        ensures
            engine_inv(final(self)@),
            final(self)@.library == old(self)@.library,
            final(self)@.watchers.len() == old(self)@.watchers.len(),
            forall|k: int|
                0 <= k < old(self)@.watchers.len() ==> (#[trigger] final(self)@.watchers[k]).catalog
                    == old(self)@.watchers[k].catalog && final(self)@.watchers[k].mark == old(
                    self,
                )@.library.catalogs[old(self)@.watchers[k].catalog].change_log.len(),
            final(self)@.redo_stack == (if pending_all(
                old(self)@.library,
                old(self)@.watchers,
            ).len() > 0 {
                Seq::<UndoableView>::empty()
            } else {
                old(self)@.redo_stack
            }),
            exists|batch: Seq<UndoRecordView>|
                #[trigger] merge_batch_ok(batch, pending_all(old(self)@.library, old(self)@.watchers))
                    && final(self)@.undo_stack == old(self)@.undo_stack + batch.map_values(
                    |m: UndoRecordView| UndoableView::Single(m),
                ),
    {
        self.consume_change_logs();
        PauseScope {  }
    }

    /// Closes a pause scope: every watcher's watermark jumps to its
    /// catalog's current end, so the edits made inside the scope enter
    /// neither stack and do not clear the redo stack.
    pub fn drop_pause_scope(&mut self, scope: PauseScope)
        requires
            engine_inv(old(self)@),
        ensures
            engine_inv(final(self)@),
            final(self)@.library == old(self)@.library,
            final(self)@.undo_stack == old(self)@.undo_stack,
            final(self)@.redo_stack == old(self)@.redo_stack,
            final(self)@.watchers.len() == old(self)@.watchers.len(),
            forall|k: int|
                0 <= k < old(self)@.watchers.len() ==> (#[trigger] final(self)@.watchers[k]).catalog
                    == old(self)@.watchers[k].catalog && final(self)@.watchers[k].mark == old(
                    self,
                )@.library.catalogs[old(self)@.watchers[k].catalog].change_log.len(),
    {
        let PauseScope {  } = scope;
        self.advance_watermarks();
    }

    /// Opens a combine scope: reconciles pending edits first, then hands
    /// back a token.  Edits made before the token is surrendered to
    /// [`UndoRedo::drop_combine_scope`] will form one atomic undoable.
    pub fn combine_scope(&mut self) -> (scope: CombineScope)
        requires
            engine_inv(old(self)@),
        ensures
            engine_inv(final(self)@),
            final(self)@.library == old(self)@.library,
            final(self)@.watchers.len() == old(self)@.watchers.len(),
            forall|k: int|
                0 <= k < old(self)@.watchers.len() ==> (#[trigger] final(self)@.watchers[k]).catalog
                    == old(self)@.watchers[k].catalog && final(self)@.watchers[k].mark == old(
                    self,
                )@.library.catalogs[old(self)@.watchers[k].catalog].change_log.len(),
            final(self)@.redo_stack == (if pending_all(
                old(self)@.library,
                old(self)@.watchers,
            ).len() > 0 {
                Seq::<UndoableView>::empty()
            } else {
                old(self)@.redo_stack
            }),
            exists|batch: Seq<UndoRecordView>|
                #[trigger] merge_batch_ok(batch, pending_all(old(self)@.library, old(self)@.watchers))
                    && final(self)@.undo_stack == old(self)@.undo_stack + batch.map_values(
                    |m: UndoRecordView| UndoableView::Single(m),
                ),
    {
        self.consume_change_logs();
        CombineScope {  }
    }

    /// Closes a combine scope: the edits made inside it are drained as one
    /// LSN-sorted bundle and pushed as a single undoable — one undo
    /// reverts them all, one redo reapplies them all.  With no edits
    /// inside the scope, nothing is pushed.
    pub fn drop_combine_scope(&mut self, scope: CombineScope)
        requires
            engine_inv(old(self)@),
        ensures
            engine_inv(final(self)@),
            final(self)@.library == old(self)@.library,
            final(self)@.watchers.len() == old(self)@.watchers.len(),
            forall|k: int|
                0 <= k < old(self)@.watchers.len() ==> (#[trigger] final(self)@.watchers[k]).catalog
                    == old(self)@.watchers[k].catalog && final(self)@.watchers[k].mark == old(
                    self,
                )@.library.catalogs[old(self)@.watchers[k].catalog].change_log.len(),
            exists|batch: Seq<UndoRecordView>|
                #[trigger] merge_batch_ok(batch, pending_all(old(self)@.library, old(self)@.watchers))
                    && if pending_all(old(self)@.library, old(self)@.watchers).len() > 0 {
                    final(self)@.undo_stack == old(self)@.undo_stack.push(
                        UndoableView::Bundle(batch),
                    ) && final(self)@.redo_stack == Seq::<UndoableView>::empty()
                } else {
                    final(self)@.undo_stack == old(self)@.undo_stack && final(self)@.redo_stack
                        == old(self)@.redo_stack
                },
    {
        let CombineScope {  } = scope;
        let ghost pre = self@;
        let records = self.undoables_for_consumption();
        let ghost mid = self@;
        let ghost batch = views_of(records@);
        if records.len() > 0 {
            let bundle = Undoable::Bundle(records);
            proof {
                assert(bundle@ == UndoableView::Bundle(batch));
            }
            self.undo_stack.push(bundle);
            proof {
                assert(self@.undo_stack =~= mid.undo_stack.push(UndoableView::Bundle(batch)));
                assert(pending_all(pre.library, pre.watchers).len() > 0);
                assert(mid.redo_stack =~= Seq::<UndoableView>::empty());
                lemma_combine_push_inv(pre, mid, self@, batch);
            }
        } else {
            proof {
                assert(pending_all(pre.library, pre.watchers).len() == 0);
                assert(merge_batch_ok(batch, pending_all(pre.library, pre.watchers)));
            }
        }
    }

    /// Advances every watcher's watermark to its catalog's current end,
    /// discarding whatever stood in between.
    fn advance_watermarks(&mut self)
        requires
            engine_inv(old(self)@),
        ensures
            final(self)@.library == old(self)@.library,
            final(self)@.undo_stack == old(self)@.undo_stack,
            final(self)@.redo_stack == old(self)@.redo_stack,
            final(self)@.watchers.len() == old(self)@.watchers.len(),
            forall|k: int|
                0 <= k < old(self)@.watchers.len() ==> (#[trigger] final(self)@.watchers[k]).catalog
                    == old(self)@.watchers[k].catalog && final(self)@.watchers[k].mark == old(
                    self,
                )@.library.catalogs[old(self)@.watchers[k].catalog].change_log.len(),
            engine_inv(final(self)@),
    {
        let mut k: usize = 0;
        while k < self.watchers.len()
            invariant
                engine_inv(old(self)@),
                k <= self.watchers@.len(),
                self@.library == old(self)@.library,
                self@.undo_stack == old(self)@.undo_stack,
                self@.redo_stack == old(self)@.redo_stack,
                self@.watchers.len() == old(self)@.watchers.len(),
                forall|j: int|
                    k <= j < old(self)@.watchers.len() ==> #[trigger] self@.watchers[j] == old(
                    self,
                    )@.watchers[j],
                forall|j: int|
                    0 <= j < k ==> (#[trigger] self@.watchers[j]).catalog == old(
                    self,
                    )@.watchers[j].catalog && self@.watchers[j].mark == old(
                    self,
                    )@.library.catalogs[old(self)@.watchers[j].catalog].change_log.len(),
            decreases self.watchers@.len() - k,
        {
            let ghost prev = self@;
            let mut w = self.watchers[k];
            proof {
                assert(w@ == prev.watchers[k as int]);
                assert(w@ == old(self)@.watchers[k as int]);
            }
            w.advance_watermark(&self.library);
            self.watchers[k] = w;
            proof {
                assert(self@.watchers =~= prev.watchers.update(k as int, w@));
                assert(self@.undo_stack =~= prev.undo_stack);
                assert(self@.redo_stack =~= prev.redo_stack);
                assert(self@.library == prev.library);
            }
            k += 1;
        }
        proof {
            lemma_engine_inv_marks(old(self)@, self@);
        }
    }
}

/// Everything still pending for the first `n` watchers names a real
/// record, carries an LSN below the sequencer, and is newer than anything
/// on either stack.
proof fn lemma_pending_facts(v: UndoRedoView, n: int)
    requires
        engine_inv(v),
        0 <= n <= v.watchers.len(),
    ensures
        forall|t: int|
            0 <= t < pending_upto(v.library, v.watchers, n).len() ==> {
                let m = #[trigger] pending_upto(v.library, v.watchers, n)[t];
                &&& record_wf(v.library, m)
                &&& 0 <= m.lsn < v.library.next_lsn
                &&& forall|i: int|
                    0 <= i < v.undo_stack.len() ==> undoable_lsn(#[trigger] v.undo_stack[i]) < m.lsn
                &&& forall|i: int|
                    0 <= i < v.redo_stack.len() ==> undoable_lsn(#[trigger] v.redo_stack[i]) < m.lsn
            },
    decreases n,
{
    if n > 0 {
        lemma_pending_facts(v, n - 1);
        let prev = pending_upto(v.library, v.watchers, n - 1);
        let w = v.watchers[n - 1];
        let cat = v.library.catalogs[w.catalog];
        assert(watcher_wf(v.library, w));
        assert forall|t: int|
            0 <= t < pending_upto(v.library, v.watchers, n).len() implies {
            let m = #[trigger] pending_upto(v.library, v.watchers, n)[t];
            &&& record_wf(v.library, m)
            &&& 0 <= m.lsn < v.library.next_lsn
            &&& forall|i: int|
                0 <= i < v.undo_stack.len() ==> undoable_lsn(#[trigger] v.undo_stack[i]) < m.lsn
            &&& forall|i: int|
                0 <= i < v.redo_stack.len() ==> undoable_lsn(#[trigger] v.redo_stack[i]) < m.lsn
        } by {
            if t < prev.len() {
                assert(pending_upto(v.library, v.watchers, n)[t] == prev[t]);
            } else {
                let t2 = t - prev.len();
                let li = w.mark + t2;
                let e = cat.change_log[li];
                assert(pending_upto(v.library, v.watchers, n)[t] == pending_for(v.library, w)[t2]);
                assert(pending_for(v.library, w)[t2] == record_of_entry(w.catalog, e));
                assert(0 <= e.record_id < cat.records.len());
                assert(0 <= e.lsn < v.library.next_lsn);
                assert forall|i: int|
                    0 <= i < v.undo_stack.len() implies undoable_lsn(#[trigger] v.undo_stack[i])
                    < e.lsn by {
                    assert(v.watchers[n - 1].mark <= li
                        < v.library.catalogs[v.watchers[n - 1].catalog].change_log.len());
                }
                assert forall|i: int|
                    0 <= i < v.redo_stack.len() implies undoable_lsn(#[trigger] v.redo_stack[i])
                    < e.lsn by {
                    assert(v.watchers[n - 1].mark <= li
                        < v.library.catalogs[v.watchers[n - 1].catalog].change_log.len());
                }
            }
        }
    }
}

/// Appending one undoable per record adds exactly one member each.
proof fn lemma_stack_members_singles(s: Seq<UndoableView>, batch: Seq<UndoRecordView>)
    ensures
        stack_members(s + batch.map_values(|m: UndoRecordView| UndoableView::Single(m)))
            == stack_members(s) + batch.len(),
    decreases batch.len(),
{
    let mapped = batch.map_values(|m: UndoRecordView| UndoableView::Single(m));
    if batch.len() == 0 {
        assert(s + mapped =~= s);
    } else {
        lemma_stack_members_singles(s, batch.drop_last());
        let shorter = batch.drop_last().map_values(|m: UndoRecordView| UndoableView::Single(m));
        assert((s + mapped).drop_last() =~= s + shorter);
        assert((s + mapped).last() == UndoableView::Single(batch.last()));
        assert(undoable_members(UndoableView::Single(batch.last())).len() == 1);
    }
}

proof fn lemma_max_records_nonneg(lib: LibraryModel)
    ensures
        lib_max_records(lib) >= 0,
{
    if lib.catalogs.len() > 0 {
        lemma_lib_max_records(lib, 0);
    }
}

/// Replaying LSNs never run out: the sequencer keeps enough headroom for
/// one more undoable — however large — to replay, counting everything
/// stacked or still pending.
pub open spec fn undo_headroom(v: UndoRedoView) -> bool {
    v.library.next_lsn + (stack_members(v.undo_stack) + stack_members(v.redo_stack) + pending_all(
        v.library,
        v.watchers,
    ).len() + 1) * (lib_max_records(v.library) + 1) <= u64::MAX
}

/// After one undoable moves from one history stack to the other and its
/// replay has run, the engine invariant holds again: replay only appends
/// fresh log entries past every watermark, and the moved element sits on
/// the right side of both stack orders.
proof fn lemma_engine_inv_after_replay(
    mid: UndoRedoView,
    post: UndoRedoView,
    top: UndoableView,
    from_undo: bool,
)
    requires
        engine_inv(mid),
        forall|k: int|
            0 <= k < mid.watchers.len() ==> (#[trigger] mid.watchers[k]).mark
                == mid.library.catalogs[mid.watchers[k].catalog].change_log.len(),
        if from_undo {
            &&& mid.undo_stack.len() > 0
            &&& top == mid.undo_stack.last()
            &&& post.undo_stack == mid.undo_stack.drop_last()
            &&& post.redo_stack == mid.redo_stack.push(top)
        } else {
            &&& mid.redo_stack.len() > 0
            &&& top == mid.redo_stack.last()
            &&& post.redo_stack == mid.redo_stack.drop_last()
            &&& post.undo_stack == mid.undo_stack.push(top)
        },
        post.watchers == mid.watchers,
        post.library.wf(),
        post.library.catalogs.len() == mid.library.catalogs.len(),
        forall|c: int|
            0 <= c < mid.library.catalogs.len() ==> (
            #[trigger] post.library.catalogs[c]).records.len()
                == mid.library.catalogs[c].records.len(),
        forall|c: int|
            0 <= c < mid.library.catalogs.len() ==> (
            #[trigger] post.library.catalogs[c]).change_log.len()
                >= mid.library.catalogs[c].change_log.len(),
        forall|c: int, li: int|
            0 <= c < mid.library.catalogs.len() && mid.library.catalogs[c].change_log.len() <= li
                < post.library.catalogs[c].change_log.len() ==> (
            #[trigger] post.library.catalogs[c].change_log[li]).lsn >= mid.library.next_lsn,
        post.library.next_lsn >= mid.library.next_lsn,
    ensures
        engine_inv(post),
{
    assert forall|k: int|
        0 <= k < post.watchers.len() implies watcher_wf(post.library, #[trigger] post.watchers[k]) by {
        assert(watcher_wf(mid.library, mid.watchers[k]));
    }
    assert forall|i: int|
        0 <= i < post.undo_stack.len() implies undoable_wf(
        post.library,
        #[trigger] post.undo_stack[i],
    ) && undoable_lsn(post.undo_stack[i]) < post.library.next_lsn by {
        if from_undo {
            assert(post.undo_stack[i] == mid.undo_stack[i]);
            lemma_undoable_wf_same_records(mid.library, post.library, mid.undo_stack[i]);
        } else {
            if i < mid.undo_stack.len() {
                assert(post.undo_stack[i] == mid.undo_stack[i]);
                lemma_undoable_wf_same_records(mid.library, post.library, mid.undo_stack[i]);
            } else {
                assert(post.undo_stack[i] == top);
                lemma_undoable_wf_same_records(mid.library, post.library, top);
            }
        }
    }
    assert forall|i: int|
        0 <= i < post.redo_stack.len() implies undoable_wf(
        post.library,
        #[trigger] post.redo_stack[i],
    ) && undoable_lsn(post.redo_stack[i]) < post.library.next_lsn by {
        if from_undo {
            if i < mid.redo_stack.len() {
                assert(post.redo_stack[i] == mid.redo_stack[i]);
                lemma_undoable_wf_same_records(mid.library, post.library, mid.redo_stack[i]);
            } else {
                assert(post.redo_stack[i] == top);
                lemma_undoable_wf_same_records(mid.library, post.library, top);
            }
        } else {
            assert(post.redo_stack[i] == mid.redo_stack[i]);
            lemma_undoable_wf_same_records(mid.library, post.library, mid.redo_stack[i]);
        }
    }
    assert forall|i: int, j: int|
        0 <= i < j < post.undo_stack.len() implies undoable_lsn(#[trigger] post.undo_stack[i])
        <= undoable_lsn(#[trigger] post.undo_stack[j]) by {
        if !from_undo && j == post.undo_stack.len() - 1 {
            assert(post.undo_stack[i] == mid.undo_stack[i]);
            assert(post.undo_stack[j] == top);
        } else {
            assert(post.undo_stack[i] == mid.undo_stack[i]);
            assert(post.undo_stack[j] == mid.undo_stack[j]);
        }
    }
    assert forall|i: int, j: int|
        0 <= i < j < post.redo_stack.len() implies undoable_lsn(#[trigger] post.redo_stack[i])
        >= undoable_lsn(#[trigger] post.redo_stack[j]) by {
        if from_undo && j == post.redo_stack.len() - 1 {
            assert(post.redo_stack[i] == mid.redo_stack[i]);
            assert(post.redo_stack[j] == top);
        } else {
            assert(post.redo_stack[i] == mid.redo_stack[i]);
            assert(post.redo_stack[j] == mid.redo_stack[j]);
        }
    }
    assert forall|i: int, j: int|
        0 <= i < post.undo_stack.len() && 0 <= j < post.redo_stack.len() implies undoable_lsn(
        #[trigger] post.undo_stack[i],
    ) <= undoable_lsn(#[trigger] post.redo_stack[j]) by {
        if from_undo {
            assert(post.undo_stack[i] == mid.undo_stack[i]);
            if j == post.redo_stack.len() - 1 {
                assert(post.redo_stack[j] == top);
            } else {
                assert(post.redo_stack[j] == mid.redo_stack[j]);
            }
        } else {
            assert(post.redo_stack[j] == mid.redo_stack[j]);
            if i == post.undo_stack.len() - 1 {
                assert(post.undo_stack[i] == top);
            } else {
                assert(post.undo_stack[i] == mid.undo_stack[i]);
            }
        }
    }
    assert forall|i: int, kw: int, li: int|
        #![trigger post.undo_stack[i], post.watchers[kw], post.library.catalogs[post.watchers[kw].catalog].change_log[li]]
        0 <= i < post.undo_stack.len() && 0 <= kw < post.watchers.len() && post.watchers[kw].mark
            <= li < post.library.catalogs[post.watchers[kw].catalog].change_log.len() implies undoable_lsn(
        post.undo_stack[i],
    ) < post.library.catalogs[post.watchers[kw].catalog].change_log[li].lsn by {
        let c = post.watchers[kw].catalog;
        assert(watcher_wf(mid.library, mid.watchers[kw]));
        assert(li >= mid.library.catalogs[c].change_log.len());
        assert(post.library.catalogs[c].change_log[li].lsn >= mid.library.next_lsn);
        lemma_replay_stack_elem_low(mid, post, top, from_undo, i, true);
    }
    assert forall|i: int, kw: int, li: int|
        #![trigger post.redo_stack[i], post.watchers[kw], post.library.catalogs[post.watchers[kw].catalog].change_log[li]]
        0 <= i < post.redo_stack.len() && 0 <= kw < post.watchers.len() && post.watchers[kw].mark
            <= li < post.library.catalogs[post.watchers[kw].catalog].change_log.len() implies undoable_lsn(
        post.redo_stack[i],
    ) < post.library.catalogs[post.watchers[kw].catalog].change_log[li].lsn by {
        let c = post.watchers[kw].catalog;
        assert(watcher_wf(mid.library, mid.watchers[kw]));
        assert(li >= mid.library.catalogs[c].change_log.len());
        assert(post.library.catalogs[c].change_log[li].lsn >= mid.library.next_lsn);
        lemma_replay_stack_elem_low(mid, post, top, from_undo, i, false);
    }
}

/// Every element of either post-replay stack already stood on one of the
/// pre-replay stacks, so its LSN lies below the pre-replay sequencer.
proof fn lemma_replay_stack_elem_low(
    mid: UndoRedoView,
    post: UndoRedoView,
    top: UndoableView,
    from_undo: bool,
    i: int,
    undo_side: bool,
)
    requires
        engine_inv(mid),
        if from_undo {
            &&& mid.undo_stack.len() > 0
            &&& top == mid.undo_stack.last()
            &&& post.undo_stack == mid.undo_stack.drop_last()
            &&& post.redo_stack == mid.redo_stack.push(top)
        } else {
            &&& mid.redo_stack.len() > 0
            &&& top == mid.redo_stack.last()
            &&& post.redo_stack == mid.redo_stack.drop_last()
            &&& post.undo_stack == mid.undo_stack.push(top)
        },
        undo_side ==> 0 <= i < post.undo_stack.len(),
        !undo_side ==> 0 <= i < post.redo_stack.len(),
    ensures
        undo_side ==> undoable_lsn(post.undo_stack[i]) < mid.library.next_lsn,
        !undo_side ==> undoable_lsn(post.redo_stack[i]) < mid.library.next_lsn,
{
    if undo_side {
        if !from_undo && i == post.undo_stack.len() - 1 {
            assert(post.undo_stack[i] == top);
        } else {
            assert(post.undo_stack[i] == mid.undo_stack[i]);
        }
    } else {
        if from_undo && i == post.redo_stack.len() - 1 {
            assert(post.redo_stack[i] == top);
        } else {
            assert(post.redo_stack[i] == mid.redo_stack[i]);
        }
    }
}

/// Record validity of a stacked operation only looks at catalog and
/// record counts, which replay preserves.
proof fn lemma_undoable_wf_same_records(a: LibraryModel, b: LibraryModel, u: UndoableView)
    requires
        undoable_wf(a, u),
        b.catalogs.len() == a.catalogs.len(),
        forall|c: int|
            0 <= c < a.catalogs.len() ==> (#[trigger] b.catalogs[c]).records.len()
                == a.catalogs[c].records.len(),
    ensures
        undoable_wf(b, u),
{
    match u {
        UndoableView::Single(m) => {
            assert(record_wf(a, m));
        },
        UndoableView::Bundle(ms) => {
            assert forall|i: int| 0 <= i < ms.len() implies record_wf(b, #[trigger] ms[i]) by {
                assert(record_wf(a, ms[i]));
            }
        },
    }
}

/// The headroom demanded of the sequencer covers the one undoable that an
/// undo replays: the reconciled undo stack's top.
proof fn lemma_replay_budget(
    pre: UndoRedoView,
    mid_undo: Seq<UndoableView>,
    batch: Seq<UndoRecordView>,
    top: UndoableView,
)
    requires
        undo_headroom(pre),
        batch.len() == pending_all(pre.library, pre.watchers).len(),
        mid_undo == pre.undo_stack + batch.map_values(|m: UndoRecordView| UndoableView::Single(m)),
        mid_undo.len() > 0,
        top == mid_undo.last(),
    ensures
        pre.library.next_lsn + undoable_members(top).len() * (lib_max_records(pre.library) + 1)
            <= u64::MAX,
{
    lemma_stack_members_singles(pre.undo_stack, batch);
    lemma_stack_members_bounds(mid_undo);
    lemma_stack_members_bounds(pre.redo_stack);
    lemma_max_records_nonneg(pre.library);
    let ml = lib_max_records(pre.library);
    let mtop = undoable_members(top).len() as int;
    let total = stack_members(pre.undo_stack) + stack_members(pre.redo_stack) + pending_all(
        pre.library,
        pre.watchers,
    ).len() + 1;
    assert(stack_members(mid_undo) == stack_members(pre.undo_stack) + batch.len());
    assert(mtop <= stack_members(mid_undo));
    assert(mtop <= total);
    assert(mtop * (ml + 1) <= total * (ml + 1)) by (nonlinear_arith)
        requires
            0 <= mtop <= total,
            ml >= 0,
    ;
}

/// The same headroom covers a redo's replay: the redo stack survives
/// reconciliation only when nothing was pending, so its top was already
/// counted.
proof fn lemma_replay_budget_redo(pre: UndoRedoView, top: UndoableView)
    requires
        undo_headroom(pre),
        pre.redo_stack.len() > 0,
        top == pre.redo_stack.last(),
    ensures
        pre.library.next_lsn + undoable_members(top).len() * (lib_max_records(pre.library) + 1)
            <= u64::MAX,
{
    lemma_stack_members_bounds(pre.redo_stack);
    lemma_stack_members_bounds(pre.undo_stack);
    lemma_max_records_nonneg(pre.library);
    let ml = lib_max_records(pre.library);
    let mtop = undoable_members(top).len() as int;
    let total = stack_members(pre.undo_stack) + stack_members(pre.redo_stack) + pending_all(
        pre.library,
        pre.watchers,
    ).len() + 1;
    assert(mtop <= stack_members(pre.redo_stack));
    assert(pending_all(pre.library, pre.watchers).len() >= 0);
    assert(mtop <= total);
    assert(mtop * (ml + 1) <= total * (ml + 1)) by (nonlinear_arith)
        requires
            0 <= mtop <= total,
            ml >= 0,
    ;
}

/// Law: undo replays edits in reverse LSN order across all watched record
/// types — every undoable left on the stack is at most as new as the one
/// on top, which an undo pops first.
pub proof fn lemma_undo_order_respects_lsn(v: UndoRedoView, i: int)
    requires
        engine_inv(v),
        v.undo_stack.len() > 0,
        0 <= i < v.undo_stack.len(),
    ensures
        undoable_lsn(v.undo_stack[i]) <= undoable_lsn(v.undo_stack.last()),
{
}

/// Law: the engine invariant survives any library mutation made between
/// engine calls — a create, a prototype creation or a commit only appends
/// change log entries stamped at or past the sequencer, which every
/// stacked operation's LSN lies below.
pub proof fn lemma_engine_inv_after_library_growth(pre: UndoRedoView, post: UndoRedoView)
    requires
        engine_inv(pre),
        post.undo_stack == pre.undo_stack,
        post.redo_stack == pre.redo_stack,
        post.watchers == pre.watchers,
        post.library.wf(),
        post.library.catalogs.len() == pre.library.catalogs.len(),
        forall|c: int|
            0 <= c < pre.library.catalogs.len() ==> (
            #[trigger] post.library.catalogs[c]).records.len()
                >= pre.library.catalogs[c].records.len(),
        forall|c: int|
            0 <= c < pre.library.catalogs.len() ==> (
            #[trigger] post.library.catalogs[c]).change_log.len()
                >= pre.library.catalogs[c].change_log.len(),
        forall|c: int, li: int|
            0 <= c < pre.library.catalogs.len() && 0 <= li
                < pre.library.catalogs[c].change_log.len() ==> (
            #[trigger] post.library.catalogs[c].change_log[li])
                == pre.library.catalogs[c].change_log[li],
        forall|c: int, li: int|
            0 <= c < pre.library.catalogs.len()
                && pre.library.catalogs[c].change_log.len() <= li
                < post.library.catalogs[c].change_log.len() ==> (
            #[trigger] post.library.catalogs[c].change_log[li]).lsn >= pre.library.next_lsn,
        post.library.next_lsn >= pre.library.next_lsn,
    ensures
        engine_inv(post),
{
    assert forall|k: int|
        0 <= k < post.watchers.len() implies watcher_wf(post.library, #[trigger] post.watchers[k]) by {
        assert(watcher_wf(pre.library, pre.watchers[k]));
    }
    assert forall|i: int|
        0 <= i < post.undo_stack.len() implies undoable_wf(
        post.library,
        #[trigger] post.undo_stack[i],
    ) && undoable_lsn(post.undo_stack[i]) < post.library.next_lsn by {
        assert(post.undo_stack[i] == pre.undo_stack[i]);
        lemma_undoable_wf_grown_records(pre.library, post.library, pre.undo_stack[i]);
    }
    assert forall|i: int|
        0 <= i < post.redo_stack.len() implies undoable_wf(
        post.library,
        #[trigger] post.redo_stack[i],
    ) && undoable_lsn(post.redo_stack[i]) < post.library.next_lsn by {
        assert(post.redo_stack[i] == pre.redo_stack[i]);
        lemma_undoable_wf_grown_records(pre.library, post.library, pre.redo_stack[i]);
    }
    assert forall|i: int, kw: int, li: int|
        #![trigger post.undo_stack[i], post.watchers[kw], post.library.catalogs[post.watchers[kw].catalog].change_log[li]]
        0 <= i < post.undo_stack.len() && 0 <= kw < post.watchers.len() && post.watchers[kw].mark
            <= li < post.library.catalogs[post.watchers[kw].catalog].change_log.len() implies undoable_lsn(
        post.undo_stack[i],
    ) < post.library.catalogs[post.watchers[kw].catalog].change_log[li].lsn by {
        let c = post.watchers[kw].catalog;
        assert(watcher_wf(pre.library, pre.watchers[kw]));
        if li < pre.library.catalogs[c].change_log.len() {
            assert(post.library.catalogs[c].change_log[li]
                == pre.library.catalogs[c].change_log[li]);
        } else {
            assert(post.library.catalogs[c].change_log[li].lsn >= pre.library.next_lsn);
        }
    }
    assert forall|i: int, kw: int, li: int|
        #![trigger post.redo_stack[i], post.watchers[kw], post.library.catalogs[post.watchers[kw].catalog].change_log[li]]
        0 <= i < post.redo_stack.len() && 0 <= kw < post.watchers.len() && post.watchers[kw].mark
            <= li < post.library.catalogs[post.watchers[kw].catalog].change_log.len() implies undoable_lsn(
        post.redo_stack[i],
    ) < post.library.catalogs[post.watchers[kw].catalog].change_log[li].lsn by {
        let c = post.watchers[kw].catalog;
        assert(watcher_wf(pre.library, pre.watchers[kw]));
        if li < pre.library.catalogs[c].change_log.len() {
            assert(post.library.catalogs[c].change_log[li]
                == pre.library.catalogs[c].change_log[li]);
        } else {
            assert(post.library.catalogs[c].change_log[li].lsn >= pre.library.next_lsn);
        }
    }
}

/// Record validity only needs record counts not to shrink.
proof fn lemma_undoable_wf_grown_records(a: LibraryModel, b: LibraryModel, u: UndoableView)
    requires
        undoable_wf(a, u),
        b.catalogs.len() == a.catalogs.len(),
        forall|c: int|
            0 <= c < a.catalogs.len() ==> (#[trigger] b.catalogs[c]).records.len()
                >= a.catalogs[c].records.len(),
    ensures
        undoable_wf(b, u),
{
    match u {
        UndoableView::Single(m) => {
            assert(record_wf(a, m));
        },
        UndoableView::Bundle(ms) => {
            assert forall|i: int| 0 <= i < ms.len() implies record_wf(b, #[trigger] ms[i]) by {
                assert(record_wf(a, ms[i]));
            }
        },
    }
}

/// Pushing the bundle of a combine scope keeps the engine invariant: the
/// bundle is sorted, its members are newer than everything below it, and
/// the redo stack was just cleared.
proof fn lemma_combine_push_inv(
    pre: UndoRedoView,
    mid: UndoRedoView,
    post: UndoRedoView,
    batch: Seq<UndoRecordView>,
)
    requires
        engine_inv(mid),
        batch.len() > 0,
        sorted_by_lsn(batch),
        mid.library == pre.library,
        mid.undo_stack == pre.undo_stack,
        mid.redo_stack == Seq::<UndoableView>::empty(),
        forall|k: int|
            0 <= k < mid.watchers.len() ==> (#[trigger] mid.watchers[k]).mark
                == mid.library.catalogs[mid.watchers[k].catalog].change_log.len(),
        post.library == mid.library,
        post.redo_stack == mid.redo_stack,
        post.watchers == mid.watchers,
        post.undo_stack == mid.undo_stack.push(UndoableView::Bundle(batch)),
        forall|t: int|
            0 <= t < batch.len() ==> {
                let m = #[trigger] batch[t];
                &&& record_wf(pre.library, m)
                &&& 0 <= m.lsn < pre.library.next_lsn
                &&& forall|i: int|
                    0 <= i < pre.undo_stack.len() ==> undoable_lsn(#[trigger] pre.undo_stack[i])
                        < m.lsn
            },
    ensures
        engine_inv(post),
{
    let new_elem = UndoableView::Bundle(batch);
    assert(undoable_wf(post.library, new_elem)) by {
        assert forall|t: int| 0 <= t < batch.len() implies record_wf(post.library, #[trigger] batch[t]) by {}
    }
    assert(undoable_lsn(new_elem) == batch.last().lsn);
    assert(batch[batch.len() - 1].lsn < pre.library.next_lsn);
    assert forall|i: int|
        0 <= i < post.undo_stack.len() implies undoable_wf(
        post.library,
        #[trigger] post.undo_stack[i],
    ) && undoable_lsn(post.undo_stack[i]) < post.library.next_lsn by {
        if i < mid.undo_stack.len() {
            assert(post.undo_stack[i] == mid.undo_stack[i]);
        } else {
            assert(post.undo_stack[i] == new_elem);
        }
    }
    assert forall|i: int, j: int|
        0 <= i < j < post.undo_stack.len() implies undoable_lsn(#[trigger] post.undo_stack[i])
        <= undoable_lsn(#[trigger] post.undo_stack[j]) by {
        if j < mid.undo_stack.len() {
            assert(post.undo_stack[i] == mid.undo_stack[i]);
            assert(post.undo_stack[j] == mid.undo_stack[j]);
        } else {
            assert(post.undo_stack[i] == mid.undo_stack[i]);
            assert(post.undo_stack[j] == new_elem);
            assert(batch[batch.len() - 1].lsn > undoable_lsn(pre.undo_stack[i]));
        }
    }
}

/// Pushing the next batch entry during reconciliation keeps the engine
/// invariant: the entry is newer than everything below it, and with every
/// watermark already advanced and the redo stack cleared there is nothing
/// left to compare it against.
proof fn lemma_consume_push_inv(
    pre: UndoRedoView,
    prev: UndoRedoView,
    post: UndoRedoView,
    batch: Seq<UndoRecordView>,
    t: int,
)
    requires
        engine_inv(prev),
        0 <= t < batch.len(),
        sorted_by_lsn(batch),
        post.library == prev.library,
        post.redo_stack == prev.redo_stack,
        post.watchers == prev.watchers,
        post.undo_stack == prev.undo_stack.push(UndoableView::Single(batch[t])),
        prev.undo_stack == pre.undo_stack + batch.take(t).map_values(
            |m: UndoRecordView| UndoableView::Single(m),
        ),
        record_wf(prev.library, batch[t]),
        0 <= batch[t].lsn < prev.library.next_lsn,
        forall|i: int|
            0 <= i < pre.undo_stack.len() ==> undoable_lsn(#[trigger] pre.undo_stack[i])
                < batch[t].lsn,
        forall|k: int|
            0 <= k < prev.watchers.len() ==> (#[trigger] prev.watchers[k]).mark
                == prev.library.catalogs[prev.watchers[k].catalog].change_log.len(),
        prev.redo_stack == Seq::<UndoableView>::empty(),
    ensures
        engine_inv(post),
{
    let new_elem = UndoableView::Single(batch[t]);
    assert(undoable_lsn(new_elem) == batch[t].lsn);
    assert(undoable_wf(post.library, new_elem));
    assert forall|i: int|
        0 <= i < prev.undo_stack.len() implies undoable_lsn(#[trigger] prev.undo_stack[i])
        <= batch[t].lsn by {
        if i < pre.undo_stack.len() {
            assert(prev.undo_stack[i] == pre.undo_stack[i]);
        } else {
            let q = i - pre.undo_stack.len();
            assert(prev.undo_stack[i] == UndoableView::Single(batch.take(t)[q]));
            assert(batch.take(t)[q] == batch[q]);
            assert(batch[q].lsn <= batch[t].lsn);
        }
    }
    assert forall|i: int, j: int|
        0 <= i < j < post.undo_stack.len() implies undoable_lsn(#[trigger] post.undo_stack[i])
        <= undoable_lsn(#[trigger] post.undo_stack[j]) by {
        if j < prev.undo_stack.len() {
            assert(post.undo_stack[i] == prev.undo_stack[i]);
            assert(post.undo_stack[j] == prev.undo_stack[j]);
        } else {
            assert(post.undo_stack[j] == new_elem);
            assert(post.undo_stack[i] == prev.undo_stack[i]);
        }
    }
    assert forall|i: int|
        0 <= i < post.undo_stack.len() implies undoable_wf(
        post.library,
        #[trigger] post.undo_stack[i],
    ) && undoable_lsn(post.undo_stack[i]) < post.library.next_lsn by {
        if i < prev.undo_stack.len() {
            assert(post.undo_stack[i] == prev.undo_stack[i]);
        } else {
            assert(post.undo_stack[i] == new_elem);
        }
    }
}

/// The engine invariant survives advancing watermarks: a watcher that
/// consumes (or skips) more of its log only weakens the freshness side
/// conditions.
proof fn lemma_engine_inv_marks(pre: UndoRedoView, post: UndoRedoView)
    requires
        engine_inv(pre),
        post.library == pre.library,
        post.undo_stack == pre.undo_stack,
        post.redo_stack == pre.redo_stack || post.redo_stack == Seq::<UndoableView>::empty(),
        post.watchers.len() == pre.watchers.len(),
        forall|k: int|
            0 <= k < pre.watchers.len() ==> (#[trigger] post.watchers[k]).catalog
                == pre.watchers[k].catalog && pre.watchers[k].mark <= post.watchers[k].mark
                <= pre.library.catalogs[pre.watchers[k].catalog].change_log.len(),
    ensures
        engine_inv(post),
{
    assert forall|k: int|
        0 <= k < post.watchers.len() implies watcher_wf(post.library, #[trigger] post.watchers[k]) by {
        assert(watcher_wf(pre.library, pre.watchers[k]));
    }
    assert forall|i: int, kw: int, li: int|
        #![trigger post.undo_stack[i], post.watchers[kw], post.library.catalogs[post.watchers[kw].catalog].change_log[li]]
        0 <= i < post.undo_stack.len() && 0 <= kw < post.watchers.len() && post.watchers[kw].mark
            <= li < post.library.catalogs[post.watchers[kw].catalog].change_log.len() implies undoable_lsn(
        post.undo_stack[i],
    ) < post.library.catalogs[post.watchers[kw].catalog].change_log[li].lsn by {
        assert(pre.watchers[kw].mark <= li);
        assert(undoable_lsn(pre.undo_stack[i]) < pre.library.catalogs[pre.watchers[kw].catalog].change_log[li].lsn);
    }
    assert forall|i: int, kw: int, li: int|
        #![trigger post.redo_stack[i], post.watchers[kw], post.library.catalogs[post.watchers[kw].catalog].change_log[li]]
        0 <= i < post.redo_stack.len() && 0 <= kw < post.watchers.len() && post.watchers[kw].mark
            <= li < post.library.catalogs[post.watchers[kw].catalog].change_log.len() implies undoable_lsn(
        post.redo_stack[i],
    ) < post.library.catalogs[post.watchers[kw].catalog].change_log[li].lsn by {
        assert(pre.watchers[kw].mark <= li);
        assert(undoable_lsn(pre.redo_stack[i]) < pre.library.catalogs[pre.watchers[kw].catalog].change_log[li].lsn);
    }
}

} // verus!
