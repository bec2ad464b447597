//! Cursors over a catalog's change log.
//!
//! A [`Watermark`] marks a position in one catalog's change log; a
//! [`CatalogIterator`] walks the entries between two watermarks in
//! insertion order, yielding [`Change`] copies of them.  Iteration is
//! restartable: calling [`Catalog::changes`] again with the same
//! watermarks walks the same entries.

use vstd::prelude::*;

use crate::catalog::{Catalog, ChangeModel};
use crate::library::Library;
use crate::record::{Record, RecordId, ValueModel};

verus! {

/// Index into a catalog's change log; monotonically non-decreasing.
#[derive(Clone, Copy, Debug, PartialEq, Eq, Structural)]
pub struct Watermark(pub usize);

impl View for Watermark {
    type V = int;

    open spec fn view(&self) -> int {
        self.0 as int
    }
}

/// A copy of one change log entry, exposing the record id, the LSN, the
/// record value before the change (absent for a creation) and the value
/// after it.
pub struct Change {
    pub record_id: RecordId,
    pub lsn: u64,
    pub old_record: Option<Record>,
    pub new_record: Record,
}

/// Mathematical value of a [`Change`].
#[verifier::ext_equal]
pub struct ChangeView {
    pub record_id: int,
    pub lsn: int,
    pub old_record: Option<Seq<ValueModel>>,
    pub new_record: Seq<ValueModel>,
}

impl View for Change {
    type V = ChangeView;

    open spec fn view(&self) -> ChangeView {
        ChangeView {
            record_id: self.record_id.0 as int,
            lsn: self.lsn as int,
            old_record: match self.old_record {
                Some(r) => Some(r@),
                None => None,
            },
            new_record: self.new_record@,
        }
    }
}

/// The user-visible projection of a change log entry: the wrapper
/// envelopes are stripped down to the record values they carry.
pub open spec fn change_of_entry(e: ChangeModel) -> ChangeView {
    ChangeView {
        record_id: e.record_id,
        lsn: e.lsn,
        old_record: match e.old_record {
            Some(w) => Some(w.inner),
            None => None,
        },
        new_record: e.new_record.inner,
    }
}

impl Change {
    /// The record this change touched.
    pub fn record_id(&self) -> (r: RecordId)
        ensures
            r.0 as int == self@.record_id,
    {
        self.record_id
    }

    /// The log sequence number stamped on this change.
    pub fn lsn(&self) -> (r: u64)
        ensures
            r as int == self@.lsn,
    {
        self.lsn
    }

    /// The record value before the change; absent exactly when the change
    /// records a creation.
    pub fn old_record(&self) -> (r: Option<&Record>)
        ensures
            match r {
                Some(rec) => self@.old_record == Some(rec@),
                None => self@.old_record is None,
            },
    {
        match &self.old_record {
            Some(r) => Some(r),
            None => None,
        }
    }

    /// The record value after the change.
    pub fn new_record(&self) -> (r: &Record)
        ensures
            r@ == self@.new_record,
    {
        &self.new_record
    }
}

/// Cursor over one catalog's change log between two watermarks.
pub struct CatalogIterator {
    pub catalog: Catalog,
    pub cur_watermark: Watermark,
    pub end_watermark: Watermark,
}

impl CatalogIterator {
    /// The cursor may be walked against `library`: it names one of its
    /// catalogs and does not run past the end of that catalog's log.
    pub open spec fn wf(self, library: crate::library::LibraryModel) -> bool {
        &&& self.catalog.valid(library)
        &&& self.cur_watermark@ < self.end_watermark@ ==> self.end_watermark@
            <= library.catalogs[self.catalog@].change_log.len()
    }

    /// Yields a copy of the next change before the end watermark, or
    /// `None` once the cursor has reached it.
    pub fn next(&mut self, library: &Library) -> (r: Option<Change>)
        requires
            old(self).wf(library@),
        ensures
            final(self).catalog == old(self).catalog,
            final(self).end_watermark == old(self).end_watermark,
            final(self).wf(library@),
            if old(self).cur_watermark@ < old(self).end_watermark@ {
                &&& final(self).cur_watermark@ == old(self).cur_watermark@ + 1
                &&& r matches Some(c) && c@ == change_of_entry(
                    library@.catalogs[old(self).catalog@].change_log[old(self).cur_watermark@],
                )
            } else {
                &&& final(self).cur_watermark == old(self).cur_watermark
                &&& r is None
            },
    {
        if self.end_watermark.0 <= self.cur_watermark.0 {
            return None;
        }
        let state = &library.catalogs[self.catalog.index];
        proof {
            assert(state@.change_log.len() == state.change_log@.len());
        }
        let entry = &state.change_log[self.cur_watermark.0];
        let change = Change {
            record_id: entry.record_id,
            lsn: entry.lsn,
            old_record: match &entry.old_record {
                Some(w) => Some(w.inner.clone()),
                None => None,
            },
            new_record: entry.new_record.inner.clone(),
        };
        proof {
            assert(change@ =~= change_of_entry(
                library@.catalogs[self.catalog@].change_log[self.cur_watermark@],
            ));
        }
        self.cur_watermark = Watermark(self.cur_watermark.0 + 1);
        Some(change)
    }
}

impl Catalog {
    /// A cursor over this catalog's change log covering `[start_point,
    /// end_point)`, in insertion order.
    pub fn changes(&self, start_point: Watermark, end_point: Watermark) -> (r: CatalogIterator)
        ensures
            r.catalog == *self,
            r.cur_watermark == start_point,
            r.end_watermark == end_point,
    {
        CatalogIterator { catalog: *self, cur_watermark: start_point, end_watermark: end_point }
    }

    /// The current end of this catalog's change log.
    pub fn watermark(&self, library: &Library) -> (r: Watermark)
        requires
            self.valid(library@),
        ensures
            r@ == library@.catalogs[self@].change_log.len(),
    {
        let state = &library.catalogs[self.index];
        proof {
            assert(state@.change_log.len() == state.change_log@.len());
        }
        Watermark(state.change_log.len())
    }
}

} // verus!
