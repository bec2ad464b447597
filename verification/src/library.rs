//! The library: a registry of catalogs, one per record type name, sharing
//! one LSN sequencer.
//!
//! Registering a type name adds an empty catalog; checking a name out
//! returns a [`Catalog`] handle for it.  All mutations made through any
//! handle draw their log sequence numbers from the library's single
//! [`Sequencer`], which makes LSNs unique and strictly increasing across
//! every catalog of the library.

use vstd::prelude::*;

use crate::catalog::{Catalog, CatalogModel, CatalogState};

verus! {

/// Library-wide monotonic LSN allocator.
pub struct Sequencer {
    pub next_lsn: u64,
}

impl View for Sequencer {
    type V = int;

    open spec fn view(&self) -> int {
        self.next_lsn as int
    }
}

impl Sequencer {
    /// Returns the current sequence number and advances the counter.
    /// Every call returns a distinct, strictly larger value.
    pub fn next(&mut self) -> (lsn: u64)
        requires
            old(self)@ < u64::MAX,
        ensures
            lsn as int == old(self)@,
            final(self)@ == old(self)@ + 1,
    {
        let lsn = self.next_lsn;
        self.next_lsn = self.next_lsn + 1;
        lsn
    }
}

/// Registry mapping record type names to catalogs, plus the shared
/// sequencer.
pub struct Library {
    pub names: Vec<String>,
    pub catalogs: Vec<CatalogState>,
    pub sequencer: Sequencer,
}

/// Mathematical value of a whole library.
#[verifier::ext_equal]
pub struct LibraryModel {
    pub names: Seq<Seq<char>>,
    pub catalogs: Seq<CatalogModel>,
    pub next_lsn: int,
}

impl View for Library {
    type V = LibraryModel;

    open spec fn view(&self) -> LibraryModel {
        LibraryModel {
            names: self.names@.map_values(|n: String| n@),
            catalogs: self.catalogs@.map_values(|c: CatalogState| c@),
            next_lsn: self.sequencer@,
        }
    }
}

impl LibraryModel {
    /// Every LSN ever issued lies below the sequencer's next value, and no
    /// two change log entries anywhere in the library share an LSN.
    pub open spec fn lsn_wf(self) -> bool {
        &&& 0 <= self.next_lsn <= u64::MAX
        &&& forall|c: int, i: int|
            0 <= c < self.catalogs.len() && 0 <= i < self.catalogs[c].change_log.len() ==> 0 <= (
            #[trigger] self.catalogs[c].change_log[i]).lsn < self.next_lsn
        &&& forall|c1: int, i1: int, c2: int, i2: int|
            0 <= c1 < self.catalogs.len() && 0 <= i1 < self.catalogs[c1].change_log.len() && 0 <= c2
                < self.catalogs.len() && 0 <= i2 < self.catalogs[c2].change_log.len() && !(c1 == c2
                && i1 == i2) ==> (#[trigger] self.catalogs[c1].change_log[i1]).lsn != (
            #[trigger] self.catalogs[c2].change_log[i2]).lsn
    }

    /// The library invariant: one catalog per registered name, no name
    /// registered twice, every catalog well formed, and library-wide LSN
    /// uniqueness.
    pub open spec fn wf(self) -> bool {
        &&& self.names.len() == self.catalogs.len()
        &&& self.names.no_duplicates()
        &&& forall|c: int| 0 <= c < self.catalogs.len() ==> (#[trigger] self.catalogs[c]).wf()
        &&& self.lsn_wf()
    }

    /// Whether a record type name has been registered.
    pub open spec fn registered(self, name: Seq<char>) -> bool {
        exists|i: int| 0 <= i < self.names.len() && self.names[i] == name
    }

    /// The library with one catalog replaced.
    pub open spec fn with_catalog(self, c: int, cat: CatalogModel) -> LibraryModel {
        LibraryModel { names: self.names, catalogs: self.catalogs.update(c, cat), next_lsn: self.next_lsn }
    }

    /// The library with the sequencer advanced to `n`.
    pub open spec fn with_next_lsn(self, n: int) -> LibraryModel {
        LibraryModel { names: self.names, catalogs: self.catalogs, next_lsn: n }
    }
}

impl Library {
    /// An empty library: no catalogs, sequencer at zero.
    pub fn new() -> (library: Library)
        ensures
            library@.wf(),
            library@.names == Seq::<Seq<char>>::empty(),
            library@.catalogs == Seq::<CatalogModel>::empty(),
            library@.next_lsn == 0,
    {
        let library = Library {
            names: Vec::new(),
            catalogs: Vec::new(),
            sequencer: Sequencer { next_lsn: 0 },
        };
        proof {
            assert(library@.names =~= Seq::<Seq<char>>::empty());
            assert(library@.catalogs =~= Seq::<CatalogModel>::empty());
        }
        library
    }

    /// Adds an empty catalog under `name`.  Must be called exactly
    /// once per record type, before any checkout of that type.
    pub fn register(&mut self, name: &str)
        requires
            old(self)@.wf(),
            !old(self)@.registered(name@),
        ensures
            final(self)@.wf(),
            final(self)@.names == old(self)@.names.push(name@),
            final(self)@.catalogs.len() == old(self)@.catalogs.len() + 1,
            final(self)@.catalogs == old(self)@.catalogs.push(
                CatalogModel {
                    records: Seq::empty(),
                    locks: Seq::empty(),
                    change_log: Seq::empty(),
                },
            ),
            final(self)@.next_lsn == old(self)@.next_lsn,
            final(self)@.registered(name@),
    {
        self.names.push(name.to_owned());
        self.catalogs.push(
            CatalogState { records: Vec::new(), locks: Vec::new(), change_log: Vec::new() },
        );
        proof {
            assert(self@.names =~= old(self)@.names.push(name@));
            let empty = CatalogModel {
                records: Seq::empty(),
                locks: Seq::empty(),
                change_log: Seq::empty(),
            };
            assert(self@.catalogs.last() =~= empty);
            assert(self@.catalogs =~= old(self)@.catalogs.push(empty));
            let n = self@.names.len();
            assert(self@.names[n - 1] == name@);
            assert forall|i: int| 0 <= i < n - 1 implies self@.names[i] != name@ by {
                assert(self@.names[i] == old(self)@.names[i]);
            }
            assert(self@.names.no_duplicates());
        }
    }

    /// Returns a handle for the catalog registered under `name`.
    /// Checking a type out before registering it is a caller error.
    pub fn checkout(&self, name: &str) -> (catalog: Catalog)
        requires
            self@.names.len() == self@.catalogs.len(),
            self@.registered(name@),
        ensures
            0 <= catalog@ < self@.catalogs.len(),
            self@.names[catalog@] == name@,
    {
        let owned: String = name.to_owned();
        let mut i: usize = 0;
        while i < self.names.len()
            invariant
                self@.names.len() == self@.catalogs.len(),
                self@.registered(name@),
                owned@ == name@,
                i <= self.names.len(),
                self.names.len() == self@.names.len(),
                forall|j: int| 0 <= j < i ==> self@.names[j] != name@,
            decreases self.names.len() - i,
        {
            if self.names[i].eq(&owned) {
                let catalog = Catalog { index: i };
                proof {
                    assert(catalog@ == i as int);
                    assert(self@.names[i as int] == self.names@[i as int]@);
                }
                return catalog;
            }
            i += 1;
        }
        proof {
            let witness = choose|j: int| 0 <= j < self@.names.len() && self@.names[j] == name@;
            assert(self@.names[witness] != name@);
        }
        vstd::pervasive::unreached()
    }
}

/// Law: LSNs are pairwise distinct across all catalogs' change logs — any
/// two distinct entries of a well-formed library carry different LSNs.
pub proof fn lemma_lsns_unique(lib: LibraryModel, c1: int, i1: int, c2: int, i2: int)
    requires
        lib.wf(),
        0 <= c1 < lib.catalogs.len(),
        0 <= i1 < lib.catalogs[c1].change_log.len(),
        0 <= c2 < lib.catalogs.len(),
        0 <= i2 < lib.catalogs[c2].change_log.len(),
        !(c1 == c2 && i1 == i2),
    ensures
        lib.catalogs[c1].change_log[i1].lsn != lib.catalogs[c2].change_log[i2].lsn,
{
}

/// Law: within any single catalog's change log, LSNs are strictly
/// increasing in append order.
pub proof fn lemma_catalog_lsns_increasing(lib: LibraryModel, c: int, i: int, j: int)
    requires
        lib.wf(),
        0 <= c < lib.catalogs.len(),
        0 <= i < j < lib.catalogs[c].change_log.len(),
    ensures
        lib.catalogs[c].change_log[i].lsn < lib.catalogs[c].change_log[j].lsn,
{
}

/// Library well-formedness is preserved by any operation that touches one
/// catalog, keeps its existing log entries and every other catalog intact,
/// re-establishes that catalog's prototype linkage, and stamps whatever
/// entries it appends with consecutive LSNs drawn from the sequencer.
pub proof fn lemma_wf_after_catalog_change(pre: LibraryModel, post: LibraryModel, c: int)
    requires
        pre.wf(),
        0 <= c < pre.catalogs.len(),
        post.names == pre.names,
        post.catalogs.len() == pre.catalogs.len(),
        forall|d: int| 0 <= d < pre.catalogs.len() && d != c ==> post.catalogs[d] == pre.catalogs[d],
        post.catalogs[c].links_wf(),
        post.catalogs[c].records.len() >= pre.catalogs[c].records.len(),
        post.catalogs[c].change_log.len() >= pre.catalogs[c].change_log.len(),
        post.next_lsn == pre.next_lsn + post.catalogs[c].change_log.len()
            - pre.catalogs[c].change_log.len(),
        post.next_lsn <= u64::MAX,
        forall|i: int|
            0 <= i < pre.catalogs[c].change_log.len() ==> #[trigger] post.catalogs[c].change_log[i]
                == pre.catalogs[c].change_log[i],
        forall|i: int|
            pre.catalogs[c].change_log.len() <= i < post.catalogs[c].change_log.len() ==> (
            #[trigger] post.catalogs[c].change_log[i]).lsn == pre.next_lsn + i
                - pre.catalogs[c].change_log.len() && 0 <= post.catalogs[c].change_log[i].record_id
                < post.catalogs[c].records.len(),
    ensures
        post.wf(),
{
    let pre_log = pre.catalogs[c].change_log;
    let post_log = post.catalogs[c].change_log;
    assert forall|i: int|
        0 <= i < post_log.len() implies 0 <= (#[trigger] post_log[i]).record_id
        < post.catalogs[c].records.len() by {
        if i < pre_log.len() {
            assert(pre_log[i].record_id < pre.catalogs[c].records.len());
        }
    }
    assert forall|i: int, j: int| 0 <= i < j < post_log.len() implies (
    #[trigger] post_log[i]).lsn < (#[trigger] post_log[j]).lsn by {
        if j < pre_log.len() {
        } else if i < pre_log.len() {
            assert(post_log[i].lsn == pre_log[i].lsn);
            assert(pre_log[i].lsn < pre.next_lsn);
        }
    }
    assert(post.catalogs[c].wf());
    assert forall|d: int| 0 <= d < post.catalogs.len() implies (#[trigger] post.catalogs[d]).wf() by {
        if d != c {
            assert(post.catalogs[d] == pre.catalogs[d]);
        }
    }
    assert forall|d: int, i: int|
        0 <= d < post.catalogs.len() && 0 <= i < post.catalogs[d].change_log.len() implies 0 <= (
    #[trigger] post.catalogs[d].change_log[i]).lsn < post.next_lsn by {
        if d != c || i < pre_log.len() {
            assert(post.catalogs[d].change_log[i] == pre.catalogs[d].change_log[i]);
        }
    }
    assert forall|c1: int, i1: int, c2: int, i2: int|
        0 <= c1 < post.catalogs.len() && 0 <= i1 < post.catalogs[c1].change_log.len() && 0 <= c2
            < post.catalogs.len() && 0 <= i2 < post.catalogs[c2].change_log.len() && !(c1 == c2 && i1
            == i2) implies (#[trigger] post.catalogs[c1].change_log[i1]).lsn != (
    #[trigger] post.catalogs[c2].change_log[i2]).lsn by {
        let old1 = c1 != c || i1 < pre_log.len();
        let old2 = c2 != c || i2 < pre_log.len();
        if old1 && old2 {
            assert(post.catalogs[c1].change_log[i1] == pre.catalogs[c1].change_log[i1]);
            assert(post.catalogs[c2].change_log[i2] == pre.catalogs[c2].change_log[i2]);
        } else if old1 && !old2 {
            assert(post.catalogs[c1].change_log[i1] == pre.catalogs[c1].change_log[i1]);
            assert(pre.catalogs[c1].change_log[i1].lsn < pre.next_lsn);
            assert(post.catalogs[c2].change_log[i2].lsn >= pre.next_lsn);
        } else if !old1 && old2 {
            assert(post.catalogs[c2].change_log[i2] == pre.catalogs[c2].change_log[i2]);
            assert(pre.catalogs[c2].change_log[i2].lsn < pre.next_lsn);
            assert(post.catalogs[c1].change_log[i1].lsn >= pre.next_lsn);
        } else {
            assert(post.catalogs[c1].change_log[i1].lsn == pre.next_lsn + i1 - pre_log.len());
            assert(post.catalogs[c2].change_log[i2].lsn == pre.next_lsn + i2 - pre_log.len());
        }
    }
}

impl Default for Library {
    /// Same as [`Library::new`]: an empty library.
    fn default() -> (library: Library)
        ensures
            library@.wf(),
            library@.names == Seq::<Seq<char>>::empty(),
            library@.catalogs == Seq::<CatalogModel>::empty(),
            library@.next_lsn == 0,
    {
        Library::new()
    }
}


} // verus!
