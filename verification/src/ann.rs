//! The approximate index of a collection: a snapshot built from the stored
//! records, and the flags that decide whether queries may use it. Writes
//! mark the scope dirty; a rebuild clears the mark when it starts and
//! publishes its snapshot when it ends. A dirty or rebuilding scope answers
//! queries exactly, so that every completed write is seen.

use std::sync::Arc;
use vstd::prelude::*;

use crate::filter::MetadataFilterIndex;

verus! {

/// The graph index of the approximate search.
#[verifier::external_type_specification]
#[verifier::external_body]
pub struct ExAnnIndex(feox_ann::AnnIndex);

/// The number of dimensions an approximate index was made for.
pub uninterp spec fn ann_dimensions(index: feox_ann::AnnIndex) -> usize;

/// The ids of the vectors an approximate index holds.
pub uninterp spec fn ann_ids(index: feox_ann::AnnIndex) -> Set<Seq<char>>;

/// `AnnIndex::dimensions`: the number of dimensions of the index's
/// configuration, fixed when it was made.
#[verifier::external_body]
fn ann_index_dimensions(index: &feox_ann::AnnIndex) -> (r: usize)
    ensures
        r == ann_dimensions(*index),
{
    index.dimensions()
}

/// `AnnIndex::len`: the count of live vectors, one per id the index holds.
#[verifier::external_body]
fn ann_index_len(index: &feox_ann::AnnIndex) -> (r: usize)
    ensures
        r == ann_ids(*index).len(),
{
    index.len()
}

/// `Arc::clone`: another handle to the same value.
#[verifier::external_body]
fn arc_clone<T>(a: &Arc<T>) -> (r: Arc<T>)
    ensures
        r == *a,
{
    Arc::clone(a)
}

/// A built approximate index and the metadata index of the same records.
pub struct AnnSnapshot {
    pub index: feox_ann::AnnIndex,
    pub filters: MetadataFilterIndex,
}

impl AnnSnapshot {
    /// The number of dimensions of the snapshot's vectors.
    pub fn dimensions(&self) -> (r: usize)
        ensures
            r == ann_dimensions(self.index),
    {
        ann_index_dimensions(&self.index)
    }

    /// The number of vectors in the snapshot.
    pub fn len(&self) -> (r: usize)
        ensures
            r == ann_ids(self.index).len(),
    {
        ann_index_len(&self.index)
    }
}

/// What a query may do with a scope's approximate index.
pub enum AnnQueryPlan {
    /// Answer exactly; schedule a rebuild first when asked.
    Exact { schedule_rebuild: bool },
    /// Search this snapshot.
    Snapshot(Arc<AnnSnapshot>),
}

/// The state of one collection's approximate index.
///
/// `writes` counts the writes marked so far, `building_from` the count when
/// the running rebuild started, `snapshot_from` the count when the rebuild
/// of the published snapshot started.
pub struct AnnScope {
    snapshot: Option<Arc<AnnSnapshot>>,
    dirty: bool,
    rebuilding: bool,
    writes: Ghost<nat>,
    building_from: Ghost<nat>,
    snapshot_from: Ghost<nat>,
}

impl AnnScope {
    /// A clean scope has seen every marked write: a rebuild in progress
    /// started after the last one, and when none is in progress, the
    /// published snapshot's rebuild did.
    #[verifier::type_invariant]
    spec fn wf(&self) -> bool {
        &&& (!self.dirty && self.rebuilding ==> self.building_from@ == self.writes@)
        &&& (!self.dirty && !self.rebuilding ==> self.snapshot_from@ == self.writes@)
    }

    pub closed spec fn spec_dirty(&self) -> bool {
        self.dirty
    }

    pub closed spec fn spec_rebuilding(&self) -> bool {
        self.rebuilding
    }

    pub closed spec fn spec_snapshot(&self) -> Option<Arc<AnnSnapshot>> {
        self.snapshot
    }

    /// The number of writes marked so far.
    pub closed spec fn writes(&self) -> nat {
        self.writes@
    }

    /// How many writes had been marked when the rebuild of the published
    /// snapshot started.
    pub closed spec fn snapshot_from(&self) -> nat {
        self.snapshot_from@
    }

    /// Queries must be answered exactly.
    pub open spec fn spec_requires_exact(&self) -> bool {
        self.spec_dirty() || self.spec_rebuilding()
    }

    /// A scope with no snapshot, neither dirty nor rebuilding.
    pub fn new() -> (r: AnnScope)
        ensures
            r.spec_snapshot() is None,
            !r.spec_dirty(),
            !r.spec_rebuilding(),
            r.writes() == 0,
    {
        AnnScope {
            snapshot: None,
            dirty: false,
            rebuilding: false,
            writes: Ghost(0),
            building_from: Ghost(0),
            snapshot_from: Ghost(0),
        }
    }

    /// The published snapshot, fresh or not.
    pub fn snapshot(&self) -> (r: Option<Arc<AnnSnapshot>>)
        ensures
            r == self.spec_snapshot(),
    {
        match &self.snapshot {
            Some(s) => Some(arc_clone(s)),
            None => None,
        }
    }

    /// The published snapshot, when queries may use it: the scope is neither
    /// dirty nor rebuilding, so the snapshot's rebuild started after every
    /// marked write.
    pub fn query_snapshot(&self) -> (r: Option<Arc<AnnSnapshot>>)
        ensures
            r == (if self.spec_requires_exact() {
                None
            } else {
                self.spec_snapshot()
            }),
            r is Some ==> self.snapshot_from() == self.writes(),
    {
        proof {
            use_type_invariant(self);
        }
        if self.requires_exact_query() {
            return None;
        }
        self.snapshot()
    }

    /// Records a write to the collection.
    pub fn mark_dirty(&mut self)
        ensures
            final(self).spec_dirty(),
            final(self).spec_rebuilding() == old(self).spec_rebuilding(),
            final(self).spec_snapshot() == old(self).spec_snapshot(),
            final(self).writes() == old(self).writes() + 1,
            final(self).snapshot_from() == old(self).snapshot_from(),
    {
        self.dirty = true;
        self.writes = Ghost(self.writes@ + 1);
    }

    /// Whether a write has been marked since the last rebuild started.
    pub fn is_dirty(&self) -> (r: bool)
        ensures
            r == self.spec_dirty(),
    {
        self.dirty
    }

    /// Whether a rebuild is running.
    pub fn is_rebuilding(&self) -> (r: bool)
        ensures
            r == self.spec_rebuilding(),
    {
        self.rebuilding
    }

    /// Whether queries must be answered exactly.
    pub fn requires_exact_query(&self) -> (r: bool)
        ensures
            r == self.spec_requires_exact(),
    {
        self.dirty || self.rebuilding
    }

    /// Starts a rebuild, unless one is running: clears the dirty mark.
    pub fn begin_rebuild(&mut self) -> (r: bool)
        ensures
            r == !old(self).spec_rebuilding(),
            r ==> final(self).spec_rebuilding() && !final(self).spec_dirty(),
            !r ==> final(self).spec_dirty() == old(self).spec_dirty() && final(self).spec_rebuilding(),
            final(self).spec_snapshot() == old(self).spec_snapshot(),
            final(self).writes() == old(self).writes(),
            final(self).snapshot_from() == old(self).snapshot_from(),
    {
        proof {
            use_type_invariant(&*self);
        }
        if !self.rebuilding {
            self.building_from = Ghost(self.writes@);
            self.rebuilding = true;
            self.dirty = false;
            return true;
        }
        false
    }

    /// Publishes the snapshot of the running rebuild and ends it.
    pub fn publish(&mut self, snapshot: Arc<AnnSnapshot>)
        requires
            old(self).spec_rebuilding(),
        ensures
            final(self).spec_snapshot() == Some(snapshot),
            !final(self).spec_rebuilding(),
            final(self).spec_dirty() == old(self).spec_dirty(),
            final(self).writes() == old(self).writes(),
            !old(self).spec_dirty() ==> final(self).snapshot_from() == old(self).writes(),
    {
        proof {
            use_type_invariant(&*self);
        }
        self.snapshot = Some(snapshot);
        self.snapshot_from = Ghost(self.building_from@);
        self.rebuilding = false;
    }

    /// Ends a failed rebuild; the scope stays dirty so that the next query
    /// schedules another.
    pub fn finish_failed_rebuild(&mut self)
        ensures
            final(self).spec_dirty(),
            !final(self).spec_rebuilding(),
            final(self).spec_snapshot() == old(self).spec_snapshot(),
            final(self).writes() == old(self).writes(),
    {
        self.dirty = true;
        self.rebuilding = false;
    }

    /// What an approximate query of `dimensions` may do: search the
    /// snapshot when one is published for that number of dimensions and the
    /// scope is neither dirty nor rebuilding; otherwise answer exactly, and
    /// schedule a rebuild when there is no fitting snapshot or the scope is
    /// dirty.
    pub fn plan_query(&self, dimensions: usize) -> (r: AnnQueryPlan)
        ensures
            self.spec_snapshot() is None ==> r == (AnnQueryPlan::Exact { schedule_rebuild: true }),
            self.spec_snapshot() matches Some(s) && ann_dimensions(s.index) != dimensions ==> r
                == (AnnQueryPlan::Exact { schedule_rebuild: true }),
            self.spec_dirty() ==> r == (AnnQueryPlan::Exact { schedule_rebuild: true }),
            self.spec_snapshot() is Some && ann_dimensions(self.spec_snapshot()->0.index) == dimensions
                && !self.spec_requires_exact() ==> r == (AnnQueryPlan::Snapshot(
                self.spec_snapshot()->0,
            )),
            r matches AnnQueryPlan::Snapshot(s) ==> {
                &&& self.spec_snapshot() == Some(s)
                &&& ann_dimensions(s.index) == dimensions
                &&& !self.spec_requires_exact()
                &&& self.snapshot_from() == self.writes()
            },
            self.spec_rebuilding() && self.spec_snapshot() is Some ==> r is Exact,
            r == (AnnQueryPlan::Exact { schedule_rebuild: false }) ==> self.spec_rebuilding()
                && !self.spec_dirty(),
    {
        proof {
            use_type_invariant(self);
        }
        let snapshot = match self.snapshot() {
            Some(s) => s,
            None => {
                return AnnQueryPlan::Exact { schedule_rebuild: true };
            },
        };
        if snapshot.dimensions() != dimensions {
            return AnnQueryPlan::Exact { schedule_rebuild: true };
        }
        if self.dirty {
            return AnnQueryPlan::Exact { schedule_rebuild: true };
        }
        if self.rebuilding {
            return AnnQueryPlan::Exact { schedule_rebuild: false };
        }
        AnnQueryPlan::Snapshot(snapshot)
    }
}

impl Clone for AnnScope {
    /// The same state, sharing the published snapshot.
    fn clone(&self) -> (r: AnnScope)
        ensures
            r == *self,
    {
        proof {
            use_type_invariant(self);
        }
        AnnScope {
            snapshot: self.snapshot(),
            dirty: self.dirty,
            rebuilding: self.rebuilding,
            writes: Ghost(self.writes@),
            building_from: Ghost(self.building_from@),
            snapshot_from: Ghost(self.snapshot_from@),
        }
    }
}

impl Default for AnnScope {
    /// A scope with no snapshot, neither dirty nor rebuilding.
    fn default() -> (r: AnnScope)
        ensures
            r.spec_snapshot() is None,
            !r.spec_dirty(),
            !r.spec_rebuilding(),
            r.writes() == 0,
    {
        AnnScope::new()
    }
}

} // verus!
