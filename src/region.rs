//! Region boundary metadata, store reports of it, and recovery actions.
use crate::keys::{copy_key, range_nonempty};
use vstd::prelude::*;

verus! {

/// Boundary metadata of one region: its id, its key range `[start_key,
/// end_key)` (an empty `end_key` is unbounded) and its epoch version.
pub struct RegionState {
    pub id: u64,
    pub start_key: Vec<u8>,
    pub end_key: Vec<u8>,
    pub version: u64,
}

/// What the contracts see of a region state.
pub struct RegionView {
    pub id: u64,
    pub start: Seq<u8>,
    pub end: Seq<u8>,
    pub version: u64,
}

impl View for RegionState {
    type V = RegionView;

    open spec fn view(&self) -> RegionView {
        RegionView {
            id: self.id,
            start: self.start_key@,
            end: self.end_key@,
            version: self.version,
        }
    }
}

impl RegionState {
    pub fn new(id: u64, start_key: Vec<u8>, end_key: Vec<u8>, version: u64) -> (r: Self)
        ensures
            r@ == (RegionView { id, start: start_key@, end: end_key@, version }),
    {
        RegionState { id, start_key, end_key, version }
    }

    /// The range holds at least one key.
    pub open spec fn wf(&self) -> bool {
        range_nonempty(self.start_key@, self.end_key@)
    }

    /// A copy with the same metadata.
    pub fn copy(&self) -> (r: Self)
        ensures
            r@ == self@,
    {
        RegionState {
            id: self.id,
            start_key: copy_key(&self.start_key),
            end_key: copy_key(&self.end_key),
            version: self.version,
        }
    }
}

/// A region as one store reported it.
pub struct ReportedRegion {
    pub state: RegionState,
    pub store_id: u64,
}

impl ReportedRegion {
    pub fn new(state: RegionState, store_id: u64) -> (r: Self)
        ensures
            r.state == state,
            r.store_id == store_id,
    {
        ReportedRegion { state, store_id }
    }
}

/// The decision for one piece of keyspace: keep the region as it is
/// (`create_on` is `None`), or create a new empty region with these
/// boundaries on the store `create_on` names.
pub struct RecoverAction {
    pub state: RegionState,
    pub create_on: Option<u64>,
}

impl RecoverAction {
    pub fn keep(state: RegionState) -> (r: Self)
        ensures
            r.state == state,
            r.create_on is None,
    {
        RecoverAction { state, create_on: None }
    }

    pub fn create(state: RegionState, store_id: u64) -> (r: Self)
        ensures
            r.state == state,
            r.create_on == Some(store_id),
    {
        RecoverAction { state, create_on: Some(store_id) }
    }
}

} // verus!
