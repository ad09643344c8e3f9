//! The `Stake` entity: identity, hierarchy pointer, lifecycle flags, free
//! text, and timestamps, together with its pure state transitions.

use vstd::prelude::*;
use crate::time::Timestamp;

verus! {

/// An opaque positive integer identity.  Two ids are equal exactly when
/// their integer values are.
#[derive(Debug, Clone, Copy, PartialEq, Eq, Structural, Hash)]
pub struct StakeId(pub u32);

/// Failures of stake operations.
#[derive(Debug, PartialEq, Eq, Structural)]
pub enum StakeError {
    /// A dropped stake may not be brought back to life.  No operation of
    /// this core returns it; it is kept for callers that add reactivation.
    CannotActivateDroppedStake,
    /// No stake with the given id exists in the collection.
    StakeNotFound,
}

/// The mathematical value of a [`Stake`]: every field as a plain value.
pub ghost struct StakeModel {
    pub id: u32,
    pub name: Seq<char>,
    pub parent: Option<u32>,
    pub complete: bool,
    pub dropped: bool,
    pub note: Option<Seq<char>>,
    pub modified: Timestamp,
    pub created: Timestamp,
}

impl StakeModel {
    /// A stake is active when it is neither completed nor dropped.
    pub open spec fn active(self) -> bool {
        !self.dropped && !self.complete
    }

    /// The timestamps name real instants.
    pub open spec fn wf(self) -> bool {
        self.modified.wf() && self.created.wf()
    }
}

/// The entity.
#[derive(Debug, PartialEq, Eq)]
pub struct Stake {
    pub stake_id: StakeId,
    pub stake_name: String,
    pub parent_id: Option<StakeId>,
    pub complete: bool,
    pub dropped: bool,
    pub note: Option<String>,
    pub date_modified: Timestamp,
    pub date_created: Timestamp,
}

impl View for Stake {
    type V = StakeModel;

    open spec fn view(&self) -> StakeModel {
        StakeModel {
            id: self.stake_id.0,
            name: self.stake_name@,
            parent: match self.parent_id {
                Some(p) => Some(p.0),
                None => None,
            },
            complete: self.complete,
            dropped: self.dropped,
            note: match self.note {
                Some(n) => Some(n@),
                None => None,
            },
            modified: self.date_modified,
            created: self.date_created,
        }
    }
}

impl Clone for Stake {
    fn clone(&self) -> (r: Self)
        ensures
            r == *self,
    {
        Stake {
            stake_id: self.stake_id,
            stake_name: self.stake_name.clone(),
            parent_id: self.parent_id,
            complete: self.complete,
            dropped: self.dropped,
            note: match &self.note {
                Some(n) => Some(n.clone()),
                None => None,
            },
            date_modified: self.date_modified,
            date_created: self.date_created,
        }
    }
}

impl Stake {
    /// Creates a stake with the given identity, name, hierarchy pointer and
    /// note.  It starts neither complete nor dropped, and both timestamps
    /// are set to the current time.
    pub fn new(stake_id: StakeId, stake_name: String, parent_id: Option<StakeId>, note: Option<
        String,
    >) -> (r: Stake)
        ensures
            r.stake_id == stake_id,
            r.stake_name == stake_name,
            r.parent_id == parent_id,
            !r.complete,
            !r.dropped,
            r.note == note,
            r.date_created == r.date_modified,
            r.date_created.wf(),
            r@.active(),
    {
        let now = Timestamp::now();
        Stake {
            stake_id,
            stake_name,
            parent_id,
            complete: false,
            dropped: false,
            note,
            date_modified: now,
            date_created: now,
        }
    }

    /// Marks the stake complete and moves `date_modified` forward to the
    /// current time.  Every other field is untouched; marking an already
    /// complete stake is harmless.
    pub fn mark_complete(&mut self)
        ensures
            final(self).complete,
            final(self).dropped == old(self).dropped,
            final(self).stake_id == old(self).stake_id,
            final(self).stake_name == old(self).stake_name,
            final(self).parent_id == old(self).parent_id,
            final(self).note == old(self).note,
            final(self).date_created == old(self).date_created,
            final(self).date_modified.wf(),
    {
        self.complete = true;
        self.date_modified = Timestamp::now();
    }

    /// Marks the stake dropped and moves `date_modified` forward to the
    /// current time.  Every other field is untouched; in particular
    /// `complete` keeps its value.
    pub fn mark_dropped(&mut self)
        ensures
            final(self).dropped,
            final(self).complete == old(self).complete,
            final(self).stake_id == old(self).stake_id,
            final(self).stake_name == old(self).stake_name,
            final(self).parent_id == old(self).parent_id,
            final(self).note == old(self).note,
            final(self).date_created == old(self).date_created,
            final(self).date_modified.wf(),
    {
        self.dropped = true;
        self.date_modified = Timestamp::now();
    }

    /// Whether the stake is active: neither dropped nor complete.
    pub fn is_active(&self) -> (r: bool)
        ensures
            r == self@.active(),
    {
        !self.dropped && !self.complete
    }
}

} // verus!
