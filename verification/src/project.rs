//! The `Project` entity: an earlier, narrower shape of the tracked item,
//! kept for callers that address projects and areas by their own id types.

use vstd::prelude::*;
use crate::time::Timestamp;

verus! {

/// An opaque project identity.
#[derive(Debug, Clone, Copy, PartialEq, Eq, Structural, Hash)]
pub struct ProjectId(pub u32);

/// An opaque area identity.
#[derive(Debug, Clone, Copy, PartialEq, Eq, Structural, Hash)]
pub struct AreaId(pub u32);

/// Failures of project operations.
#[derive(Debug, PartialEq, Eq, Structural)]
pub enum ProjectError {
    /// A dropped project may not be brought back to life.  No operation of
    /// this core returns it; it is kept for callers that add reactivation.
    CannotActivateDroppedProject,
}

/// A project: identity, name, owning area, lifecycle flags, timestamps.
#[derive(Debug, PartialEq, Eq)]
pub struct Project {
    pub project_id: ProjectId,
    pub project_name: String,
    pub area_id: AreaId,
    pub complete: bool,
    pub dropped: bool,
    pub date_modified: Timestamp,
    pub date_created: Timestamp,
}

impl Clone for Project {
    fn clone(&self) -> (r: Self)
        ensures
            r == *self,
    {
        Project {
            project_id: self.project_id,
            project_name: self.project_name.clone(),
            area_id: self.area_id,
            complete: self.complete,
            dropped: self.dropped,
            date_modified: self.date_modified,
            date_created: self.date_created,
        }
    }
}

impl Project {
    /// Creates a project under the given area.  It starts neither complete
    /// nor dropped, and both timestamps are set to the current time.
    pub fn new(project_id: ProjectId, project_name: String, area_id: AreaId) -> (r: Project)
        ensures
            r.project_id == project_id,
            r.project_name == project_name,
            r.area_id == area_id,
            !r.complete,
            !r.dropped,
            r.date_created == r.date_modified,
            r.date_created.wf(),
    {
        let now = Timestamp::now();
        Project {
            project_id,
            project_name,
            area_id,
            complete: false,
            dropped: false,
            date_modified: now,
            date_created: now,
        }
    }

    /// Marks the project complete and moves `date_modified` forward to the
    /// current time.  Every other field is untouched.
    pub fn mark_complete(&mut self)
        ensures
            final(self).complete,
            final(self).dropped == old(self).dropped,
            final(self).project_id == old(self).project_id,
            final(self).project_name == old(self).project_name,
            final(self).area_id == old(self).area_id,
            final(self).date_created == old(self).date_created,
            final(self).date_modified.wf(),
    {
        self.complete = true;
        self.date_modified = Timestamp::now();
    }

    /// Marks the project dropped and moves `date_modified` forward to the
    /// current time.  Every other field is untouched.
    pub fn mark_dropped(&mut self)
        ensures
            final(self).dropped,
            final(self).complete == old(self).complete,
            final(self).project_id == old(self).project_id,
            final(self).project_name == old(self).project_name,
            final(self).area_id == old(self).area_id,
            final(self).date_created == old(self).date_created,
            final(self).date_modified.wf(),
    {
        self.dropped = true;
        self.date_modified = Timestamp::now();
    }

    /// Whether the project is active: neither dropped nor complete.
    pub fn is_active(&self) -> (r: bool)
        ensures
            r == (!self.dropped && !self.complete),
    {
        !self.dropped && !self.complete
    }
}

} // verus!
