//! The aggregate facade: three independent [`StakesCollection`] stores, one
//! per category (areas, projects, tasks), each with its own id space.

use vstd::prelude::*;
use crate::stake::{Stake, StakeError, StakeId, StakeModel};
use crate::stakes_collection::{
    active_of, children_of, completed_of, first_match_at, has_id, marked_complete, marked_dropped,
    views_of, CollectionModel, StakesCollection,
};

verus! {

/// The mathematical value of an [`MLW`]: the three stores.
pub ghost struct MlwModel {
    pub areas: CollectionModel,
    pub projects: CollectionModel,
    pub tasks: CollectionModel,
}

/// The aggregate: one store per category.
#[derive(Debug, PartialEq, Eq)]
pub struct MLW {
    areas: StakesCollection,
    projects: StakesCollection,
    tasks: StakesCollection,
}

impl View for MLW {
    type V = MlwModel;

    closed spec fn view(&self) -> MlwModel {
        MlwModel { areas: self.areas@, projects: self.projects@, tasks: self.tasks@ }
    }
}

impl MLW {
    /// Three empty stores, each issuing ids from 1.
    pub fn new() -> (r: MLW)
        ensures
            r@.areas.next_id == 1 && r@.areas.stakes.len() == 0,
            r@.projects.next_id == 1 && r@.projects.stakes.len() == 0,
            r@.tasks.next_id == 1 && r@.tasks.stakes.len() == 0,
    {
        MLW {
            areas: StakesCollection::new(),
            projects: StakesCollection::new(),
            tasks: StakesCollection::new(),
        }
    }

    /// The store of areas.
    pub fn areas(&self) -> (r: &StakesCollection)
        ensures
            r@ == self@.areas,
    {
        &self.areas
    }

    /// The store of projects.
    pub fn projects(&self) -> (r: &StakesCollection)
        ensures
            r@ == self@.projects,
    {
        &self.projects
    }

    /// The store of tasks.
    pub fn tasks(&self) -> (r: &StakesCollection)
        ensures
            r@ == self@.tasks,
    {
        &self.tasks
    }

    // --- Areas ---

    /// Creates an area stake under a freshly issued id, stores it, and
    /// returns an owned copy.  Areas are top-level: no parent.
    pub fn new_area(&mut self, name: String, note: Option<String>) -> (r: Stake)
        requires
            old(self)@.areas.next_id < u32::MAX,
        ensures
            r.stake_id.0 == old(self)@.areas.next_id,
            r.stake_name == name,
            r.parent_id is None,
            r.note == note,
            !r.complete,
            !r.dropped,
            r.date_created == r.date_modified && r.date_created.wf(),
            final(self)@.areas.next_id == old(self)@.areas.next_id + 1,
            final(self)@.areas.stakes == old(self)@.areas.stakes.push(r@),
            final(self)@.projects == old(self)@.projects,
            final(self)@.tasks == old(self)@.tasks,
    {
        let id = self.areas.generate_id();
        let stake = Stake::new(id, name, None, note);
        self.areas.add_stake(stake.clone());
        stake
    }

    /// The active areas, in store order.
    pub fn active_areas(&self) -> (r: Vec<&Stake>)
        ensures
            views_of(r@) == active_of(self@.areas.stakes),
    {
        self.areas.active_stakes()
    }

    /// The completed areas, in store order.
    pub fn completed_areas(&self) -> (r: Vec<&Stake>)
        ensures
            views_of(r@) == completed_of(self@.areas.stakes),
    {
        self.areas.completed_stakes()
    }

    /// The id the areas store will issue next, without consuming it.
    pub fn next_area_id(&self) -> (r: StakeId)
        ensures
            r.0 == self@.areas.next_id,
    {
        self.areas.next_id()
    }

    /// The first stored area carrying `id`, if any.
    pub fn get_area_by_id(&self, id: &StakeId) -> (r: Option<&Stake>)
        ensures
            r is Some <==> has_id(self@.areas.stakes, id.0),
            r matches Some(s) ==> exists|i: int|
                first_match_at(self@.areas.stakes, id.0, i) && s@ == self@.areas.stakes[i],
    {
        self.areas.get_by_id(id)
    }

    /// Commits a detached area stake back into the store, in place.
    pub fn update_area(&mut self, stake: Stake) -> (r: Result<(), StakeError>)
        ensures
            r is Ok <==> has_id(old(self)@.areas.stakes, stake.stake_id.0),
            r is Ok ==> exists|i: int|
                first_match_at(old(self)@.areas.stakes, stake.stake_id.0, i) && final(self)@.areas.stakes == old(self)@.areas.stakes.update(i, stake@),
            r is Err ==> r == Result::<(), StakeError>::Err(StakeError::StakeNotFound)
                && final(self)@ == old(self)@,
            final(self)@.areas.next_id == old(self)@.areas.next_id,
            final(self)@.areas.stakes.len() == old(self)@.areas.stakes.len(),
            final(self)@.projects == old(self)@.projects,
            final(self)@.tasks == old(self)@.tasks,
    {
        self.areas.update_stake(stake)
    }

    /// Marks the area carrying `id` complete, in place.
    pub fn mark_area_complete(&mut self, id: &StakeId) -> (r: Result<(), StakeError>)
        ensures
            r is Ok <==> has_id(old(self)@.areas.stakes, id.0),
            r is Ok ==> exists|i: int|
                {
                    &&& first_match_at(old(self)@.areas.stakes, id.0, i)
                    &&& final(self)@.areas.stakes == old(self)@.areas.stakes.update(
                        i,
                        final(self)@.areas.stakes[i],
                    )
                    &&& marked_complete(old(self)@.areas.stakes[i], final(self)@.areas.stakes[i])
                },
            r is Err ==> r == Result::<(), StakeError>::Err(StakeError::StakeNotFound)
                && final(self)@ == old(self)@,
            final(self)@.areas.next_id == old(self)@.areas.next_id,
            final(self)@.areas.stakes.len() == old(self)@.areas.stakes.len(),
            final(self)@.projects == old(self)@.projects,
            final(self)@.tasks == old(self)@.tasks,
    {
        self.areas.mark_complete_by_id(id)
    }

    /// Marks the area carrying `id` dropped, in place.
    pub fn mark_area_dropped(&mut self, id: &StakeId) -> (r: Result<(), StakeError>)
        ensures
            r is Ok <==> has_id(old(self)@.areas.stakes, id.0),
            r is Ok ==> exists|i: int|
                {
                    &&& first_match_at(old(self)@.areas.stakes, id.0, i)
                    &&& final(self)@.areas.stakes == old(self)@.areas.stakes.update(
                        i,
                        final(self)@.areas.stakes[i],
                    )
                    &&& marked_dropped(old(self)@.areas.stakes[i], final(self)@.areas.stakes[i])
                },
            r is Err ==> r == Result::<(), StakeError>::Err(StakeError::StakeNotFound)
                && final(self)@ == old(self)@,
            final(self)@.areas.next_id == old(self)@.areas.next_id,
            final(self)@.areas.stakes.len() == old(self)@.areas.stakes.len(),
            final(self)@.projects == old(self)@.projects,
            final(self)@.tasks == old(self)@.tasks,
    {
        self.areas.mark_dropped_by_id(id)
    }

    // --- Projects ---

    /// Creates a project stake under a freshly issued id, stores it, and
    /// returns an owned copy.
    pub fn new_project(&mut self, name: String, parent_id: Option<StakeId>, note: Option<
        String,
    >) -> (r: Stake)
        requires
            old(self)@.projects.next_id < u32::MAX,
        ensures
            r.stake_id.0 == old(self)@.projects.next_id,
            r.stake_name == name,
            r.parent_id == parent_id,
            r.note == note,
            !r.complete,
            !r.dropped,
            r.date_created == r.date_modified && r.date_created.wf(),
            final(self)@.projects.next_id == old(self)@.projects.next_id + 1,
            final(self)@.projects.stakes == old(self)@.projects.stakes.push(r@),
            final(self)@.areas == old(self)@.areas,
            final(self)@.tasks == old(self)@.tasks,
    {
        let id = self.projects.generate_id();
        let stake = Stake::new(id, name, parent_id, note);
        self.projects.add_stake(stake.clone());
        stake
    }

    /// The active projects, in store order.
    pub fn active_projects(&self) -> (r: Vec<&Stake>)
        ensures
            views_of(r@) == active_of(self@.projects.stakes),
    {
        self.projects.active_stakes()
    }

    /// The completed projects, in store order.
    pub fn completed_projects(&self) -> (r: Vec<&Stake>)
        ensures
            views_of(r@) == completed_of(self@.projects.stakes),
    {
        self.projects.completed_stakes()
    }

    /// The id the projects store will issue next, without consuming it.
    pub fn next_project_id(&self) -> (r: StakeId)
        ensures
            r.0 == self@.projects.next_id,
    {
        self.projects.next_id()
    }

    /// The first stored project carrying `id`, if any.
    pub fn get_project_by_id(&self, id: &StakeId) -> (r: Option<&Stake>)
        ensures
            r is Some <==> has_id(self@.projects.stakes, id.0),
            r matches Some(s) ==> exists|i: int|
                first_match_at(self@.projects.stakes, id.0, i) && s@ == self@.projects.stakes[i],
    {
        self.projects.get_by_id(id)
    }

    /// Commits a detached project stake back into the store, in place.
    pub fn update_project(&mut self, stake: Stake) -> (r: Result<(), StakeError>)
        ensures
            r is Ok <==> has_id(old(self)@.projects.stakes, stake.stake_id.0),
            r is Ok ==> exists|i: int|
                first_match_at(old(self)@.projects.stakes, stake.stake_id.0, i) && final(self)@.projects.stakes == old(self)@.projects.stakes.update(i, stake@),
            r is Err ==> r == Result::<(), StakeError>::Err(StakeError::StakeNotFound)
                && final(self)@ == old(self)@,
            final(self)@.projects.next_id == old(self)@.projects.next_id,
            final(self)@.projects.stakes.len() == old(self)@.projects.stakes.len(),
            final(self)@.areas == old(self)@.areas,
            final(self)@.tasks == old(self)@.tasks,
    {
        self.projects.update_stake(stake)
    }

    /// Marks the project carrying `id` complete, in place.
    pub fn mark_project_complete(&mut self, id: &StakeId) -> (r: Result<(), StakeError>)
        ensures
            r is Ok <==> has_id(old(self)@.projects.stakes, id.0),
            r is Ok ==> exists|i: int|
                {
                    &&& first_match_at(old(self)@.projects.stakes, id.0, i)
                    &&& final(self)@.projects.stakes == old(self)@.projects.stakes.update(
                        i,
                        final(self)@.projects.stakes[i],
                    )
                    &&& marked_complete(
                        old(self)@.projects.stakes[i],
                        final(self)@.projects.stakes[i],
                    )
                },
            r is Err ==> r == Result::<(), StakeError>::Err(StakeError::StakeNotFound)
                && final(self)@ == old(self)@,
            final(self)@.projects.next_id == old(self)@.projects.next_id,
            final(self)@.projects.stakes.len() == old(self)@.projects.stakes.len(),
            final(self)@.areas == old(self)@.areas,
            final(self)@.tasks == old(self)@.tasks,
    {
        self.projects.mark_complete_by_id(id)
    }

    /// Marks the project carrying `id` dropped, in place.
    pub fn mark_project_dropped(&mut self, id: &StakeId) -> (r: Result<(), StakeError>)
        ensures
            r is Ok <==> has_id(old(self)@.projects.stakes, id.0),
            r is Ok ==> exists|i: int|
                {
                    &&& first_match_at(old(self)@.projects.stakes, id.0, i)
                    &&& final(self)@.projects.stakes == old(self)@.projects.stakes.update(
                        i,
                        final(self)@.projects.stakes[i],
                    )
                    &&& marked_dropped(
                        old(self)@.projects.stakes[i],
                        final(self)@.projects.stakes[i],
                    )
                },
            r is Err ==> r == Result::<(), StakeError>::Err(StakeError::StakeNotFound)
                && final(self)@ == old(self)@,
            final(self)@.projects.next_id == old(self)@.projects.next_id,
            final(self)@.projects.stakes.len() == old(self)@.projects.stakes.len(),
            final(self)@.areas == old(self)@.areas,
            final(self)@.tasks == old(self)@.tasks,
    {
        self.projects.mark_dropped_by_id(id)
    }

    /// The projects whose parent is `parent_id`, in store order.
    pub fn get_project_children(&self, parent_id: &StakeId) -> (r: Vec<&Stake>)
        ensures
            views_of(r@) == children_of(self@.projects.stakes, parent_id.0),
    {
        self.projects.get_children(parent_id)
    }

    // --- Tasks ---

    /// Creates a task stake under a freshly issued id, stores it, and
    /// returns an owned copy.
    pub fn new_task(&mut self, name: String, parent_id: Option<StakeId>, note: Option<String>) -> (r:
        Stake)
        requires
            old(self)@.tasks.next_id < u32::MAX,
        ensures
            r.stake_id.0 == old(self)@.tasks.next_id,
            r.stake_name == name,
            r.parent_id == parent_id,
            r.note == note,
            !r.complete,
            !r.dropped,
            r.date_created == r.date_modified && r.date_created.wf(),
            final(self)@.tasks.next_id == old(self)@.tasks.next_id + 1,
            final(self)@.tasks.stakes == old(self)@.tasks.stakes.push(r@),
            final(self)@.areas == old(self)@.areas,
            final(self)@.projects == old(self)@.projects,
    {
        let id = self.tasks.generate_id();
        let stake = Stake::new(id, name, parent_id, note);
        self.tasks.add_stake(stake.clone());
        stake
    }

    /// The active tasks, in store order.
    pub fn active_tasks(&self) -> (r: Vec<&Stake>)
        ensures
            views_of(r@) == active_of(self@.tasks.stakes),
    {
        self.tasks.active_stakes()
    }

    /// The completed tasks, in store order.
    pub fn completed_tasks(&self) -> (r: Vec<&Stake>)
        ensures
            views_of(r@) == completed_of(self@.tasks.stakes),
    {
        self.tasks.completed_stakes()
    }

    /// The id the tasks store will issue next, without consuming it.
    pub fn next_task_id(&self) -> (r: StakeId)
        ensures
            r.0 == self@.tasks.next_id,
    {
        self.tasks.next_id()
    }

    /// The first stored task carrying `id`, if any.
    pub fn get_task_by_id(&self, id: &StakeId) -> (r: Option<&Stake>)
        ensures
            r is Some <==> has_id(self@.tasks.stakes, id.0),
            r matches Some(s) ==> exists|i: int|
                first_match_at(self@.tasks.stakes, id.0, i) && s@ == self@.tasks.stakes[i],
    {
        self.tasks.get_by_id(id)
    }

    /// Commits a detached task stake back into the store, in place.
    pub fn update_task(&mut self, stake: Stake) -> (r: Result<(), StakeError>)
        ensures
            r is Ok <==> has_id(old(self)@.tasks.stakes, stake.stake_id.0),
            r is Ok ==> exists|i: int|
                first_match_at(old(self)@.tasks.stakes, stake.stake_id.0, i) && final(self)@.tasks.stakes == old(self)@.tasks.stakes.update(i, stake@),
            r is Err ==> r == Result::<(), StakeError>::Err(StakeError::StakeNotFound)
                && final(self)@ == old(self)@,
            final(self)@.tasks.next_id == old(self)@.tasks.next_id,
            final(self)@.tasks.stakes.len() == old(self)@.tasks.stakes.len(),
            final(self)@.areas == old(self)@.areas,
            final(self)@.projects == old(self)@.projects,
    {
        self.tasks.update_stake(stake)
    }

    /// Marks the task carrying `id` complete, in place.
    pub fn mark_task_complete(&mut self, id: &StakeId) -> (r: Result<(), StakeError>)
        ensures
            r is Ok <==> has_id(old(self)@.tasks.stakes, id.0),
            r is Ok ==> exists|i: int|
                {
                    &&& first_match_at(old(self)@.tasks.stakes, id.0, i)
                    &&& final(self)@.tasks.stakes == old(self)@.tasks.stakes.update(
                        i,
                        final(self)@.tasks.stakes[i],
                    )
                    &&& marked_complete(old(self)@.tasks.stakes[i], final(self)@.tasks.stakes[i])
                },
            r is Err ==> r == Result::<(), StakeError>::Err(StakeError::StakeNotFound)
                && final(self)@ == old(self)@,
            final(self)@.tasks.next_id == old(self)@.tasks.next_id,
            final(self)@.tasks.stakes.len() == old(self)@.tasks.stakes.len(),
            final(self)@.areas == old(self)@.areas,
            final(self)@.projects == old(self)@.projects,
    {
        self.tasks.mark_complete_by_id(id)
    }

    /// Marks the task carrying `id` dropped, in place.
    pub fn mark_task_dropped(&mut self, id: &StakeId) -> (r: Result<(), StakeError>)
        ensures
            r is Ok <==> has_id(old(self)@.tasks.stakes, id.0),
            r is Ok ==> exists|i: int|
                {
                    &&& first_match_at(old(self)@.tasks.stakes, id.0, i)
                    &&& final(self)@.tasks.stakes == old(self)@.tasks.stakes.update(
                        i,
                        final(self)@.tasks.stakes[i],
                    )
                    &&& marked_dropped(old(self)@.tasks.stakes[i], final(self)@.tasks.stakes[i])
                },
            r is Err ==> r == Result::<(), StakeError>::Err(StakeError::StakeNotFound)
                && final(self)@ == old(self)@,
            final(self)@.tasks.next_id == old(self)@.tasks.next_id,
            final(self)@.tasks.stakes.len() == old(self)@.tasks.stakes.len(),
            final(self)@.areas == old(self)@.areas,
            final(self)@.projects == old(self)@.projects,
    {
        self.tasks.mark_dropped_by_id(id)
    }

    /// The tasks whose parent is `parent_id`, in store order.
    pub fn get_task_children(&self, parent_id: &StakeId) -> (r: Vec<&Stake>)
        ensures
            views_of(r@) == children_of(self@.tasks.stakes, parent_id.0),
    {
        self.tasks.get_children(parent_id)
    }
}

} // verus!
