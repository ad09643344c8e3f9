use stakes::Stake;
use stakes::StakeError;
use stakes::StakeId;
use stakes::MLW;

// Helper function (copied here for self-contained tests)
fn create_test_stake(
    id: u32,
    name: &str,
    parent_id: Option<StakeId>,
    complete: bool,
    dropped: bool,
    note: Option<String>,
) -> Stake {
    let mut stake = Stake::new(StakeId(id), name.to_string(), parent_id, note);
    stake.complete = complete;
    stake.dropped = dropped;
    stake
}

#[test]
fn test_mlw_new_project_id_correctly_generated() {
    let mut mlw = MLW::new();
    let project = mlw.new_project("Test Project".to_string(), None, None);
    assert_eq!(project.stake_id, StakeId(1));
}

#[test]
fn test_mlw_new_project_name_correctly_set() {
    let mut mlw = MLW::new();
    let project = mlw.new_project("Test Project Name".to_string(), None, None);
    assert_eq!(project.stake_name, "Test Project Name");
}

#[test]
fn test_mlw_new_project_note_correctly_set() {
    let mut mlw = MLW::new();
    let project = mlw.new_project("Test Project".to_string(), None, Some("A note".to_string()));
    assert_eq!(project.note, Some("A note".to_string()));
}

#[test]
fn test_mlw_new_project_starts_active() {
    let mut mlw = MLW::new();
    let project = mlw.new_project("Test Project".to_string(), None, None);
    assert!(project.is_active());
}

#[test]
fn test_mlw_new_project_adds_to_collection() {
    let mut mlw = MLW::new();
    mlw.new_project("Test Project".to_string(), None, None);
    assert_eq!(mlw.projects().len(), 1);
}

#[test]
fn test_mlw_new_project_increments_next_id() {
    let mut mlw = MLW::new();
    mlw.new_project("Test Project".to_string(), None, None);
    assert_eq!(mlw.next_project_id(), StakeId(2));
}

#[test]
fn test_mlw_new_project_with_parent_id() {
    let mut mlw = MLW::new();
    let area_id = StakeId(1);
    let project = mlw.new_project("Test Project".to_string(), Some(area_id.clone()), None);
    assert_eq!(project.parent_id, Some(area_id));
}

#[test]
fn test_mlw_new_project_without_parent_id() {
    let mut mlw = MLW::new();
    let project = mlw.new_project("Test Project".to_string(), None, None);
    assert_eq!(project.parent_id, None);
}

#[test]
fn test_mlw_active_projects_returns_only_active() {
    let mut mlw = MLW::new();
    let active1 = mlw.new_project("Active 1".to_string(), None, None);
    let completed1 = mlw.new_project("Completed 1".to_string(), None, None);
    let _ = mlw.mark_project_complete(&completed1.stake_id);
    let active2 = mlw.new_project("Active 2".to_string(), None, None);

    let active_projects = mlw.active_projects();
    assert_eq!(active_projects.len(), 2);
    assert!(active_projects.contains(&&active1));
    assert!(active_projects.contains(&&active2));
    assert!(
        !active_projects
            .iter()
            .any(|&s| s.stake_id == completed1.stake_id)
    );
}

#[test]
fn test_mlw_completed_projects_returns_only_completed() {
    let mut mlw = MLW::new();
    let active1 = mlw.new_project("Active 1".to_string(), None, None);
    let completed1 = mlw.new_project("Completed 1".to_string(), None, None);
    let _ = mlw.mark_project_complete(&completed1.stake_id);
    let active2 = mlw.new_project("Active 2".to_string(), None, None);

    let completed_projects = mlw.completed_projects();
    assert_eq!(completed_projects.len(), 1);
    let updated_completed1 = mlw.get_project_by_id(&completed1.stake_id).unwrap();
    assert!(completed_projects.contains(&updated_completed1));
    assert!(
        !completed_projects
            .iter()
            .any(|&s| s.stake_id == active1.stake_id)
    );
    assert!(
        !completed_projects
            .iter()
            .any(|&s| s.stake_id == active2.stake_id)
    );
}

#[test]
fn test_mlw_get_project_by_id_found() {
    let mut mlw = MLW::new();
    let project = mlw.new_project("Test Project".to_string(), None, None);
    let retrieved_project = mlw.get_project_by_id(&project.stake_id);
    assert!(retrieved_project.is_some());
    assert_eq!(retrieved_project.unwrap(), &project);
}

#[test]
fn test_mlw_get_project_by_id_not_found() {
    let mlw = MLW::new();
    let not_found = mlw.get_project_by_id(&StakeId(999));
    assert!(not_found.is_none());
}

#[test]
fn test_mlw_update_project_success() {
    let mut mlw = MLW::new();
    let original_project = mlw.new_project("Original Name".to_string(), None, None);
    let mut updated_project = original_project.clone();
    updated_project.stake_name = "New Name".to_string();
    updated_project.note = Some("New Note".to_string());

    let result = mlw.update_project(updated_project.clone());
    assert!(result.is_ok());
    let verified_project = mlw.get_project_by_id(&original_project.stake_id).unwrap();
    assert_eq!(verified_project.stake_name, "New Name");
    assert_eq!(verified_project.note, Some("New Note".to_string()));
}

#[test]
fn test_mlw_update_project_not_found_error() {
    let mut mlw = MLW::new();
    let non_existent_project = create_test_stake(999, "Non Existent", None, false, false, None);
    let result = mlw.update_project(non_existent_project);
    assert!(result.is_err());
    assert_eq!(result.unwrap_err(), StakeError::StakeNotFound);
}

#[test]
fn test_mlw_mark_project_complete_success() {
    let mut mlw = MLW::new();
    let project = mlw.new_project("Test Project".to_string(), None, None);
    let result = mlw.mark_project_complete(&project.stake_id);
    assert!(result.is_ok());
    let updated_project = mlw.get_project_by_id(&project.stake_id).unwrap();
    assert!(updated_project.complete);
    assert!(!updated_project.is_active());
    assert!(mlw.completed_projects().contains(&updated_project));
    assert!(!mlw.active_projects().contains(&updated_project));
}

#[test]
fn test_mlw_mark_project_complete_not_found_error() {
    let mut mlw = MLW::new();
    let result = mlw.mark_project_complete(&StakeId(999));
    assert!(result.is_err());
    assert_eq!(result.unwrap_err(), StakeError::StakeNotFound);
}

#[test]
fn test_mlw_mark_project_dropped_success() {
    let mut mlw = MLW::new();
    let project = mlw.new_project("Test Project".to_string(), None, None);
    let result = mlw.mark_project_dropped(&project.stake_id);
    assert!(result.is_ok());
    let updated_project = mlw.get_project_by_id(&project.stake_id).unwrap();
    assert!(updated_project.dropped);
    assert!(!updated_project.is_active());
    assert!(!mlw.active_projects().contains(&updated_project));
}

#[test]
fn test_mlw_mark_project_dropped_not_found_error() {
    let mut mlw = MLW::new();
    let result = mlw.mark_project_dropped(&StakeId(999));
    assert!(result.is_err());
    assert_eq!(result.unwrap_err(), StakeError::StakeNotFound);
}

#[test]
fn test_mlw_get_project_children_found() {
    let mut mlw = MLW::new();
    let parent_project = mlw.new_project("Parent".to_string(), None, None);
    let child1 = mlw.new_project(
        "Child 1".to_string(),
        Some(parent_project.stake_id.clone()),
        None,
    );
    let child2 = mlw.new_project(
        "Child 2".to_string(),
        Some(parent_project.stake_id.clone()),
        None,
    );
    let unrelated_project = mlw.new_project("Unrelated".to_string(), None, None);

    let children = mlw.get_project_children(&parent_project.stake_id);
    assert_eq!(children.len(), 2);
    assert!(children.contains(&&child1));
    assert!(children.contains(&&child2));
    assert!(!children.contains(&&unrelated_project));
}

#[test]
fn test_mlw_get_project_children_empty_if_no_children() {
    let mut mlw = MLW::new();
    let parent_project = mlw.new_project("Parent".to_string(), None, None);
    let children = mlw.get_project_children(&parent_project.stake_id);
    assert!(children.is_empty());
}

#[test]
fn test_mlw_get_project_children_non_existent_parent() {
    let mlw = MLW::new();
    let non_existent_parent_id = StakeId(999);
    let children = mlw.get_project_children(&non_existent_parent_id);
    assert!(children.is_empty());
}
