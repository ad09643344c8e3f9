use stakes::Stake;
use stakes::StakeError;
use stakes::StakeId;
use stakes::MLW;

// Helper function (copied here for self-contained tests)
fn create_test_stake(
    id: u32,
    name: &str,
    parent_id: Option<StakeId>,
    complete: bool,
    dropped: bool,
    note: Option<String>,
) -> Stake {
    let mut stake = Stake::new(StakeId(id), name.to_string(), parent_id, note);
    stake.complete = complete;
    stake.dropped = dropped;
    stake
}

#[test]
fn test_mlw_new_task_id_correctly_generated() {
    let mut mlw = MLW::new();
    let task = mlw.new_task("Test Task".to_string(), None, None);
    assert_eq!(task.stake_id, StakeId(1));
}

#[test]
fn test_mlw_new_task_name_correctly_set() {
    let mut mlw = MLW::new();
    let task = mlw.new_task("Test Task Name".to_string(), None, None);
    assert_eq!(task.stake_name, "Test Task Name");
}

#[test]
fn test_mlw_new_task_note_correctly_set() {
    let mut mlw = MLW::new();
    let task = mlw.new_task("Test Task".to_string(), None, Some("A note".to_string()));
    assert_eq!(task.note, Some("A note".to_string()));
}

#[test]
fn test_mlw_new_task_starts_active() {
    let mut mlw = MLW::new();
    let task = mlw.new_task("Test Task".to_string(), None, None);
    assert!(task.is_active());
}

#[test]
fn test_mlw_new_task_adds_to_collection() {
    let mut mlw = MLW::new();
    mlw.new_task("Test Task".to_string(), None, None);
    assert_eq!(mlw.tasks().len(), 1);
}

#[test]
fn test_mlw_new_task_increments_next_id() {
    let mut mlw = MLW::new();
    mlw.new_task("Test Task".to_string(), None, None);
    assert_eq!(mlw.next_task_id(), StakeId(2));
}

#[test]
fn test_mlw_new_task_with_parent_id() {
    let mut mlw = MLW::new();
    let project_parent = mlw.new_project("Parent Project".to_string(), None, None);
    let task = mlw.new_task("Test Task".to_string(), Some(project_parent.stake_id.clone()), None);
    assert_eq!(task.parent_id, Some(project_parent.stake_id));
}

#[test]
fn test_mlw_new_task_without_parent_id() {
    let mut mlw = MLW::new();
    let task = mlw.new_task("Test Task".to_string(), None, None);
    assert_eq!(task.parent_id, None);
}

#[test]
fn test_mlw_active_tasks_returns_only_active() {
    let mut mlw = MLW::new();
    let active1 = mlw.new_task("Active 1".to_string(), None, None);
    let completed1 = mlw.new_task("Completed 1".to_string(), None, None);
    let _ = mlw.mark_task_complete(&completed1.stake_id);
    let active2 = mlw.new_task("Active 2".to_string(), None, None);

    let active_tasks = mlw.active_tasks();
    assert_eq!(active_tasks.len(), 2);
    assert!(active_tasks.contains(&&active1));
    assert!(active_tasks.contains(&&active2));
    assert!(
        !active_tasks
            .iter()
            .any(|&s| s.stake_id == completed1.stake_id)
    );
}

#[test]
fn test_mlw_completed_tasks_returns_only_completed() {
    let mut mlw = MLW::new();
    let active1 = mlw.new_task("Active 1".to_string(), None, None);
    let completed1 = mlw.new_task("Completed 1".to_string(), None, None);
    let _ = mlw.mark_task_complete(&completed1.stake_id);
    let active2 = mlw.new_task("Active 2".to_string(), None, None);

    let completed_tasks = mlw.completed_tasks();
    assert_eq!(completed_tasks.len(), 1);
    let updated_completed1 = mlw.get_task_by_id(&completed1.stake_id).unwrap();
    assert!(completed_tasks.contains(&updated_completed1));
    assert!(
        !completed_tasks
            .iter()
            .any(|&s| s.stake_id == active1.stake_id)
    );
    assert!(
        !completed_tasks
            .iter()
            .any(|&s| s.stake_id == active2.stake_id)
    );
}

#[test]
fn test_mlw_get_task_by_id_found() {
    let mut mlw = MLW::new();
    let task = mlw.new_task("Test Task".to_string(), None, None);
    let retrieved_task = mlw.get_task_by_id(&task.stake_id);
    assert!(retrieved_task.is_some());
    assert_eq!(retrieved_task.unwrap(), &task);
}

#[test]
fn test_mlw_get_task_by_id_not_found() {
    let mlw = MLW::new();
    let not_found = mlw.get_task_by_id(&StakeId(999));
    assert!(not_found.is_none());
}

#[test]
fn test_mlw_update_task_success() {
    let mut mlw = MLW::new();
    let original_task = mlw.new_task("Original Name".to_string(), None, None);
    let mut updated_task = original_task.clone();
    updated_task.stake_name = "New Name".to_string();
    updated_task.note = Some("New Note".to_string());

    let result = mlw.update_task(updated_task.clone());
    assert!(result.is_ok());
    let verified_task = mlw.get_task_by_id(&original_task.stake_id).unwrap();
    assert_eq!(verified_task.stake_name, "New Name");
    assert_eq!(verified_task.note, Some("New Note".to_string()));
}

#[test]
fn test_mlw_update_task_not_found_error() {
    let mut mlw = MLW::new();
    let non_existent_task = create_test_stake(999, "Non Existent", None, false, false, None);
    let result = mlw.update_task(non_existent_task);
    assert!(result.is_err());
    assert_eq!(result.unwrap_err(), StakeError::StakeNotFound);
}

#[test]
fn test_mlw_mark_task_complete_success() {
    let mut mlw = MLW::new();
    let task = mlw.new_task("Test Task".to_string(), None, None);
    let result = mlw.mark_task_complete(&task.stake_id);
    assert!(result.is_ok());
    let updated_task = mlw.get_task_by_id(&task.stake_id).unwrap();
    assert!(updated_task.complete);
    assert!(!updated_task.is_active());
    assert!(mlw.completed_tasks().contains(&updated_task));
    assert!(!mlw.active_tasks().contains(&updated_task));
}

#[test]
fn test_mlw_mark_task_complete_not_found_error() {
    let mut mlw = MLW::new();
    let result = mlw.mark_task_complete(&StakeId(999));
    assert!(result.is_err());
    assert_eq!(result.unwrap_err(), StakeError::StakeNotFound);
}

#[test]
fn test_mlw_mark_task_dropped_success() {
    let mut mlw = MLW::new();
    let task = mlw.new_task("Test Task".to_string(), None, None);
    let result = mlw.mark_task_dropped(&task.stake_id);
    assert!(result.is_ok());
    let updated_task = mlw.get_task_by_id(&task.stake_id).unwrap();
    assert!(updated_task.dropped);
    assert!(!updated_task.is_active());
    assert!(!mlw.active_tasks().contains(&updated_task));
}

#[test]
fn test_mlw_mark_task_dropped_not_found_error() {
    let mut mlw = MLW::new();
    let result = mlw.mark_task_dropped(&StakeId(999));
    assert!(result.is_err());
    assert_eq!(result.unwrap_err(), StakeError::StakeNotFound);
}

#[test]
fn test_mlw_get_task_children_found() {
    let mut mlw = MLW::new();
    let project_parent =
        mlw.new_project("Parent Project for Tasks".to_string(), None, None);
    let child1 = mlw.new_task(
        "Child 1".to_string(),
        Some(project_parent.stake_id.clone()),
        None,
    );
    let child2 = mlw.new_task(
        "Child 2".to_string(),
        Some(project_parent.stake_id.clone()),
        None,
    );
    let unrelated_task = mlw.new_task("Unrelated".to_string(), None, None);

    let children = mlw.get_task_children(&project_parent.stake_id);
    assert_eq!(children.len(), 2);
    assert!(children.contains(&&child1));
    assert!(children.contains(&&child2));
    assert!(!children.contains(&&unrelated_task));
}

#[test]
fn test_mlw_get_task_children_empty_if_no_children() {
    let mut mlw = MLW::new();
    let parent_task = mlw.new_task("Parent Task".to_string(), None, None);
    let children = mlw.get_task_children(&parent_task.stake_id);
    assert!(children.is_empty());
}

#[test]
fn test_mlw_get_task_children_non_existent_parent() {
    let mlw = MLW::new();
    let non_existent_parent_id = StakeId(999);
    let children = mlw.get_task_children(&non_existent_parent_id);
    assert!(children.is_empty());
}
