use stakes::Stake;
use stakes::StakeError;
use stakes::StakeId;
use stakes::StakesCollection;
use stakes::Timestamp;
use stakes::MLW;

// Helper function (copied here for self-contained tests)
fn create_test_stake(
    id: u32,
    name: &str,
    parent_id: Option<StakeId>,
    complete: bool,
    dropped: bool,
    note: Option<String>,
) -> Stake {
    let mut stake = Stake::new(StakeId(id), name.to_string(), parent_id, note);
    stake.complete = complete;
    stake.dropped = dropped;
    stake
}

#[test]
fn test_mlw_new() {
    let mlw = MLW::new();
    assert_eq!(mlw.areas().len(), 0, "Areas collection should be empty");
    assert!(mlw.areas().is_empty(), "Areas collection should be empty");
    assert_eq!(
        mlw.areas().next_id(),
        StakeId(1),
        "Areas next_id should start at 1"
    );
    assert_eq!(mlw.projects().len(), 0, "Projects collection should be empty");
    assert!(
        mlw.projects().is_empty(),
        "Projects collection should be empty"
    );
    assert_eq!(
        mlw.projects().next_id(),
        StakeId(1),
        "Projects next_id should start at 1"
    );
    assert_eq!(mlw.tasks().len(), 0, "Tasks collection should be empty");
    assert!(mlw.tasks().is_empty(), "Tasks collection should be empty");
    assert_eq!(
        mlw.tasks().next_id(),
        StakeId(1),
        "Tasks next_id should start at 1"
    );
}

#[test]
fn test_mlw_serialization_roundtrip() {
    // The aggregate is three independent collections with their own id
    // spaces; its persisted form round-trips each of them.
    let fixed_time = Timestamp::new(2024, 7, 19, 8, 30, 0, 0).unwrap();

    let mut areas = StakesCollection::new();
    let area_stake_id = areas.generate_id();
    let mut area_stake =
        create_test_stake(area_stake_id.0, "Finance Area", None, false, false, None);
    area_stake.date_created = fixed_time;
    area_stake.date_modified = fixed_time;
    areas.add_stake(area_stake.clone());

    let mut projects = StakesCollection::new();
    for _ in 0..9 {
        projects.generate_id();
    }
    let project_stake_id = projects.generate_id();
    let mut project_stake = create_test_stake(
        project_stake_id.0,
        "Website Project",
        Some(area_stake_id.clone()),
        false,
        false,
        Some("Client work".to_string()),
    );
    project_stake.date_created = fixed_time;
    project_stake.date_modified = fixed_time;
    projects.add_stake(project_stake.clone());

    let mut tasks = StakesCollection::new();
    for _ in 0..99 {
        tasks.generate_id();
    }
    let task_stake_id = tasks.generate_id();
    let mut task_stake = create_test_stake(
        task_stake_id.0,
        "Design Layout",
        Some(project_stake_id.clone()),
        false,
        false,
        None,
    );
    task_stake.date_created = fixed_time;
    task_stake.date_modified = fixed_time;
    tasks.add_stake(task_stake.clone());

    let serialized_areas = areas.encode();
    let serialized_projects = projects.encode();
    let serialized_tasks = tasks.encode();
    println!(
        "Serialized MLW object:\n{}\n{}\n{}",
        serialized_areas, serialized_projects, serialized_tasks
    );

    let deserialized_areas =
        StakesCollection::decode(&serialized_areas).expect("Failed to deserialize MLW object");
    let deserialized_projects =
        StakesCollection::decode(&serialized_projects).expect("Failed to deserialize MLW object");
    let deserialized_tasks =
        StakesCollection::decode(&serialized_tasks).expect("Failed to deserialize MLW object");

    assert_eq!(
        deserialized_areas, areas,
        "Original and deserialized MLW objects should be identical"
    );
    assert_eq!(
        deserialized_projects, projects,
        "Original and deserialized MLW objects should be identical"
    );
    assert_eq!(
        deserialized_tasks, tasks,
        "Original and deserialized MLW objects should be identical"
    );
}

#[test]
fn test_mlw_new_area_id_correctly_generated() {
    let mut mlw = MLW::new();
    let area = mlw.new_area("Test Area".to_string(), None);
    assert_eq!(area.stake_id, StakeId(1));
}

#[test]
fn test_mlw_new_area_name_correctly_set() {
    let mut mlw = MLW::new();
    let area = mlw.new_area("Test Area Name".to_string(), None);
    assert_eq!(area.stake_name, "Test Area Name");
}

#[test]
fn test_mlw_new_area_note_correctly_set() {
    let mut mlw = MLW::new();
    let area = mlw.new_area("Test Area".to_string(), Some("A note".to_string()));
    assert_eq!(area.note, Some("A note".to_string()));
}

#[test]
fn test_mlw_new_area_starts_active() {
    let mut mlw = MLW::new();
    let area = mlw.new_area("Test Area".to_string(), None);
    assert!(area.is_active());
}

#[test]
fn test_mlw_new_area_adds_to_collection() {
    let mut mlw = MLW::new();
    mlw.new_area("Test Area".to_string(), None);
    assert_eq!(mlw.areas().len(), 1);
}

#[test]
fn test_mlw_new_area_increments_next_id() {
    let mut mlw = MLW::new();
    mlw.new_area("Test Area".to_string(), None);
    assert_eq!(mlw.next_area_id(), StakeId(2));
}

#[test]
fn test_mlw_new_area_has_no_parent_id() {
    let mut mlw = MLW::new();
    let area = mlw.new_area("Test Area".to_string(), None);
    assert_eq!(area.parent_id, None);
}

#[test]
fn test_mlw_active_areas_returns_only_active() {
    let mut mlw = MLW::new();
    let active1 = mlw.new_area("Active 1".to_string(), None);
    let completed1 = mlw.new_area("Completed 1".to_string(), None);
    let _ = mlw.mark_area_complete(&completed1.stake_id);
    let active2 = mlw.new_area("Active 2".to_string(), None);

    let active_areas = mlw.active_areas();
    assert_eq!(active_areas.len(), 2);
    assert!(active_areas.contains(&&active1));
    assert!(active_areas.contains(&&active2));
    assert!(
        !active_areas
            .iter()
            .any(|&s| s.stake_id == completed1.stake_id)
    );
}

#[test]
fn test_mlw_completed_areas_returns_only_completed() {
    let mut mlw = MLW::new();
    let active1 = mlw.new_area("Active 1".to_string(), None);
    let completed1 = mlw.new_area("Completed 1".to_string(), None);
    let _ = mlw.mark_area_complete(&completed1.stake_id);
    let active2 = mlw.new_area("Active 2".to_string(), None);

    let completed_areas = mlw.completed_areas();
    assert_eq!(completed_areas.len(), 1);
    let updated_completed1 = mlw.get_area_by_id(&completed1.stake_id).unwrap();
    assert!(completed_areas.contains(&updated_completed1));
    assert!(
        !completed_areas
            .iter()
            .any(|&s| s.stake_id == active1.stake_id)
    );
    assert!(
        !completed_areas
            .iter()
            .any(|&s| s.stake_id == active2.stake_id)
    );
}

#[test]
fn test_mlw_get_area_by_id_found() {
    let mut mlw = MLW::new();
    let area = mlw.new_area("Test Area".to_string(), None);
    let retrieved_area = mlw.get_area_by_id(&area.stake_id);
    assert!(retrieved_area.is_some());
    assert_eq!(retrieved_area.unwrap(), &area);
}

#[test]
fn test_mlw_get_area_by_id_not_found() {
    let mlw = MLW::new();
    let not_found = mlw.get_area_by_id(&StakeId(999));
    assert!(not_found.is_none());
}

#[test]
fn test_mlw_update_area_success() {
    let mut mlw = MLW::new();
    let original_area = mlw.new_area(
        "Original Name".to_string(),
        Some("Original Note".to_string()),
    );
    let mut updated_area = original_area.clone();
    updated_area.stake_name = "New Name".to_string();
    updated_area.note = Some("New Note".to_string());

    let result = mlw.update_area(updated_area.clone());
    assert!(result.is_ok());
    let verified_area = mlw.get_area_by_id(&original_area.stake_id).unwrap();
    assert_eq!(verified_area.stake_name, "New Name");
    assert_eq!(verified_area.note, Some("New Note".to_string()));
}

#[test]
fn test_mlw_update_area_not_found_error() {
    let mut mlw = MLW::new();
    let non_existent_area = create_test_stake(999, "Non Existent", None, false, false, None);
    let result = mlw.update_area(non_existent_area);
    assert!(result.is_err());
    assert_eq!(result.unwrap_err(), StakeError::StakeNotFound);
}

#[test]
fn test_mlw_mark_area_complete_success() {
    let mut mlw = MLW::new();
    let area = mlw.new_area("Test Area".to_string(), None);
    let result = mlw.mark_area_complete(&area.stake_id);
    assert!(result.is_ok());
    let updated_area = mlw.get_area_by_id(&area.stake_id).unwrap();
    assert!(updated_area.complete);
    assert!(!updated_area.is_active());
    assert!(mlw.completed_areas().contains(&updated_area));
    assert!(!mlw.active_areas().contains(&updated_area));
}

#[test]
fn test_mlw_mark_area_complete_not_found_error() {
    let mut mlw = MLW::new();
    let result = mlw.mark_area_complete(&StakeId(999));
    assert!(result.is_err());
    assert_eq!(result.unwrap_err(), StakeError::StakeNotFound);
}

#[test]
fn test_mlw_mark_area_dropped_success() {
    let mut mlw = MLW::new();
    let area = mlw.new_area("Test Area".to_string(), None);
    let result = mlw.mark_area_dropped(&area.stake_id);
    assert!(result.is_ok());
    let updated_area = mlw.get_area_by_id(&area.stake_id).unwrap();
    assert!(updated_area.dropped);
    assert!(!updated_area.is_active());
    assert!(!mlw.active_areas().contains(&updated_area));
}

#[test]
fn test_mlw_mark_area_dropped_not_found_error() {
    let mut mlw = MLW::new();
    let result = mlw.mark_area_dropped(&StakeId(999));
    assert!(result.is_err());
    assert_eq!(result.unwrap_err(), StakeError::StakeNotFound);
}
