use stakes::AreaId;
use stakes::Project;
use stakes::ProjectId;
use stakes::Timestamp;

// Helper function to create a basic project for tests
fn create_test_project() -> Project {
    Project::new(ProjectId(100), "Test Project Name".to_string(), AreaId(1))
}

#[test]
fn test_project_new() {
    let project_id = ProjectId(1);
    let area_id = AreaId(10);
    let project_name = "New Initiative".to_string();
    let now_before_creation = Timestamp::now();

    let project = Project::new(project_id.clone(), project_name.clone(), area_id.clone());

    assert_eq!(project.project_id, project_id);
    assert_eq!(project.project_name, project_name);
    assert_eq!(project.area_id, area_id);
    assert!(!project.complete);
    assert!(!project.dropped);

    assert!(project.date_created >= now_before_creation);
    assert!(project.date_modified >= now_before_creation);
    assert!(project.date_created <= Timestamp::now());
    assert!(project.date_modified <= Timestamp::now());
    assert_eq!(
        project.date_created, project.date_modified,
        "Initially, created and modified dates should be the same"
    );
}

#[test]
fn project_test_mark_complete() {
    let mut project = create_test_project();
    let initial_modified_date = project.date_modified;
    let now_before_complete = Timestamp::now();

    project.mark_complete();

    assert!(project.complete);
    assert!(!project.dropped);
    assert!(!project.is_active());
    assert!(
        project.date_modified >= initial_modified_date,
        "date_modified should be updated"
    );
    assert!(
        project.date_modified >= now_before_complete,
        "date_modified should be updated to current time"
    );
}

#[test]
fn project_test_mark_dropped() {
    let mut project = create_test_project();
    let initial_modified_date = project.date_modified;
    let now_before_dropped = Timestamp::now();

    project.mark_dropped();

    assert!(!project.complete);
    assert!(project.dropped);
    assert!(
        !project.is_active(),
        "Dropped project should become inactive"
    );
    assert!(
        project.date_modified >= initial_modified_date,
        "date_modified should be updated"
    );
    assert!(
        project.date_modified >= now_before_dropped,
        "date_modified should be updated to current time"
    );
}
