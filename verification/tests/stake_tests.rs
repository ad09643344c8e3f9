use stakes::Stake;
use stakes::StakeId;
use stakes::Timestamp;

// Helper function to create a basic stake for tests
fn create_test_stake(parent_id: Option<StakeId>) -> Stake {
    Stake::new(StakeId(100), "Test Stake Name".to_string(), parent_id, None)
}

#[test]
fn test_stake_new_with_parent() {
    let stake_id = StakeId(1);
    let parent_id = Some(StakeId(10));
    let stake_name = "New Initiative".to_string();
    let now_before_creation = Timestamp::now();

    let stake = Stake::new(stake_id.clone(), stake_name.clone(), parent_id.clone(), None);

    assert_eq!(stake.stake_id, stake_id);
    assert_eq!(stake.stake_name, stake_name);
    assert_eq!(stake.parent_id, parent_id);
    assert!(!stake.complete);
    assert!(!stake.dropped);
    assert!(stake.is_active(), "New stake should be active");

    assert!(stake.date_created >= now_before_creation);
    assert!(stake.date_modified >= now_before_creation);
    assert!(stake.date_created <= Timestamp::now());
    assert!(stake.date_modified <= Timestamp::now());
    assert_eq!(
        stake.date_created, stake.date_modified,
        "Initially, created and modified dates should be the same"
    );
}

#[test]
fn test_stake_new_without_parent() {
    let stake_id = StakeId(2);
    let parent_id = None;
    let stake_name = "Root Stake".to_string();
    let now_before_creation = Timestamp::now();

    let stake = Stake::new(stake_id.clone(), stake_name.clone(), parent_id, None);

    assert_eq!(stake.stake_id, stake_id);
    assert_eq!(stake.stake_name, stake_name);
    assert_eq!(stake.parent_id, None);
    assert!(!stake.complete);
    assert!(!stake.dropped);
    assert!(stake.is_active(), "New stake should be active");

    assert!(stake.date_created >= now_before_creation);
    assert!(stake.date_modified >= now_before_creation);
    assert!(stake.date_created <= Timestamp::now());
    assert!(stake.date_modified <= Timestamp::now());
    assert_eq!(
        stake.date_created, stake.date_modified,
        "Initially, created and modified dates should be the same"
    );
}

#[test]
fn stake_test_mark_complete() {
    let mut stake = create_test_stake(Some(StakeId(999)));
    let initial_modified_date = stake.date_modified;
    let now_before_complete = Timestamp::now();

    stake.mark_complete();

    assert!(stake.complete);
    assert!(!stake.dropped);
    assert!(!stake.is_active(), "Completed stake should become inactive");
    assert!(
        stake.date_modified >= initial_modified_date,
        "date_modified should be updated"
    );
    assert!(
        stake.date_modified >= now_before_complete,
        "date_modified should be updated to current time"
    );
}

#[test]
fn stake_test_mark_dropped() {
    let mut stake = create_test_stake(None);
    let initial_modified_date = stake.date_modified;
    let now_before_dropped = Timestamp::now();

    stake.mark_dropped();

    assert!(!stake.complete);
    assert!(stake.dropped);
    assert!(!stake.is_active(), "Dropped stake should become inactive");
    assert!(
        stake.date_modified >= initial_modified_date,
        "date_modified should be updated"
    );
    assert!(
        stake.date_modified >= now_before_dropped,
        "date_modified should be updated to current time"
    );
}

#[test]
fn test_is_active_logic() {
    let mut stake = create_test_stake(Some(StakeId(50)));

    assert!(stake.is_active(), "Fresh stake should be active");

    // Case 1: Complete = true, Dropped = false
    stake.complete = true;
    stake.dropped = false;
    assert!(!stake.is_active(), "Completed stake should be inactive");

    // Case 2: Complete = false, Dropped = true
    stake.complete = false;
    stake.dropped = true;
    assert!(!stake.is_active(), "Dropped stake should be inactive");

    // Case 3: Complete = true, Dropped = true (should still be inactive)
    stake.complete = true;
    stake.dropped = true;
    assert!(
        !stake.is_active(),
        "Completed and dropped stake should be inactive"
    );

    stake.complete = false;
    stake.dropped = false;
    assert!(stake.is_active(), "Reset stake should be active");
}
