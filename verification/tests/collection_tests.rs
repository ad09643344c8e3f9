use stakes::Stake;
use stakes::StakeId;
use stakes::StakesCollection;
use stakes::Timestamp;
use std::collections::HashSet;
use std::time::Instant;

// Helper function (shared by most collection tests)
fn create_test_stake(
    id: u32,
    name: &str,
    parent_id: Option<StakeId>,
    complete: bool,
    dropped: bool,
    note: Option<String>,
) -> Stake {
    let mut stake = Stake::new(StakeId(id), name.to_string(), parent_id, note);
    stake.complete = complete;
    stake.dropped = dropped;
    stake
}

#[test]
fn test_stakes_collection_serialization_roundtrip() {
    let mut original_collection = StakesCollection::new();
    // Move the counter to 5, as a collection that issued four ids would hold.
    for _ in 0..4 {
        original_collection.generate_id();
    }
    assert_eq!(original_collection.next_id(), StakeId(5));

    // Create stakes with fixed times for consistent comparison
    let fixed_time = Timestamp::new(2024, 7, 19, 8, 30, 0, 0).unwrap();

    let mut stake1 = create_test_stake(
        1,
        "First Stake",
        None,
        false,
        false,
        Some("Note 1".to_string()),
    );
    stake1.date_created = fixed_time;
    stake1.date_modified = fixed_time;

    let mut stake2 = create_test_stake(2, "Second Stake", Some(StakeId(1)), true, false, None);
    stake2.date_created = fixed_time;
    stake2.date_modified = fixed_time;

    let mut stake3 = create_test_stake(
        3,
        "Third Stake",
        Some(StakeId(2)),
        false,
        true,
        Some("Note 3".to_string()),
    );
    stake3.date_created = fixed_time;
    stake3.date_modified = fixed_time;

    original_collection.add_stake(stake1);
    original_collection.add_stake(stake2);
    original_collection.add_stake(stake3);

    // 1. Serialize the original collection
    let serialized = original_collection.encode();
    println!("Serialized collection for roundtrip test:\n{}", serialized);

    // 2. Deserialize the string back into a new collection
    let deserialized_collection =
        StakesCollection::decode(&serialized).expect("Failed to deserialize collection");

    // 3. Compare the original collection with the deserialized one
    assert_eq!(
        original_collection, deserialized_collection,
        "Original and deserialized collections should be identical"
    );
}

#[test]
fn test_stakes_collection_deserialization() {
    let fixed_time = Timestamp::new(2024, 7, 19, 8, 30, 0, 0).unwrap();
    let fixed_time_text = "2024-07-19T08:30:00+00:00";

    let json_input = format!(
        r#"{{
        "nextId": 5,
        "stakes": [
            {{
                "stake_id": 1,
                "stake_name": "Loaded Stake 1",
                "parent_id": null,
                "complete": false,
                "dropped": false,
                "date_modified": "{}",
                "date_created": "{}",
                "note": "A note"
            }}
        ]
    }}"#,
        fixed_time_text, fixed_time_text
    );

    let deserialized =
        StakesCollection::decode(&json_input).expect("Failed to deserialize collection");

    assert_eq!(deserialized.next_id(), StakeId(5));
    assert_eq!(deserialized.len(), 1);
    let loaded = deserialized.get_by_id(&StakeId(1)).unwrap();
    assert_eq!(loaded.stake_id, StakeId(1));
    assert_eq!(loaded.stake_name, "Loaded Stake 1");
    assert_eq!(loaded.parent_id, None);
    assert_eq!(loaded.complete, false);
    assert_eq!(loaded.dropped, false);
    assert_eq!(loaded.date_modified, fixed_time);
    assert_eq!(loaded.date_created, fixed_time);
    assert_eq!(loaded.note, Some("A note".to_string()));
}

#[test]
fn test_stakes_collection_unique_ids() {
    let mut collection = StakesCollection::new();
    let num_stakes = 10_000;
    let mut seen_ids = HashSet::new();

    for _i in 0..num_stakes {
        let new_id = collection.generate_id();
        let stake_name = format!("Stake {}", new_id.0);
        let stake = create_test_stake(new_id.0, &stake_name, None, false, false, None);

        assert!(
            seen_ids.insert(new_id.0),
            "Generated ID {} was not unique!",
            new_id.0
        );

        collection.add_stake(stake);
    }

    assert_eq!(
        collection.len(),
        num_stakes as usize,
        "Collection should contain all generated stakes"
    );
    assert_eq!(
        collection.next_id(),
        StakeId((num_stakes + 1) as u32),
        "next_id should be correctly incremented"
    );
    assert_eq!(
        seen_ids.len(),
        num_stakes as usize,
        "All generated IDs should be unique"
    );
}

#[test]
fn test_stakes_collection_get_by_id() {
    let mut collection = StakesCollection::new();

    let stake1 = create_test_stake(1, "Stake A", None, false, false, None);
    let stake2 = create_test_stake(2, "Stake B", Some(StakeId(1)), true, false, None);
    let stake3 = create_test_stake(3, "Stake C", None, false, true, None);

    collection.add_stake(stake1.clone());
    collection.add_stake(stake2.clone());
    collection.add_stake(stake3.clone());

    let found_stake_1 = collection.get_by_id(&StakeId(1));
    assert!(found_stake_1.is_some(), "Should find Stake 1");
    assert_eq!(
        found_stake_1.unwrap(),
        &stake1,
        "Found Stake 1 should match original"
    );

    let found_stake_2 = collection.get_by_id(&StakeId(2));
    assert!(found_stake_2.is_some(), "Should find Stake 2");
    assert_eq!(
        found_stake_2.unwrap(),
        &stake2,
        "Found Stake 2 should match original"
    );

    let not_found_stake = collection.get_by_id(&StakeId(999));
    assert!(
        not_found_stake.is_none(),
        "Should not find non-existent stake"
    );

    let empty_collection = StakesCollection::new();
    let not_found_in_empty = empty_collection.get_by_id(&StakeId(1));
    assert!(
        not_found_in_empty.is_none(),
        "Should not find stake in empty collection"
    );
}

#[test]
fn test_stakes_collection_get_children() {
    let mut collection = StakesCollection::new();

    let parent_a = create_test_stake(10, "Parent A", None, false, false, None);
    let parent_b = create_test_stake(20, "Parent B", None, false, false, None);

    let child_a1 = create_test_stake(
        11,
        "Child A1",
        Some(parent_a.stake_id.clone()),
        false,
        false,
        None,
    );
    let child_a2 = create_test_stake(
        12,
        "Child A2",
        Some(parent_a.stake_id.clone()),
        false,
        false,
        None,
    );

    let child_b1 = create_test_stake(
        21,
        "Child B1",
        Some(parent_b.stake_id.clone()),
        false,
        false,
        None,
    );

    let top_level_c = create_test_stake(30, "Top Level C", None, false, false, None);

    collection.add_stake(parent_a.clone());
    collection.add_stake(parent_b.clone());
    collection.add_stake(child_a1.clone());
    collection.add_stake(child_a2.clone());
    collection.add_stake(child_b1.clone());
    collection.add_stake(top_level_c.clone());

    let children_of_a = collection.get_children(&parent_a.stake_id);
    assert_eq!(children_of_a.len(), 2, "Parent A should have 2 children");
    assert!(
        children_of_a.contains(&&child_a1),
        "Children of A should contain A1"
    );
    assert!(
        children_of_a.contains(&&child_a2),
        "Children of A should contain A2"
    );
    assert!(
        !children_of_a.contains(&&child_b1),
        "Children of A should NOT contain B1"
    );

    let children_of_b = collection.get_children(&parent_b.stake_id);
    assert_eq!(children_of_b.len(), 1, "Parent B should have 1 child");
    assert!(
        children_of_b.contains(&&child_b1),
        "Children of B should contain B1"
    );

    let children_of_c = collection.get_children(&top_level_c.stake_id);
    assert!(children_of_c.is_empty(), "Stake C should have no children");

    let non_existent_parent_id = StakeId(999);
    let children_non_existent = collection.get_children(&non_existent_parent_id);
    assert!(
        children_non_existent.is_empty(),
        "Non-existent parent should have no children"
    );

    let empty_collection = StakesCollection::new();
    let not_found_in_empty = empty_collection.get_children(&StakeId(1));
    assert!(
        not_found_in_empty.is_empty(),
        "Empty collection should have no children"
    );
}

#[test]
fn test_performance_get_children() {
    let mut collection = StakesCollection::new();
    let num_stakes = 10_000;
    let target_parent_id = StakeId(55);
    let mut expected_children_count = 0;

    for i in 1..=num_stakes {
        let parent_id_option = if i % 10 == 0 && i > 0 {
            if i == target_parent_id.0 {
                None
            } else {
                expected_children_count += 1;
                Some(target_parent_id.clone())
            }
        } else if i == target_parent_id.0 {
            None
        } else {
            Some(StakeId(i % 50 + 1))
        };
        let stake_name = format!("Stake {}", i);
        collection.add_stake(create_test_stake(
            i as u32,
            &stake_name,
            parent_id_option,
            false,
            false,
            None,
        ));
    }

    println!(
        "\nPerformance Test: Finding children of StakeId({}) in {} stakes.",
        target_parent_id.0, num_stakes
    );

    let start_time = Instant::now();

    let children = collection.get_children(&target_parent_id);

    let elapsed_time = start_time.elapsed();

    println!("Found {} children in {:?}", children.len(), elapsed_time);

    assert_eq!(
        children.len(),
        expected_children_count,
        "The number of children found should match expectations."
    );
    assert!(
        !children.is_empty(),
        "Should find at least some children for the target ID."
    );

    for child in children {
        assert_eq!(
            child.parent_id,
            Some(target_parent_id.clone()),
            "Found child has incorrect parent_id"
        );
    }
}

#[test]
fn test_stakes_collection_is_empty() {
    let mut collection = StakesCollection::new();
    assert!(collection.is_empty(), "New collection should be empty");

    collection.add_stake(create_test_stake(1, "A", None, false, false, None));
    assert!(
        !collection.is_empty(),
        "Collection with stakes should not be empty"
    );
}

#[test]
fn test_stakes_collection_active_stakes() {
    let mut collection = StakesCollection::new();
    let active_stake1 = create_test_stake(1, "Active 1", None, false, false, None);
    let completed_stake = create_test_stake(2, "Completed", Some(StakeId(1)), true, false, None);
    let dropped_stake = create_test_stake(3, "Dropped", None, false, true, None);
    let active_stake2 = create_test_stake(4, "Active 2", Some(StakeId(1)), false, false, None);

    collection.add_stake(active_stake1.clone());
    collection.add_stake(completed_stake.clone());
    collection.add_stake(dropped_stake.clone());
    collection.add_stake(active_stake2.clone());

    let active_stakes = collection.active_stakes();
    assert_eq!(active_stakes.len(), 2);
    assert!(active_stakes.contains(&&active_stake1));
    assert!(active_stakes.contains(&&active_stake2));
    assert!(!active_stakes.contains(&&completed_stake));
    assert!(!active_stakes.contains(&&dropped_stake));
}

#[test]
fn test_stakes_collection_completed_stakes() {
    let mut collection = StakesCollection::new();
    let active_stake = create_test_stake(1, "Active", None, false, false, None);
    let completed_stake1 = create_test_stake(2, "Completed 1", Some(StakeId(1)), true, false, None);
    let dropped_stake = create_test_stake(3, "Dropped", None, false, true, None);
    let completed_stake2 = create_test_stake(4, "Completed 2", Some(StakeId(1)), true, true, None);

    collection.add_stake(active_stake.clone());
    collection.add_stake(completed_stake1.clone());
    collection.add_stake(dropped_stake.clone());
    collection.add_stake(completed_stake2.clone());

    let completed_stakes = collection.completed_stakes();
    assert_eq!(completed_stakes.len(), 2);
    assert!(completed_stakes.contains(&&completed_stake1));
    assert!(completed_stakes.contains(&&completed_stake2));
    assert!(!completed_stakes.contains(&&active_stake));
    assert!(!completed_stakes.contains(&&dropped_stake));
}

#[test]
fn test_stakes_collection_search_by_name_functional() {
    let mut collection = StakesCollection::new();

    let stake1 = create_test_stake(1, "Website Redesign", None, false, false, None);
    let stake2 = create_test_stake(2, "Mobile App Development", None, true, false, None);
    let stake3 = create_test_stake(3, "Marketing Campaign Launch", None, false, true, None);
    let stake4 = create_test_stake(4, "Redesign Homepage", Some(StakeId(1)), false, false, None);
    let stake5 = create_test_stake(
        5,
        "Internal Review",
        None,
        false,
        false,
        Some("Review all marketing materials".to_string()),
    );
    let stake6 = create_test_stake(6, "Brand Refresh", None, false, false, None);

    collection.add_stake(stake1.clone());
    collection.add_stake(stake2.clone());
    collection.add_stake(stake3.clone());
    collection.add_stake(stake4.clone());
    collection.add_stake(stake5.clone());
    collection.add_stake(stake6.clone());

    // Test 1: Exact match, case-insensitive
    let results1 = collection.search_by_name("website redesign");
    assert_eq!(
        results1.len(),
        1,
        "Should find 1 exact match (case-insensitive)"
    );
    assert!(results1.contains(&&stake1));

    // Test 2: Partial match, case-insensitive
    let results2 = collection.search_by_name("design");
    assert_eq!(
        results2.len(),
        2,
        "Should find 2 partial matches (Website Redesign, Redesign Homepage)"
    );
    assert!(results2.contains(&&stake1));
    assert!(results2.contains(&&stake4));

    // Test 3: No match
    let results3 = collection.search_by_name("nonexistent");
    assert!(
        results3.is_empty(),
        "Should find no matches for non-existent query"
    );

    // Test 4: Match beginning of word
    let results4 = collection.search_by_name("web");
    assert_eq!(results4.len(), 1, "Should find 'Website Redesign'");
    assert!(results4.contains(&&stake1));

    // Test 5: Match middle of word
    let results5 = collection.search_by_name("app develop");
    assert_eq!(results5.len(), 1, "Should find 'Mobile App Development'");
    assert!(results5.contains(&&stake2));

    // Test 6: Search for an empty string (should return all stakes)
    let results6 = collection.search_by_name("");
    assert_eq!(
        results6.len(),
        collection.len(),
        "Empty query should return all stakes"
    );

    // Test 7: Search with leading/trailing whitespace
    let results7 = collection.search_by_name("  redesign  ");
    assert_eq!(
        results7.len(),
        2,
        "Should find matches even with whitespace around query"
    );
    assert!(results7.contains(&&stake1));
    assert!(results7.contains(&&stake4));
}

#[test]
fn test_performance_search_by_name() {
    let mut collection = StakesCollection::new();
    let num_stakes = 10_000;
    let search_query = "perf_target";
    let mut expected_matches = 0;

    for i in 1..=num_stakes {
        let stake_name = if i % 100 == 0 {
            expected_matches += 1;
            format!("Stake {} - {} - other text", i, search_query)
        } else if i == 500 {
            expected_matches += 1;
            search_query.to_string()
        } else {
            format!("Stake {}", i)
        };
        collection.add_stake(create_test_stake(
            i as u32,
            &stake_name,
            None,
            false,
            false,
            None,
        ));
    }

    println!(
        "\nPerformance Test: Searching for '{}' in {} stakes.",
        search_query, num_stakes
    );

    let start_time = Instant::now();

    let results = collection.search_by_name(search_query);

    let elapsed_time = start_time.elapsed();

    println!("Found {} matches in {:?}", results.len(), elapsed_time);

    assert_eq!(
        results.len(),
        expected_matches,
        "The number of search matches should be as expected."
    );
    assert!(
        !results.is_empty(),
        "Should find at least some matches for the target query."
    );
}
