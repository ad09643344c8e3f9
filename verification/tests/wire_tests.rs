use stakes::DecodeError;
use stakes::Stake;
use stakes::StakeError;
use stakes::StakeId;
use stakes::StakesCollection;
use stakes::Timestamp;

fn named_stake(id: u32, name: &str, parent_id: Option<StakeId>) -> Stake {
    let fixed_time = Timestamp::new(2024, 7, 19, 8, 30, 0, 0).unwrap();
    let mut stake = Stake::new(StakeId(id), name.to_string(), parent_id, None);
    stake.date_created = fixed_time;
    stake.date_modified = fixed_time;
    stake
}

#[test]
fn test_three_stake_scenario() {
    // Start empty; issue three ids; add "A", "B" (parent 1), "C" (dropped);
    // check the hierarchy, the partitions, and the wire round trip.
    let mut collection = StakesCollection::new();
    let id_a = collection.generate_id();
    let id_b = collection.generate_id();
    let id_c = collection.generate_id();
    assert_eq!(id_a, StakeId(1));
    assert_eq!(id_b, StakeId(2));
    assert_eq!(id_c, StakeId(3));

    let stake_a = named_stake(1, "A", None);
    let stake_b = named_stake(2, "B", Some(StakeId(1)));
    let mut stake_c = named_stake(3, "C", None);
    stake_c.dropped = true;

    collection.add_stake(stake_a.clone());
    collection.add_stake(stake_b.clone());
    collection.add_stake(stake_c.clone());

    let children = collection.get_children(&StakeId(1));
    assert_eq!(children.len(), 1);
    assert_eq!(children[0].stake_name, "B");

    let active = collection.active_stakes();
    assert_eq!(active.len(), 2);
    assert_eq!(active[0].stake_name, "A");
    assert_eq!(active[1].stake_name, "B");

    let completed = collection.completed_stakes();
    assert!(completed.is_empty());

    let text = collection.encode();
    let decoded = StakesCollection::decode(&text).expect("round trip should succeed");
    assert_eq!(decoded.next_id(), StakeId(4));
    assert_eq!(decoded.len(), 3);
    assert_eq!(decoded, collection);
}

#[test]
fn test_encode_empty_collection() {
    let collection = StakesCollection::new();
    let text = collection.encode();
    assert_eq!(text, r#"{"nextId":1,"stakes":[]}"#);
    let decoded = StakesCollection::decode(&text).unwrap();
    assert_eq!(decoded, collection);
}

#[test]
fn test_encode_is_exact() {
    let mut collection = StakesCollection::new();
    collection.generate_id();
    collection.add_stake(named_stake(1, "A", Some(StakeId(7))));
    let text = collection.encode();
    assert_eq!(
        text,
        r#"{"nextId":2,"stakes":[{"stake_id":1,"stake_name":"A","parent_id":7,"complete":false,"dropped":false,"note":null,"date_modified":"2024-07-19T08:30:00+00:00","date_created":"2024-07-19T08:30:00+00:00"}]}"#
    );
}

#[test]
fn test_round_trip_with_escapes_and_unicode() {
    let mut collection = StakesCollection::new();
    collection.generate_id();
    let mut stake = named_stake(1, "Quote \" backslash \\ tab \t newline \n smörgåsbord", None);
    stake.note = Some("control \u{1} char and emoji ☃".to_string());
    collection.add_stake(stake);
    let text = collection.encode();
    let decoded = StakesCollection::decode(&text).unwrap();
    assert_eq!(decoded, collection);
}

#[test]
fn test_round_trip_with_nanoseconds() {
    let mut collection = StakesCollection::new();
    collection.generate_id();
    let mut stake = named_stake(1, "Precise", None);
    stake.date_modified = Timestamp::new(1999, 12, 31, 23, 59, 59, 123_456_789).unwrap();
    stake.date_created = Timestamp::new(2000, 2, 29, 0, 0, 0, 500_000_000).unwrap();
    collection.add_stake(stake);
    let text = collection.encode();
    let decoded = StakesCollection::decode(&text).unwrap();
    assert_eq!(decoded, collection);
}

#[test]
fn test_decode_accepts_field_order_and_zulu() {
    let text = r#" { "stakes" : [ { "note" : null , "stake_name" : "Z" , "stake_id" : 9 , "dropped" : true , "complete" : true , "date_created" : "2024-07-19T08:30:00.5Z" , "date_modified" : "2024-07-19T08:30:00Z" , "parent_id" : 3 } ] , "nextId" : 10 } "#;
    let decoded = StakesCollection::decode(text).unwrap();
    assert_eq!(decoded.next_id(), StakeId(10));
    let stake = decoded.get_by_id(&StakeId(9)).unwrap();
    assert_eq!(stake.stake_name, "Z");
    assert_eq!(stake.parent_id, Some(StakeId(3)));
    assert!(stake.complete && stake.dropped);
    assert_eq!(
        stake.date_created,
        Timestamp::new(2024, 7, 19, 8, 30, 0, 500_000_000).unwrap()
    );
    assert_eq!(
        stake.date_modified,
        Timestamp::new(2024, 7, 19, 8, 30, 0, 0).unwrap()
    );
}

#[test]
fn test_decode_rejects_missing_field() {
    assert_eq!(
        StakesCollection::decode(r#"{"nextId":1}"#),
        Err(DecodeError::InvalidDocument)
    );
    assert_eq!(
        StakesCollection::decode(r#"{"stakes":[]}"#),
        Err(DecodeError::InvalidDocument)
    );
    // A stake object missing its note field is rejected too.
    let text = r#"{"nextId":2,"stakes":[{"stake_id":1,"stake_name":"A","parent_id":null,"complete":false,"dropped":false,"date_modified":"2024-07-19T08:30:00+00:00","date_created":"2024-07-19T08:30:00+00:00"}]}"#;
    assert_eq!(
        StakesCollection::decode(text),
        Err(DecodeError::InvalidDocument)
    );
}

#[test]
fn test_decode_rejects_duplicate_field() {
    assert_eq!(
        StakesCollection::decode(r#"{"nextId":1,"nextId":1,"stakes":[]}"#),
        Err(DecodeError::InvalidDocument)
    );
    assert_eq!(
        StakesCollection::decode(r#"{"nextId":1,"stakes":[],"stakes":[]}"#),
        Err(DecodeError::InvalidDocument)
    );
}

#[test]
fn test_decode_rejects_unknown_field() {
    assert_eq!(
        StakesCollection::decode(r#"{"nextId":1,"stakes":[],"extraField":0}"#),
        Err(DecodeError::InvalidDocument)
    );
}

#[test]
fn test_decode_rejects_trailing_text() {
    assert_eq!(
        StakesCollection::decode(r#"{"nextId":1,"stakes":[]} trailing"#),
        Err(DecodeError::InvalidDocument)
    );
}

#[test]
fn test_decode_rejects_bad_values() {
    // A counter too large for the id space.
    assert_eq!(
        StakesCollection::decode(r#"{"nextId":4294967296,"stakes":[]}"#),
        Err(DecodeError::InvalidDocument)
    );
    // A date that does not exist.
    let text = r#"{"nextId":2,"stakes":[{"stake_id":1,"stake_name":"A","parent_id":null,"complete":false,"dropped":false,"note":null,"date_modified":"2023-02-29T00:00:00+00:00","date_created":"2024-07-19T08:30:00+00:00"}]}"#;
    assert_eq!(
        StakesCollection::decode(text),
        Err(DecodeError::InvalidDocument)
    );
    // A number with a leading zero.
    assert_eq!(
        StakesCollection::decode(r#"{"nextId":01,"stakes":[]}"#),
        Err(DecodeError::InvalidDocument)
    );
}

#[test]
fn test_decode_resolves_unicode_escapes() {
    let text = r#"{"nextId":2,"stakes":[{"stake_id":1,"stake_name":"\u0041\u00e9\n\t\/","parent_id":null,"complete":false,"dropped":false,"note":null,"date_modified":"2024-07-19T08:30:00+00:00","date_created":"2024-07-19T08:30:00+00:00"}]}"#;
    let decoded = StakesCollection::decode(text).unwrap();
    let stake = decoded.get_by_id(&StakeId(1)).unwrap();
    assert_eq!(stake.stake_name, "Aé\n\t/");
}

#[test]
fn test_decode_rejects_surrogate_escape_and_raw_control() {
    let text = r#"{"nextId":2,"stakes":[{"stake_id":1,"stake_name":"\ud800","parent_id":null,"complete":false,"dropped":false,"note":null,"date_modified":"2024-07-19T08:30:00+00:00","date_created":"2024-07-19T08:30:00+00:00"}]}"#;
    assert_eq!(
        StakesCollection::decode(text),
        Err(DecodeError::InvalidDocument)
    );
    let raw_control = "{\"nextId\":2,\"stakes\":[{\"stake_id\":1,\"stake_name\":\"a\u{1}b\",\"parent_id\":null,\"complete\":false,\"dropped\":false,\"note\":null,\"date_modified\":\"2024-07-19T08:30:00+00:00\",\"date_created\":\"2024-07-19T08:30:00+00:00\"}]}";
    assert_eq!(
        StakesCollection::decode(raw_control),
        Err(DecodeError::InvalidDocument)
    );
}

#[test]
fn test_decode_largest_counter() {
    let decoded = StakesCollection::decode(r#"{"nextId":4294967295,"stakes":[]}"#).unwrap();
    assert_eq!(decoded.next_id(), StakeId(u32::MAX));
}

#[test]
fn test_timestamp_new_validates() {
    assert!(Timestamp::new(2024, 2, 29, 0, 0, 0, 0).is_some());
    assert!(Timestamp::new(2023, 2, 29, 0, 0, 0, 0).is_none());
    assert!(Timestamp::new(2000, 2, 29, 0, 0, 0, 0).is_some());
    assert!(Timestamp::new(1900, 2, 29, 0, 0, 0, 0).is_none());
    assert!(Timestamp::new(2024, 13, 1, 0, 0, 0, 0).is_none());
    assert!(Timestamp::new(2024, 4, 31, 0, 0, 0, 0).is_none());
    assert!(Timestamp::new(2024, 1, 1, 24, 0, 0, 0).is_none());
    assert!(Timestamp::new(2024, 1, 1, 0, 60, 0, 0).is_none());
    assert!(Timestamp::new(2024, 1, 1, 0, 0, 60, 0).is_none());
    assert!(Timestamp::new(2024, 1, 1, 0, 0, 0, 1_000_000_000).is_none());
    assert!(Timestamp::new(10_000, 1, 1, 0, 0, 0, 0).is_none());
}

#[test]
fn test_update_stake_replaces_first_match_only() {
    let mut collection = StakesCollection::new();
    collection.add_stake(named_stake(5, "first", None));
    collection.add_stake(named_stake(5, "second", None));

    let mut replacement = named_stake(5, "replaced", None);
    replacement.complete = true;
    assert_eq!(collection.update_stake(replacement), Ok(()));

    let found = collection.get_by_id(&StakeId(5)).unwrap();
    assert_eq!(found.stake_name, "replaced");
    assert!(found.complete);

    // The later duplicate is untouched.
    let all = collection.search_by_name("");
    assert_eq!(all.len(), 2);
    assert_eq!(all[1].stake_name, "second");
}

#[test]
fn test_update_stake_miss_leaves_collection_unchanged() {
    let mut collection = StakesCollection::new();
    collection.generate_id();
    collection.add_stake(named_stake(1, "only", None));
    let before = collection.encode();

    let result = collection.update_stake(named_stake(42, "ghost", None));
    assert_eq!(result, Err(StakeError::StakeNotFound));

    assert_eq!(collection.encode(), before);
    assert_eq!(collection.len(), 1);
    assert_eq!(collection.next_id(), StakeId(2));
}

#[test]
fn test_search_is_case_insensitive_both_ways() {
    let mut collection = StakesCollection::new();
    collection.add_stake(named_stake(1, "Website Redesign", None));
    assert_eq!(collection.search_by_name("WEBSITE REDESIGN").len(), 1);
    assert_eq!(collection.search_by_name("wEb").len(), 1);
    let upper_named = named_stake(2, "LAUNCH PLAN", None);
    collection.add_stake(upper_named);
    assert_eq!(collection.search_by_name("launch").len(), 1);
}

#[test]
fn test_search_all_whitespace_returns_all() {
    let mut collection = StakesCollection::new();
    collection.add_stake(named_stake(1, "A", None));
    collection.add_stake(named_stake(2, "B", None));
    assert_eq!(collection.search_by_name(" \t\r\n ").len(), 2);
}

#[test]
fn test_mark_complete_keeps_dropped_flag() {
    let mut stake = named_stake(1, "both", None);
    stake.mark_dropped();
    stake.mark_complete();
    assert!(stake.complete && stake.dropped);
    assert!(!stake.is_active());
    // Marking again is harmless.
    stake.mark_complete();
    assert!(stake.complete && stake.dropped);
}
