use mistral_srt_ai_gen::{parse_api_keys, AppError, KeyRotator};

#[test]
fn test_single_key() {
    let mut rotator = KeyRotator::new("single_key");
    assert_eq!(rotator.key_count(), 1);
    assert_eq!(rotator.get_next_key(), Some("single_key".to_string()));
    assert_eq!(rotator.get_next_key(), Some("single_key".to_string()));
}

#[test]
fn test_multiple_keys() {
    let mut rotator = KeyRotator::new("key1, key2, key3");
    assert_eq!(rotator.key_count(), 3);

    // Should rotate through keys
    let key1 = rotator.get_next_key();
    let key2 = rotator.get_next_key();
    let key3 = rotator.get_next_key();
    let key4 = rotator.get_next_key(); // Should wrap around

    assert_ne!(key1, key2);
    assert_ne!(key2, key3);
    assert_eq!(key1, key4);
}

#[test]
fn test_empty_keys() {
    let mut rotator = KeyRotator::new("");
    assert_eq!(rotator.key_count(), 0);
    assert_eq!(rotator.get_next_key(), None);
}

#[test]
fn test_whitespace_handling() {
    let rotator = KeyRotator::new("  key1  , key2 ,  key3  ");
    assert_eq!(rotator.key_count(), 3);

    let keys: Vec<String> = rotator.keys().iter().map(|k| k.clone()).collect();
    assert_eq!(keys[0], "key1");
    assert_eq!(keys[1], "key2");
    assert_eq!(keys[2], "key3");
}

#[test]
fn test_random_start() {
    // This test just verifies it doesn't panic and returns valid keys
    let mut rotator = KeyRotator::new("key1,key2,key3,key4,key5");
    assert!(rotator.key_count() > 1);

    // Should be able to get keys
    for _ in 0..10 {
        let key = rotator.get_next_key();
        assert!(key.is_some());
        assert!(["key1", "key2", "key3", "key4", "key5"].contains(&key.unwrap().as_str()));
    }
}

#[test]
fn test_round_robin_behavior() {
    let mut rotator = KeyRotator::new("key1,key2,key3");

    // Get keys in sequence and verify round-robin behavior
    let key1 = rotator.get_next_key().unwrap();
    let key2 = rotator.get_next_key().unwrap();
    let key3 = rotator.get_next_key().unwrap();
    let key4 = rotator.get_next_key().unwrap(); // Should wrap around to key1

    // All keys should be different in the first cycle
    assert_ne!(key1, key2);
    assert_ne!(key2, key3);
    assert_ne!(key3, key1);

    // Should wrap around correctly
    assert_eq!(key1, key4);
}

#[test]
fn rotation_from_a_chosen_start_wraps_around() {
    let mut rotator = KeyRotator::with_start_index("a,b,c", 2);
    assert_eq!(rotator.get_next_key(), Some("c".to_string()));
    assert_eq!(rotator.get_next_key(), Some("a".to_string()));
    assert_eq!(rotator.get_next_key(), Some("b".to_string()));
    assert_eq!(rotator.get_next_key(), Some("c".to_string()));
}

#[test]
fn full_cycle_returns_to_the_first_key() {
    let mut rotator = KeyRotator::with_start_index("k1,k2,k3,k4", 1);
    let first = rotator.get_next_key();
    for _ in 1..rotator.key_count() {
        rotator.get_next_key();
    }
    assert_eq!(rotator.get_next_key(), first);
}

#[test]
fn keys_are_trimmed_and_empty_pieces_dropped() {
    let keys = parse_api_keys(",, a ,\t,b\u{3000}, ,c,");
    assert_eq!(keys, vec!["a".to_string(), "b".to_string(), "c".to_string()]);
    assert_eq!(parse_api_keys(" , ,").len(), 0);
    assert_eq!(parse_api_keys("one"), vec!["one".to_string()]);
}

#[test]
fn single_key_rotator_starts_at_it() {
    let mut rotator = KeyRotator::new("  only  ");
    assert_eq!(rotator.keys(), &vec!["only".to_string()]);
    assert_eq!(rotator.get_next_key(), Some("only".to_string()));
}

#[test]
fn next_api_key_reports_missing_keys() {
    let mut empty = KeyRotator::new(" , ");
    assert_eq!(
        empty.next_api_key(),
        Err(AppError::ApiError("No API keys available".to_string()))
    );
    let mut one = KeyRotator::new("k");
    assert_eq!(one.next_api_key(), Ok("k".to_string()));
}

#[test]
fn require_keys_refuses_an_empty_rotator() {
    assert_eq!(
        KeyRotator::new(" ,").require_keys(),
        Err(AppError::ApiError("No valid API keys provided".to_string()))
    );
    assert_eq!(KeyRotator::new("k").require_keys(), Ok(()));
}

#[test]
fn every_key_served_once_per_cycle() {
    let mut rotator = KeyRotator::with_start_index("a,b,a,c", 3);
    let mut served: Vec<String> = (0..4).map(|_| rotator.get_next_key().unwrap()).collect();
    served.sort();
    assert_eq!(served, vec!["a", "a", "b", "c"]);
}
