use object_log::{ObjectKey, ObjectLogError, TopicName};

#[test]
fn invalid_names_and_keys_are_rejected() {
    assert!(matches!(
        TopicName::new("tenant/topic".to_string()),
        Err(ObjectLogError::InvalidTopic(_))
    ));
    assert!(matches!(
        TopicName::new("..".to_string()),
        Err(ObjectLogError::InvalidTopic(_))
    ));
    assert!(matches!(
        ObjectKey::new("topics/../escape".to_string()),
        Err(ObjectLogError::InvalidObjectKey(_))
    ));
}

#[test]
fn topic_name_edge_cases() {
    assert_eq!(TopicName::new("".to_string()), Err(ObjectLogError::InvalidTopic(String::new())));
    assert!(TopicName::new(".".to_string()).is_err());
    assert!(TopicName::new("a\0b".to_string()).is_err());
    assert_eq!(TopicName::new("a..b".to_string()).unwrap().as_str(), "a..b");
    assert_eq!(TopicName::new("events.v2".to_string()).unwrap().as_str(), "events.v2");
}

#[test]
fn object_key_edge_cases() {
    assert!(ObjectKey::new(String::new()).is_err());
    assert!(ObjectKey::new("a\0".to_string()).is_err());
    assert!(ObjectKey::new("..".to_string()).is_err());
    assert!(ObjectKey::new("a/..".to_string()).is_err());
    assert_eq!(ObjectKey::new("a/..b/c".to_string()).unwrap().as_str(), "a/..b/c");
    assert_eq!(ObjectKey::new("a..".to_string()).unwrap().as_str(), "a..");
}
