use with_secret::profile::{
    profile_when_missing, run_unset, set_source, ProfileInfo, SetSource, WithError,
};

fn lookup<'a>(info: &'a ProfileInfo, name: &str) -> Option<&'a String> {
    info.members.iter().find(|(k, _)| k == name).map(|(_, v)| v)
}

#[test]
fn insert_replaces_value() {
    let mut info = ProfileInfo::new();
    info.insert("A".to_string(), "1".to_string());
    info.insert("B".to_string(), "2".to_string());
    info.insert("A".to_string(), "3".to_string());
    assert_eq!(info.members.len(), 2);
    assert_eq!(lookup(&info, "A"), Some(&"3".to_string()));
    assert_eq!(lookup(&info, "B"), Some(&"2".to_string()));
}

#[test]
fn remove_gives_value_back() {
    let mut info = ProfileInfo::new();
    info.insert("A".to_string(), "1".to_string());
    assert_eq!(info.remove(&"A".to_string()), Some("1".to_string()));
    assert_eq!(info.remove(&"A".to_string()), None);
    assert!(info.members.is_empty());
}

#[test]
fn extend_last_pair_wins() {
    let mut info = ProfileInfo::new();
    info.insert("A".to_string(), "0".to_string());
    let pairs = vec![
        ("A".to_string(), "1".to_string()),
        ("B".to_string(), "2".to_string()),
        ("A".to_string(), "3".to_string()),
    ];
    info.extend(&pairs);
    assert_eq!(info.members.len(), 2);
    assert_eq!(lookup(&info, "A"), Some(&"3".to_string()));
    assert_eq!(lookup(&info, "B"), Some(&"2".to_string()));
}

#[test]
fn unset_removes_names() {
    let mut info = ProfileInfo::new();
    info.insert("A".to_string(), "1".to_string());
    info.insert("B".to_string(), "2".to_string());
    info.insert("C".to_string(), "3".to_string());
    let names = vec!["A".to_string(), "C".to_string()];
    assert_eq!(run_unset(&mut info, "work", &names), Ok(()));
    assert_eq!(info.members.len(), 1);
    assert_eq!(lookup(&info, "B"), Some(&"2".to_string()));
}

#[test]
fn unset_missing_name_fails() {
    let mut info = ProfileInfo::new();
    info.insert("A".to_string(), "1".to_string());
    let names = vec!["A".to_string(), "A".to_string()];
    assert_eq!(
        run_unset(&mut info, "work", &names),
        Err(WithError::SecretNotFound("A".to_string(), "work".to_string()))
    );
}

#[test]
fn missing_profile() {
    let info = profile_when_missing("work", true).unwrap();
    assert!(info.members.is_empty());
    assert_eq!(
        profile_when_missing("work", false).err(),
        Some(WithError::ProfileNotFound("work".to_string()))
    );
}

#[test]
fn set_source_choices() {
    assert_eq!(set_source(true, 3), Ok(SetSource::Prompt));
    assert_eq!(set_source(false, 0), Ok(SetSource::Definitions));
    assert_eq!(set_source(false, 1), Ok(SetSource::WholeInput));
    assert_eq!(set_source(false, 2), Err(WithError::RequireSingleArgument));
}
