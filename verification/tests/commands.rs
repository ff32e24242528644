use shaken::commands::{Command, UserDefinedState};

fn make_command(name: &str) -> Command {
    Command::new(
        name.to_string(),
        String::from("testing"),
        String::from("testuser"),
    )
}

#[test]
fn insert() {
    let mut state = UserDefinedState::default();
    assert!(state.insert(make_command("!foo")));
    assert!(!state.insert(make_command("!foo")));
    assert!(state.insert(make_command("!bar")));
}

#[test]
fn tests_remove() {
    let mut state = UserDefinedState::default();
    assert!(state.insert(make_command("!foo")));
    assert!(state.remove("!foo"));
    assert!(!state.remove("!foo"));
}

#[test]
fn tests_update() {
    let mut state = UserDefinedState::default();
    assert!(state.insert(make_command("!foo")));
    assert_eq!(state.get_by_name("!foo").unwrap().body, "testing");
    assert!(state.update("!foo", String::from("hello")));
    assert_eq!(state.get_by_name("!foo").unwrap().body, "hello");
}

#[test]
fn tests_alias() {
    let mut state = UserDefinedState::default();
    assert!(state.insert(make_command("!foo")));
    assert!(state.alias("!foo", "!bar"));
    assert_eq!(state.get_by_name("!foo").unwrap().body, "testing");
    assert_eq!(state.get_by_name("!bar").unwrap().body, "testing");
}

#[test]
fn get_by_name() {
    let mut state = UserDefinedState::default();
    assert!(state.insert(make_command("!foo")));
    assert!(state.alias("!foo", "!bar"));
    assert!(state.insert(make_command("!baz")));

    state.get_by_name("!foo").unwrap();
    state.get_by_name("!baz").unwrap();

    state.get_by_name("!bar").unwrap();
}

#[test]
fn get_all() {
    let mut state = UserDefinedState::default();
    assert!(state.insert(make_command("!foo")));
    assert!(state.alias("!foo", "!bar"));
    assert!(state.insert(make_command("!baz")));

    let mut left: Vec<(String, String, String, usize)> = state
        .get_all()
        .iter()
        .map(|c| {
            (
                c.name.clone(),
                c.body.clone(),
                c.author.clone(),
                c.uses,
            )
        })
        .collect();
    left.sort();

    let expect = |name: &str| {
        let c = make_command(name);
        (c.name, c.body, c.author, c.uses)
    };
    assert_eq!(left, vec![expect("!baz"), expect("!foo")]);
}

#[test]
fn count_use_bumps_the_resolved_command() {
    let mut state = UserDefinedState::default();
    assert!(state.insert(make_command("!foo")));
    assert!(state.alias("!foo", "!bar"));
    assert!(state.count_use("!bar"));
    assert_eq!(state.get_by_name("!foo").unwrap().uses, 1);
    assert!(!state.count_use("!missing"));
}

#[test]
fn half_matching_alias_is_kept_as_it_is() {
    let mut state = UserDefinedState::default();
    assert!(state.insert(make_command("!foo")));
    assert!(state.alias("!foo", "!bar"));
    // a pair matching on one side only counts as success without change
    assert!(state.alias("!foo", "!baz"));
    assert!(state.get_by_name("!baz").is_none());
    assert!(state.get_by_name("!bar").is_some());
    // unknown source and taken target both fail
    assert!(!state.alias("!nope", "!qux"));
    assert!(!state.alias("!foo", "!bar"));
}

#[test]
fn find_name_follows_aliases() {
    let mut state = UserDefinedState::default();
    assert!(state.insert(make_command("!foo")));
    assert!(state.alias("!foo", "!bar"));
    assert_eq!(state.find_name("!foo"), Some("!foo"));
    assert_eq!(state.find_name("!bar"), Some("!foo"));
    assert_eq!(state.find_name("!baz"), None);
}

#[test]
fn remove_purges_aliases() {
    let mut state = UserDefinedState::default();
    assert!(state.insert(make_command("!foo")));
    assert!(state.alias("!foo", "!bar"));
    assert!(state.remove("!foo"));
    assert!(state.get_by_name("!bar").is_none());
    assert!(!state.has("!foo"));
}
