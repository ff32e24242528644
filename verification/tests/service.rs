use shaken::messaging::{
    handle_message, Effect, Request, Response, ServeError, SAVE_INTERVAL_SECS,
};
use shaken::request;
use shaken::{Brain, Registry};

fn fresh(depth: usize) -> Brain {
    Brain::new("svc".to_string(), depth)
}

fn opts(min: usize, max: usize, query: Option<&str>) -> request::Generate {
    request::Generate {
        min,
        max,
        query: query.map(|q| q.to_string()),
    }
}

#[test]
fn train_message_mutates_and_acknowledges() {
    let mut brain = fresh(2);
    let (resp, eff) = handle_message(
        &mut brain,
        &Request::Train {
            data: "the cat sat".to_string(),
        },
        0,
    );
    assert!(matches!(resp, Response::Nothing));
    assert!(matches!(eff, Effect::Keep));
    assert_eq!(brain.head_words().len(), 1);
}

#[test]
fn generate_on_untrained_brain_reports_empty() {
    let mut brain = fresh(2);
    let (resp, eff) = handle_message(
        &mut brain,
        &Request::Generate {
            opts: opts(3, 5, None),
        },
        0,
    );
    match resp {
        Response::Error { error } => assert_eq!(error, ServeError::GenerationEmpty),
        _ => panic!("expected an error for the untrained brain"),
    }
    assert!(matches!(eff, Effect::Keep));
}

#[test]
fn malformed_bounds_are_rejected() {
    let mut brain = fresh(2);
    brain.train("a b c");
    for bad in [opts(0, 5, None), opts(6, 5, None)] {
        let (resp, _) = handle_message(&mut brain, &Request::Generate { opts: bad }, 0);
        match resp {
            Response::Error { error } => assert_eq!(error, ServeError::ValidationFailure),
            _ => panic!("expected a validation error"),
        }
    }
}

#[test]
fn save_respects_the_interval() {
    let mut brain = fresh(2);
    brain.train("a b c");

    // two saves within the interval: exactly one write
    let (resp1, eff1) = handle_message(&mut brain, &Request::Save, SAVE_INTERVAL_SECS);
    assert!(matches!(resp1, Response::Nothing));
    let wrote_first = matches!(eff1, Effect::Persist { .. });
    assert!(wrote_first);

    let (resp2, eff2) = handle_message(&mut brain, &Request::Save, 0);
    assert!(matches!(resp2, Response::Nothing));
    assert!(matches!(eff2, Effect::Keep));

    // a forced save always writes
    let (_, eff3) = handle_message(&mut brain, &Request::ForceSave, 0);
    assert!(matches!(eff3, Effect::Persist { .. }));
}

#[test]
fn persisted_bytes_restore_the_brain() {
    let mut brain = fresh(3);
    brain.train("the cat sat on the mat");
    let (_, eff) = handle_message(&mut brain, &Request::ForceSave, 0);
    let bytes = match eff {
        Effect::Persist { bytes } => bytes,
        Effect::Keep => panic!("forced save must persist"),
    };
    let back = Brain::from_packed(&bytes).expect("the persisted form restores");
    assert_eq!(back.head_words(), brain.head_words());
}

#[test]
fn registry_routes_by_name() {
    let mut reg: Registry<u32> = Registry::new();
    assert!(reg.lookup("one").is_none());
    reg.insert("one".to_string(), 1);
    reg.insert("two".to_string(), 2);
    assert_eq!(reg.lookup("one"), Some(&1));
    assert_eq!(reg.lookup("two"), Some(&2));
    assert!(reg.lookup("three").is_none());
    reg.insert("one".to_string(), 10);
    assert_eq!(reg.lookup("one"), Some(&10));
}

#[test]
fn generate_message_returns_the_only_line() {
    let mut brain = fresh(5);
    brain.train("a b c");
    let (resp, _) = handle_message(
        &mut brain,
        &Request::Generate {
            opts: opts(3, 3, None),
        },
        0,
    );
    match resp {
        Response::Generated { data } => assert_eq!(data, "a b c"),
        Response::Error { error } => assert_eq!(error, ServeError::GenerationEmpty),
        Response::Nothing => panic!("a generate request always gets a payload or an error"),
    }
}

#[test]
fn default_generate_bounds() {
    let d = request::Generate::default();
    assert_eq!(d.min, 3);
    assert_eq!(d.max, 5);
    assert!(d.query.is_none());
}
