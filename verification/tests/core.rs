use valve::config::{compile, PersonaConfig, ValveConfig};
use valve::persona::match_personas;
use valve::state::Registry;
use valve::supervisor::{backoff_delay, next_backoff, supervise_step, Supervisor, WatchOutcome};
use valve::users::{create_user_map, validate_email, User};

fn persona_cfg(
    filters: Option<Vec<&str>>,
    triggers: Option<Vec<&str>>,
    response: Option<&str>,
    severity: Option<&str>,
) -> PersonaConfig {
    PersonaConfig {
        filters: filters.map(|v| v.into_iter().map(String::from).collect()),
        triggers: triggers.map(|v| v.into_iter().map(String::from).collect()),
        response: response.map(String::from),
        severity: severity.map(String::from),
        schedule: None,
    }
}

#[test]
fn test_compile_personas() {
    let config = ValveConfig {
        personas: vec![
            (
                "TestWatcher".to_string(),
                persona_cfg(
                    Some(vec!["**/*.txt"]),
                    Some(vec!["test"]),
                    Some("test-response"),
                    Some("low"),
                ),
            ),
            (
                "AnotherWatcher".to_string(),
                persona_cfg(
                    Some(vec!["**/*.rs", "**/*.toml"]),
                    Some(vec!["fn\\s+main", "println!"]),
                    Some("rust-code-detected"),
                    None,
                ),
            ),
        ],
    };
    let compiled = compile(&config).expect("Failed to compile personas");

    assert_eq!(compiled.len(), 2);

    let test_watcher = compiled
        .iter()
        .find(|p| p.name == "TestWatcher")
        .expect("TestWatcher not found");
    assert_eq!(test_watcher.globset.len(), 1);
    assert_eq!(test_watcher.triggers.len(), 1);
    assert_eq!(test_watcher.response.as_ref().unwrap(), "test-response");
    assert_eq!(test_watcher.severity.as_ref().unwrap(), "low");

    let another_watcher = compiled
        .iter()
        .find(|p| p.name == "AnotherWatcher")
        .expect("AnotherWatcher not found");
    assert_eq!(another_watcher.globset.len(), 2);
    assert_eq!(another_watcher.triggers.len(), 2);
    assert_eq!(another_watcher.response.as_ref().unwrap(), "rust-code-detected");
}

#[test]
fn test_compile_rejects_bad_glob() {
    let config = ValveConfig {
        personas: vec![(
            "Broken".to_string(),
            persona_cfg(Some(vec!["a{"]), None, None, None),
        )],
    };
    match compile(&config) {
        Err(e) => assert_eq!(e, valve::errors::ValveError::InvalidConfig),
        Ok(_) => panic!("a malformed glob must be rejected"),
    }
}

#[test]
fn test_compile_rejects_bad_regex() {
    let config = ValveConfig {
        personas: vec![(
            "Broken".to_string(),
            persona_cfg(None, Some(vec!["("]), None, None),
        )],
    };
    match compile(&config) {
        Err(e) => assert_eq!(e, valve::errors::ValveError::InvalidConfig),
        Ok(_) => panic!("a malformed regex must be rejected"),
    }
}

fn match_paths(filters: Vec<&str>, rel: &str) -> bool {
    let config = ValveConfig {
        personas: vec![(
            "TestWatcher".to_string(),
            persona_cfg(Some(filters), None, None, None),
        )],
    };
    let compiled = compile(&config).expect("Failed to compile personas");
    let events = match_personas(
        &compiled,
        &"/repo".to_string(),
        &rel.to_string(),
        None,
        0,
    );
    events.len() == 1
}

#[test]
fn test_glob_matching() {
    assert!(match_paths(vec!["**/*.txt", "**/*.md"], "test.txt"));
    assert!(match_paths(vec!["**/*.txt", "**/*.md"], "docs/readme.md"));
    assert!(!match_paths(vec!["**/*.txt", "**/*.md"], "src/main.rs"));
}

fn match_content(triggers: Vec<&str>, content: &str) -> bool {
    let config = ValveConfig {
        personas: vec![(
            "TestWatcher".to_string(),
            persona_cfg(Some(vec!["**/*.rs"]), Some(triggers), None, None),
        )],
    };
    let compiled = compile(&config).expect("Failed to compile personas");
    let text = content.to_string();
    let events = match_personas(
        &compiled,
        &"/repo".to_string(),
        &"main.rs".to_string(),
        Some(&text),
        0,
    );
    events.len() == 1
}

#[test]
fn test_trigger_matching() {
    assert!(match_content(vec!["fn\\s+main"], "fn main() {"));
    assert!(match_content(vec!["println!"], "println!(\"Hello, world!\");"));
    assert!(!match_content(vec!["fn\\s+main"], "fn test() {"));
}

#[test]
fn test_match_personas_with_glob_only() {
    let config = ValveConfig {
        personas: vec![(
            "TestWatcher".to_string(),
            persona_cfg(Some(vec!["**/*.txt"]), None, None, None),
        )],
    };
    let compiled = compile(&config).expect("Failed to compile personas");

    let events = match_personas(
        &compiled,
        &"/repo".to_string(),
        &"test.txt".to_string(),
        None,
        7,
    );
    assert_eq!(events.len(), 1);
    assert_eq!(events[0].persona, "TestWatcher");
    assert_eq!(events[0].reason, "glob");
    assert_eq!(events[0].timestamp, 7);
}

#[test]
fn test_match_personas_with_glob_and_trigger() {
    let config = ValveConfig {
        personas: vec![(
            "TestWatcher".to_string(),
            persona_cfg(Some(vec!["**/*.rs"]), Some(vec!["fn\\s+main"]), None, None),
        )],
    };
    let compiled = compile(&config).expect("Failed to compile personas");

    let content = "fn main() { println!(\"Hello, world!\"); }".to_string();
    let events = match_personas(
        &compiled,
        &"/repo".to_string(),
        &"main.rs".to_string(),
        Some(&content),
        0,
    );
    assert_eq!(events.len(), 1);
    assert_eq!(events[0].persona, "TestWatcher");
    assert_eq!(events[0].reason, "glob+trigger");
}

#[test]
fn test_no_match_when_glob_does_not_match() {
    let config = ValveConfig {
        personas: vec![(
            "TestWatcher".to_string(),
            persona_cfg(Some(vec!["**/*.txt"]), Some(vec!["fn\\s+main"]), None, None),
        )],
    };
    let compiled = compile(&config).expect("Failed to compile personas");

    let content = "fn main() { println!(\"Hello, world!\"); }".to_string();
    let events = match_personas(
        &compiled,
        &"/repo".to_string(),
        &"main.rs".to_string(),
        Some(&content),
        0,
    );
    assert_eq!(events.len(), 0);
}

#[test]
fn test_no_match_when_trigger_does_not_match() {
    let config = ValveConfig {
        personas: vec![(
            "TestWatcher".to_string(),
            persona_cfg(Some(vec!["**/*.rs"]), Some(vec!["fn\\s+main"]), None, None),
        )],
    };
    let compiled = compile(&config).expect("Failed to compile personas");

    let content = "fn test() { println!(\"Hello, world!\"); }".to_string();
    let events = match_personas(
        &compiled,
        &"/repo".to_string(),
        &"main.rs".to_string(),
        Some(&content),
        0,
    );
    assert_eq!(events.len(), 0);
}

#[test]
fn test_empty_persona_matches_everything() {
    let config = ValveConfig {
        personas: vec![("All".to_string(), persona_cfg(None, None, None, None))],
    };
    let compiled = compile(&config).expect("Failed to compile personas");

    for rel in ["a", "deep/path/file.bin", "x.rs"] {
        let events = match_personas(&compiled, &"/repo".to_string(), &rel.to_string(), None, 1);
        assert_eq!(events.len(), 1);
        assert_eq!(events[0].reason, "glob");
    }
}

#[test]
fn test_triggers_without_content_emit_nothing() {
    let config = ValveConfig {
        personas: vec![(
            "T".to_string(),
            persona_cfg(None, Some(vec!["x"]), None, None),
        )],
    };
    let compiled = compile(&config).expect("Failed to compile personas");
    let events = match_personas(&compiled, &"/repo".to_string(), &"x".to_string(), None, 0);
    assert_eq!(events.len(), 0);
}

#[test]
fn test_registry_add_and_remove() {
    let mut registry = Registry::new();
    let initial_count = registry.len();

    let codebase = registry.add("/tmp/test_project".to_string());

    assert_eq!(registry.len(), initial_count + 1);
    assert_eq!(codebase.path, "/tmp/test_project");

    let removed = registry.remove_by_id_or_path(&codebase.id);
    assert!(removed.is_some());
    assert_eq!(registry.len(), initial_count);
}

#[test]
fn test_remove_nonexistent() {
    let mut registry = Registry::new();
    let removed = registry.remove_by_id_or_path(&"nonexistent".to_string());
    assert!(removed.is_none());
}

#[test]
fn test_duplicate_path_two_ids() {
    // registering the same path twice yields two independent entries
    let mut registry = Registry::new();
    let a = registry.add("/tmp/same".to_string());
    let b = registry.add("/tmp/same".to_string());
    assert_ne!(a.id, b.id);
    assert_eq!(registry.len(), 2);
}

#[test]
fn test_registry_remove_by_path() {
    let mut registry = Registry::new();
    let a = registry.add("/tmp/a".to_string());
    let _b = registry.add("/tmp/b".to_string());
    assert_eq!(registry.len(), 2);

    let removed = registry
        .remove_by_id_or_path(&"/tmp/a".to_string())
        .expect("path removal should hit");
    assert_eq!(removed.id, a.id);
    assert_eq!(registry.len(), 1);
}

#[test]
fn test_registry_net_count() {
    let mut registry = Registry::new();
    let mut ids = Vec::new();
    for i in 0..5 {
        let cb = registry.add(format!("/tmp/repo{}", i));
        ids.push(cb.id);
    }
    assert_eq!(registry.len(), 5);
    for id in ids.iter().take(2) {
        assert!(registry.remove_by_id_or_path(id).is_some());
    }
    assert_eq!(registry.len(), 3);
}

#[test]
fn test_registry_items_sorted() {
    let mut registry = Registry::new();
    for i in 0..6 {
        registry.add(format!("/tmp/r{}", i));
    }
    let items = registry.items();
    assert_eq!(items.len(), 6);
    for w in items.windows(2) {
        assert!(w[0].0 < w[1].0, "ids must come out in ascending order");
    }
}

#[test]
fn test_supervisor_reconcile_and_shutdown() {
    let mut registry = Registry::new();
    let a = registry.add("/tmp/a".to_string());
    let b = registry.add("/tmp/b".to_string());

    let mut sup: Supervisor<u32> = Supervisor::new("/tmp/chronicle".to_string());
    let (aborted, to_spawn) = sup.reconcile(&registry);
    assert!(aborted.is_empty());
    assert_eq!(to_spawn.len(), 2);
    let mut handle = 0u32;
    for cb in to_spawn {
        assert!(!sup.has_task_for(&cb.id));
        sup.attach(cb.id, handle);
        handle += 1;
    }
    assert!(sup.has_task_for(&a.id));
    assert!(sup.has_task_for(&b.id));

    // reconcile is idempotent against an unchanged registry
    let (aborted, to_spawn) = sup.reconcile(&registry);
    assert!(aborted.is_empty());
    assert!(to_spawn.is_empty());
    assert!(sup.has_task_for(&a.id));
    assert!(sup.has_task_for(&b.id));

    // unregister one codebase: its task is dropped on the next reconcile
    registry.remove_by_id_or_path(&a.id).unwrap();
    let (aborted, to_spawn) = sup.reconcile(&registry);
    assert_eq!(aborted.len(), 1);
    assert!(to_spawn.is_empty());
    assert!(!sup.has_task_for(&a.id));
    assert!(sup.has_task_for(&b.id));

    // shutdown drains every task
    let handles = sup.shutdown();
    assert_eq!(handles.len(), 1);
    assert!(!sup.has_task_for(&b.id));
    let (aborted, to_spawn) = sup.reconcile(&Registry::new());
    assert!(aborted.is_empty());
    assert!(to_spawn.is_empty());
}

#[test]
fn test_backoff_sequence() {
    // successive crash delays: 1, 2, 4, ... capped at 60
    let mut b = 1u64;
    let mut delays = Vec::new();
    for _ in 0..8 {
        let (delay, next) = supervise_step(WatchOutcome::Crashed, b);
        delays.push(delay.unwrap());
        b = next;
    }
    assert_eq!(delays, vec![1, 2, 4, 8, 16, 32, 60, 60]);
    assert_eq!(backoff_delay(1000), 60);
    assert_eq!(next_backoff(59), 60);

    let (delay, next) = supervise_step(WatchOutcome::Finished, b);
    assert!(delay.is_none());
    assert_eq!(next, b);
}

#[test]
fn test_user_validity() {
    let mut u = User::new(3, "Carol".to_string());
    assert!(u.is_valid());
    u.set_email("carol@example.com".to_string());
    assert_eq!(u.email.as_deref(), Some("carol@example.com"));
    let empty = User::new(1, "".to_string());
    assert!(!empty.is_valid());
}

#[test]
fn test_validate_email() {
    assert!(validate_email("a@b.c"));
    assert!(!validate_email("a@bc"));
    assert!(!validate_email("ab.c"));
}

#[test]
fn test_create_user_map() {
    let users = create_user_map();
    assert_eq!(users.len(), 2);
    assert_eq!(users.get(&1).unwrap().name, "Alice");
    assert_eq!(users.get(&2).unwrap().name, "Bob");
}
