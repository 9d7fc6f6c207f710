use valve::codec::{chronicle_line, encode_event, encode_registry};
use valve::config::{compile, PersonaConfig, ValveConfig};
use valve::control::{encode_command, encode_reply, handle_command, parse_command, Command, Reply};
use valve::errors::ValveError;
use valve::persona::ValveEvent;
use valve::state::Registry;
use valve::watch::{event_lines, rel_path, FsEventKind};

fn sample_event() -> ValveEvent {
    ValveEvent {
        persona: "W".to_string(),
        repo: "/tmp/repoA".to_string(),
        file: "notes.txt".to_string(),
        reason: "glob".to_string(),
        timestamp: 1234,
    }
}

#[test]
fn test_encode_event_exact() {
    let line = encode_event(&sample_event());
    assert_eq!(
        line,
        r#"{"persona":"W","repo":"/tmp/repoA","file":"notes.txt","reason":"glob","timestamp":1234}"#
    );
}

#[test]
fn test_encode_event_escapes() {
    let mut e = sample_event();
    e.file = "a\"b\\c\nd".to_string();
    e.timestamp = -5;
    let line = encode_event(&e);
    assert_eq!(
        line,
        "{\"persona\":\"W\",\"repo\":\"/tmp/repoA\",\"file\":\"a\\\"b\\\\c\\nd\",\"reason\":\"glob\",\"timestamp\":-5}"
    );
}

#[test]
fn test_chronicle_line_is_single_line() {
    let mut e = sample_event();
    e.file = "weird\nname\t\u{1}".to_string();
    let line = chronicle_line(&e);
    assert!(line.ends_with('\n'));
    let body = &line[..line.len() - 1];
    assert!(!body.contains('\n'), "record body must hold no raw newline");
    assert!(body.contains("\\u0001"), "control characters are escaped");
}

#[test]
fn test_event_lines_now_stamps_the_clock() {
    let personas = one_persona(vec!["**/*.txt"], None);
    let lines = valve::watch::event_lines_now(
        &personas,
        &"/tmp/repoA".to_string(),
        FsEventKind::Modify,
        &"/tmp/repoA/notes.txt".to_string(),
        None,
    );
    assert_eq!(lines.len(), 1);
    assert!(lines[0].contains("\"reason\":\"glob\""));
    assert!(lines[0].contains("\"timestamp\":"));
}

#[test]
fn test_encode_registry_shape() {
    let reg = Registry::new();
    assert_eq!(encode_registry(&reg), r#"{"codebases":{}}"#);

    let mut reg = Registry::new();
    let cb = reg.add("/tmp/x".to_string());
    let doc = encode_registry(&reg);
    let expected = format!(
        r#"{{"codebases":{{"{id}":{{"id":"{id}","path":"/tmp/x"}}}}}}"#,
        id = cb.id
    );
    assert_eq!(doc, expected);
}

#[test]
fn test_registry_doc_round_trip() {
    // the persisted document reloads to exactly the same entries
    let mut reg = Registry::new();
    reg.add("/tmp/a b\"c".to_string());
    reg.add("/tmp/plain".to_string());
    let doc = encode_registry(&reg);
    let entries = valve::codec::parse_registry_doc(&doc).expect("document must parse");
    let reloaded = Registry::from_entries(&entries);
    assert_eq!(reg.items(), reloaded.items());
}

#[test]
fn test_parse_registry_doc_rejects_corrupt() {
    for bad in [
        "",
        "{}",
        "{\"codebases\":",
        "{\"codebases\":{}",
        "{\"codebases\":{}}x",
    ] {
        assert!(valve::codec::parse_registry_doc(bad).is_err(), "{:?} must be corrupt", bad);
    }
    let entries = valve::codec::parse_registry_doc("{\"codebases\":{}}").unwrap();
    assert!(entries.is_empty());
}

#[test]
fn test_encode_reply_exact() {
    assert_eq!(encode_reply(&Reply::Okay), r#"{"type":"Ok"}"#);
    assert_eq!(
        encode_reply(&Reply::Error { message: "not found".to_string() }),
        r#"{"type":"Error","message":"not found"}"#
    );
    assert_eq!(
        encode_reply(&Reply::Listing {
            items: vec![
                ("id1".to_string(), "/tmp/a".to_string()),
                ("id2".to_string(), "/tmp/b".to_string()),
            ]
        }),
        r#"{"type":"List","items":[["id1","/tmp/a"],["id2","/tmp/b"]]}"#
    );
    assert_eq!(
        encode_reply(&Reply::Listing { items: vec![] }),
        r#"{"type":"List","items":[]}"#
    );
}

#[test]
fn test_parse_command_round_trip() {
    for cmd in [
        Command::Register { path: "/tmp/repoA".to_string() },
        Command::Unregister { target: "nope".to_string() },
        Command::List,
    ] {
        let wire = encode_command(&cmd);
        match (parse_command(&wire).expect("round trip must parse"), &cmd) {
            (Command::Register { path }, Command::Register { path: p }) => assert_eq!(&path, p),
            (Command::Unregister { target }, Command::Unregister { target: t }) => {
                assert_eq!(&target, t)
            }
            (Command::List, Command::List) => {}
            _ => panic!("round trip changed the command"),
        }
    }
}

#[test]
fn test_parse_command_field_order_and_ws() {
    let cmd = parse_command("  { \"path\" : \"/tmp/x\" , \"type\" : \"Register\" }  ").unwrap();
    match cmd {
        Command::Register { path } => assert_eq!(path, "/tmp/x"),
        _ => panic!("wrong command"),
    }
}

#[test]
fn test_parse_command_escapes() {
    let cmd = parse_command(r#"{"type":"Unregister","target":"a\"b\\cA"}"#).unwrap();
    match cmd {
        Command::Unregister { target } => assert_eq!(target, "a\"b\\cA"),
        _ => panic!("wrong command"),
    }
}

#[test]
fn test_parse_command_unicode_escape() {
    let cmd = parse_command(r#"{"type":"Unregister","target":"AB\u000a"}"#).unwrap();
    match cmd {
        Command::Unregister { target } => assert_eq!(target, "AB\n"),
        _ => panic!("wrong command"),
    }
}

#[test]
fn test_escaped_path_round_trip() {
    let cmd = Command::Register { path: "/tmp/a b\"c\\d".to_string() };
    let wire = encode_command(&cmd);
    match parse_command(&wire).expect("escaped path must round trip") {
        Command::Register { path } => assert_eq!(path, "/tmp/a b\"c\\d"),
        _ => panic!("wrong command"),
    }
}

#[test]
fn test_parse_command_rejects_malformed() {
    for bad in [
        "",
        "not json",
        "{",
        r#"{"type":"List""#,
        r#"{"type":"List"} trailing"#,
        r#"{"type":"Register"}"#,
        r#"{"type":"Register","path":3}"#,
        r#"{"type":"Frob","path":"/x"}"#,
        r#"{"path":"/x","target":"/y"}"#,
    ] {
        match parse_command(bad) {
            Err(ValveError::ProtocolError) => {}
            other => panic!("expected protocol error for {:?}, got {:?}", bad, other.is_ok()),
        }
    }
}

#[test]
fn test_register_list_unregister_round_trip() {
    // the S-series control-plane flow, at the request handler
    let mut reg = Registry::new();

    // register with a resolved path
    let reply = handle_command(
        &mut reg,
        &Command::Register { path: "/tmp/repoA".to_string() },
        Some("/tmp/repoA".to_string()),
    );
    assert!(matches!(reply, Reply::Okay));

    // list shows the one entry with the canonical path
    let reply = handle_command(&mut reg, &Command::List, None);
    match reply {
        Reply::Listing { items } => {
            assert_eq!(items.len(), 1);
            assert_eq!(items[0].1, "/tmp/repoA");
        }
        _ => panic!("expected a listing"),
    }

    // unregister by canonical path
    let reply = handle_command(
        &mut reg,
        &Command::Unregister { target: "/tmp/repoA".to_string() },
        None,
    );
    assert!(matches!(reply, Reply::Okay));

    let reply = handle_command(&mut reg, &Command::List, None);
    match reply {
        Reply::Listing { items } => assert!(items.is_empty()),
        _ => panic!("expected a listing"),
    }
}

#[test]
fn test_unregister_miss_reports_not_found() {
    let mut reg = Registry::new();
    let reply = handle_command(
        &mut reg,
        &Command::Unregister { target: "nope".to_string() },
        None,
    );
    match reply {
        Reply::Error { message } => assert_eq!(message, "not found"),
        _ => panic!("expected an error reply"),
    }
    // the registry is untouched and still serves requests
    let reply = handle_command(&mut reg, &Command::List, None);
    assert!(matches!(reply, Reply::Listing { items } if items.is_empty()));
}

#[test]
fn test_register_invalid_path() {
    let mut reg = Registry::new();
    let reply = handle_command(
        &mut reg,
        &Command::Register { path: "/does/not/exist".to_string() },
        None,
    );
    match reply {
        Reply::Error { message } => assert_eq!(message, "invalid path"),
        _ => panic!("expected an error reply"),
    }
    assert_eq!(reg.len(), 0);
}

#[test]
fn test_rel_path() {
    assert_eq!(rel_path("/tmp/repoA", "/tmp/repoA/notes.txt").as_deref(), Some("notes.txt"));
    assert_eq!(rel_path("/tmp/repoA", "/tmp/repoA/a/b.rs").as_deref(), Some("a/b.rs"));
    assert_eq!(rel_path("/tmp/repoA", "/tmp/other/f"), None);
    assert_eq!(rel_path("/tmp/repoA", "/tmp/repoAx/f"), None);
    // the root itself is the empty relative path, as the original's
    // prefix-stripping had it
    assert_eq!(rel_path("/tmp/repoA", "/tmp/repoA").as_deref(), Some(""));
}

fn one_persona(filters: Vec<&str>, triggers: Option<Vec<&str>>) -> Vec<valve::config::CompiledPersona> {
    let config = ValveConfig {
        personas: vec![(
            "W".to_string(),
            PersonaConfig {
                filters: Some(filters.into_iter().map(String::from).collect()),
                triggers: triggers.map(|v| v.into_iter().map(String::from).collect()),
                response: None,
                severity: None,
                schedule: None,
            },
        )],
    };
    compile(&config).expect("Failed to compile personas")
}

#[test]
fn test_event_lines_glob_only() {
    // a txt change yields exactly one chronicle record, reason "glob"
    let personas = one_persona(vec!["**/*.txt"], None);
    let lines = event_lines(
        &personas,
        &"/tmp/repoA".to_string(),
        FsEventKind::Modify,
        &"/tmp/repoA/notes.txt".to_string(),
        None,
        99,
    );
    assert_eq!(lines.len(), 1);
    assert_eq!(
        lines[0],
        "{\"persona\":\"W\",\"repo\":\"/tmp/repoA\",\"file\":\"notes.txt\",\"reason\":\"glob\",\"timestamp\":99}\n"
    );
}

#[test]
fn test_event_lines_glob_and_trigger() {
    let personas = one_persona(vec!["**/*.rs"], Some(vec!["fn\\s+main"]));
    let repo = "/tmp/repoA".to_string();
    let path = "/tmp/repoA/main.rs".to_string();

    let hit = "fn main() {}".to_string();
    let lines = event_lines(&personas, &repo, FsEventKind::Create, &path, Some(&hit), 5);
    assert_eq!(lines.len(), 1);
    assert!(lines[0].contains("\"reason\":\"glob+trigger\""));

    let miss = "fn test() {}".to_string();
    let lines = event_lines(&personas, &repo, FsEventKind::Modify, &path, Some(&miss), 6);
    assert!(lines.is_empty());
}

#[test]
fn test_event_lines_irrelevant_kind() {
    let personas = one_persona(vec!["**/*.txt"], None);
    let lines = event_lines(
        &personas,
        &"/tmp/repoA".to_string(),
        FsEventKind::Other,
        &"/tmp/repoA/notes.txt".to_string(),
        None,
        0,
    );
    assert!(lines.is_empty());
}

#[test]
fn test_error_messages() {
    assert_eq!(ValveError::AlreadyRunning.message(), "valve already running?");
    assert_eq!(ValveError::InvalidConfig.message(), "invalid config");
    assert_eq!(ValveError::InvalidPath.message(), "invalid path");
    assert_eq!(ValveError::NotFound.message(), "not found");
    assert_eq!(ValveError::CorruptRegistry.message(), "corrupt registry");
    assert_eq!(ValveError::WatchFailure.message(), "watch failure");
    assert_eq!(ValveError::ProtocolError.message(), "protocol error");
}
