use tsuji::cli::read::{read_step, start_read, ReadArgs, ReadState};
use tsuji::cli::send::{run, trim_stdin_body, SendArgs, SendStep};
use tsuji::cli::{dispatch, Cli, Commands, Environment};
use tsuji::error::{CliError, ExitCode};
use tsuji::message::{Message, Timestamp};
use ulid::Ulid;

fn send_args(channel: &str, from: &str, body: Option<&str>) -> SendArgs {
    SendArgs { channel: channel.into(), from: from.into(), body: body.map(|b| b.to_string()) }
}

#[test]
fn send_checks_channel_then_sender_then_body() {
    assert_eq!(
        run("/r", &send_args("has space", "", None), None),
        Err(CliError::InvalidChannelName("has space".into()))
    );
    assert_eq!(
        run("/r", &send_args("ch", "", None), None),
        Err(CliError::InvalidSender("".into()))
    );
    assert_eq!(run("/r", &send_args("ch", "a", None), None), Err(CliError::MissingBody));
    assert_eq!(run("/r", &send_args("ch", "a", Some("")), None), Err(CliError::EmptyBody));
    match run("/r", &send_args("ch", "a", Some("hello")), None) {
        Ok(SendStep::Append { path, from, body }) => {
            assert_eq!((path.as_str(), from.as_str(), body.as_str()), ("/r/ch.jsonl", "a", "hello"));
        }
        _ => panic!("expected an append"),
    }
}

#[test]
fn send_with_body_dash_reads_stdin_and_trims_one_newline() {
    assert!(matches!(run("/r", &send_args("ch", "a", Some("-")), None), Ok(SendStep::NeedStdin)));
    match run("/r", &send_args("ch", "a", Some("-")), Some("piped body\n")) {
        Ok(SendStep::Append { body, .. }) => assert_eq!(body, "piped body"),
        _ => panic!("expected an append"),
    }
    assert_eq!(
        run("/r", &send_args("ch", "a", Some("-")), Some("\n")),
        Err(CliError::EmptyBody)
    );
    assert_eq!(trim_stdin_body("x\r\n"), "x");
    assert_eq!(trim_stdin_body("x\n\n"), "x\n");
    assert_eq!(trim_stdin_body("x\r"), "x\r");
}

fn msg(id: &str, from: &str) -> Message {
    Message {
        id: Ulid::from_string(id).unwrap().0,
        ts: Timestamp::from_unix(1_767_225_600, 0).unwrap(),
        from: from.into(),
        body: "x".into(),
    }
}

fn read_args(since: Option<&str>, from_now: bool, exclude: Option<&str>) -> ReadArgs {
    ReadArgs {
        channel: "ch".into(),
        since: since.map(|s| s.to_string()),
        pretty: false,
        follow: true,
        from_now,
        exclude_from: exclude.map(|s| s.to_string()),
    }
}

fn ids(ms: &[Message]) -> Vec<String> {
    ms.iter().map(|m| Ulid(m.id).to_string()).collect()
}

#[test]
fn start_read_rejects_bad_channel_and_cursor() {
    let mut args = read_args(Some("not-a-ulid"), false, None);
    assert!(matches!(start_read(&args), Err(CliError::InvalidUlid(s)) if s == "not-a-ulid"));
    args.channel = "bad name!".into();
    assert!(matches!(start_read(&args), Err(CliError::InvalidChannelName(_))));
}

#[test]
fn follow_steps_show_each_new_message_once() {
    let st = start_read(&read_args(None, false, None)).unwrap();
    let log1 = vec![msg("01ARZ3NDEKTSV4RRFFQ69G5F01", "a"), msg("01ARZ3NDEKTSV4RRFFQ69G5F02", "b")];
    let (shown, st) = read_step(&st, log1);
    assert_eq!(ids(&shown), vec!["01ARZ3NDEKTSV4RRFFQ69G5F01", "01ARZ3NDEKTSV4RRFFQ69G5F02"]);
    assert_eq!(st.cursor.as_deref(), Some("01ARZ3NDEKTSV4RRFFQ69G5F02"));
    let log2 = vec![
        msg("01ARZ3NDEKTSV4RRFFQ69G5F01", "a"),
        msg("01ARZ3NDEKTSV4RRFFQ69G5F02", "b"),
        msg("01ARZ3NDEKTSV4RRFFQ69G5F03", "a"),
    ];
    let (shown, st) = read_step(&st, log2);
    assert_eq!(ids(&shown), vec!["01ARZ3NDEKTSV4RRFFQ69G5F03"]);
    assert_eq!(st.cursor.as_deref(), Some("01ARZ3NDEKTSV4RRFFQ69G5F03"));
}

#[test]
fn from_now_and_exclude_from_hide_what_they_should() {
    let st = start_read(&read_args(None, true, Some("agent-a"))).unwrap();
    let (shown, st) = read_step(&st, vec![msg("01ARZ3NDEKTSV4RRFFQ69G5F01", "agent-b")]);
    assert!(shown.is_empty());
    assert!(!st.silent);
    let log = vec![
        msg("01ARZ3NDEKTSV4RRFFQ69G5F01", "agent-b"),
        msg("01ARZ3NDEKTSV4RRFFQ69G5F02", "agent-a"),
        msg("01ARZ3NDEKTSV4RRFFQ69G5F03", "agent-b"),
    ];
    let (shown, st) = read_step(&st, log);
    assert_eq!(ids(&shown), vec!["01ARZ3NDEKTSV4RRFFQ69G5F03"]);
    // The cursor passes the excluded message too.
    assert_eq!(st.cursor.as_deref(), Some("01ARZ3NDEKTSV4RRFFQ69G5F03"));
}

#[test]
fn read_step_without_new_messages_keeps_the_cursor() {
    let st = ReadState { cursor: Some("7ZZZZZZZZZZZZZZZZZZZZZZZZZ".into()), exclude_from: None, silent: false };
    let (shown, next) = read_step(&st, vec![msg("01ARZ3NDEKTSV4RRFFQ69G5F01", "a")]);
    assert!(shown.is_empty());
    assert_eq!(next.cursor.as_deref(), Some("7ZZZZZZZZZZZZZZZZZZZZZZZZZ"));
}

#[test]
fn dispatch_resolves_root_from_environment() {
    let env = Environment { tsuji_root: Some("".into()), xdg_data_home: Some("/xdg".into()), home: None };
    let (root, cmd) = dispatch(Cli { root: None, command: Commands::Channels }, &env);
    assert_eq!(root, "/xdg/tsuji");
    assert!(matches!(cmd, Commands::Channels));
    let (root, _) = dispatch(Cli { root: Some("/cli".into()), command: Commands::Channels }, &env);
    assert_eq!(root, "/cli");
}

#[test]
fn error_messages_and_exit_statuses() {
    assert_eq!(
        CliError::InvalidChannelName("XX!!".into()).message(),
        "channel: invalid name 'XX!!' (allowed: [a-zA-Z0-9_-]{1,64})"
    );
    assert_eq!(
        CliError::InvalidSender("".into()).message(),
        "as: invalid sender '' (non-empty, no newline, length <= 64)"
    );
    assert_eq!(CliError::EmptyBody.message(), "body: must not be empty");
    assert_eq!(CliError::InvalidUlid("x".into()).message(), "since: not a valid ULID 'x'");
    assert_eq!(
        CliError::MissingBody.message(),
        "body is required (use --body <TEXT> or --body -)"
    );
    assert_eq!(ExitCode::Success.status(), 0);
    assert_eq!(ExitCode::Other(3).status(), 3);
}
