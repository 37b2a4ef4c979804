use tsuji::cli::members::MemberSummary;
use tsuji::message::{Message, Timestamp};
use tsuji::pretty::{pretty_format, pretty_member};
use ulid::Ulid;

// 2026-05-22T08:30:12Z
const SECS: i64 = 1_779_438_612;

fn fixed_msg(from: &str, body: &str) -> Message {
    Message {
        id: Ulid::from_string("01ARZ3NDEKTSV4RRFFQ69G5FAV").unwrap().0,
        ts: Timestamp::from_unix(SECS, 0).unwrap(),
        from: from.into(),
        body: body.into(),
    }
}

#[test]
fn single_line_body_formats_inline() {
    let m = fixed_msg("agent-a", "hello world");
    let s = pretty_format(&m);
    assert_eq!(s, "[2026-05-22T08:30:12+00:00] agent-a: hello world");
}

#[test]
fn multi_line_body_indents_continuations() {
    let m = fixed_msg("agent-a", "first\nsecond\nthird");
    let s = pretty_format(&m);
    let mut lines = s.lines();
    assert_eq!(
        lines.next().unwrap(),
        "[2026-05-22T08:30:12+00:00] agent-a: first"
    );
    assert_eq!(lines.next().unwrap(), "    second");
    assert_eq!(lines.next().unwrap(), "    third");
}

#[test]
fn trailing_newline_and_empty_body_render_as_split_would() {
    assert_eq!(
        pretty_format(&fixed_msg("a", "x\n")),
        "[2026-05-22T08:30:12+00:00] a: x\n    "
    );
    assert_eq!(pretty_format(&fixed_msg("a", "")), "[2026-05-22T08:30:12+00:00] a: ");
}

#[test]
fn sub_second_timestamps_render_with_fraction() {
    let mut m = fixed_msg("a", "b");
    m.ts = Timestamp::from_unix(SECS, 500_000_000).unwrap();
    assert_eq!(pretty_format(&m), "[2026-05-22T08:30:12.500+00:00] a: b");
}

fn summary(count: usize) -> MemberSummary {
    let ts = Timestamp::from_unix(SECS, 0).unwrap();
    MemberSummary {
        from: "deps-updater".into(),
        count,
        first_id: 1,
        first_ts: ts,
        last_id: 2,
        last_ts: ts,
    }
}

#[test]
fn pretty_member_uses_singular_for_one_message() {
    assert_eq!(
        pretty_member(&summary(1)),
        "deps-updater  (1 msg, last 2026-05-22T08:30:12+00:00)"
    );
    assert_eq!(
        pretty_member(&summary(12)),
        "deps-updater  (12 msgs, last 2026-05-22T08:30:12+00:00)"
    );
}

#[test]
fn timestamps_outside_chrono_range_are_refused() {
    assert!(Timestamp::from_unix(i64::MAX, 0).is_none());
    assert!(Timestamp::from_unix(0, 2_000_000_000).is_none());
    let t = Timestamp::from_unix(SECS, 7).unwrap();
    assert_eq!((t.secs(), t.nanos()), (SECS, 7));
}
