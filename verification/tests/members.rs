use tsuji::cli::members::{aggregate, MemberSummary};
use tsuji::message::{Message, Timestamp};
use ulid::Ulid;

fn id(s: &str) -> u128 {
    Ulid::from_string(s).unwrap().0
}

fn at_hour(hour: i64) -> Timestamp {
    // 2026-01-01T00:00:00Z plus `hour` hours.
    Timestamp::from_unix(1_767_225_600 + hour * 3600, 0).unwrap()
}

fn msg(i: &str, from: &str) -> Message {
    Message { id: id(i), ts: at_hour(0), from: from.into(), body: "x".into() }
}

fn msg_at(i: &str, from: &str, hour: i64) -> Message {
    Message { id: id(i), ts: at_hour(hour), from: from.into(), body: "x".into() }
}

fn find<'a>(got: &'a [MemberSummary], from: &str) -> &'a MemberSummary {
    got.iter().find(|m| m.from == from).unwrap()
}

#[test]
fn aggregate_counts_first_and_last_per_sender() {
    let msgs = vec![
        msg("01ARZ3NDEKTSV4RRFFQ69G5F01", "a"),
        msg("01ARZ3NDEKTSV4RRFFQ69G5F02", "b"),
        msg("01ARZ3NDEKTSV4RRFFQ69G5F03", "a"),
    ];
    let got = aggregate(&msgs);
    assert_eq!(got.len(), 2);
    let a = find(&got, "a");
    assert_eq!(a.count, 2);
    assert_eq!(Ulid(a.first_id).to_string(), "01ARZ3NDEKTSV4RRFFQ69G5F01");
    assert_eq!(Ulid(a.last_id).to_string(), "01ARZ3NDEKTSV4RRFFQ69G5F03");
    let b = find(&got, "b");
    assert_eq!(b.count, 1);
}

#[test]
fn aggregate_sorts_most_recently_active_first() {
    let msgs = vec![
        msg("01ARZ3NDEKTSV4RRFFQ69G5F01", "a"),
        msg("01ARZ3NDEKTSV4RRFFQ69G5F09", "b"),
    ];
    let got = aggregate(&msgs);
    assert_eq!(got[0].from, "b");
    assert_eq!(got[1].from, "a");
}

#[test]
fn aggregate_empty_returns_empty() {
    assert!(aggregate(&[]).is_empty());
}

#[test]
fn aggregate_tracks_first_and_last_ts() {
    let msgs = vec![
        msg_at("01ARZ3NDEKTSV4RRFFQ69G5F01", "a", 1),
        msg_at("01ARZ3NDEKTSV4RRFFQ69G5F03", "a", 3),
    ];
    let got = aggregate(&msgs);
    let a = &got[0];
    assert_eq!(a.first_ts, at_hour(1));
    assert_eq!(a.last_ts, at_hour(3));
}

#[test]
fn aggregate_orders_by_id_not_by_position() {
    // Out-of-order ids: first and last follow the ids.
    let msgs = vec![
        msg_at("01ARZ3NDEKTSV4RRFFQ69G5F05", "a", 5),
        msg_at("01ARZ3NDEKTSV4RRFFQ69G5F02", "a", 2),
        msg_at("01ARZ3NDEKTSV4RRFFQ69G5F07", "b", 7),
        msg_at("01ARZ3NDEKTSV4RRFFQ69G5F09", "a", 9),
        msg_at("01ARZ3NDEKTSV4RRFFQ69G5F08", "c", 8),
    ];
    let got = aggregate(&msgs);
    let froms: Vec<&str> = got.iter().map(|m| m.from.as_str()).collect();
    assert_eq!(froms, vec!["a", "c", "b"]);
    let a = find(&got, "a");
    assert_eq!((a.count, a.first_ts, a.last_ts), (3, at_hour(2), at_hour(9)));
    let total: usize = got.iter().map(|m| m.count).sum();
    assert_eq!(total, msgs.len());
}

#[test]
fn aggregate_ignores_the_order_of_the_log() {
    let msgs = vec![
        msg_at("01ARZ3NDEKTSV4RRFFQ69G5F05", "a", 5),
        msg_at("01ARZ3NDEKTSV4RRFFQ69G5F02", "b", 2),
        msg_at("01ARZ3NDEKTSV4RRFFQ69G5F07", "a", 7),
        msg_at("01ARZ3NDEKTSV4RRFFQ69G5F01", "c", 1),
    ];
    let reordered = vec![
        msg_at("01ARZ3NDEKTSV4RRFFQ69G5F01", "c", 1),
        msg_at("01ARZ3NDEKTSV4RRFFQ69G5F07", "a", 7),
        msg_at("01ARZ3NDEKTSV4RRFFQ69G5F02", "b", 2),
        msg_at("01ARZ3NDEKTSV4RRFFQ69G5F05", "a", 5),
    ];
    assert_eq!(aggregate(&msgs), aggregate(&reordered));
}
