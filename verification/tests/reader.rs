use tsuji::message::{Message, Timestamp};
use tsuji::storage::reader::{channel_names, filter_since, record_lines};
use tsuji::storage::writer::frame_record;
use ulid::Ulid;

fn at(id: &str, body: &str) -> Message {
    Message {
        id: Ulid::from_string(id).unwrap().0,
        // 2026-01-01T00:00:00Z
        ts: Timestamp::from_unix(1_767_225_600, 0).unwrap(),
        from: "a".into(),
        body: body.into(),
    }
}

#[test]
fn filter_since_returns_only_newer() {
    let m1 = at("01ARZ3NDEKTSV4RRFFQ69G5F01", "one");
    let m2 = at("01ARZ3NDEKTSV4RRFFQ69G5F02", "two");
    let m3 = at("01ARZ3NDEKTSV4RRFFQ69G5F03", "three");
    let cursor = Ulid(m2.id).to_string();
    let got = filter_since(vec![m1, m2, m3], Some(&cursor));
    assert_eq!(got.len(), 1);
    assert_eq!(got[0].body, "three");
}

#[test]
fn filter_since_without_cursor_keeps_everything() {
    let got = filter_since(
        vec![at("01ARZ3NDEKTSV4RRFFQ69G5F01", "one"), at("01ARZ3NDEKTSV4RRFFQ69G5F02", "two")],
        None,
    );
    assert_eq!(got.len(), 2);
    // A cursor above every id keeps nothing; one below all keeps all.
    let none = filter_since(vec![at("01ARZ3NDEKTSV4RRFFQ69G5F01", "one")], Some("7ZZZZZZZZZZZZZZZZZZZZZZZZZ"));
    assert!(none.is_empty());
    let all = filter_since(vec![at("01ARZ3NDEKTSV4RRFFQ69G5F01", "one")], Some("0"));
    assert_eq!(all.len(), 1);
}

#[test]
fn record_lines_skips_blank_lines_and_numbers_from_one() {
    let got = record_lines("{\"a\":1}\n\n   \n{\"b\":2}\r\n{\"c\":3}");
    assert_eq!(
        got,
        vec![
            (1, "{\"a\":1}".to_string()),
            (4, "{\"b\":2}".to_string()),
            (5, "{\"c\":3}".to_string()),
        ]
    );
    assert!(record_lines("").is_empty());
    // A carriage return without a following line feed stays.
    assert_eq!(record_lines("x\r"), vec![(1, "x\r".to_string())]);
}

#[test]
fn framed_records_read_back_in_order() {
    let mut log = String::new();
    for r in ["{\"id\":1}", "{\"id\":2}", "{\"id\":3}"] {
        log.push_str(&frame_record(r));
    }
    assert_eq!(log, "{\"id\":1}\n{\"id\":2}\n{\"id\":3}\n");
    let back: Vec<String> = record_lines(&log).into_iter().map(|(_, l)| l).collect();
    assert_eq!(back, vec!["{\"id\":1}", "{\"id\":2}", "{\"id\":3}"]);
}

#[test]
fn channel_names_are_sorted_stems_of_jsonl_files() {
    let names = vec![
        "zeta.jsonl".to_string(),
        "alpha.jsonl".to_string(),
        "notes.txt".to_string(),
        ".jsonl".to_string(),
        "beta.jsonl".to_string(),
        "a.b.jsonl".to_string(),
        "jsonl".to_string(),
    ];
    assert_eq!(channel_names(names), vec!["a.b", "alpha", "beta", "zeta"]);
    assert!(channel_names(Vec::new()).is_empty());
}

#[test]
fn two_since_filters_are_one_at_the_later_cursor() {
    let log = || {
        vec![
            at("01ARZ3NDEKTSV4RRFFQ69G5F01", "one"),
            at("01ARZ3NDEKTSV4RRFFQ69G5F02", "two"),
            at("01ARZ3NDEKTSV4RRFFQ69G5F03", "three"),
        ]
    };
    let a = "01ARZ3NDEKTSV4RRFFQ69G5F01";
    let b = "01ARZ3NDEKTSV4RRFFQ69G5F02";
    let twice = filter_since(filter_since(log(), Some(a)), Some(b));
    let once = filter_since(log(), Some(b));
    assert_eq!(twice, once);
    let twice = filter_since(filter_since(log(), Some(b)), Some(a));
    assert_eq!(twice, once);
    assert_eq!(once.len(), 1);
}
