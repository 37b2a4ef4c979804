use tsuji::message::id::{is_valid_ulid_str, now_ulid};
use tsuji::message::Message;
use ulid::{Generator, Ulid};

fn text(id: u128) -> String {
    Ulid(id).to_string()
}

#[test]
fn two_consecutive_ulids_are_strictly_increasing_lexicographically() {
    let mut generator = Generator::new();
    let a = text(now_ulid(&mut generator));
    let b = text(now_ulid(&mut generator));
    assert!(a < b, "expected {a} < {b}");
}

#[test]
fn ulid_strings_are_26_chars() {
    let mut generator = Generator::new();
    let s = text(now_ulid(&mut generator));
    assert_eq!(s.len(), 26);
}

#[test]
fn validates_a_real_ulid() {
    let mut generator = Generator::new();
    let s = text(now_ulid(&mut generator));
    assert!(is_valid_ulid_str(&s), "{s} should validate");
}

#[test]
fn rejects_malformed_strings() {
    assert!(!is_valid_ulid_str(""));
    assert!(!is_valid_ulid_str("not-a-ulid"));
    assert!(!is_valid_ulid_str("0000000000000000000000000I")); // contains forbidden 'I'
    assert!(!is_valid_ulid_str("0000000000000000000000000")); // 25 chars
}

#[test]
fn ulid_text_order_is_numeric_order_on_samples() {
    let samples: [u128; 6] = [0, 1, 31, 32, 1 << 100, u128::MAX];
    for &a in &samples {
        for &b in &samples {
            assert_eq!(text(a) < text(b), a < b, "{a} {b}");
        }
        assert!(is_valid_ulid_str(&text(a)));
    }
}

#[test]
fn successive_messages_from_one_generator_have_increasing_ids() {
    let mut generator = Generator::new();
    let mut last = 0u128;
    for i in 0..100 {
        let m = Message::new(&mut generator, "a".to_string(), format!("m{i}"));
        assert!(m.id > last);
        assert_eq!(m.body, format!("m{i}"));
        last = m.id;
    }
}
