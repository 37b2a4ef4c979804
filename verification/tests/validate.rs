use tsuji::cli::{validate_channel_name, validate_sender, validate_ulid_string};
use tsuji::error::CliError;

#[test]
fn accepts_normal_channel_names() {
    for ok in ["default", "infra", "team-a", "team_b", "abc123"] {
        assert!(validate_channel_name(ok).is_ok(), "{ok} should pass");
    }
}

#[test]
fn rejects_invalid_channel_names() {
    for bad in ["", "has space", "has!bang", "has/slash", "日本語"] {
        assert!(validate_channel_name(bad).is_err(), "{bad} should fail");
    }
}

#[test]
fn rejects_too_long_channel_name() {
    let long = "a".repeat(65);
    assert!(validate_channel_name(&long).is_err());
}

#[test]
fn accepts_normal_senders_and_rejects_newline_or_empty_or_too_long() {
    assert!(validate_sender("agent-a").is_ok());
    assert!(validate_sender("").is_err());
    assert!(validate_sender("a\nb").is_err());
    let long = "x".repeat(65);
    assert!(validate_sender(&long).is_err());
}

#[test]
fn ulid_string_validation_aligns_with_id_module() {
    assert!(validate_ulid_string("01ARZ3NDEKTSV4RRFFQ69G5FAV").is_ok());
    assert!(validate_ulid_string("not-a-ulid").is_err());
}

#[test]
fn channel_name_of_exactly_64_bytes_is_accepted() {
    let name = "z".repeat(64);
    assert!(validate_channel_name(&name).is_ok());
    assert_eq!(
        validate_channel_name("bad name!"),
        Err(CliError::InvalidChannelName("bad name!".to_string()))
    );
}

#[test]
fn sender_length_counts_bytes_not_characters() {
    // 22 three-byte characters: 66 bytes, over the limit.
    let wide = "語".repeat(22);
    assert_eq!(
        validate_sender(&wide),
        Err(CliError::InvalidSender(wide.clone()))
    );
    // 21 of them: 63 bytes, within it.
    assert!(validate_sender(&"語".repeat(21)).is_ok());
}

#[test]
fn lower_case_ulid_text_is_not_a_valid_cursor() {
    assert_eq!(
        validate_ulid_string("01arz3ndektsv4rrffq69g5fav"),
        Err(CliError::InvalidUlid("01arz3ndektsv4rrffq69g5fav".to_string()))
    );
    // The largest ULID text is accepted.
    assert!(validate_ulid_string("7ZZZZZZZZZZZZZZZZZZZZZZZZZ").is_ok());
}
