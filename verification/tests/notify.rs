use fr_notify::notify::format_message;
use fr_notify::notify::PushoverNotifier;

#[test]
fn message_shows_symbol_and_rate() {
    assert_eq!(
        format_message("BTCUSDT", "0.0123", false),
        "BTCUSDT current funding rate: 0.0123%"
    );
}

#[test]
fn debug_message_is_marked() {
    assert_eq!(
        format_message("ETHUSDT", "-0.0500", true),
        "[debug] ETHUSDT current funding rate: -0.0500%"
    );
}

#[test]
fn push_request_has_three_form_fields() {
    let notifier = PushoverNotifier::new("app-token".to_string(), "user-key".to_string());
    let fields = notifier.message_params("hello");
    assert_eq!(fields.len(), 3);
    assert_eq!(fields[0], ("token".to_string(), "app-token".to_string()));
    assert_eq!(fields[1], ("user".to_string(), "user-key".to_string()));
    assert_eq!(fields[2], ("message".to_string(), "hello".to_string()));
}
