use nlp_bot_api::store::message::Message;

#[test]
fn kept_text_is_the_written_text() {
    assert_eq!(Message::sanitize_content(&"Hello, World!".to_string()), "Hello, World!");
    assert_eq!(Message::sanitize_content(&String::new()), "");
    assert_eq!(Message::sanitize_content(&" <b>\u{e9}</b>\n".to_string()), " <b>\u{e9}</b>\n");
}

#[test]
fn kept_text_is_made_anew_from_the_written_text() {
    let mut message = Message {
        content: "new text".to_string(),
        sanitized_content: "old text".to_string(),
        sender: "<@1>".to_string(),
        room_id: "guild:channel".to_string(),
    };
    message.re_sanitize();
    assert_eq!(message.sanitized_content, "new text");
    assert_eq!(message.content, "new text");
    assert_eq!(message.sender, "<@1>");
    assert_eq!(message.room_id, "guild:channel");
    message.re_sanitize();
    assert_eq!(message.sanitized_content, "new text");
}
