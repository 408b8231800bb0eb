use hermes_tui::chat::{unix_seconds, hero_color, message_body, relative_time_at, relative_time_label, tool_emoji, BorderKind, ChatComponent, MessageSlot};
use hermes_tui::types::{ChatColorsRgb, Color, Message, MessageRole, Style};

fn create_test_colors() -> ChatColorsRgb {
    ChatColorsRgb {
        user_bg: Color::Indexed(238),
        user_text: Color::Indexed(252),
        assistant_bg: Color::Indexed(236),
        assistant_text: Color::Indexed(248),
        system_bg: Color::Indexed(235),
        system_text: Color::Indexed(245),
        tool_bg: Color::Indexed(237),
        tool_text: Color::Indexed(243),
        code_bg: Color::Indexed(233),
        code_text: Color::Indexed(252),
        border: Color::Indexed(240),
        timestamp: Color::Indexed(246),
    }
}

fn create_test_message(role: MessageRole, content: &str) -> Message {
    Message::new(role, content)
}

#[test]
fn test_new() {
    let colors = create_test_colors();
    let chat = ChatComponent::new(colors, true);
    assert!(chat.messages().is_empty());
    assert_eq!(chat.scroll_position(), 0);
}

#[test]
fn test_role_style() {
    let colors = create_test_colors();
    let chat = ChatComponent::new(colors, true);

    let user_style = chat.get_role_style(MessageRole::User);
    assert!(user_style.bg == Some(Color::Indexed(238)));
    assert!(user_style.fg == Some(Color::Indexed(252)));
}

#[test]
fn test_role_display() {
    let colors = create_test_colors();
    let chat = ChatComponent::new(colors, false);

    assert_eq!(chat.get_role_display(MessageRole::User), " User ");
    assert_eq!(chat.get_role_display(MessageRole::Assistant), " ≡ Kraken ");
    assert_eq!(chat.get_role_display(MessageRole::System), " System ");
    assert_eq!(chat.get_role_display(MessageRole::Tool), " Tool ");
}

#[test]
fn test_message_height() {
    let colors = create_test_colors();
    let mut chat = ChatComponent::new(colors, true);
    chat.set_visible_height(80);

    let msg = create_test_message(MessageRole::User, "Hello");
    assert!(chat.message_height(&msg) >= 3);
}

#[test]
fn test_add_message() {
    let colors = create_test_colors();
    let mut chat = ChatComponent::new(colors, true);

    let msg = create_test_message(MessageRole::User, "Hello");
    chat.add_message(msg);

    assert_eq!(chat.messages().len(), 1);
}

#[test]
fn test_scroll() {
    let colors = create_test_colors();
    let mut chat = ChatComponent::new(colors, false);
    chat.set_visible_height(10);

    for i in 0..20 {
        chat.add_message(create_test_message(MessageRole::User, &format!("Message {}", i)));
    }

    assert!(chat.max_scroll_position() > 0);

    chat.scroll_to_bottom();
    assert_eq!(chat.scroll_position(), chat.max_scroll_position());

    chat.scroll_to_top();
    assert_eq!(chat.scroll_position(), 0);

    chat.scroll_down(5);
    assert!(chat.scroll_position() >= 5);

    chat.scroll_up(3);
    assert!(chat.scroll_position() >= 2);
}

#[test]
fn test_clear_messages() {
    let colors = create_test_colors();
    let mut chat = ChatComponent::new(colors, true);

    chat.add_message(create_test_message(MessageRole::User, "Hello"));
    chat.add_message(create_test_message(MessageRole::Assistant, "World"));

    assert_eq!(chat.messages().len(), 2);

    chat.clear_messages();

    assert!(chat.messages().is_empty());
    assert_eq!(chat.scroll_position(), 0);
}

#[test]
fn test_set_messages() {
    let colors = create_test_colors();
    let mut chat = ChatComponent::new(colors, true);

    let messages = vec![
        create_test_message(MessageRole::User, "Hello"),
        create_test_message(MessageRole::Assistant, "World"),
    ];

    chat.set_messages(messages);

    assert_eq!(chat.messages().len(), 2);
}

#[test]
fn test_format_timestamp() {
    let colors = create_test_colors();
    let chat = ChatComponent::new(colors, true);

    // A timestamp from 5 seconds ago
    let timestamp = chrono::Utc::now().timestamp() - 5;
    let result = chat.format_timestamp(timestamp);

    // Should contain "s ago"
    assert!(result.contains("s ago"));
}

#[test]
fn test_with_defaults() {
    let chat = ChatComponent::with_defaults();
    assert!(chat.messages().is_empty());
    assert!(chat.show_timestamps());
}

#[test]
fn test_with_messages() {
    let colors = create_test_colors();
    let messages = vec![
        create_test_message(MessageRole::User, "Hello"),
        create_test_message(MessageRole::Assistant, "World"),
    ];

    let chat = ChatComponent::new(colors, true).with_messages(messages);

    assert_eq!(chat.messages().len(), 2);
}

// ----- further cases -----

#[test]
fn message_height_counts_lines_plus_frame() {
    let chat = ChatComponent::new(create_test_colors(), true);
    assert_eq!(chat.message_height(&create_test_message(MessageRole::User, "Hello")), 4);
    assert_eq!(chat.message_height(&create_test_message(MessageRole::User, "a\nb\nc")), 6);
    assert_eq!(chat.message_height(&create_test_message(MessageRole::User, "a\n")), 4);
    assert_eq!(chat.message_height(&create_test_message(MessageRole::User, "")), 3);
    let mut streaming = create_test_message(MessageRole::Assistant, "");
    streaming.streaming = true;
    assert!(streaming.is_streaming());
    assert_eq!(chat.message_height(&streaming), 4);
}

#[test]
fn scroll_positions_follow_the_rows() {
    let mut chat = ChatComponent::new(create_test_colors(), false);
    chat.set_visible_height(10);
    for i in 0..20 {
        chat.add_message(create_test_message(MessageRole::User, &format!("Message {}", i)));
    }
    // 20 messages of 4 rows each, 10 rows visible.
    assert_eq!(chat.max_scroll_position(), 70);
    assert_eq!(chat.scroll_position(), 70);
    chat.scroll_down(100);
    assert_eq!(chat.scroll_position(), 70);
    chat.scroll_to_top();
    chat.scroll_down(5);
    assert_eq!(chat.scroll_position(), 5);
    chat.scroll_up(3);
    assert_eq!(chat.scroll_position(), 2);
    chat.scroll_up(9);
    assert_eq!(chat.scroll_position(), 0);
}

#[test]
fn update_replaces_the_first_message_with_that_id() {
    let mut chat = ChatComponent::new(create_test_colors(), true);
    let mut a = create_test_message(MessageRole::Assistant, "partial");
    a.message_id = 7;
    let mut b = create_test_message(MessageRole::User, "other");
    b.message_id = 8;
    chat.add_message(a);
    chat.add_message(b);
    let mut update = create_test_message(MessageRole::Assistant, "complete");
    update.message_id = 7;
    chat.update_message(update);
    assert_eq!(chat.messages()[0].content, "complete");
    assert_eq!(chat.messages()[1].content, "other");
    let mut stray = create_test_message(MessageRole::Assistant, "stray");
    stray.message_id = 9;
    chat.update_message(stray);
    assert_eq!(chat.messages().len(), 2);
}

#[test]
fn render_plan_starts_at_the_scrolled_row() {
    let mut chat = ChatComponent::new(create_test_colors(), false);
    chat.add_message(create_test_message(MessageRole::User, "one"));
    chat.add_message(create_test_message(MessageRole::User, "two"));
    chat.add_message(create_test_message(MessageRole::User, "three"));
    chat.scroll_to_top();
    chat.scroll_down(5);
    let plan = chat.render_plan(6);
    assert_eq!(plan.total_height, 12);
    assert_eq!(plan.scroll, 5);
    assert!(plan.show_scrollbar);
    assert_eq!(
        plan.slots,
        vec![MessageSlot { index: 1, y: 0, height: 3 }, MessageSlot { index: 2, y: 3, height: 3 }]
    );
}

#[test]
fn render_plan_clamps_the_scroll() {
    let mut chat = ChatComponent::new(create_test_colors(), false);
    chat.add_message(create_test_message(MessageRole::User, "one"));
    let plan = chat.render_plan(10);
    assert_eq!(plan.scroll, 0);
    assert!(!plan.show_scrollbar);
    assert_eq!(plan.slots, vec![MessageSlot { index: 0, y: 0, height: 4 }]);
}

#[test]
fn relative_time_units() {
    assert_eq!(relative_time_label(5), "5s ago");
    assert_eq!(relative_time_label(-3), "-3s ago");
    assert_eq!(relative_time_label(59), "59s ago");
    assert_eq!(relative_time_label(60), "1m ago");
    assert_eq!(relative_time_label(3599), "59m ago");
    assert_eq!(relative_time_label(3600), "1h ago");
    assert_eq!(relative_time_label(86399), "23h ago");
    assert_eq!(relative_time_label(86400), "1d ago");
    assert_eq!(relative_time_label(i64::MAX), "106751991167300d ago");
    assert_eq!(relative_time_label(i64::MIN), "-9223372036854775808s ago");
}

#[test]
fn relative_time_between_two_clock_readings() {
    assert_eq!(relative_time_at(1_000, 880), "2m ago");
    assert_eq!(relative_time_at(1_000, 1_000), "0s ago");
    assert_eq!(relative_time_at(100_000, 0), "1d ago");
    assert_eq!(relative_time_at(i64::MIN, 1), "-9223372036854775808s ago");
    assert_eq!(relative_time_at(i64::MAX, -1), "106751991167300d ago");
}

#[test]
fn tool_emoji_by_content() {
    assert_eq!(tool_emoji("calling run_shell_command now"), "🐚");
    assert_eq!(tool_emoji("write_file: a.txt"), "📜");
    assert_eq!(tool_emoji("glob **/*.rs"), "🔍");
    assert_eq!(tool_emoji("something else"), "🛠️");
}

#[test]
fn bubble_borders_by_role() {
    let chat = ChatComponent::new(create_test_colors(), true);
    assert_eq!(
        chat.bubble_border(MessageRole::Assistant),
        (BorderKind::Thick, Style { fg: Some(Color::Indexed(240)), bg: None })
    );
    assert_eq!(
        chat.bubble_border(MessageRole::System),
        (BorderKind::Plain, Style { fg: Some(Color::Indexed(245)), bg: None })
    );
}

#[test]
fn timestamp_label_in_utc() {
    let chat = ChatComponent::new(create_test_colors(), true);
    let mut m = create_test_message(MessageRole::User, "hi");
    m.timestamp = 3_723;
    assert_eq!(chat.timestamp_label(&m), Some(" 01:02:03 ".to_string()));
    let quiet = ChatComponent::new(create_test_colors(), false);
    assert_eq!(quiet.timestamp_label(&m), None);
}

#[test]
fn message_body_splits_lines_like_str_lines() {
    let mut m = create_test_message(MessageRole::Assistant, "a\r\nb\n\nc\r");
    m.streaming = false;
    let (lines, cursor) = message_body(&m);
    assert_eq!(lines, vec!["a", "b", "", "c\r"]);
    assert!(!cursor);
    let m = create_test_message(MessageRole::Assistant, "done\n");
    assert_eq!(message_body(&m).0, vec!["done"]);
}

#[test]
fn message_body_keeps_a_line_for_the_cursor() {
    let mut m = create_test_message(MessageRole::Assistant, "");
    m.streaming = true;
    assert_eq!(message_body(&m), (vec![String::new()], true));
    m.streaming = false;
    assert_eq!(message_body(&m), (Vec::<String>::new(), false));
}

#[test]
fn hero_gradient_changes_every_two_rows() {
    assert_eq!(hero_color(0), Color::Rgb(166, 226, 46));
    assert_eq!(hero_color(3), Color::Rgb(102, 217, 239));
    assert_eq!(hero_color(5), Color::Rgb(174, 129, 255));
    assert_eq!(hero_color(6), Color::Rgb(249, 38, 114));
    assert_eq!(hero_color(9), Color::Rgb(253, 151, 31));
    assert_eq!(hero_color(11), Color::Rgb(117, 113, 94));
}

#[test]
fn scrolling_down_then_up_returns() {
    let mut chat = ChatComponent::new(create_test_colors(), true);
    let mut messages = Vec::new();
    for _ in 0..10 {
        messages.push(create_test_message(MessageRole::User, "a\nb"));
    }
    chat.set_messages(messages);
    chat.set_visible_height(10);
    chat.scroll_to_top();
    chat.scroll_down(7);
    chat.scroll_up(7);
    assert_eq!(chat.scroll_position(), 0);
}

#[test]
fn unix_seconds_of_clock_readings() {
    assert_eq!(unix_seconds(Ok(5)), 5);
    assert_eq!(unix_seconds(Err(5)), -5);
    assert_eq!(unix_seconds(Ok(u64::MAX)), i64::MAX);
    assert_eq!(unix_seconds(Err(u64::MAX)), -i64::MAX);
}
