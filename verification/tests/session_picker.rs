use hermes_tui::session_picker::SessionPicker;
use hermes_tui::types::{ChatColorsRgb, Color, Rect, SessionListItem, Style};

fn create_test_colors() -> ChatColorsRgb {
    ChatColorsRgb {
        user_bg: Color::Reset,
        user_text: Color::Reset,
        assistant_bg: Color::Reset,
        assistant_text: Color::Reset,
        system_bg: Color::Reset,
        system_text: Color::Reset,
        tool_bg: Color::Reset,
        tool_text: Color::Reset,
        code_bg: Color::Reset,
        code_text: Color::Reset,
        border: Color::Reset,
        timestamp: Color::Reset,
    }
}

fn session(id: &str, title: &str, message_count: u64, preview: &str, started_at: i64, source: Option<&str>) -> SessionListItem {
    SessionListItem {
        id: id.to_string(),
        title: title.to_string(),
        message_count,
        preview: preview.to_string(),
        started_at,
        source: source.map(|s| s.to_string()),
    }
}

#[test]
fn test_session_picker_visibility() {
    let mut picker = SessionPicker::new(create_test_colors());
    assert!(!picker.is_visible());

    let sessions = vec![session("session_1", "Rust coding", 5, "Implementing key routines...", 1_718_000_000, Some("cli"))];

    picker.show(sessions);
    assert!(picker.is_visible());

    picker.dismiss();
    assert!(!picker.is_visible());
}

#[test]
fn test_session_picker_navigation() {
    let mut picker = SessionPicker::new(create_test_colors());
    let sessions = vec![
        session("session_1", "Rust coding", 5, "Implementing key routines...", 1_718_000_000, Some("cli")),
        session("session_2", "Python gateway", 10, "Refactoring server code...", 1_718_000_100, Some("cli")),
    ];

    picker.show(sessions);
    assert_eq!(picker.selected_index(), 0);
    assert_eq!(picker.selected_session().unwrap().title, "Rust coding");

    picker.select_next();
    assert_eq!(picker.selected_index(), 1);
    assert_eq!(picker.selected_session().unwrap().title, "Python gateway");

    picker.select_next();
    assert_eq!(picker.selected_index(), 0);

    picker.select_prev();
    assert_eq!(picker.selected_index(), 1);
}

// ----- further cases -----

#[test]
fn session_lines_fill_in_defaults() {
    let s = session("s", "", 12, "short", 1_718_000_000, None);
    let (line1, line2) = SessionPicker::session_lines(&s, 40);
    assert_eq!(line1, "Unnamed (msgs: 12, time: 2024-06-10 06:13, source: cli)");
    assert_eq!(line2, "  ↳ short");
}

#[test]
fn session_lines_crop_a_long_preview() {
    let s = session("s", "Rust coding", 5, "Implementing key routines...", 1_718_000_000, Some("tui"));
    let (line1, line2) = SessionPicker::session_lines(&s, 16);
    assert_eq!(line1, "Rust coding (msgs: 5, time: 2024-06-10 06:13, source: tui)");
    assert_eq!(line2, "  ↳ Impleme...");
}

#[test]
fn session_lines_unknown_time() {
    let s = session("s", "T", 0, "", i64::MAX, Some("x"));
    let (line1, _) = SessionPicker::session_lines(&s, 40);
    assert_eq!(line1, "T (msgs: 0, time: Unknown, source: x)");
}

#[test]
fn popup_area_is_centred() {
    let r = SessionPicker::popup_area(Rect { x: 0, y: 0, width: 100, height: 50 });
    assert_eq!(r, Rect { x: 10, y: 10, width: 80, height: 30 });
}

#[test]
fn selected_session_is_highlighted() {
    let mut colors = create_test_colors();
    colors.user_bg = Color::Blue;
    colors.user_text = Color::White;
    let mut picker = SessionPicker::new(colors);
    picker.show(vec![
        session("a", "one", 1, "", 0, None),
        session("b", "two", 2, "", 0, None),
    ]);
    assert_eq!(picker.session_style(0), (Style { fg: Some(Color::Yellow), bg: Some(Color::Blue) }, true));
    assert_eq!(picker.session_style(1), (Style { fg: Some(Color::White), bg: None }, false));
}
