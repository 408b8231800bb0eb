use hermes_tui::completions::CompletionPopup;
use hermes_tui::types::{ChatColorsRgb, Color, CompletionItem, Rect, Style};

fn create_test_colors() -> ChatColorsRgb {
    ChatColorsRgb {
        user_bg: Color::Reset,
        user_text: Color::Reset,
        assistant_bg: Color::Reset,
        assistant_text: Color::Reset,
        system_bg: Color::Reset,
        system_text: Color::Reset,
        tool_bg: Color::Reset,
        tool_text: Color::Reset,
        code_bg: Color::Reset,
        code_text: Color::Reset,
        border: Color::Reset,
        timestamp: Color::Reset,
    }
}

fn item(display: &str, text: &str, meta: Option<&str>) -> CompletionItem {
    CompletionItem { display: display.to_string(), text: text.to_string(), meta: meta.map(|m| m.to_string()) }
}

#[test]
fn test_completion_popup_visibility() {
    let mut popup = CompletionPopup::new(create_test_colors());
    assert!(!popup.is_visible());

    let items = vec![item("help", "/help", Some("Show help"))];

    popup.show(items);
    assert!(popup.is_visible());

    popup.dismiss();
    assert!(!popup.is_visible());
}

#[test]
fn test_completion_popup_navigation() {
    let mut popup = CompletionPopup::new(create_test_colors());
    let items = vec![item("help", "/help", None), item("quit", "/quit", None)];

    popup.show(items);
    assert_eq!(popup.selected_index(), 0);
    assert_eq!(popup.selected_item().unwrap().display, "help");

    popup.select_next();
    assert_eq!(popup.selected_index(), 1);
    assert_eq!(popup.selected_item().unwrap().display, "quit");

    popup.select_next();
    assert_eq!(popup.selected_index(), 0);

    popup.select_prev();
    assert_eq!(popup.selected_index(), 1);
}

// ----- further cases -----

#[test]
fn showing_nothing_keeps_the_popup_hidden() {
    let mut popup = CompletionPopup::new(create_test_colors());
    popup.show(Vec::new());
    assert!(!popup.is_visible());
    assert!(popup.selected_item().is_none());
    popup.select_next();
    popup.select_prev();
    assert_eq!(popup.selected_index(), 0);
}

#[test]
fn dismissed_popup_offers_no_item() {
    let mut popup = CompletionPopup::new(create_test_colors());
    popup.show(vec![item("a", "/a", None)]);
    popup.dismiss();
    assert!(popup.selected_item().is_none());
    assert_eq!(popup.popup_area(Rect { x: 0, y: 0, width: 80, height: 5 }), None);
}

#[test]
fn next_then_prev_returns_to_the_item() {
    let mut popup = CompletionPopup::new(create_test_colors());
    popup.show(vec![item("a", "/a", None), item("b", "/b", None), item("c", "/c", None)]);
    popup.select_prev();
    assert_eq!(popup.selected_index(), 2);
    popup.select_next();
    assert_eq!(popup.selected_index(), 0);
}

#[test]
fn popup_area_is_bounded() {
    let mut popup = CompletionPopup::new(create_test_colors());
    popup.show(vec![item("a", "/a", None), item("b", "/b", None)]);
    assert_eq!(
        popup.popup_area(Rect { x: 3, y: 4, width: 80, height: 20 }),
        Some(Rect { x: 3, y: 4, width: 40, height: 4 })
    );
    assert_eq!(
        popup.popup_area(Rect { x: 3, y: 4, width: 5, height: 3 }),
        Some(Rect { x: 3, y: 4, width: 10, height: 3 })
    );
    let many: Vec<CompletionItem> = (0..20).map(|i| item("x", &format!("/{i}"), None)).collect();
    popup.show(many);
    assert_eq!(
        popup.popup_area(Rect { x: 65530, y: 0, width: 80, height: 20 }),
        Some(Rect { x: 65530, y: 0, width: 5, height: 8 })
    );
}

#[test]
fn item_labels() {
    assert_eq!(CompletionPopup::item_label(&item("help", "/help", Some("Show help"))), " help - Show help");
    assert_eq!(CompletionPopup::item_label(&item("quit", "/quit", None)), " quit");
}

#[test]
fn selected_item_is_highlighted() {
    let mut colors = create_test_colors();
    colors.user_bg = Color::Indexed(238);
    colors.user_text = Color::Indexed(252);
    let mut popup = CompletionPopup::new(colors);
    popup.show(vec![item("a", "a", None), item("b", "b", None)]);
    popup.select_next();
    assert_eq!(popup.item_style(1), (Style { fg: Some(Color::Yellow), bg: Some(Color::Indexed(238)) }, true));
    assert_eq!(popup.item_style(0), (Style { fg: Some(Color::Indexed(252)), bg: None }, false));
}
