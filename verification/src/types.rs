//! The values the UI components hold: colours and styles, chat messages,
//! completion items and session summaries, and screen rectangles.

use vstd::prelude::*;

verus! {

/// A terminal colour.
#[derive(Debug, Clone, Copy, PartialEq, Eq, Structural)]
pub enum Color {
    Reset,
    Black,
    Red,
    Green,
    Yellow,
    Blue,
    Magenta,
    Cyan,
    Gray,
    DarkGray,
    LightRed,
    LightGreen,
    LightYellow,
    LightBlue,
    LightMagenta,
    LightCyan,
    White,
    Rgb(u8, u8, u8),
    Indexed(u8),
}

/// Foreground and background colours of a piece of text; `None` leaves the
/// terminal's own.
#[derive(Debug, Clone, Copy, PartialEq, Eq, Structural)]
pub struct Style {
    pub fg: Option<Color>,
    pub bg: Option<Color>,
}

/// The chat colours of the configuration.
#[derive(Debug, Clone, Copy, PartialEq, Eq, Structural)]
pub struct ChatColorsRgb {
    pub user_bg: Color,
    pub user_text: Color,
    pub assistant_bg: Color,
    pub assistant_text: Color,
    pub system_bg: Color,
    pub system_text: Color,
    pub tool_bg: Color,
    pub tool_text: Color,
    pub code_bg: Color,
    pub code_text: Color,
    pub border: Color,
    pub timestamp: Color,
}

/// Who wrote a message.
#[derive(Debug, Clone, Copy, PartialEq, Eq, Structural)]
pub enum MessageRole {
    User,
    Assistant,
    System,
    Tool,
}

/// A chat message: its id, author, text, Unix time in seconds, and whether
/// it is still being streamed in.
#[derive(Debug, Clone)]
pub struct Message {
    pub message_id: u64,
    pub role: MessageRole,
    pub content: String,
    pub timestamp: i64,
    pub streaming: bool,
}

impl Message {
    /// A finished message with id 0 and timestamp 0.
    pub fn new(role: MessageRole, content: &str) -> (m: Message)
        ensures
            m.message_id == 0,
            m.role == role,
            m.content@ == content@,
            m.timestamp == 0,
            !m.streaming,
    {
        Message { message_id: 0, role, content: String::from_str(content), timestamp: 0, streaming: false }
    }

    /// Whether the message is still being streamed in.
    pub fn is_streaming(&self) -> (b: bool)
        ensures
            b == self.streaming,
    {
        self.streaming
    }
}

/// One autocomplete suggestion.
#[derive(Debug, Clone)]
pub struct CompletionItem {
    pub display: String,
    pub text: String,
    pub meta: Option<String>,
}

/// A resumable session.
#[derive(Debug, Clone)]
pub struct SessionListItem {
    pub id: String,
    pub title: String,
    pub message_count: u64,
    pub preview: String,
    pub started_at: i64,
    pub source: Option<String>,
}

/// A rectangle of terminal cells.
#[derive(Debug, Clone, Copy, PartialEq, Eq, Structural)]
pub struct Rect {
    pub x: u16,
    pub y: u16,
    pub width: u16,
    pub height: u16,
}

} // verus!
