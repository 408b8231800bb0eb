//! Mouse hit-testing for the chat area, the input line and the toolbar, and
//! the pressed-button and click tracking of a mouse context.

use vstd::prelude::*;
use std::time::Instant;

verus! {

/// A mouse button.
#[derive(Debug, Clone, Copy, PartialEq, Eq, Structural)]
pub enum MouseButton {
    Left,
    Right,
    Middle,
}

/// What a mouse event reports.
#[derive(Debug, Clone, Copy, PartialEq, Eq, Structural)]
pub enum MouseEventKind {
    Down(MouseButton),
    Up(MouseButton),
    Drag(MouseButton),
    Moved,
    ScrollDown,
    ScrollUp,
    ScrollLeft,
    ScrollRight,
}

/// A mouse event at a terminal cell.
#[derive(Debug, Clone, Copy, PartialEq, Eq, Structural)]
pub struct MouseEvent {
    pub kind: MouseEventKind,
    pub column: u16,
    pub row: u16,
}

#[verifier::external_type_specification]
#[verifier::external_body]
pub struct ExInstant(std::time::Instant);

/// Calls `Instant::now`; nothing is stated of the clock's reading.
#[verifier::external_body]
fn instant_now() -> Instant {
    Instant::now()
}

/// Calls `Instant::elapsed` and gives the elapsed whole milliseconds;
/// nothing is stated of the result, which depends on the clock.
#[verifier::external_body]
fn elapsed_millis(t: &Instant) -> u128 {
    t.elapsed().as_millis()
}

/// Mouse interaction context for tracking state.
#[derive(Debug)]
pub struct MouseContext {
    pub position: (u16, u16),
    pub pressed_buttons: Vec<MouseButton>,
    pub is_dragging: bool,
    pub drag_start: Option<(u16, u16)>,
    pub last_click: Option<(u16, u16)>,
    pub last_click_time: Option<Instant>,
}

impl Clone for MouseContext {
    /// A copy of the context.
    fn clone(&self) -> (c: Self)
        ensures
            c.position == self.position,
            c.pressed_buttons@ == self.pressed_buttons@,
            c.is_dragging == self.is_dragging,
            c.drag_start == self.drag_start,
            c.last_click == self.last_click,
            c.last_click_time == self.last_click_time,
    {
        let mut buttons: Vec<MouseButton> = Vec::new();
        let n = self.pressed_buttons.len();
        for i in 0..n
            invariant
                n == self.pressed_buttons@.len(),
                buttons@ == self.pressed_buttons@.take(i as int),
        {
            buttons.push(self.pressed_buttons[i]);
            assert(self.pressed_buttons@.take(i + 1) =~= self.pressed_buttons@.take(i as int).push(
                self.pressed_buttons@[i as int],
            ));
        }
        assert(self.pressed_buttons@.take(n as int) =~= self.pressed_buttons@);
        MouseContext {
            position: self.position,
            pressed_buttons: buttons,
            is_dragging: self.is_dragging,
            drag_start: self.drag_start,
            last_click: self.last_click,
            last_click_time: self.last_click_time,
        }
    }
}

impl Default for MouseContext {
    fn default() -> (c: Self)
        ensures
            c.position == (0u16, 0u16),
            c.pressed_buttons@ == Seq::<MouseButton>::empty(),
            !c.is_dragging,
            c.drag_start is None,
            c.last_click is None,
            c.last_click_time is None,
    {
        MouseContext {
            position: (0, 0),
            pressed_buttons: Vec::new(),
            is_dragging: false,
            drag_start: None,
            last_click: None,
            last_click_time: None,
        }
    }
}

/// The buttons of `s` other than `b`, in order.
pub open spec fn without_button(s: Seq<MouseButton>, b: MouseButton) -> Seq<MouseButton> {
    s.filter(other_than(b))
}

/// Holds of every button but `b`.
pub open spec fn other_than(b: MouseButton) -> spec_fn(MouseButton) -> bool {
    |x: MouseButton| x != b
}

/// A released button is no longer held.
pub proof fn law_release_forgets_button(s: Seq<MouseButton>, b: MouseButton)
    ensures
        !without_button(s, b).contains(b),
        forall|x: MouseButton| x != b ==> (s.contains(x) <==> without_button(s, b).contains(x)),
{
    let pred = other_than(b);
    let f = without_button(s, b);
    s.filter_lemma(pred);
    if f.contains(b) {
        let i = choose|i: int| 0 <= i < f.len() && f[i] == b;
        assert(pred(f[i]));
    }
    assert forall|x: MouseButton| x != b implies (s.contains(x) <==> f.contains(x)) by {
        if s.contains(x) {
            let i = choose|i: int| 0 <= i < s.len() && s[i] == x;
            assert(pred(s[i]));
        }
        if f.contains(x) {
            s.lemma_filter_contains_rev(pred, x);
        }
    }
}

/// How a context follows an event read at the clock reading `now`: the
/// position always follows the event; a press appends the button and records
/// the click position, `now` as the click time and the drag start; a
/// release removes every copy of the button and ends dragging; a drag adds
/// the button where it is not held and starts dragging; other events change
/// nothing else. Fields not named keep their values.
pub open spec fn tracks(old: MouseContext, new: MouseContext, event: MouseEvent, now: Instant) -> bool {
    &&& new.position == (event.column, event.row)
    &&& match event.kind {
        MouseEventKind::Down(b) => {
            &&& new.pressed_buttons@ == old.pressed_buttons@.push(b)
            &&& new.last_click == Some((event.column, event.row))
            &&& new.last_click_time == Some(now)
            &&& new.drag_start == Some((event.column, event.row))
            &&& new.is_dragging == old.is_dragging
        },
        MouseEventKind::Up(b) => {
            &&& new.pressed_buttons@ == without_button(old.pressed_buttons@, b)
            &&& !new.is_dragging
            &&& new.last_click == old.last_click
            &&& new.last_click_time == old.last_click_time
            &&& new.drag_start == old.drag_start
        },
        MouseEventKind::Drag(b) => {
            &&& new.pressed_buttons@ == if old.pressed_buttons@.contains(b) {
                old.pressed_buttons@
            } else {
                old.pressed_buttons@.push(b)
            }
            &&& new.is_dragging
            &&& new.last_click == old.last_click
            &&& new.last_click_time == old.last_click_time
            &&& new.drag_start == old.drag_start
        },
        _ => {
            &&& new.pressed_buttons@ == old.pressed_buttons@
            &&& new.is_dragging == old.is_dragging
            &&& new.last_click == old.last_click
            &&& new.last_click_time == old.last_click_time
            &&& new.drag_start == old.drag_start
        },
    }
}

/// Whether `event` completes a double click `elapsed_ms` milliseconds after
/// the last recorded click: a left press at that click's position, less than
/// 300 ms later.
pub open spec fn is_double_click(ctx: MouseContext, event: MouseEvent, elapsed_ms: nat) -> bool {
    &&& event.kind == MouseEventKind::Down(MouseButton::Left)
    &&& ctx.last_click == Some((event.column, event.row))
    &&& ctx.last_click_time is Some
    &&& elapsed_ms < 300
}

impl MouseContext {
    /// A context with nothing pressed and no click recorded.
    pub fn new() -> (c: Self)
        ensures
            c.position == (0u16, 0u16),
            c.pressed_buttons@ == Seq::<MouseButton>::empty(),
            !c.is_dragging,
            c.drag_start is None,
            c.last_click is None,
            c.last_click_time is None,
    {
        Self::default()
    }

    /// Track an event, read at the clock reading `now`: the position always
    /// follows it; a press records the button, the click position, `now` as
    /// the click time and the drag start; a release forgets the button and
    /// ends dragging; a drag records the button once and starts dragging.
    pub fn update_at(&mut self, event: &MouseEvent, now: Instant)
        ensures
            tracks(*old(self), *final(self), *event, now),
    {
        self.position = (event.column, event.row);
        match event.kind {
            MouseEventKind::Down(button) => {
                self.pressed_buttons.push(button);
                self.last_click = Some((event.column, event.row));
                self.last_click_time = Some(now);
                self.drag_start = Some((event.column, event.row));
            },
            MouseEventKind::Up(button) => {
                let ghost before = self.pressed_buttons@;
                let mut kept: Vec<MouseButton> = Vec::new();
                let n = self.pressed_buttons.len();
                for i in 0..n
                    invariant
                        n == self.pressed_buttons@.len(),
                        self.pressed_buttons@ == before,
                        kept@ == without_button(before.take(i as int), button),
                {
                    let b = self.pressed_buttons[i];
                    proof {
                        let p = before.take(i + 1);
                        assert(p.drop_last() =~= before.take(i as int));
                        assert(p.last() == b);
                        reveal(Seq::filter);
                    }
                    if b != button {
                        kept.push(b);
                    }
                }
                assert(before.take(n as int) =~= before);
                self.pressed_buttons = kept;
                self.is_dragging = false;
            },
            MouseEventKind::Drag(button) => {
                if !contains_button(&self.pressed_buttons, button) {
                    self.pressed_buttons.push(button);
                }
                self.is_dragging = true;
            },
            _ => {},
        }
    }

    /// Track an event at the current clock reading (`update_at` with the
    /// time `Instant::now` gives).
    pub fn update(&mut self, event: &MouseEvent)
        ensures
            exists|now: Instant| tracks(*old(self), *final(self), *event, now),
    {
        let now = instant_now();
        self.update_at(event, now);
    }

    /// The last position seen.
    pub fn position(&self) -> (p: (u16, u16))
        ensures
            p == self.position,
    {
        self.position
    }

    /// Whether the button is held.
    pub fn is_button_pressed(&self, button: MouseButton) -> (b: bool)
        ensures
            b == self.pressed_buttons@.contains(button),
    {
        contains_button(&self.pressed_buttons, button)
    }

    /// Where the last press happened.
    pub fn drag_start(&self) -> (p: Option<(u16, u16)>)
        ensures
            p == self.drag_start,
    {
        self.drag_start
    }

    /// Whether `event` completes a double click, `elapsed_ms` milliseconds
    /// after the last click: a left press at the last click position, less
    /// than 300 ms after it.
    pub fn double_click_after(&self, event: &MouseEvent, elapsed_ms: u128) -> (b: bool)
        ensures
            b == is_double_click(*self, *event, elapsed_ms as nat),
    {
        match event.kind {
            MouseEventKind::Down(MouseButton::Left) => match (self.last_click, &self.last_click_time) {
                (Some(last_pos), Some(_)) => {
                    let same = last_pos.0 == event.column && last_pos.1 == event.row;
                    same && elapsed_ms < 300
                },
                _ => false,
            },
            _ => false,
        }
    }

    /// Whether `event` completes a double click: a left press at the last
    /// click position within 300 ms of it, as the clock reads now.
    pub fn check_double_click(&self, event: &MouseEvent) -> (b: bool)
        ensures
            exists|elapsed_ms: nat| b == is_double_click(*self, *event, elapsed_ms),
            !(event.kind == MouseEventKind::Down(MouseButton::Left) && self.last_click == Some(
                (event.column, event.row),
            ) && self.last_click_time is Some) ==> !b,
    {
        match &self.last_click_time {
            Some(t) => self.double_click_after(event, elapsed_millis(t)),
            None => self.double_click_after(event, 0),
        }
    }

    /// Release every button and forget the drag.
    pub fn clear(&mut self)
        ensures
            final(self).pressed_buttons@ == Seq::<MouseButton>::empty(),
            !final(self).is_dragging,
            final(self).drag_start is None,
            final(self).position == old(self).position,
            final(self).last_click == old(self).last_click,
            final(self).last_click_time == old(self).last_click_time,
    {
        self.pressed_buttons = Vec::new();
        self.is_dragging = false;
        self.drag_start = None;
    }
}

/// An area `(x, y, width, height)` in terminal cells.
pub type Area = (u16, u16, u16, u16);

/// Whether the cell `(col, row)` lies inside the area.
pub open spec fn in_area(col: u16, row: u16, a: Area) -> bool {
    col >= a.0 && col < a.0 + a.2 && row >= a.1 && row < a.1 + a.3
}

/// Whether testing the cell against the area in `u16` arithmetic, left to
/// right and stopping at the first false comparison, never overflows.
pub open spec fn area_test_fits(col: u16, row: u16, a: Area) -> bool {
    &&& col >= a.0 ==> a.0 + a.2 <= u16::MAX
    &&& (col >= a.0 && col < a.0 + a.2 && row >= a.1) ==> a.1 + a.3 <= u16::MAX
}

/// `in_area`, computed in `u16` arithmetic.
fn area_contains(col: u16, row: u16, a: Area) -> (b: bool)
    requires
        area_test_fits(col, row, a),
    ensures
        b == in_area(col, row, a),
{
    let (x, y, width, height) = a;
    col >= x && col < x + width && row >= y && row < y + height
}

/// Handles mouse events within the chat area.
#[derive(Debug)]
pub struct ChatMouseHandler {
    click_padding: u16,
}

impl Default for ChatMouseHandler {
    fn default() -> (h: Self)
        ensures
            h.click_padding_value() == 0,
    {
        ChatMouseHandler { click_padding: 0 }
    }
}

/// Chat mouse actions.
#[derive(Debug, Clone, Copy, PartialEq, Eq, Structural)]
pub enum ChatMouseAction {
    MessageClick(usize),
    ChatClick(u16, u16),
    ScrollUp,
    ScrollDown,
    ContextMenu(u16, u16),
    NoAction,
}

/// What a chat-area event means: nothing outside the area; inside, a left
/// press on a visible message row clicks that message (rows count from the
/// first visible message) and elsewhere clicks the chat; a right press asks
/// for a context menu; scrolling scrolls.
pub open spec fn chat_action(
    e: MouseEvent,
    area: Area,
    visible_start: usize,
    visible_count: usize,
) -> ChatMouseAction {
    if !in_area(e.column, e.row, area) {
        ChatMouseAction::NoAction
    } else {
        match e.kind {
            MouseEventKind::Down(MouseButton::Left) => {
                let rel = e.row - area.1;
                let index = visible_start + rel;
                if rel < area.3 && index < visible_start + visible_count {
                    ChatMouseAction::MessageClick(index as usize)
                } else {
                    ChatMouseAction::ChatClick(e.column, e.row)
                }
            },
            MouseEventKind::Down(MouseButton::Right) => ChatMouseAction::ContextMenu(e.column, e.row),
            MouseEventKind::ScrollUp => ChatMouseAction::ScrollUp,
            MouseEventKind::ScrollDown => ChatMouseAction::ScrollDown,
            _ => ChatMouseAction::NoAction,
        }
    }
}

impl ChatMouseHandler {
    pub fn new() -> (h: Self)
        ensures
            h.click_padding_value() == 0,
    {
        Self::default()
    }

    pub fn with_padding(padding: u16) -> (h: Self)
        ensures
            h.click_padding_value() == padding,
    {
        Self { click_padding: padding }
    }

    /// The click padding as a value.
    pub closed spec fn click_padding_value(&self) -> u16 {
        self.click_padding
    }

    /// Interpret an event in the chat area `(x, y, width, height)` that
    /// shows `visible_count` messages starting at `visible_start`.
    pub fn handle_chat_mouse(
        &self,
        event: &MouseEvent,
        chat_area: Area,
        _message_count: usize,
        visible_start: usize,
        visible_count: usize,
    ) -> (a: ChatMouseAction)
        requires
            area_test_fits(event.column, event.row, chat_area),
            in_area(event.column, event.row, chat_area) && event.kind == MouseEventKind::Down(
                MouseButton::Left,
            ) ==> visible_start + (event.row - chat_area.1) <= usize::MAX && visible_start
                + visible_count <= usize::MAX,
        ensures
            a == chat_action(*event, chat_area, visible_start, visible_count),
    {
        let (_x, y, _width, height) = chat_area;
        if !area_contains(event.column, event.row, chat_area) {
            return ChatMouseAction::NoAction;
        }
        match event.kind {
            MouseEventKind::Down(MouseButton::Left) => {
                let relative_y = event.row.saturating_sub(y);
                if relative_y < height {
                    let message_index = visible_start + relative_y as usize;
                    if message_index < visible_start + visible_count {
                        return ChatMouseAction::MessageClick(message_index);
                    }
                }
                ChatMouseAction::ChatClick(event.column, event.row)
            },
            MouseEventKind::Down(MouseButton::Right) => ChatMouseAction::ContextMenu(
                event.column,
                event.row,
            ),
            MouseEventKind::ScrollUp => ChatMouseAction::ScrollUp,
            MouseEventKind::ScrollDown => ChatMouseAction::ScrollDown,
            _ => ChatMouseAction::NoAction,
        }
    }

    pub fn click_padding(&self) -> (p: u16)
        ensures
            p == self.click_padding_value(),
    {
        self.click_padding
    }
}

/// Handles mouse events within the input area.
#[derive(Debug, Default)]
pub struct InputMouseHandler;

/// Input mouse actions.
#[derive(Debug, Clone, Copy, PartialEq, Eq, Structural)]
pub enum InputMouseAction {
    SetCursor(usize),
    DragCursor(usize),
    ContextMenuAt(usize),
    NoAction,
}

/// What an input-line event means: nothing outside the columns of the area;
/// inside, a left press sets the cursor, a right press opens a context menu
/// and a left drag drags the cursor, each at the column offset in the area.
pub open spec fn input_action(e: MouseEvent, area: Area) -> (InputMouseAction, Option<usize>) {
    if e.column < area.0 || e.column >= area.0 + area.2 {
        (InputMouseAction::NoAction, None)
    } else {
        let pos = (e.column - area.0) as usize;
        match e.kind {
            MouseEventKind::Down(MouseButton::Left) => (InputMouseAction::SetCursor(pos), Some(pos)),
            MouseEventKind::Down(MouseButton::Right) => (InputMouseAction::ContextMenuAt(pos), Some(pos)),
            MouseEventKind::Drag(MouseButton::Left) => (InputMouseAction::DragCursor(pos), Some(pos)),
            _ => (InputMouseAction::NoAction, None),
        }
    }
}

/// The input line reports, for a left press, a right press or a left drag
/// within the columns of its area, the event's column less the area's left
/// edge as the cursor position, in the action and beside it alike: a left
/// press sets the cursor there, a right press opens a context menu there and
/// a left drag drags the cursor there. Outside those columns it reports
/// nothing.
pub proof fn law_input_cursor_is_the_column_offset(e: MouseEvent, area: Area)
    ensures
        ({
            let pos = (e.column - area.0) as usize;
            let inside = area.0 <= e.column && e.column < area.0 + area.2;
            &&& inside && e.kind == MouseEventKind::Down(MouseButton::Left) ==> input_action(e, area) == (
                InputMouseAction::SetCursor(pos),
                Some(pos),
            )
            &&& inside && e.kind == MouseEventKind::Down(MouseButton::Right) ==> input_action(e, area) == (
                InputMouseAction::ContextMenuAt(pos),
                Some(pos),
            )
            &&& inside && e.kind == MouseEventKind::Drag(MouseButton::Left) ==> input_action(e, area) == (
                InputMouseAction::DragCursor(pos),
                Some(pos),
            )
            &&& !inside ==> input_action(e, area) == (InputMouseAction::NoAction, None::<usize>)
        }),
{
}

impl InputMouseHandler {
    pub fn new() -> (h: Self) {
        InputMouseHandler
    }

    /// Interpret an event in the input area `(x, y, width, height)`.
    pub fn handle_input_mouse(
        &self,
        event: &MouseEvent,
        input_area: Area,
        _text_length: usize,
    ) -> (r: (InputMouseAction, Option<usize>))
        requires
            event.column >= input_area.0 ==> input_area.0 + input_area.2 <= u16::MAX,
        ensures
            r == input_action(*event, input_area),
    {
        let (x, _y, width, _height) = input_area;
        if event.column < x || event.column >= x + width {
            return (InputMouseAction::NoAction, None);
        }
        let cursor_pos = (event.column - x) as usize;
        match event.kind {
            MouseEventKind::Down(MouseButton::Left) => (InputMouseAction::SetCursor(cursor_pos), Some(cursor_pos)),
            MouseEventKind::Down(MouseButton::Right) => (InputMouseAction::ContextMenuAt(cursor_pos), Some(cursor_pos)),
            MouseEventKind::Drag(MouseButton::Left) => (InputMouseAction::DragCursor(cursor_pos), Some(cursor_pos)),
            _ => (InputMouseAction::NoAction, None),
        }
    }
}

/// Toolbar button configuration.
#[derive(Debug, Clone)]
pub struct ToolbarButton {
    pub id: String,
    pub label: String,
    pub area: Option<Area>,
}

impl ToolbarButton {
    pub fn new(id: &str, label: &str) -> (b: Self)
        ensures
            b.id@ == id@,
            b.label@ == label@,
            b.area is None,
    {
        ToolbarButton { id: String::from_str(id), label: String::from_str(label), area: None }
    }

    pub fn set_area(&mut self, x: u16, y: u16, width: u16, height: u16)
        ensures
            final(self).area == Some((x, y, width, height)),
            final(self).id == old(self).id,
            final(self).label == old(self).label,
    {
        self.area = Some((x, y, width, height));
    }
}

/// Handles mouse events within the toolbar area.
#[derive(Debug)]
pub struct ToolbarMouseHandler {
    buttons: Vec<ToolbarButton>,
}

impl Default for ToolbarMouseHandler {
    fn default() -> (h: Self)
        ensures
            h@ == Seq::<ToolbarButton>::empty(),
    {
        ToolbarMouseHandler { buttons: Vec::new() }
    }
}

impl View for ToolbarMouseHandler {
    type V = Seq<ToolbarButton>;

    /// The buttons, in order.
    closed spec fn view(&self) -> Seq<ToolbarButton> {
        self.buttons@
    }
}

/// Toolbar mouse actions.
#[derive(Debug, Clone, PartialEq)]
pub enum ToolbarMouseAction {
    ButtonPress(String),
    ButtonRelease(String),
    NoAction,
}

/// Whether the button has an area holding the cell.
pub open spec fn button_hit(b: ToolbarButton, col: u16, row: u16) -> bool {
    b.area matches Some(a) && in_area(col, row, a)
}

/// The index of the first button whose area holds the cell.
pub open spec fn first_hit(bs: Seq<ToolbarButton>, col: u16, row: u16) -> Option<int>
    decreases bs.len(),
{
    if bs.len() == 0 {
        None
    } else if button_hit(bs[0], col, row) {
        Some(0)
    } else {
        match first_hit(bs.drop_first(), col, row) {
            Some(k) => Some(k + 1),
            None => None,
        }
    }
}

/// Whether testing the buttons in order, up to the first hit, never
/// overflows `u16` arithmetic.
pub open spec fn buttons_test_fit(bs: Seq<ToolbarButton>, col: u16, row: u16) -> bool {
    forall|j: int|
        #![trigger bs[j]]
        0 <= j < bs.len() && (forall|i: int| 0 <= i < j ==> !button_hit(#[trigger] bs[i], col, row))
            ==> (bs[j].area matches Some(a) ==> area_test_fits(col, row, a))
}

proof fn lemma_first_hit(bs: Seq<ToolbarButton>, col: u16, row: u16)
    ensures
        first_hit(bs, col, row) matches Some(k) ==> 0 <= k < bs.len() && button_hit(bs[k], col, row)
            && forall|i: int| 0 <= i < k ==> !button_hit(#[trigger] bs[i], col, row),
        first_hit(bs, col, row) is None ==> forall|i: int|
            0 <= i < bs.len() ==> !button_hit(#[trigger] bs[i], col, row),
    decreases bs.len(),
{
    if bs.len() > 0 {
        lemma_first_hit(bs.drop_first(), col, row);
        assert forall|i: int| 1 <= i < bs.len() implies bs[i] == bs.drop_first()[i - 1] by {}
        if first_hit(bs, col, row) is None {
            assert forall|i: int| 0 <= i < bs.len() implies !button_hit(#[trigger] bs[i], col, row) by {
                if i > 0 {
                    assert(bs[i] == bs.drop_first()[i - 1]);
                }
            }
        }
        if let Some(k) = first_hit(bs, col, row) {
            if k > 0 {
                assert forall|i: int| 0 <= i < k implies !button_hit(#[trigger] bs[i], col, row) by {
                    if i > 0 {
                        assert(bs[i] == bs.drop_first()[i - 1]);
                    }
                }
            }
        }
    }
}

/// A copy of a string.
fn copy_string(s: &String) -> (r: String)
    ensures
        r@ == s@,
{
    String::from_str(s.as_str())
}

impl ToolbarMouseHandler {
    pub fn new() -> (h: Self)
        ensures
            h@ == Seq::<ToolbarButton>::empty(),
    {
        Self::default()
    }

    pub fn set_buttons(&mut self, buttons: Vec<ToolbarButton>)
        ensures
            final(self)@ == buttons@,
    {
        self.buttons = buttons;
    }

    pub fn add_button(&mut self, button: ToolbarButton)
        ensures
            final(self)@ == old(self)@.push(button),
    {
        self.buttons.push(button);
    }

    /// Interpret an event over the buttons: the first button whose area
    /// holds the cell gets a press or release of the left button; every
    /// other event, or a cell outside all buttons, means nothing.
    pub fn handle_toolbar_mouse(&self, event: &MouseEvent) -> (a: ToolbarMouseAction)
        requires
            buttons_test_fit(self@, event.column, event.row),
        ensures
            match first_hit(self@, event.column, event.row) {
                Some(k) => match event.kind {
                    MouseEventKind::Down(MouseButton::Left) => (a matches ToolbarMouseAction::ButtonPress(id)
                        && id@ == self@[k].id@),
                    MouseEventKind::Up(MouseButton::Left) => (a matches ToolbarMouseAction::ButtonRelease(id)
                        && id@ == self@[k].id@),
                    _ => a is NoAction,
                },
                None => a is NoAction,
            },
    {
        proof {
            lemma_first_hit(self@, event.column, event.row);
            assert(self@ == self.buttons@);
        }
        let n = self.buttons.len();
        for i in 0..n
            invariant
                n == self.buttons@.len(),
                buttons_test_fit(self.buttons@, event.column, event.row),
                forall|j: int| 0 <= j < i ==> !button_hit(#[trigger] self.buttons@[j], event.column, event.row),
                first_hit(self@, event.column, event.row) matches Some(k) ==> k >= i,
                self@ == self.buttons@,
                first_hit(self@, event.column, event.row) matches Some(k) ==> 0 <= k < self@.len()
                    && button_hit(self@[k], event.column, event.row),
        {
            let button = &self.buttons[i];
            if let Some(area) = button.area {
                if area_contains(event.column, event.row, area) {
                    proof {
                        assert(button_hit(self.buttons@[i as int], event.column, event.row));
                        assert(button_hit(self@[i as int], event.column, event.row));
                        lemma_first_hit(self@, event.column, event.row);
                        match first_hit(self@, event.column, event.row) {
                            Some(k) => {
                                if k > i {
                                    assert(!button_hit(self@[i as int], event.column, event.row));
                                }
                            },
                            None => {
                                assert(!button_hit(self@[i as int], event.column, event.row));
                            },
                        }
                        assert(first_hit(self@, event.column, event.row) == Some(i as int));
                    }
                    return match event.kind {
                        MouseEventKind::Down(MouseButton::Left) => ToolbarMouseAction::ButtonPress(
                            copy_string(&button.id),
                        ),
                        MouseEventKind::Up(MouseButton::Left) => ToolbarMouseAction::ButtonRelease(
                            copy_string(&button.id),
                        ),
                        _ => ToolbarMouseAction::NoAction,
                    };
                }
            }
            assert(!button_hit(self.buttons@[i as int], event.column, event.row));
        }
        ToolbarMouseAction::NoAction
    }

    /// The buttons, in order.
    pub fn buttons(&self) -> (b: &[ToolbarButton])
        ensures
            b@ == self@,
    {
        self.buttons.as_slice()
    }
}

/// Whether `b` occurs in `v`.
fn contains_button(v: &Vec<MouseButton>, b: MouseButton) -> (r: bool)
    ensures
        r == v@.contains(b),
{
    let n = v.len();
    for i in 0..n
        invariant
            n == v@.len(),
            forall|j: int| 0 <= j < i ==> v@[j] != b,
    {
        if v[i] == b {
            assert(v@[i as int] == b);
            return true;
        }
    }
    false
}

} // verus!
