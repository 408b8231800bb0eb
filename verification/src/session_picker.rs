//! The session picker overlay: the sessions offered, the selected one, its
//! visibility, where it is drawn and the two lines shown per session.

use vstd::prelude::*;
use vstd::utf8::{decode_utf8, encode_utf8, is_char_boundary};
use crate::types::{ChatColorsRgb, Rect, SessionListItem, Style};
use crate::unicode::push_char;
use crate::layout::{format_utc, middle_of_split, split_middle, utc_formatted};
use crate::chat::{decimal, decimal_string_u64};
use crate::completions::{next_index, prev_index, row_style, row_style_of};

verus! {

/// Session picker popup component.
#[derive(Debug)]
pub struct SessionPicker {
    sessions: Vec<SessionListItem>,
    visible: bool,
    selected_index: usize,
    colors: ChatColorsRgb,
}

/// The title shown for a session: its title, or `Unnamed` where it has none.
pub open spec fn shown_title(s: SessionListItem) -> Seq<char> {
    if s.title@.len() == 0 {
        "Unnamed"@
    } else {
        s.title@
    }
}

/// The source shown for a session: its source, or `cli` where it has none.
pub open spec fn shown_source(s: SessionListItem) -> Seq<char> {
    match s.source {
        Some(src) => src@,
        None => "cli"@,
    }
}

/// The start time shown for a session: `YYYY-MM-DD HH:MM` in UTC, or
/// `Unknown` where `chrono` has no such time.
pub open spec fn shown_time(s: SessionListItem) -> Seq<char> {
    match utc_formatted(s.started_at, "%Y-%m-%d %H:%M"@) {
        Some(t) => t,
        None => "Unknown"@,
    }
}

/// The first line shown for a session.
pub open spec fn summary_line(s: SessionListItem) -> Seq<char> {
    shown_title(s) + " (msgs: "@ + decimal(s.message_count as int) + ", time: "@ + shown_time(s)
        + ", source: "@ + shown_source(s) + ")"@
}

/// The preview budget for a popup `width` columns wide.
pub open spec fn preview_budget(width: u16) -> nat {
    if width >= 6 {
        (width - 6) as nat
    } else {
        0
    }
}

/// Where a preview longer than the budget is cut, in bytes.
pub open spec fn preview_cut(width: u16) -> nat {
    if preview_budget(width) >= 3 {
        (preview_budget(width) - 3) as nat
    } else {
        0
    }
}

/// Whether the session's preview can be cut for this width: a
/// preview that is too long is cut by byte offset, which must fall between
/// characters.
pub open spec fn preview_cut_ok(s: SessionListItem, width: u16) -> bool {
    encode_utf8(s.preview@).len() > preview_budget(width) ==> is_char_boundary(
        encode_utf8(s.preview@),
        preview_cut(width) as int,
    )
}

/// The preview shown: whole where its UTF-8 length fits the budget, else
/// its bytes up to the cut, then `...`.
pub open spec fn shown_preview(s: SessionListItem, width: u16) -> Seq<char> {
    let b = encode_utf8(s.preview@);
    if b.len() > preview_budget(width) {
        decode_utf8(b.subrange(0, preview_cut(width) as int)) + "..."@
    } else {
        s.preview@
    }
}

/// The second line shown for a session: an arrow and the preview.
pub open spec fn preview_line(s: SessionListItem, width: u16) -> Seq<char> {
    "  ↳ "@ + shown_preview(s, width)
}

impl SessionPicker {
    /// A visible picker has sessions, and the selection lies among the
    /// sessions where there are any.
    #[verifier::type_invariant]
    spec fn consistent(&self) -> bool {
        &&& self.visible ==> self.sessions@.len() > 0
        &&& self.sessions@.len() > 0 ==> self.selected_index < self.sessions@.len()
    }

    /// The sessions, in order.
    pub closed spec fn sessions_view(&self) -> Seq<SessionListItem> {
        self.sessions@
    }

    /// The listed entries, in order.
    pub fn sessions(&self) -> (v: &[SessionListItem])
        ensures
            v@ == self.sessions_view(),
    {
        self.sessions.as_slice()
    }

    /// The configured colours.
    pub fn colors(&self) -> (c: ChatColorsRgb)
        ensures
            c == self.palette(),
    {
        self.colors
    }

    /// Whether the picker is shown.
    pub closed spec fn shown(&self) -> bool {
        self.visible
    }

    /// The selected index.
    pub closed spec fn selection(&self) -> usize {
        self.selected_index
    }

    /// The configured colours.
    pub closed spec fn palette(&self) -> ChatColorsRgb {
        self.colors
    }

    /// Create a new, hidden session picker.
    pub fn new(colors: ChatColorsRgb) -> (p: Self)
        ensures
            p.sessions_view() == Seq::<SessionListItem>::empty(),
            !p.shown(),
            p.selection() == 0,
            p.palette() == colors,
    {
        SessionPicker { sessions: Vec::new(), visible: false, selected_index: 0, colors }
    }

    /// Show the picker with `sessions`, selecting the first; it stays hidden
    /// where there are none.
    pub fn show(&mut self, sessions: Vec<SessionListItem>)
        ensures
            final(self).sessions_view() == sessions@,
            final(self).selection() == 0,
            final(self).shown() == (sessions@.len() > 0),
            final(self).palette() == old(self).palette(),
    {
        let visible = sessions.len() > 0;
        *self = SessionPicker { sessions, visible, selected_index: 0, colors: self.colors };
    }

    /// Hide the picker and clear its sessions.
    pub fn dismiss(&mut self)
        ensures
            !final(self).shown(),
            final(self).sessions_view() == Seq::<SessionListItem>::empty(),
            final(self).selection() == old(self).selection(),
            final(self).palette() == old(self).palette(),
    {
        *self = SessionPicker {
            sessions: Vec::new(),
            visible: false,
            selected_index: self.selected_index,
            colors: self.colors,
        };
    }

    /// Whether the picker is visible.
    pub fn is_visible(&self) -> (b: bool)
        ensures
            b == self.shown(),
    {
        self.visible
    }

    /// The selected index.
    pub fn selected_index(&self) -> (i: usize)
        ensures
            i == self.selection(),
    {
        self.selected_index
    }

    /// The selected session, while the picker is visible.
    pub fn selected_session(&self) -> (r: Option<&SessionListItem>)
        ensures
            self.shown() ==> self.selection() < self.sessions_view().len() && r == Some(
                &self.sessions_view()[self.selection() as int],
            ),
            !self.shown() ==> r is None,
    {
        proof {
            use_type_invariant(self);
        }
        if self.visible && self.sessions.len() > 0 {
            Some(&self.sessions[self.selected_index])
        } else {
            None
        }
    }

    /// Select the next session, wrapping to the first.
    pub fn select_next(&mut self)
        ensures
            old(self).sessions_view().len() > 0 ==> final(self).selection() == next_index(
                old(self).selection() as int,
                old(self).sessions_view().len() as int,
            ),
            old(self).sessions_view().len() == 0 ==> final(self).selection() == old(self).selection(),
            final(self).sessions_view() == old(self).sessions_view(),
            final(self).shown() == old(self).shown(),
            final(self).palette() == old(self).palette(),
    {
        proof {
            use_type_invariant(&*self);
        }
        if self.sessions.len() > 0 {
            let next = (self.selected_index + 1) % self.sessions.len();
            self.selected_index = next;
        }
    }

    /// Select the previous session, wrapping to the last.
    pub fn select_prev(&mut self)
        ensures
            old(self).sessions_view().len() > 0 ==> final(self).selection() == prev_index(
                old(self).selection() as int,
                old(self).sessions_view().len() as int,
            ),
            old(self).sessions_view().len() == 0 ==> final(self).selection() == old(self).selection(),
            final(self).sessions_view() == old(self).sessions_view(),
            final(self).shown() == old(self).shown(),
            final(self).palette() == old(self).palette(),
    {
        proof {
            use_type_invariant(&*self);
        }
        if self.sessions.len() > 0 {
            if self.selected_index == 0 {
                self.selected_index = self.sessions.len() - 1;
            } else {
                self.selected_index = self.selected_index - 1;
            }
        }
    }

    /// The style of the session at `index` and whether it is bold: the
    /// selected session stands out.
    pub fn session_style(&self, index: usize) -> (r: (Style, bool))
        ensures
            r == row_style_of(index == self.selection(), self.palette()),
    {
        row_style(index == self.selected_index, self.colors)
    }

    /// Where the picker is drawn: the middle 60% of the area's height and
    /// the middle 80% of that band's width, as `ratatui`'s layout splits them.
    pub fn popup_area(area: Rect) -> (r: Rect)
        ensures
            r == middle_of_split(middle_of_split(area, true, 20, 60), false, 10, 80),
    {
        let band = split_middle(area, true, (100 - 60) / 2, 60);
        split_middle(band, false, (100 - 80) / 2, 80)
    }

    /// The two lines shown for a session in a popup `popup_width` columns
    /// wide: the summary line and the preview line.
    pub fn session_lines(session: &SessionListItem, popup_width: u16) -> (r: (String, String))
        requires
            preview_cut_ok(*session, popup_width),
            encode_utf8(session.preview@).len() <= usize::MAX,
        ensures
            r.0@ == summary_line(*session),
            r.1@ == preview_line(*session, popup_width),
    {
        let mut line1 = String::from_str("");
        proof {
            reveal_strlit("");
        }
        if session.title.as_str().is_empty() {
            line1.append("Unnamed");
        } else {
            line1.append(session.title.as_str());
        }
        line1.append(" (msgs: ");
        line1.append(decimal_string_u64(session.message_count).as_str());
        line1.append(", time: ");
        let ghost before_time = line1@;
        proof {
            reveal_strlit("%Y-%m-%d %H:%M");
        }
        match format_utc(session.started_at, "%Y-%m-%d %H:%M") {
            Some(t) => line1.append(t.as_str()),
            None => line1.append("Unknown"),
        }
        assert(line1@ == before_time + shown_time(*session));
        let ghost before_source = line1@;
        line1.append(", source: ");
        match &session.source {
            Some(src) => line1.append(src.as_str()),
            None => line1.append("cli"),
        }
        assert(line1@ == before_source + ", source: "@ + shown_source(*session));
        line1.append(")");
        proof {
            assert(line1@ =~= summary_line(*session));
        }
        let max_preview_len = popup_width.saturating_sub(6) as usize;
        let preview = session.preview.as_str();
        let mut line2 = String::from_str("  ↳ ");
        if preview.len() > max_preview_len {
            let cut = max_preview_len.saturating_sub(3);
            let (head, _) = preview.split_at(cut);
            proof {
                vstd::utf8::encode_utf8_decode_utf8(head@);
            }
            line2.append(head);
            line2.append("...");
        } else {
            line2.append(preview);
        }
        assert(line2@ =~= preview_line(*session, popup_width));
        (line1, line2)
    }
}

} // verus!
