//! The completion popup shown above the input composer: its items, the
//! selected one, its visibility and where it is drawn.

use vstd::prelude::*;
use crate::types::{ChatColorsRgb, Color, CompletionItem, Rect, Style};
use vstd::arithmetic::div_mod::{lemma_mod_self_0, lemma_small_mod};
use crate::unicode::push_char;
use crate::layout::{rect_new, rect_clamped};

verus! {

/// The index after `sel` in a list of `len` items, wrapping to the first.
pub open spec fn next_index(sel: int, len: int) -> int {
    (sel + 1) % len
}

/// The index before `sel` in a list of `len` items, wrapping to the last.
pub open spec fn prev_index(sel: int, len: int) -> int {
    if sel == 0 {
        len - 1
    } else {
        sel - 1
    }
}

/// Stepping forward and then back, or back and then forward, returns to
/// the same item.
pub proof fn law_next_prev_inverse(sel: int, len: int)
    requires
        0 <= sel < len,
    ensures
        prev_index(next_index(sel, len), len) == sel,
        next_index(prev_index(sel, len), len) == sel,
        0 <= next_index(sel, len) < len,
        0 <= prev_index(sel, len) < len,
{
    if sel + 1 < len {
        lemma_small_mod((sel + 1) as nat, len as nat);
    } else {
        lemma_mod_self_0(len);
    }
    if sel == 0 {
        lemma_small_mod((len - 1) as nat, len as nat);
        lemma_mod_self_0(len);
    } else {
        lemma_small_mod((sel - 1) as nat, len as nat);
        lemma_small_mod(sel as nat, len as nat);
    }
}

/// The style of a listed row and whether it is bold: yellow on the user
/// background, in bold, for the selected row; the user text colour
/// otherwise.
pub open spec fn row_style_of(selected: bool, colors: ChatColorsRgb) -> (Style, bool) {
    if selected {
        (Style { fg: Some(Color::Yellow), bg: Some(colors.user_bg) }, true)
    } else {
        (Style { fg: Some(colors.user_text), bg: None }, false)
    }
}

/// The style of a listed row (`row_style_of`).
pub fn row_style(selected: bool, colors: ChatColorsRgb) -> (r: (Style, bool))
    ensures
        r == row_style_of(selected, colors),
{
    if selected {
        (Style { fg: Some(Color::Yellow), bg: Some(colors.user_bg) }, true)
    } else {
        (Style { fg: Some(colors.user_text), bg: None }, false)
    }
}

/// Completion popup component.
#[derive(Debug)]
pub struct CompletionPopup {
    items: Vec<CompletionItem>,
    visible: bool,
    selected_index: usize,
    colors: ChatColorsRgb,
}

/// The label of an item: a space, its display text, and ` - ` with its
/// description where it has one.
pub open spec fn item_label_of(item: CompletionItem) -> Seq<char> {
    match item.meta {
        Some(desc) => seq![' '] + item.display@ + seq![' ', '-', ' '] + desc@,
        None => seq![' '] + item.display@,
    }
}

impl CompletionPopup {
    /// The popup's items stay consistent with its selection: a visible popup
    /// has items, and the selection lies among the items where there are any.
    #[verifier::type_invariant]
    spec fn consistent(&self) -> bool {
        &&& self.visible ==> self.items@.len() > 0
        &&& self.items@.len() > 0 ==> self.selected_index < self.items@.len()
    }

    /// The items, in order.
    pub closed spec fn items_view(&self) -> Seq<CompletionItem> {
        self.items@
    }

    /// The listed entries, in order.
    pub fn items(&self) -> (v: &[CompletionItem])
        ensures
            v@ == self.items_view(),
    {
        self.items.as_slice()
    }

    /// The configured colours.
    pub fn colors(&self) -> (c: ChatColorsRgb)
        ensures
            c == self.palette(),
    {
        self.colors
    }

    /// Whether the popup is shown.
    pub closed spec fn shown(&self) -> bool {
        self.visible
    }

    /// The selected index.
    pub closed spec fn selection(&self) -> usize {
        self.selected_index
    }

    /// The configured colours.
    pub closed spec fn palette(&self) -> ChatColorsRgb {
        self.colors
    }

    /// Create a new, hidden completion popup.
    pub fn new(colors: ChatColorsRgb) -> (p: Self)
        ensures
            p.items_view() == Seq::<CompletionItem>::empty(),
            !p.shown(),
            p.selection() == 0,
            p.palette() == colors,
    {
        CompletionPopup { items: Vec::new(), visible: false, selected_index: 0, colors }
    }

    /// Show the popup with `items`, selecting the first; it stays hidden
    /// where there are none.
    pub fn show(&mut self, items: Vec<CompletionItem>)
        ensures
            final(self).items_view() == items@,
            final(self).selection() == 0,
            final(self).shown() == (items@.len() > 0),
            final(self).palette() == old(self).palette(),
    {
        let visible = items.len() > 0;
        *self = CompletionPopup { items, visible, selected_index: 0, colors: self.colors };
    }

    /// Hide the popup and clear its items.
    pub fn dismiss(&mut self)
        ensures
            !final(self).shown(),
            final(self).items_view() == Seq::<CompletionItem>::empty(),
            final(self).selection() == old(self).selection(),
            final(self).palette() == old(self).palette(),
    {
        *self = CompletionPopup {
            items: Vec::new(),
            visible: false,
            selected_index: self.selected_index,
            colors: self.colors,
        };
    }

    /// Whether the popup is visible.
    pub fn is_visible(&self) -> (b: bool)
        ensures
            b == self.shown(),
    {
        self.visible
    }

    /// The selected index.
    pub fn selected_index(&self) -> (i: usize)
        ensures
            i == self.selection(),
    {
        self.selected_index
    }

    /// The selected item, while the popup is visible.
    pub fn selected_item(&self) -> (r: Option<&CompletionItem>)
        ensures
            self.shown() ==> self.selection() < self.items_view().len() && r == Some(
                &self.items_view()[self.selection() as int],
            ),
            !self.shown() ==> r is None,
    {
        proof {
            use_type_invariant(self);
        }
        if self.visible && self.items.len() > 0 {
            Some(&self.items[self.selected_index])
        } else {
            None
        }
    }

    /// Select the next item, wrapping to the first.
    pub fn select_next(&mut self)
        ensures
            old(self).items_view().len() > 0 ==> final(self).selection() == next_index(
                old(self).selection() as int,
                old(self).items_view().len() as int,
            ),
            old(self).items_view().len() == 0 ==> final(self).selection() == old(self).selection(),
            final(self).items_view() == old(self).items_view(),
            final(self).shown() == old(self).shown(),
            final(self).palette() == old(self).palette(),
    {
        proof {
            use_type_invariant(&*self);
        }
        if self.items.len() > 0 {
            let next = (self.selected_index + 1) % self.items.len();
            self.selected_index = next;
        }
    }

    /// Select the previous item, wrapping to the last.
    pub fn select_prev(&mut self)
        ensures
            old(self).items_view().len() > 0 ==> final(self).selection() == prev_index(
                old(self).selection() as int,
                old(self).items_view().len() as int,
            ),
            old(self).items_view().len() == 0 ==> final(self).selection() == old(self).selection(),
            final(self).items_view() == old(self).items_view(),
            final(self).shown() == old(self).shown(),
            final(self).palette() == old(self).palette(),
    {
        proof {
            use_type_invariant(&*self);
        }
        if self.items.len() > 0 {
            if self.selected_index == 0 {
                self.selected_index = self.items.len() - 1;
            } else {
                self.selected_index = self.selected_index - 1;
            }
        }
    }

    /// Where the popup is drawn over the composer area: at its corner, as
    /// tall as the items plus a border (at most 8 rows and no taller than
    /// the area) and between 10 and 40 columns wide; nothing while hidden.
    pub fn popup_area(&self, composer_area: Rect) -> (r: Option<Rect>)
        requires
            self.shown() ==> (self.items_view().len() % 65536) + 2 <= u16::MAX,
        ensures
            !self.shown() ==> r is None,
            self.shown() ==> ({
                let h0: int = (self.items_view().len() % 65536) as int + 2;
                let h1: int = if h0 < 8 { h0 } else { 8 };
                let h: int = if h1 < composer_area.height { h1 } else { composer_area.height as int };
                let w0 = if composer_area.width < 40 { composer_area.width } else { 40 };
                let w = if w0 > 10 { w0 } else { 10 };
                r == Some(rect_clamped(composer_area.x, composer_area.y, w, h as u16))
            }),
    {
        proof {
            use_type_invariant(self);
        }
        if !self.visible || self.items.len() == 0 {
            return None;
        }
        let len = self.items.len();
        let count = len as u16;
        assert(count == len % 65536) by (bit_vector)
            requires
                count == len as u16,
        ;
        let h0 = count + 2;
        let h1 = if h0 < 8 { h0 } else { 8 };
        let height = if h1 < composer_area.height { h1 } else { composer_area.height };
        let w0 = if composer_area.width < 40 { composer_area.width } else { 40 };
        let width = if w0 > 10 { w0 } else { 10 };
        Some(rect_new(composer_area.x, composer_area.y, width, height))
    }

    /// The style of the item at `index` and whether it is bold: the
    /// selected item stands out.
    pub fn item_style(&self, index: usize) -> (r: (Style, bool))
        ensures
            r == row_style_of(index == self.selection(), self.palette()),
    {
        row_style(index == self.selected_index, self.colors)
    }

    /// The label shown for an item.
    pub fn item_label(item: &CompletionItem) -> (s: String)
        ensures
            s@ == item_label_of(*item),
    {
        let mut s = String::from_str("");
        proof {
            reveal_strlit("");
        }
        push_char(&mut s, ' ');
        s.append(item.display.as_str());
        match &item.meta {
            Some(desc) => {
                push_char(&mut s, ' ');
                push_char(&mut s, '-');
                push_char(&mut s, ' ');
                s.append(desc.as_str());
                assert(s@ =~= item_label_of(*item));
            },
            None => {
                assert(s@ =~= item_label_of(*item));
            },
        }
        s
    }
}

} // verus!
