//! Cell-aware text helpers and completion triggers.

use vstd::prelude::*;
use vstd::utf8::encode_utf8;
use crate::unicode::{
    cell_width, cell_width_of, cells, chars_of, is_whitespace, push_char, skip_chars, str_columns, str_width,
    string_of, take_chars, trim_end, trim_end_chars, white_space,
};

verus! {

/// Total display cells of a string, as `unicode-width` measures it.
pub fn display_width(s: &str) -> (w: usize)
    ensures
        w == str_columns(s@),
{
    str_width(s)
}


/// A line of styled text as the width math sees it: the contents of its
/// spans, in order.
pub struct Line {
    pub spans: Vec<String>,
}

/// The summed `unicode-width` widths of a sequence of span contents.
pub open spec fn spans_columns(spans: Seq<Seq<char>>) -> nat
    decreases spans.len(),
{
    if spans.len() == 0 {
        0
    } else {
        spans_columns(spans.drop_last()) + (str_columns(spans.last()) as nat)
    }
}

/// Total display cells of a line, summing its span widths.
pub fn line_display_width(line: &Line) -> (w: usize)
    requires
        spans_columns(views(line.spans@)) <= usize::MAX,
    ensures
        w == spans_columns(views(line.spans@)),
{
    let n = line.spans.len();
    let mut total: usize = 0;
    for i in 0..n
        invariant
            n == line.spans@.len(),
            spans_columns(views(line.spans@)) <= usize::MAX,
            total == spans_columns(views(line.spans@).take(i as int)),
    {
        proof {
            lemma_spans_columns_prefix(views(line.spans@), i as int + 1);
            assert(views(line.spans@).take(i + 1).drop_last() =~= views(line.spans@).take(i as int));
        }
        total = total + str_width(line.spans[i].as_str());
    }
    assert(views(line.spans@).take(n as int) =~= views(line.spans@));
    total
}

/// The line's width, or `None` where the sum does not fit in a `usize`.
pub fn checked_line_display_width(line: &Line) -> (w: Option<usize>)
    ensures
        spans_columns(views(line.spans@)) <= usize::MAX ==> w == Some(
            spans_columns(views(line.spans@)) as usize,
        ),
        spans_columns(views(line.spans@)) > usize::MAX ==> w is None,
{
    let n = line.spans.len();
    let mut total: usize = 0;
    for i in 0..n
        invariant
            n == line.spans@.len(),
            total == spans_columns(views(line.spans@).take(i as int)),
    {
        assert(views(line.spans@).take(i + 1).drop_last() =~= views(line.spans@).take(i as int));
        match total.checked_add(str_width(line.spans[i].as_str())) {
            Some(t) => {
                total = t;
            },
            None => {
                proof {
                    lemma_spans_columns_prefix(views(line.spans@), i as int + 1);
                }
                return None;
            },
        }
    }
    assert(views(line.spans@).take(n as int) =~= views(line.spans@));
    Some(line_display_width(line))
}

proof fn lemma_spans_columns_prefix(spans: Seq<Seq<char>>, k: int)
    requires
        0 <= k <= spans.len(),
    ensures
        spans_columns(spans.take(k)) <= spans_columns(spans),
    decreases spans.len() - k,
{
    if k < spans.len() {
        lemma_spans_columns_prefix(spans, k + 1);
        assert(spans.take(k + 1).drop_last() =~= spans.take(k));
    } else {
        assert(spans.take(k) =~= spans);
    }
}

/// Whether `c` continues a grapheme across the zero width joiner that ends
/// `cur`: the joiner follows a character that is not white space, and
/// `unicode-width` gives that character, the joiner and `c` together no more
/// columns than the character and the joiner alone (as it does for an emoji
/// ZWJ sequence, which it draws two columns wide).
pub open spec fn joins_grapheme(cur: Seq<char>, c: char) -> bool {
    &&& cur.len() >= 2
    &&& cur.last() == '\u{200D}'
    &&& !white_space(cur[cur.len() - 2])
    &&& str_columns(seq![cur[cur.len() - 2], '\u{200D}', c]) <= str_columns(seq![cur[cur.len() - 2], '\u{200D}'])
}

/// The cells a line takes: the sum of the cell widths of its characters,
/// where a character that continues a grapheme across a zero width joiner
/// takes none (it is drawn as part of that grapheme).
pub open spec fn line_cells(s: Seq<char>) -> nat
    decreases s.len(),
{
    if s.len() == 0 {
        0
    } else {
        line_cells(s.drop_last()) + if joins_grapheme(s.drop_last(), s.last()) {
            0nat
        } else {
            cell_width(s.last())
        }
    }
}

/// Whether `unicode-width` gives `prev`, a zero width joiner and `c`
/// together no more columns than `prev` and the joiner.
fn continues_across_joiner(prev: char, c: char) -> (b: bool)
    ensures
        b == (str_columns(seq![prev, '\u{200D}', c]) <= str_columns(seq![prev, '\u{200D}'])),
{
    let mut t = String::from_str("");
    proof {
        reveal_strlit("");
    }
    push_char(&mut t, prev);
    push_char(&mut t, '\u{200D}');
    assert(t@ =~= seq![prev, '\u{200D}']);
    let w2 = str_width(t.as_str());
    push_char(&mut t, c);
    assert(t@ =~= seq![prev, '\u{200D}', c]);
    let w3 = str_width(t.as_str());
    w3 <= w2
}

/// The state of the wrapping walk after some characters: the finished
/// lines, the line being filled, and the position in it of the last white
/// space at which it may break.
pub struct WrapState {
    pub lines: Seq<Seq<char>>,
    pub cur: Seq<char>,
    pub brk: Option<nat>,
}

/// The state before any character is read.
pub open spec fn wrap_start() -> WrapState {
    WrapState { lines: seq![], cur: seq![], brk: None }
}

/// The line being filled is cut at its last break: its head, without
/// trailing white space, becomes a line and the part after the break stays;
/// with no break, it becomes a line as it is.
pub open spec fn wrap_overflow(st: WrapState) -> WrapState {
    match st.brk {
        Some(b) => WrapState {
            lines: st.lines.push(trim_end(st.cur.take(b as int))),
            cur: st.cur.skip(b + 1int),
            brk: None,
        },
        None => WrapState { lines: st.lines.push(st.cur), cur: seq![], brk: None },
    }
}

/// Room for a character of `cw` cells: the line is cut at its last break,
/// and where what stays still leaves no room, it becomes a line too.
pub open spec fn make_room(st: WrapState, cw: nat, max_cells: nat) -> WrapState {
    let st1 = wrap_overflow(st);
    if st1.cur.len() > 0 && line_cells(st1.cur) + cw > max_cells {
        WrapState { lines: st1.lines.push(st1.cur), cur: seq![], brk: None }
    } else {
        st1
    }
}

/// The line that white space ends when it does not fit: the line being
/// filled, without its trailing white space where it has a break.
pub open spec fn ended_line(st: WrapState) -> Seq<char> {
    if st.brk is None {
        st.cur
    } else {
        trim_end(st.cur)
    }
}

/// One step of the wrapping walk over the character `c`. A line feed ends
/// the line. A character without cells, or one that continues a grapheme
/// after a zero width joiner, joins the line. White space that does not fit
/// on a line holding something ends that line (`ended_line`) and is
/// dropped; any other character that does not fit makes room first. White
/// space inside a line marks a break.
pub open spec fn wrap_step(st: WrapState, c: char, max_cells: nat) -> WrapState {
    if c == '\n' {
        WrapState { lines: st.lines.push(st.cur), cur: seq![], brk: None }
    } else if cell_width(c) == 0 || joins_grapheme(st.cur, c) {
        WrapState { cur: st.cur.push(c), ..st }
    } else {
        let cw = cell_width(c);
        let over = st.cur.len() > 0 && line_cells(st.cur) + cw > max_cells;
        if over && white_space(c) {
            WrapState { lines: st.lines.push(ended_line(st)), cur: seq![], brk: None }
        } else {
            let st1 = if over { make_room(st, cw, max_cells) } else { st };
            WrapState {
                lines: st1.lines,
                cur: st1.cur.push(c),
                brk: if white_space(c) && st1.cur.len() > 0 { Some(st1.cur.len()) } else { st1.brk },
            }
        }
    }
}

/// The state after walking all of `s`.
pub open spec fn wrap_state(s: Seq<char>, max_cells: nat) -> WrapState
    decreases s.len(),
{
    if s.len() == 0 {
        wrap_start()
    } else {
        wrap_step(wrap_state(s.drop_last(), max_cells), s.last(), max_cells)
    }
}

/// The lines that `wrap_display_cells` returns for `s`: the whole string
/// where `max_cells` is 0; otherwise the finished lines of the walk, then
/// the last line if it is not empty or if there is no other.
pub open spec fn wrap_lines(s: Seq<char>, max_cells: nat) -> Seq<Seq<char>> {
    if max_cells == 0 {
        seq![s]
    } else {
        let st = wrap_state(s, max_cells);
        if st.cur.len() > 0 || st.lines.len() == 0 {
            st.lines.push(st.cur)
        } else {
            st.lines
        }
    }
}

/// The characters of each string in a vector.
pub open spec fn views(v: Seq<String>) -> Seq<Seq<char>> {
    v.map_values(|l: String| l@)
}

/// The break position as a natural number.
pub open spec fn opt_nat(o: Option<usize>) -> Option<nat> {
    match o {
        Some(b) => Some(b as nat),
        None => None,
    }
}

/// Appending a character adds its cells, or none where it continues a
/// grapheme across a zero width joiner.
pub proof fn lemma_line_cells_push(s: Seq<char>, c: char)
    ensures
        line_cells(s.push(c)) == line_cells(s) + if joins_grapheme(s, c) { 0nat } else { cell_width(c) },
{
    assert(s.push(c).drop_last() =~= s);
}

/// The cells of a concatenation add up where the first part is empty or
/// ends in white space.
pub proof fn lemma_line_cells_concat(a: Seq<char>, b: Seq<char>)
    requires
        a.len() == 0 || white_space(a.last()),
    ensures
        line_cells(a + b) == line_cells(a) + line_cells(b),
    decreases b.len(),
{
    if b.len() == 0 {
        assert(a + b =~= a);
    } else {
        lemma_line_cells_concat(a, b.drop_last());
        let p = b.drop_last();
        assert((a + b).drop_last() =~= a + p);
        assert((a + b).last() == b.last());
        if p.len() == 0 {
            assert(a + p =~= a);
        } else if p.len() == 1 {
            assert((a + p).last() == p.last());
            if a.len() > 0 {
                assert((a + p)[(a + p).len() - 2] == a.last());
            }
        } else {
            assert((a + p).last() == p.last());
            assert((a + p)[(a + p).len() - 2] == p[p.len() - 2]);
        }
    }
}

/// A prefix takes no more cells than the whole.
pub proof fn lemma_line_cells_prefix(s: Seq<char>, n: int)
    requires
        0 <= n <= s.len(),
    ensures
        line_cells(s.take(n)) <= line_cells(s),
    decreases s.len(),
{
    if n == s.len() {
        assert(s.take(n) =~= s);
    } else {
        lemma_line_cells_prefix(s.drop_last(), n);
        assert(s.drop_last().take(n) =~= s.take(n));
    }
}

/// Without zero width joiners, a line takes the sum of its characters'
/// cells.
pub proof fn lemma_line_cells_without_joiner(s: Seq<char>)
    requires
        !s.contains('\u{200D}'),
    ensures
        line_cells(s) == cells(s),
    decreases s.len(),
{
    if s.len() > 0 {
        let p = s.drop_last();
        assert(!p.contains('\u{200D}')) by {
            if p.contains('\u{200D}') {
                let i = choose|i: int| 0 <= i < p.len() && p[i] == '\u{200D}';
                assert(s[i] == '\u{200D}');
            }
        }
        lemma_line_cells_without_joiner(p);
        if p.len() > 0 {
            assert(s[p.len() - 1] == p.last());
        }
    }
}

/// Wrap a string to at most `max_cells` display cells per line, breaking at
/// the last white space where it can and hard-breaking otherwise; a `\n`
/// always ends a line, and a grapheme continued by a zero width joiner is
/// never split.
pub fn wrap_display_cells(s: &str, max_cells: usize) -> (lines: Vec<String>)
    ensures
        views(lines@) == wrap_lines(s@, max_cells as nat),
{
    if max_cells == 0 {
        let mut one: Vec<String> = Vec::new();
        one.push(String::from_str(s));
        assert(views(one@) =~= seq![s@]);
        return one;
    }
    let chars = chars_of(s);
    let n = chars.len();
    let mut lines: Vec<String> = Vec::new();
    let mut current: Vec<char> = Vec::new();
    let mut current_cells: usize = 0;
    let mut last_break: Option<usize> = None;
    let mut last_break_cells: usize = 0;
    let mut i: usize = 0;
    assert(views(lines@) =~= Seq::<Seq<char>>::empty());
    assert(current@ =~= Seq::<char>::empty());
    assert(chars@.take(0) =~= Seq::<char>::empty());
    while i < n
        invariant
            n == chars@.len(),
            chars@ == s@,
            i <= n,
            max_cells > 0,
            current_cells == line_cells(current@),
            last_break matches Some(b) ==> {
                &&& b < current@.len()
                &&& white_space(current@[b as int])
                &&& last_break_cells == line_cells(current@.take(b + 1))
            },
            wrap_state(chars@.take(i as int), max_cells as nat) == (WrapState {
                lines: views(lines@),
                cur: current@,
                brk: opt_nat(last_break),
            }),
        decreases n - i,
    {
        let c = chars[i];
        let ghost prev = wrap_state(chars@.take(i as int), max_cells as nat);
        assert(chars@.take(i + 1).drop_last() =~= chars@.take(i as int));
        assert(chars@.take(i + 1).last() == c);
        if c == '\n' {
            let line = string_of(current.as_slice());
            lines.push(line);
            current = Vec::new();
            current_cells = 0;
            last_break = None;
            last_break_cells = 0;
            assert(views(lines@) =~= prev.lines.push(prev.cur));
            assert(current@ =~= Seq::<char>::empty());
            i = i + 1;
            continue;
        }
        let cw = cell_width_of(c);
        let len = current.len();
        let joined = len >= 2 && current[len - 1] == '\u{200D}' && !is_whitespace(current[len - 2])
            && continues_across_joiner(current[len - 2], c);
        if cw == 0 || joined {
            proof {
                lemma_line_cells_push(current@, c);
                if let Some(b) = last_break {
                    assert(current@.push(c).take(b + 1) =~= current@.take(b + 1));
                }
            }
            current.push(c);
            i = i + 1;
            continue;
        }
        let ws = is_whitespace(c);
        let over = current.len() > 0 && (cw > max_cells || current_cells > max_cells - cw);
        let ghost old_cur = current@;
        if over && ws {
            let head = match last_break {
                None => {
                    let whole = take_chars(&current, current.len());
                    assert(current@.take(current@.len() as int) =~= current@);
                    whole
                },
                Some(_) => trim_end_chars(&current),
            };
            lines.push(string_of(head.as_slice()));
            assert(views(lines@) =~= prev.lines.push(ended_line(prev)));
            current = Vec::new();
            current_cells = 0;
            last_break = None;
            last_break_cells = 0;
            assert(current@ =~= Seq::<char>::empty());
            i = i + 1;
            continue;
        }
        if over {
            match last_break {
                Some(b) => {
                    let head = trim_end_chars(&take_chars(&current, b));
                    let tail = skip_chars(&current, b + 1);
                    proof {
                        assert(current@.take(b + 1) + tail@ =~= current@);
                        assert(current@.take(b + 1).last() == current@[b as int]);
                        lemma_line_cells_concat(current@.take(b + 1), tail@);
                    }
                    lines.push(string_of(head.as_slice()));
                    current = tail;
                    current_cells = current_cells - last_break_cells;
                    last_break = None;
                    last_break_cells = 0;
                    assert(views(lines@) =~= prev.lines.push(trim_end(prev.cur.take(b as int))));
                    proof {
                        if current@.len() > 0 {
                            assert(current@.last() == old_cur.last());
                        }
                    }
                },
                None => {
                    let line = string_of(current.as_slice());
                    lines.push(line);
                    current = Vec::new();
                    current_cells = 0;
                    assert(views(lines@) =~= prev.lines.push(prev.cur));
                    assert(current@ =~= Seq::<char>::empty());
                },
            }
            if current.len() > 0 && (cw > max_cells || current_cells > max_cells - cw) {
                let ghost before = views(lines@);
                let line = string_of(current.as_slice());
                lines.push(line);
                assert(views(lines@) =~= before.push(current@));
                current = Vec::new();
                current_cells = 0;
                assert(current@ =~= Seq::<char>::empty());
            }
        }
        proof {
            lemma_line_cells_push(current@, c);
            if let Some(b) = last_break {
                assert(current@.push(c).take(b + 1) =~= current@.take(b + 1));
            }
        }
        if ws && current.len() > 0 {
            last_break = Some(current.len());
            last_break_cells = current_cells + cw;
            assert(current@.push(c).take(current@.len() + 1int) =~= current@.push(c));
        }
        current.push(c);
        current_cells = current_cells + cw;
        i = i + 1;
    }
    assert(chars@.take(n as int) =~= s@);
    if current.len() > 0 || lines.len() == 0 {
        let line = string_of(current.as_slice());
        lines.push(line);
        assert(views(lines@) =~= wrap_state(s@, max_cells as nat).lines.push(
            wrap_state(s@, max_cells as nat).cur,
        ));
    }
    lines
}


/// No character of `s` is a line feed.
pub open spec fn no_newline(s: Seq<char>) -> bool {
    forall|i: int| 0 <= i < s.len() ==> s[i] != '\n'
}

/// Every character of `s` other than a line feed takes at most `max_cells`
/// cells.
pub open spec fn each_fits(s: Seq<char>, max_cells: nat) -> bool {
    forall|i: int| 0 <= i < s.len() && s[i] != '\n' ==> #[trigger] cell_width(s[i]) <= max_cells
}

/// What holds of every state of the walk: finished lines and the line being
/// filled hold no line feed, and a remembered break is a white space inside
/// the line.
pub open spec fn wrap_shape(st: WrapState) -> bool {
    &&& forall|k: int| 0 <= k < st.lines.len() ==> no_newline(#[trigger] st.lines[k])
    &&& no_newline(st.cur)
    &&& st.brk matches Some(b) ==> b < st.cur.len() && white_space(st.cur[b as int])
}

/// The cell budget of every state of the walk: finished lines and the line
/// being filled fit.
pub open spec fn wrap_fits(st: WrapState, max_cells: nat) -> bool {
    &&& forall|k: int| 0 <= k < st.lines.len() ==> line_cells(#[trigger] st.lines[k]) <= max_cells
    &&& line_cells(st.cur) <= max_cells
}

proof fn lemma_no_newline_sub(s: Seq<char>, a: int, b: int)
    requires
        no_newline(s),
        0 <= a <= b <= s.len(),
    ensures
        no_newline(s.subrange(a, b)),
{
    assert forall|i: int| 0 <= i < s.subrange(a, b).len() implies s.subrange(a, b)[i] != '\n' by {
        assert(s.subrange(a, b)[i] == s[a + i]);
    }
}

proof fn lemma_trim_end_no_newline(s: Seq<char>)
    requires
        no_newline(s),
    ensures
        no_newline(trim_end(s)),
{
    crate::unicode::lemma_trim_end_prefix(s);
    lemma_no_newline_sub(s, 0, trim_end(s).len() as int);
    assert(s.subrange(0, trim_end(s).len() as int) =~= s.take(trim_end(s).len() as int));
}

proof fn lemma_wrap_shape(s: Seq<char>, max_cells: nat)
    ensures
        wrap_shape(wrap_state(s, max_cells)),
    decreases s.len(),
{
    if s.len() > 0 {
        lemma_wrap_shape(s.drop_last(), max_cells);
        let st = wrap_state(s.drop_last(), max_cells);
        let c = s.last();
        let st2 = wrap_state(s, max_cells);
        if c == '\n' {
        } else if cell_width(c) == 0 || joins_grapheme(st.cur, c) {
            if let Some(b) = st.brk {
                assert(st2.cur[b as int] == st.cur[b as int]);
            }
        } else {
            let cw = cell_width(c);
            let over = st.cur.len() > 0 && line_cells(st.cur) + cw > max_cells;
            let st1 = if over { make_room(st, cw, max_cells) } else { st };
            if over && white_space(c) && st.brk is Some {
                lemma_trim_end_no_newline(st.cur);
            }
            assert(wrap_shape(st1)) by {
                if over {
                    let st0 = wrap_overflow(st);
                    if let Some(b) = st.brk {
                        lemma_no_newline_sub(st.cur, 0, b as int);
                        assert(st.cur.subrange(0, b as int) =~= st.cur.take(b as int));
                        lemma_trim_end_no_newline(st.cur.take(b as int));
                        lemma_no_newline_sub(st.cur, b + 1int, st.cur.len() as int);
                        assert(st.cur.subrange(b + 1int, st.cur.len() as int) =~= st.cur.skip(b + 1int));
                    }
                    assert forall|k: int| 0 <= k < st0.lines.len() implies no_newline(#[trigger] st0.lines[k]) by {
                        if k < st.lines.len() {
                            assert(st0.lines[k] == st.lines[k]);
                        }
                    }
                    assert forall|k: int| 0 <= k < st1.lines.len() implies no_newline(#[trigger] st1.lines[k]) by {
                        if k < st0.lines.len() {
                            assert(st1.lines[k] == st0.lines[k]);
                        }
                    }
                }
            }
            if !(over && white_space(c)) {
                if white_space(c) && st1.cur.len() > 0 {
                    assert(st2.cur[st1.cur.len() as int] == c);
                } else if let Some(b) = st1.brk {
                    assert(st2.cur[b as int] == st1.cur[b as int]);
                }
            }
            assert forall|k: int| 0 <= k < st2.lines.len() implies no_newline(#[trigger] st2.lines[k]) by {
                if over && white_space(c) {
                    if k < st.lines.len() {
                        assert(st2.lines[k] == st.lines[k]);
                    }
                } else if k < st1.lines.len() {
                    assert(st2.lines[k] == st1.lines[k]);
                }
            }
        }
        assert forall|k: int| 0 <= k < st2.lines.len() implies no_newline(#[trigger] st2.lines[k]) by {
            if k < st.lines.len() {
                assert(st2.lines[k] == st.lines[k]);
            }
        }
        assert(no_newline(st2.cur));
    }
}

proof fn lemma_make_room_fits(st: WrapState, cw: nat, max_cells: nat, c: char)
    requires
        wrap_fits(st, max_cells),
        wrap_shape(st),
        !joins_grapheme(st.cur, c),
    ensures
        wrap_fits(make_room(st, cw, max_cells), max_cells),
        !joins_grapheme(make_room(st, cw, max_cells).cur, c),
        make_room(st, cw, max_cells).cur.len() > 0 ==> line_cells(make_room(st, cw, max_cells).cur) + cw
            <= max_cells,
{
    let st0 = wrap_overflow(st);
    let st1 = make_room(st, cw, max_cells);
    match st.brk {
        Some(b) => {
            let head = st.cur.take(b as int);
            let front = st.cur.take(b + 1int);
            let tail = st.cur.skip(b + 1int);
            crate::unicode::lemma_trim_end_prefix(head);
            lemma_line_cells_prefix(head, trim_end(head).len() as int);
            lemma_line_cells_prefix(st.cur, b as int);
            assert(front + tail =~= st.cur);
            assert(front.last() == st.cur[b as int]);
            lemma_line_cells_concat(front, tail);
            if tail.len() >= 2 {
                assert(tail.last() == st.cur.last());
                assert(tail[tail.len() - 2] == st.cur[st.cur.len() - 2]);
            }
        },
        None => {},
    }
    assert forall|k: int| 0 <= k < st0.lines.len() implies line_cells(#[trigger] st0.lines[k]) <= max_cells by {
        if k < st.lines.len() {
            assert(st0.lines[k] == st.lines[k]);
        }
    }
    assert forall|k: int| 0 <= k < st1.lines.len() implies line_cells(#[trigger] st1.lines[k]) <= max_cells by {
        if k < st0.lines.len() {
            assert(st1.lines[k] == st0.lines[k]);
        }
    }
}

proof fn lemma_wrap_fits(s: Seq<char>, max_cells: nat)
    requires
        max_cells >= 1,
        each_fits(s, max_cells),
    ensures
        wrap_fits(wrap_state(s, max_cells), max_cells),
    decreases s.len(),
{
    if s.len() > 0 {
        let p = s.drop_last();
        assert(each_fits(p, max_cells)) by {
            assert forall|i: int| 0 <= i < p.len() && p[i] != '\n' implies #[trigger] cell_width(p[i]) <= max_cells by {
                assert(p[i] == s[i]);
            }
        }
        lemma_wrap_fits(p, max_cells);
        lemma_wrap_shape(p, max_cells);
        let st = wrap_state(p, max_cells);
        let c = s.last();
        let st2 = wrap_state(s, max_cells);
        assert(st2 == wrap_step(st, c, max_cells));
        if c == '\n' {
            assert forall|k: int| 0 <= k < st2.lines.len() implies line_cells(#[trigger] st2.lines[k]) <= max_cells by {
                if k < st.lines.len() {
                    assert(st2.lines[k] == st.lines[k]);
                }
            }
        } else if cell_width(c) == 0 || joins_grapheme(st.cur, c) {
            lemma_line_cells_push(st.cur, c);
        } else {
            assert(cell_width(s[s.len() - 1]) <= max_cells);
            let cw = cell_width(c);
            let over = st.cur.len() > 0 && line_cells(st.cur) + cw > max_cells;
            let st1 = if over { make_room(st, cw, max_cells) } else { st };
            if over && white_space(c) {
                crate::unicode::lemma_trim_end_prefix(st.cur);
                lemma_line_cells_prefix(st.cur, trim_end(st.cur).len() as int);
                assert(line_cells(ended_line(st)) <= max_cells);
                assert forall|k: int| 0 <= k < st2.lines.len() implies line_cells(#[trigger] st2.lines[k]) <= max_cells by {
                    if k < st.lines.len() {
                        assert(st2.lines[k] == st.lines[k]);
                    }
                }
            } else {
                if over {
                    lemma_make_room_fits(st, cw, max_cells, c);
                }
                lemma_line_cells_push(st1.cur, c);
                assert(line_cells(st1.cur) + cw <= max_cells);
            }
        }
    }
}

/// Holds of the characters that are not white space.
pub open spec fn printing() -> spec_fn(char) -> bool {
    |c: char| !white_space(c)
}

/// The characters of `s` that are not white space, in order.
pub open spec fn visible(s: Seq<char>) -> Seq<char> {
    s.filter(printing())
}

/// The lines written one after another.
pub open spec fn joined(ls: Seq<Seq<char>>) -> Seq<char>
    decreases ls.len(),
{
    if ls.len() == 0 {
        seq![]
    } else {
        joined(ls.drop_last()) + ls.last()
    }
}

proof fn lemma_visible_concat(a: Seq<char>, b: Seq<char>)
    ensures
        visible(a + b) == visible(a) + visible(b),
{
    Seq::filter_distributes_over_add(a, b, printing());
}

proof fn lemma_visible_push(a: Seq<char>, c: char)
    ensures
        visible(a.push(c)) == if white_space(c) { visible(a) } else { visible(a).push(c) },
{
    a.lemma_filter_push(c, printing());
}

proof fn lemma_visible_trim_end(x: Seq<char>)
    ensures
        visible(trim_end(x)) == visible(x),
    decreases x.len(),
{
    if x.len() > 0 && white_space(x.last()) {
        lemma_visible_trim_end(x.drop_last());
        assert(x.drop_last().push(x.last()) =~= x);
        lemma_visible_push(x.drop_last(), x.last());
    }
}

proof fn lemma_joined_push(ls: Seq<Seq<char>>, l: Seq<char>)
    ensures
        joined(ls.push(l)) == joined(ls) + l,
{
    assert(ls.push(l).drop_last() =~= ls);
}

/// What the walk keeps of its input: every character that is not white
/// space is in the finished lines or the line being filled, in order.
pub open spec fn wrap_keeps(st: WrapState, read: Seq<char>) -> bool {
    visible(joined(st.lines) + st.cur) == visible(read)
}

proof fn lemma_wrap_keeps(s: Seq<char>, max_cells: nat)
    ensures
        wrap_keeps(wrap_state(s, max_cells), s),
    decreases s.len(),
{
    if s.len() == 0 {
        assert(s =~= Seq::<char>::empty());
        assert(visible(Seq::<char>::empty()) =~= Seq::<char>::empty()) by {
            reveal(Seq::filter);
        }
        assert(joined(Seq::<Seq<char>>::empty()) + Seq::<char>::empty() =~= Seq::<char>::empty());
    } else {
        let p = s.drop_last();
        let c = s.last();
        lemma_wrap_keeps(p, max_cells);
        lemma_wrap_shape(p, max_cells);
        let st = wrap_state(p, max_cells);
        let st2 = wrap_state(s, max_cells);
        assert(p.push(c) =~= s);
        lemma_visible_push(p, c);
        lemma_visible_concat(joined(st.lines), st.cur);
        if c == '\n' {
            assert(white_space(c));
            lemma_joined_push(st.lines, st.cur);
            assert(joined(st2.lines) + st2.cur =~= joined(st.lines) + st.cur);
            assert(visible(joined(st2.lines) + st2.cur) == visible(s));
        } else if cell_width(c) == 0 || joins_grapheme(st.cur, c) {
            assert(joined(st2.lines) + st2.cur =~= (joined(st.lines) + st.cur).push(c));
            lemma_visible_push(joined(st.lines) + st.cur, c);
        } else {
            let cw = cell_width(c);
            let over = st.cur.len() > 0 && line_cells(st.cur) + cw > max_cells;
            let st1 = if over { make_room(st, cw, max_cells) } else { st };
            if over && white_space(c) {
                lemma_joined_push(st.lines, ended_line(st));
                lemma_visible_trim_end(st.cur);
                lemma_visible_concat(joined(st.lines), ended_line(st));
                assert(joined(st2.lines) + st2.cur =~= joined(st.lines) + ended_line(st));
                assert(visible(joined(st2.lines) + st2.cur) == visible(s));
            } else {
                assert(visible(joined(st1.lines) + st1.cur) == visible(joined(st.lines) + st.cur)) by {
                    if over {
                        let st0 = wrap_overflow(st);
                        match st.brk {
                            Some(b) => {
                                let head = st.cur.take(b as int);
                                let tail = st.cur.skip(b + 1int);
                                lemma_joined_push(st.lines, trim_end(head));
                                assert(st0.cur == tail);
                                assert(st.cur =~= head.push(st.cur[b as int]) + tail);
                                lemma_visible_concat(head.push(st.cur[b as int]), tail);
                                lemma_visible_push(head, st.cur[b as int]);
                                lemma_visible_trim_end(head);
                                lemma_visible_concat(joined(st.lines), trim_end(head));
                                lemma_visible_concat(joined(st.lines) + trim_end(head), tail);
                                lemma_visible_concat(joined(st.lines), st.cur);
                                assert(visible(joined(st0.lines) + st0.cur) =~= visible(joined(st.lines)) + visible(head)
                                    + visible(tail));
                            },
                            None => {
                                lemma_joined_push(st.lines, st.cur);
                                assert(joined(st0.lines) + st0.cur =~= joined(st.lines) + st.cur);
                            },
                        }
                        if st0.cur.len() > 0 && line_cells(st0.cur) + cw > max_cells {
                            lemma_joined_push(st0.lines, st0.cur);
                            assert(joined(st1.lines) + st1.cur =~= joined(st0.lines) + st0.cur);
                        }
                    }
                }
                assert(joined(st2.lines) + st2.cur =~= (joined(st1.lines) + st1.cur).push(c));
                lemma_visible_push(joined(st1.lines) + st1.cur, c);
                assert(visible(joined(st2.lines) + st2.cur) == visible(s));
            }
        }
    }
}

/// The lines written one after another, a line feed between each two.
pub open spec fn text_of_lines(ls: Seq<Seq<char>>) -> Seq<char>
    decreases ls.len(),
{
    if ls.len() == 0 {
        seq![]
    } else if ls.len() == 1 {
        ls[0]
    } else {
        text_of_lines(ls.drop_last()).push('\n') + ls.last()
    }
}

/// What comes before the next line when `ls` is written out: its text and
/// a line feed, or nothing where there is no line yet.
pub open spec fn lead(ls: Seq<Seq<char>>) -> Seq<char> {
    if ls.len() == 0 {
        seq![]
    } else {
        text_of_lines(ls).push('\n')
    }
}

/// Whether `s` ends in white space after some character that is not white
/// space.
pub open spec fn after_space(s: Seq<char>) -> bool {
    visible(s).len() > 0 && s.len() > 0 && white_space(s.last())
}

/// For each character of `s` that is not white space, in order: whether
/// white space separates it from the one before it, that is, whether it
/// starts a new word other than the first.
pub open spec fn word_starts(s: Seq<char>) -> Seq<bool>
    decreases s.len(),
{
    if s.len() == 0 {
        seq![]
    } else if white_space(s.last()) {
        word_starts(s.drop_last())
    } else {
        word_starts(s.drop_last()).push(after_space(s.drop_last()))
    }
}

/// `out` separates every two words that `inp` separates, and holds as many
/// characters that are not white space.
pub open spec fn keeps_word_starts(out: Seq<bool>, inp: Seq<bool>) -> bool {
    out.len() == inp.len() && forall|j: int| 0 <= j < inp.len() && #[trigger] inp[j] ==> out[j]
}

/// `w` consists of white space only.
pub open spec fn all_space(w: Seq<char>) -> bool {
    forall|i: int| 0 <= i < w.len() ==> white_space(#[trigger] w[i])
}

/// Two texts read alike: the same characters that are not white space, the
/// same word starts, and alike in ending after white space.
pub open spec fn reads_alike(x: Seq<char>, y: Seq<char>) -> bool {
    &&& visible(x) == visible(y)
    &&& word_starts(x) == word_starts(y)
    &&& after_space(x) == after_space(y)
}

/// The written-out lines keep every word start of the text read so far.
pub open spec fn words_kept(w: Seq<char>, read: Seq<char>) -> bool {
    &&& visible(w) == visible(read)
    &&& keeps_word_starts(word_starts(w), word_starts(read))
    &&& after_space(read) ==> after_space(w)
}

proof fn lemma_text_of_lines_push(ls: Seq<Seq<char>>, l: Seq<char>)
    ensures
        text_of_lines(ls.push(l)) == lead(ls) + l,
{
    if ls.len() == 0 {
        assert(ls.push(l)[0] == l);
        assert(Seq::<char>::empty() + l =~= l);
    } else {
        assert(ls.push(l).drop_last() =~= ls);
    }
}

proof fn lemma_word_starts_len(s: Seq<char>)
    ensures
        word_starts(s).len() == visible(s).len(),
    decreases s.len(),
{
    if s.len() > 0 {
        lemma_word_starts_len(s.drop_last());
        assert(s.drop_last().push(s.last()) =~= s);
        lemma_visible_push(s.drop_last(), s.last());
    }
}

proof fn lemma_alike_push(x: Seq<char>, y: Seq<char>, c: char)
    requires
        reads_alike(x, y),
    ensures
        reads_alike(x.push(c), y.push(c)),
{
    assert(x.push(c).drop_last() =~= x);
    assert(y.push(c).drop_last() =~= y);
    lemma_visible_push(x, c);
    lemma_visible_push(y, c);
}

proof fn lemma_alike_append(x: Seq<char>, y: Seq<char>, t: Seq<char>)
    requires
        reads_alike(x, y),
    ensures
        reads_alike(x + t, y + t),
    decreases t.len(),
{
    if t.len() == 0 {
        assert(x + t =~= x);
        assert(y + t =~= y);
    } else {
        lemma_alike_append(x, y, t.drop_last());
        lemma_alike_push(x + t.drop_last(), y + t.drop_last(), t.last());
        assert((x + t.drop_last()).push(t.last()) =~= x + t);
        assert((y + t.drop_last()).push(t.last()) =~= y + t);
    }
}

/// White space added after `y` changes neither its printing characters nor
/// its word starts, and leaves it ending after white space once it holds a
/// printing character.
proof fn lemma_space_tail(y: Seq<char>, w: Seq<char>)
    requires
        all_space(w),
        w.len() > 0,
    ensures
        visible(y + w) == visible(y),
        word_starts(y + w) == word_starts(y),
        after_space(y + w) == (visible(y).len() > 0),
    decreases w.len(),
{
    let p = w.drop_last();
    assert((y + w).drop_last() =~= y + p);
    assert((y + w).last() == w.last());
    assert(white_space(w[w.len() - 1]));
    lemma_visible_push(y + p, w.last());
    assert((y + p).push(w.last()) =~= y + w);
    if p.len() > 0 {
        assert(all_space(p)) by {
            assert forall|i: int| 0 <= i < p.len() implies white_space(#[trigger] p[i]) by {
                assert(p[i] == w[i]);
            }
        }
        lemma_space_tail(y, p);
    } else {
        assert(y + p =~= y);
    }
}

proof fn lemma_kept_push(w: Seq<char>, r: Seq<char>, c: char)
    requires
        words_kept(w, r),
    ensures
        words_kept(w.push(c), r.push(c)),
{
    assert(w.push(c).drop_last() =~= w);
    assert(r.push(c).drop_last() =~= r);
    lemma_visible_push(w, c);
    lemma_visible_push(r, c);
    if !white_space(c) {
        let gw = word_starts(w.push(c));
        let gr = word_starts(r.push(c));
        assert forall|j: int| 0 <= j < gr.len() && #[trigger] gr[j] implies gw[j] by {
            if j < word_starts(r).len() {
                assert(gr[j] == word_starts(r)[j]);
                assert(gw[j] == word_starts(w)[j]);
            }
        }
    }
}

proof fn lemma_kept_space_left(w: Seq<char>, r: Seq<char>, c: char)
    requires
        words_kept(w, r),
        white_space(c),
    ensures
        words_kept(w.push(c), r),
{
    assert(w.push(c).drop_last() =~= w);
    lemma_visible_push(w, c);
}

proof fn lemma_trim_end_rest(s: Seq<char>)
    ensures
        trim_end(s) + s.skip(trim_end(s).len() as int) == s,
        all_space(s.skip(trim_end(s).len() as int)),
    decreases s.len(),
{
    crate::unicode::lemma_trim_end_prefix(s);
    let n = trim_end(s).len() as int;
    assert(trim_end(s) + s.skip(n) =~= s);
    if s.len() > 0 && white_space(s.last()) {
        lemma_trim_end_rest(s.drop_last());
        assert forall|i: int| 0 <= i < s.skip(n).len() implies white_space(#[trigger] s.skip(n)[i]) by {
            if n + i < s.len() - 1 {
                assert(s.skip(n)[i] == s.drop_last().skip(n)[i]);
            } else {
                assert(s.skip(n)[i] == s.last());
            }
        }
    } else {
        assert(s.skip(n) =~= Seq::<char>::empty());
    }
}

/// Two texts alike after a common head: the head with some trailing white
/// space then more white space, and the head then a line feed.
proof fn lemma_alike_cut(y: Seq<char>, x: Seq<char>, c: char)
    requires
        white_space(c),
    ensures
        reads_alike(y + trim_end(x) + seq!['\n'], y + x.push(c)),
{
    lemma_trim_end_rest(x);
    let t = trim_end(x);
    let rest = x.skip(t.len() as int);
    let w1 = rest.push(c);
    assert(all_space(w1)) by {
        assert forall|i: int| 0 <= i < w1.len() implies white_space(#[trigger] w1[i]) by {
            if i < rest.len() {
                assert(w1[i] == rest[i]);
            }
        }
    }
    assert(all_space(seq!['\n'])) by {
        assert forall|i: int| 0 <= i < seq!['\n'].len() implies white_space(#[trigger] seq!['\n'][i]) by {
            assert(seq!['\n'][i] == '\n');
        }
    }
    assert(y + x.push(c) =~= (y + t) + w1);
    assert(y + t + seq!['\n'] =~= (y + t) + seq!['\n']);
    lemma_space_tail(y + t, w1);
    lemma_space_tail(y + t, seq!['\n']);
}

proof fn lemma_one_space(w: Seq<char>)
    requires
        w.len() == 1,
        white_space(w[0]),
    ensures
        all_space(w),
{
    assert forall|i: int| 0 <= i < w.len() implies white_space(#[trigger] w[i]) by {
        assert(i == 0);
    }
}

#[verifier::rlimit(40)]
proof fn lemma_wrap_words(s: Seq<char>, max_cells: nat)
    ensures
        words_kept(
            lead(wrap_state(s, max_cells).lines) + wrap_state(s, max_cells).cur,
            s,
        ),
    decreases s.len(),
{
    if s.len() == 0 {
        assert(lead(Seq::<Seq<char>>::empty()) + Seq::<char>::empty() =~= Seq::<char>::empty());
        assert(s =~= Seq::<char>::empty());
    } else {
        let p = s.drop_last();
        let c = s.last();
        lemma_wrap_words(p, max_cells);
        lemma_wrap_shape(p, max_cells);
        let st = wrap_state(p, max_cells);
        let st2 = wrap_state(s, max_cells);
        let w = lead(st.lines) + st.cur;
        let w2 = lead(st2.lines) + st2.cur;
        assert(p.push(c) =~= s);
        if c == '\n' {
            lemma_text_of_lines_push(st.lines, st.cur);
            assert(w2 =~= w.push('\n'));
            lemma_kept_push(w, p, c);
        } else if cell_width(c) == 0 || joins_grapheme(st.cur, c) {
            assert(w2 =~= w.push(c));
            lemma_kept_push(w, p, c);
        } else {
            let cw = cell_width(c);
            let over = st.cur.len() > 0 && line_cells(st.cur) + cw > max_cells;
            if over && white_space(c) {
                lemma_kept_push(w, p, c);
                if st.brk is Some {
                    lemma_text_of_lines_push(st.lines, trim_end(st.cur));
                    assert(w2 =~= lead(st.lines) + trim_end(st.cur) + seq!['\n']);
                    lemma_alike_cut(lead(st.lines), st.cur, c);
                    assert(w.push(c) =~= lead(st.lines) + st.cur.push(c));
                } else {
                    lemma_text_of_lines_push(st.lines, st.cur);
                    assert(w2 =~= w + seq!['\n']);
                    assert(w.push(c) =~= w + seq![c]);
                    lemma_one_space(seq!['\n']);
                    lemma_one_space(seq![c]);
                    lemma_space_tail(w, seq!['\n']);
                    lemma_space_tail(w, seq![c]);
                }
            } else {
                let st1 = if over { make_room(st, cw, max_cells) } else { st };
                let w1 = lead(st1.lines) + st1.cur;
                assert(words_kept(w1, p)) by {
                    if over {
                        let st0 = wrap_overflow(st);
                        let w0 = lead(st0.lines) + st0.cur;
                        match st.brk {
                            Some(b) => {
                                let head = st.cur.take(b as int);
                                let tail = st.cur.skip(b + 1int);
                                lemma_text_of_lines_push(st.lines, trim_end(head));
                                assert(w0 =~= (lead(st.lines) + trim_end(head) + seq!['\n']) + tail);
                                lemma_alike_cut(lead(st.lines), head, st.cur[b as int]);
                                assert(w =~= (lead(st.lines) + head.push(st.cur[b as int])) + tail);
                                lemma_alike_append(
                                    lead(st.lines) + trim_end(head) + seq!['\n'],
                                    lead(st.lines) + head.push(st.cur[b as int]),
                                    tail,
                                );
                            },
                            None => {
                                lemma_text_of_lines_push(st.lines, st.cur);
                                assert(w0 =~= w.push('\n'));
                                lemma_kept_space_left(w, p, '\n');
                            },
                        }
                        if st0.cur.len() > 0 && line_cells(st0.cur) + cw > max_cells {
                            lemma_text_of_lines_push(st0.lines, st0.cur);
                            assert(w1 =~= w0.push('\n'));
                            lemma_kept_space_left(w0, p, '\n');
                        }
                    }
                }
                assert(w2 =~= w1.push(c));
                lemma_kept_push(w1, p, c);
            }
        }
    }
}

/// Wrapping never joins two words: written out with a line feed between
/// lines, the wrapped text holds the input's characters that are not white
/// space, in order, and every word that starts after white space in the
/// input starts after white space there too.
pub proof fn law_wrap_never_joins_words(s: Seq<char>, max_cells: nat)
    ensures
        visible(text_of_lines(wrap_lines(s, max_cells))) == visible(s),
        keeps_word_starts(word_starts(text_of_lines(wrap_lines(s, max_cells))), word_starts(s)),
{
    let out = text_of_lines(wrap_lines(s, max_cells));
    if max_cells == 0 {
        assert(out == s);
    } else {
        lemma_wrap_words(s, max_cells);
        let st = wrap_state(s, max_cells);
        lemma_text_of_lines_push(st.lines, st.cur);
        if !(st.cur.len() > 0 || st.lines.len() == 0) {
            assert(lead(st.lines) + st.cur =~= out.push('\n'));
            assert(out.push('\n').drop_last() =~= out);
            lemma_visible_push(out, '\n');
        }
    }
    lemma_word_starts_len(out);
    lemma_word_starts_len(s);
}

/// Wrapping loses no character that is not white space: the lines, written
/// one after another, hold exactly the input's printing characters in order.
pub proof fn law_wrap_keeps_printing_characters(s: Seq<char>, max_cells: nat)
    ensures
        visible(joined(wrap_lines(s, max_cells))) == visible(s),
{
    if max_cells == 0 {
        lemma_joined_push(Seq::<Seq<char>>::empty(), s);
        assert(seq![s] =~= Seq::<Seq<char>>::empty().push(s));
        assert(Seq::<char>::empty() + s =~= s);
    } else {
        lemma_wrap_keeps(s, max_cells);
        let st = wrap_state(s, max_cells);
        if st.cur.len() > 0 || st.lines.len() == 0 {
            lemma_joined_push(st.lines, st.cur);
        } else {
            assert(st.cur =~= Seq::<char>::empty());
            assert(joined(st.lines) + st.cur =~= joined(st.lines));
        }
    }
}

/// Wrapping yields at least one line.
pub proof fn law_wrap_nonempty(s: Seq<char>, max_cells: nat)
    ensures
        wrap_lines(s, max_cells).len() >= 1,
{
}

/// With a positive width, no wrapped line holds a line feed.
pub proof fn law_wrap_lines_have_no_newline(s: Seq<char>, max_cells: nat)
    requires
        max_cells > 0,
    ensures
        forall|k: int| 0 <= k < wrap_lines(s, max_cells).len()
            ==> no_newline(#[trigger] wrap_lines(s, max_cells)[k]),
{
    lemma_wrap_shape(s, max_cells);
    let st = wrap_state(s, max_cells);
    let r = wrap_lines(s, max_cells);
    assert forall|k: int| 0 <= k < r.len() implies no_newline(#[trigger] r[k]) by {
        if k < st.lines.len() {
            assert(r[k] == st.lines[k]);
        } else {
            assert(r[k] == st.cur);
        }
    }
}

/// Every wrapped line fits in `max_cells` cells, where the width is positive
/// and no character other than a line feed is wider than it.
pub proof fn law_wrap_lines_fit(s: Seq<char>, max_cells: nat)
    requires
        max_cells >= 1,
        each_fits(s, max_cells),
    ensures
        forall|k: int| 0 <= k < wrap_lines(s, max_cells).len()
            ==> line_cells(#[trigger] wrap_lines(s, max_cells)[k]) <= max_cells,
{
    lemma_wrap_fits(s, max_cells);
    let st = wrap_state(s, max_cells);
    let r = wrap_lines(s, max_cells);
    assert forall|k: int| 0 <= k < r.len() implies line_cells(#[trigger] r[k]) <= max_cells by {
        if k < st.lines.len() {
            assert(r[k] == st.lines[k]);
        } else {
            assert(r[k] == st.cur);
        }
    }
}


/// The first word of a line: its characters before its first white space.
pub open spec fn first_word(l: Seq<char>) -> Seq<char>
    decreases l.len(),
{
    if l.len() == 0 || white_space(l[0]) {
        seq![]
    } else {
        seq![l[0]] + first_word(l.skip(1))
    }
}

/// Text on which wrapping fills lines greedily: no line feed, no white
/// space at its start or right after other white space, no zero width
/// joiner, every white space character one cell wide and every other
/// character one or two cells wide and no wider than the line.
pub open spec fn plain_spaced(s: Seq<char>, max_cells: nat) -> bool {
    &&& s.len() > 0 ==> !white_space(s[0])
    &&& forall|i: int| 1 <= i < s.len() && white_space(#[trigger] s[i]) ==> !white_space(s[i - 1])
    &&& forall|i: int|
        0 <= i < s.len() ==> {
            let c = #[trigger] s[i];
            &&& c != '\n'
            &&& c != '\u{200D}'
            &&& 1 <= cell_width(c) <= max_cells
            &&& cell_width(c) <= 2
            &&& white_space(c) ==> cell_width(c) == 1
        }
}

/// Line `m` follows line `l` only because the first word of `m` did not fit
/// after `l` and one more cell of white space.
pub open spec fn word_did_not_fit(l: Seq<char>, m: Seq<char>, max_cells: nat) -> bool {
    line_cells(l) + 1 + line_cells(first_word(m)) > max_cells
}

/// Every two neighbouring lines: the first word of the second did not fit
/// after the first.
pub open spec fn filled_greedily(ls: Seq<Seq<char>>, max_cells: nat) -> bool {
    forall|k: int| 0 <= k < ls.len() - 1 ==> word_did_not_fit(#[trigger] ls[k], ls[k + 1], max_cells)
}

proof fn lemma_first_word_is(l: Seq<char>, m: int)
    requires
        0 <= m <= l.len(),
        forall|i: int| 0 <= i < m ==> !white_space(#[trigger] l[i]),
        m == l.len() || white_space(l[m]),
    ensures
        first_word(l) == l.take(m),
    decreases l.len(),
{
    if l.len() == 0 || white_space(l[0]) {
        assert(l.take(m) =~= Seq::<char>::empty());
    } else {
        let t = l.skip(1);
        assert forall|i: int| 0 <= i < m - 1 implies !white_space(#[trigger] t[i]) by {
            assert(t[i] == l[i + 1]);
        }
        if m - 1 < t.len() {
            assert(t[m - 1] == l[m]);
        }
        lemma_first_word_is(t, m - 1);
        assert(seq![l[0]] + t.take(m - 1) =~= l.take(m));
    }
}

proof fn lemma_first_word_shape(l: Seq<char>)
    ensures
        first_word(l).len() <= l.len(),
        first_word(l) == l.take(first_word(l).len() as int),
        forall|i: int| 0 <= i < first_word(l).len() ==> !white_space(#[trigger] l[i]),
        first_word(l).len() < l.len() ==> white_space(l[first_word(l).len() as int]),
    decreases l.len(),
{
    if !(l.len() == 0 || white_space(l[0])) {
        let t = l.skip(1);
        lemma_first_word_shape(t);
        let f = first_word(t);
        assert(seq![l[0]] + f =~= l.take(f.len() + 1int));
        assert forall|i: int| 0 <= i < f.len() + 1 implies !white_space(#[trigger] l[i]) by {
            if i > 0 {
                assert(l[i] == t[i - 1]);
            }
        }
        if f.len() + 1 < l.len() {
            assert(l[f.len() + 1int] == t[f.len() as int]);
        }
    } else {
        assert(l.take(0) =~= Seq::<char>::empty());
    }
}

/// A line's first word only grows as characters are appended.
proof fn lemma_first_word_push(l: Seq<char>, c: char)
    ensures
        line_cells(first_word(l)) <= line_cells(first_word(l.push(c))),
{
    lemma_first_word_shape(l);
    let m = first_word(l).len() as int;
    let lc = l.push(c);
    assert forall|i: int| 0 <= i < m implies !white_space(#[trigger] lc[i]) by {
        assert(lc[i] == l[i]);
    }
    if m < l.len() {
        assert(lc[m] == l[m]);
        lemma_first_word_is(lc, m);
        assert(lc.take(m) =~= l.take(m));
    } else if white_space(c) {
        lemma_first_word_is(lc, m);
        assert(lc.take(m) =~= l.take(m));
    } else {
        lemma_first_word_is(lc, m + 1);
        assert(lc.take(m + 1).take(m) =~= l.take(m));
        lemma_line_cells_prefix(lc.take(m + 1), m);
    }
}

/// A line without white space is its own first word.
proof fn lemma_first_word_whole(l: Seq<char>)
    requires
        forall|i: int| 0 <= i < l.len() ==> !white_space(#[trigger] l[i]),
    ensures
        first_word(l) == l,
{
    lemma_first_word_is(l, l.len() as int);
    assert(l.take(l.len() as int) =~= l);
}

/// Cutting a line before one of its white space characters keeps its first
/// word.
proof fn lemma_first_word_cut(l: Seq<char>, b: int)
    requires
        0 <= b < l.len(),
        white_space(l[b]),
    ensures
        first_word(l.take(b)) == first_word(l),
{
    lemma_first_word_shape(l);
    let m = first_word(l).len() as int;
    assert(m <= b) by {
        if m > b {
            assert(!white_space(l[b]));
        }
    }
    let t = l.take(b);
    assert forall|i: int| 0 <= i < m implies !white_space(#[trigger] t[i]) by {
        assert(t[i] == l[i]);
    }
    if m < b {
        assert(t[m] == l[m]);
    }
    lemma_first_word_is(t, m);
    assert(t.take(m) =~= l.take(m));
}

/// A line that ends in a character other than white space loses nothing
/// to `trim_end`.
proof fn lemma_trim_end_keeps(x: Seq<char>)
    requires
        x.len() > 0,
        !white_space(x.last()),
    ensures
        trim_end(x) == x,
{
}

/// Without zero width joiners a character adds its own cells.
proof fn lemma_line_cells_push_plain(x: Seq<char>, c: char)
    requires
        forall|i: int| 0 <= i < x.len() ==> #[trigger] x[i] != '\u{200D}',
    ensures
        line_cells(x.push(c)) == line_cells(x) + cell_width(c),
{
    lemma_line_cells_push(x, c);
    if x.len() > 0 {
        assert(x.last() == x[x.len() - 1]);
    }
}

/// Every character of a line takes at least one cell, so a line with a
/// character takes at least one cell.
proof fn lemma_line_cells_positive(x: Seq<char>)
    requires
        x.len() > 0,
        forall|i: int| 0 <= i < x.len() ==> #[trigger] x[i] != '\u{200D}' && cell_width(x[i]) >= 1,
    ensures
        line_cells(x) >= 1,
{
    let p = x.drop_last();
    assert forall|i: int| 0 <= i < p.len() implies #[trigger] p[i] != '\u{200D}' by {
        assert(p[i] == x[i]);
    }
    lemma_line_cells_push_plain(p, x.last());
    assert(p.push(x.last()) =~= x);
    assert(cell_width(x[x.len() - 1]) >= 1);
}

proof fn lemma_filled_push(ls: Seq<Seq<char>>, x: Seq<char>, max_cells: nat)
    requires
        filled_greedily(ls, max_cells),
        ls.len() > 0 ==> word_did_not_fit(ls.last(), x, max_cells),
    ensures
        filled_greedily(ls.push(x), max_cells),
{
    let l2 = ls.push(x);
    assert forall|k: int| 0 <= k < l2.len() - 1 implies word_did_not_fit(#[trigger] l2[k], l2[k + 1], max_cells) by {
        assert(l2[k] == ls[k]);
        if k + 1 < ls.len() {
            assert(l2[k + 1] == ls[k + 1]);
        } else {
            assert(l2[k + 1] == x);
        }
    }
}

/// What holds of every state of the walk over plain spaced text: the line
/// being filled starts with a character other than white space and ends with
/// the last character read, or is empty after white space (or at the start);
/// it is the end of what was read; no two of its white space characters are
/// neighbours; it has no white
/// space after its break (none at all without one); its characters are
/// those of plain spaced text; the finished lines were filled greedily, and
/// the first word of the line being filled did not fit after the last of
/// them.
pub open spec fn greedy_walk(st: WrapState, read: Seq<char>, max_cells: nat) -> bool {
    let cur = st.cur;
    &&& cur.len() <= read.len()
    &&& cur == read.skip(read.len() - cur.len())
    &&& cur.len() > 0 ==> !white_space(cur[0]) && cur.last() == read.last()
    &&& cur.len() == 0 ==> read.len() == 0 || white_space(read.last())
    &&& forall|i: int| 1 <= i < cur.len() && white_space(#[trigger] cur[i]) ==> !white_space(cur[i - 1])
    &&& st.brk is None ==> forall|i: int| 0 <= i < cur.len() ==> !white_space(#[trigger] cur[i])
    &&& st.brk matches Some(b) ==> forall|i: int| b < i < cur.len() ==> !white_space(#[trigger] cur[i])
    &&& forall|i: int|
        0 <= i < cur.len() ==> {
            let c = #[trigger] cur[i];
            &&& c != '\u{200D}'
            &&& 1 <= cell_width(c) <= 2
            &&& white_space(c) ==> cell_width(c) == 1
        }
    &&& filled_greedily(st.lines, max_cells)
    &&& st.lines.len() > 0 ==> word_did_not_fit(st.lines.last(), cur, max_cells)
}

proof fn lemma_plain_spaced_prefix(s: Seq<char>, max_cells: nat)
    requires
        s.len() > 0,
        plain_spaced(s, max_cells),
    ensures
        plain_spaced(s.drop_last(), max_cells),
{
    let p = s.drop_last();
    assert forall|i: int| 1 <= i < p.len() && white_space(#[trigger] p[i]) implies !white_space(p[i - 1]) by {
        assert(p[i] == s[i]);
        assert(p[i - 1] == s[i - 1]);
    }
    assert forall|i: int| 0 <= i < p.len() implies {
        let c = #[trigger] p[i];
        &&& c != '\n'
        &&& c != '\u{200D}'
        &&& 1 <= cell_width(c) <= max_cells
        &&& cell_width(c) <= 2
        &&& white_space(c) ==> cell_width(c) == 1
    } by {
        assert(p[i] == s[i]);
    }
    if p.len() > 0 {
        assert(p[0] == s[0]);
    }
}

proof fn lemma_greedy_walk(s: Seq<char>, max_cells: nat)
    requires
        plain_spaced(s, max_cells),
    ensures
        greedy_walk(wrap_state(s, max_cells), s, max_cells),
    decreases s.len(),
{
    if s.len() == 0 {
        return_empty_walk(max_cells);
        assert(s =~= Seq::<char>::empty());
    } else {
        let p = s.drop_last();
        let c = s.last();
        lemma_plain_spaced_prefix(s, max_cells);
        lemma_greedy_walk(p, max_cells);
        lemma_wrap_shape(p, max_cells);
        let st = wrap_state(p, max_cells);
        let cur = st.cur;
        assert(p.push(c) =~= s);
        let n = s.len();
        assert(c == s[n - 1]);
        assert(c != '\n' && c != '\u{200D}' && 1 <= cell_width(c) <= 2 && cell_width(c) <= max_cells);
        assert(white_space(c) ==> cell_width(c) == 1);
        assert(white_space(c) ==> p.len() > 0 && !white_space(p.last())) by {
            if white_space(c) {
                assert(n >= 2);
                assert(p.last() == s[n - 2]);
            }
        }
        assert(!joins_grapheme(cur, c)) by {
            if cur.len() >= 2 {
                assert(cur.last() == cur[cur.len() - 1]);
            }
        }
        let cw = cell_width(c);
        let over = cur.len() > 0 && line_cells(cur) + cw > max_cells;
        assert(forall|i: int| 0 <= i < cur.len() ==> #[trigger] cur[i] != '\u{200D}');
        if over && white_space(c) {
            lemma_greedy_space_over(st, p, c, max_cells);
        } else if !over {
            lemma_greedy_push(st, p, c, max_cells);
        } else {
            lemma_greedy_over(st, p, c, max_cells);
        }
        assert(wrap_state(s, max_cells) == wrap_step(st, c, max_cells));
    }
}

proof fn lemma_greedy_space_over(st: WrapState, p: Seq<char>, c: char, max_cells: nat)
    requires
        greedy_walk(st, p, max_cells),
        wrap_shape(st),
        c != '\n',
        c != '\u{200D}',
        1 <= cell_width(c) <= 2,
        cell_width(c) <= max_cells,
        white_space(c) ==> cell_width(c) == 1,
        white_space(c) ==> p.len() > 0 && !white_space(p.last()),
        !joins_grapheme(st.cur, c),
        forall|i: int| 0 <= i < st.cur.len() ==> #[trigger] st.cur[i] != '\u{200D}',
        st.cur.len() > 0 && line_cells(st.cur) + cell_width(c) > max_cells && white_space(c),
    ensures
        greedy_walk(wrap_step(st, c, max_cells), p.push(c), max_cells),
{
    let s = p.push(c);
    let cur = st.cur;
    let st2 = wrap_step(st, c, max_cells);
    let cw = cell_width(c);
    assert(s.drop_last() =~= p);
    lemma_trim_end_keeps(cur);
    assert(ended_line(st) == cur);
    lemma_filled_push(st.lines, cur, max_cells);
    assert(first_word(Seq::<char>::empty()) == Seq::<char>::empty());
    assert(s.skip(s.len() as int) =~= Seq::<char>::empty());
}

proof fn lemma_greedy_push(st: WrapState, p: Seq<char>, c: char, max_cells: nat)
    requires
        greedy_walk(st, p, max_cells),
        wrap_shape(st),
        c != '\n',
        c != '\u{200D}',
        1 <= cell_width(c) <= 2,
        cell_width(c) <= max_cells,
        white_space(c) ==> cell_width(c) == 1,
        white_space(c) ==> p.len() > 0 && !white_space(p.last()),
        !joins_grapheme(st.cur, c),
        forall|i: int| 0 <= i < st.cur.len() ==> #[trigger] st.cur[i] != '\u{200D}',
        !(st.cur.len() > 0 && line_cells(st.cur) + cell_width(c) > max_cells),
    ensures
        greedy_walk(wrap_step(st, c, max_cells), p.push(c), max_cells),
{
    let s = p.push(c);
    let cur = st.cur;
    let st2 = wrap_step(st, c, max_cells);
    let cw = cell_width(c);
    assert(s.drop_last() =~= p);
    let cur2 = cur.push(c);
    assert(st2.cur == cur2);
    assert(cur2 =~= s.skip(s.len() - cur2.len()));
    assert(st2.lines == st.lines);
    lemma_first_word_push(cur, c);
    assert(cur.len() == 0 ==> !white_space(c)) by {
        if cur.len() == 0 && white_space(c) {
            assert(p.len() > 0 && !white_space(p.last()));
        }
    }
    if cur.len() > 0 {
        assert(cur.last() == cur[cur.len() - 1]);
        assert(cur2[0] == cur[0]);
    }
    assert forall|i: int| 1 <= i < cur2.len() && white_space(#[trigger] cur2[i]) implies !white_space(cur2[i - 1]) by {
        if i < cur.len() {
            assert(cur2[i] == cur[i]);
            assert(cur2[i - 1] == cur[i - 1]);
        } else {
            assert(cur2[i - 1] == cur[i - 1]);
        }
    }
    assert forall|i: int| 0 <= i < cur2.len() implies {
        let d = #[trigger] cur2[i];
        &&& d != '\u{200D}'
        &&& 1 <= cell_width(d) <= 2
        &&& white_space(d) ==> cell_width(d) == 1
    } by {
        if i < cur.len() {
            assert(cur2[i] == cur[i]);
        }
    }
    if st2.brk is None {
        assert forall|i: int| 0 <= i < cur2.len() implies !white_space(#[trigger] cur2[i]) by {
            if i < cur.len() {
                assert(cur2[i] == cur[i]);
            }
        }
    }
    if let Some(b) = st2.brk {
        assert forall|i: int| b < i < cur2.len() implies !white_space(#[trigger] cur2[i]) by {
            if i < cur.len() {
                assert(cur2[i] == cur[i]);
            }
        }
    }
}

proof fn lemma_greedy_over(st: WrapState, p: Seq<char>, c: char, max_cells: nat)
    requires
        greedy_walk(st, p, max_cells),
        wrap_shape(st),
        c != '\n',
        c != '\u{200D}',
        1 <= cell_width(c) <= 2,
        cell_width(c) <= max_cells,
        white_space(c) ==> cell_width(c) == 1,
        white_space(c) ==> p.len() > 0 && !white_space(p.last()),
        !joins_grapheme(st.cur, c),
        forall|i: int| 0 <= i < st.cur.len() ==> #[trigger] st.cur[i] != '\u{200D}',
        st.cur.len() > 0 && line_cells(st.cur) + cell_width(c) > max_cells && !white_space(c),
    ensures
        greedy_walk(wrap_step(st, c, max_cells), p.push(c), max_cells),
{
    let s = p.push(c);
    let cur = st.cur;
    let st2 = wrap_step(st, c, max_cells);
    let cw = cell_width(c);
    assert(s.drop_last() =~= p);
    lemma_over_room(st, p, c, max_cells);
    let st1 = make_room(st, cw, max_cells);
    let cur2 = st1.cur.push(c);
    assert(st2.cur == cur2);
    assert(st2.lines == st1.lines);
    assert(st2.brk is None);
    assert(cur2 =~= s.skip(s.len() - cur2.len()));
    assert forall|i: int| 0 <= i < cur2.len() implies !white_space(#[trigger] cur2[i]) by {
        if i < st1.cur.len() {
            assert(cur2[i] == st1.cur[i]);
        }
    }
    lemma_first_word_whole(cur2);
    lemma_line_cells_push_plain(st1.cur, c);
    assert forall|i: int| 0 <= i < cur2.len() implies {
        let d = #[trigger] cur2[i];
        &&& d != '\u{200D}'
        &&& 1 <= cell_width(d) <= 2
        &&& white_space(d) ==> cell_width(d) == 1
    } by {
        if i < st1.cur.len() {
            assert(cur2[i] == st1.cur[i]);
        }
    }
    if st1.cur.len() > 0 {
        assert(cur2[0] == st1.cur[0]);
    }
}

proof fn return_empty_walk(max_cells: nat)
    ensures
        greedy_walk(wrap_state(Seq::<char>::empty(), max_cells), Seq::<char>::empty(), max_cells),
{
    assert(filled_greedily(Seq::<Seq<char>>::empty(), max_cells));
    assert(Seq::<char>::empty().skip(0) =~= Seq::<char>::empty());
}

/// Making room over plain spaced text: the lines stay greedily filled, and
/// the line that stays (all one word) with `c` after it does not fit after
/// the last finished line.
proof fn lemma_over_room(st: WrapState, p: Seq<char>, c: char, max_cells: nat)
    requires
        greedy_walk(st, p, max_cells),
        wrap_shape(st),
        !white_space(c),
        1 <= cell_width(c) <= 2,
        st.cur.len() > 0,
        line_cells(st.cur) + cell_width(c) > max_cells,
    ensures
        ({
            let st1 = make_room(st, cell_width(c), max_cells);
            &&& st1.cur.len() <= p.len()
            &&& st1.cur == p.skip(p.len() - st1.cur.len())
            &&& st1.cur.len() > 0 ==> !white_space(st1.cur[0]) && st1.cur.last() == p.last()
            &&& forall|i: int| 1 <= i < st1.cur.len() && white_space(#[trigger] st1.cur[i]) ==> !white_space(st1.cur[i - 1])
            &&& st1.brk is None
            &&& forall|i: int| 0 <= i < st1.cur.len() ==> !white_space(#[trigger] st1.cur[i])
            &&& forall|i: int| 0 <= i < st1.cur.len() ==> {
                let d = #[trigger] st1.cur[i];
                &&& d != '\u{200D}'
                &&& 1 <= cell_width(d) <= 2
                &&& white_space(d) ==> cell_width(d) == 1
            }
            &&& filled_greedily(st1.lines, max_cells)
            &&& st1.lines.len() > 0
            &&& line_cells(st1.lines.last()) + 1 + line_cells(st1.cur) + cell_width(c) > max_cells
        }),
{
    let cw = cell_width(c);
    let cur = st.cur;
    let st0 = wrap_overflow(st);
    let st1 = make_room(st, cw, max_cells);
    assert(forall|i: int| 0 <= i < cur.len() ==> #[trigger] cur[i] != '\u{200D}');
    match st.brk {
        Some(b) => {
            let head = cur.take(b as int);
            let front = cur.take(b + 1int);
            let tail = cur.skip(b + 1int);
            assert(b >= 1) by {
                if b == 0 {
                    assert(!white_space(cur[0]));
                }
            }
            assert(!white_space(cur[b - 1]));
            assert(head.last() == cur[b - 1]);
            lemma_trim_end_keeps(head);
            lemma_first_word_cut(cur, b as int);
            if st.lines.len() > 0 {
                lemma_filled_push(st.lines, head, max_cells);
            } else {
                lemma_filled_push(st.lines, head, max_cells);
            }
            assert(st0.lines == st.lines.push(head));
            assert(front + tail =~= cur);
            assert(front.last() == cur[b as int]);
            lemma_line_cells_concat(front, tail);
            assert(front =~= head.push(cur[b as int]));
            assert forall|i: int| 0 <= i < head.len() implies #[trigger] head[i] != '\u{200D}' by {
                assert(head[i] == cur[i]);
            }
            lemma_line_cells_push_plain(head, cur[b as int]);
            assert(cell_width(cur[b as int]) == 1);
            assert forall|i: int| 0 <= i < tail.len() implies !white_space(#[trigger] tail[i]) by {
                assert(tail[i] == cur[b + 1 + i]);
            }
            assert forall|i: int| 0 <= i < tail.len() implies {
                let d = #[trigger] tail[i];
                &&& d != '\u{200D}'
                &&& 1 <= cell_width(d) <= 2
                &&& white_space(d) ==> cell_width(d) == 1
            } by {
                assert(tail[i] == cur[b + 1 + i]);
            }
            if tail.len() > 0 {
                assert(tail[0] == cur[b + 1int]);
                assert(tail.last() == cur.last());
            }
            assert(tail =~= p.skip(p.len() - tail.len()));
            assert(st0.cur == tail);
            if tail.len() > 0 && line_cells(tail) + cw > max_cells {
                // The part after the break is a word too wide to take `c`: it
                // becomes a line of its own.
                assert forall|i: int| 0 <= i < head.len() implies #[trigger] head[i] != '\u{200D}' && cell_width(head[i]) >= 1 by {
                    assert(head[i] == cur[i]);
                }
                lemma_line_cells_positive(head);
                lemma_first_word_whole(tail);
                lemma_filled_push(st0.lines, tail, max_cells);
                assert(st1.cur =~= Seq::<char>::empty());
                assert(p.skip(p.len() as int) =~= Seq::<char>::empty());
            } else {
                assert(st1 == st0);
            }
        },
        None => {
            lemma_filled_push(st.lines, cur, max_cells);
            assert(st1.lines == st.lines.push(cur));
            assert(st1.cur =~= Seq::<char>::empty());
            assert(p.skip(p.len() as int) =~= Seq::<char>::empty());
        },
    }
}

/// Wrapping fills lines greedily: on plain spaced text, the first word of
/// every line after the first would not have fitted, after one cell of white
/// space, on the line before it.
pub proof fn law_wrap_fills_lines_greedily(s: Seq<char>, max_cells: nat)
    requires
        max_cells >= 1,
        plain_spaced(s, max_cells),
    ensures
        forall|k: int| 0 <= k < wrap_lines(s, max_cells).len() - 1
            ==> line_cells(#[trigger] wrap_lines(s, max_cells)[k]) + 1 + line_cells(
                first_word(wrap_lines(s, max_cells)[k + 1]),
            ) > max_cells,
{
    lemma_greedy_walk(s, max_cells);
    let st = wrap_state(s, max_cells);
    let r = wrap_lines(s, max_cells);
    if st.cur.len() > 0 || st.lines.len() == 0 {
        lemma_filled_push(st.lines, st.cur, max_cells);
    }
    assert(filled_greedily(r, max_cells));
    assert forall|k: int| 0 <= k < r.len() - 1 implies line_cells(#[trigger] r[k]) + 1 + line_cells(first_word(r[k + 1]))
        > max_cells by {
        assert(word_did_not_fit(r[k], r[k + 1], max_cells));
    }
}

/// Every word of `s` (every run of characters without white space) fits on
/// a line of `max_cells` cells.
pub open spec fn words_fit(s: Seq<char>, max_cells: nat) -> bool {
    forall|i: int, j: int|
        0 <= i <= j <= s.len() && (forall|k: int| i <= k < j ==> !white_space(#[trigger] s[k]))
            ==> line_cells(#[trigger] s.subrange(i, j)) <= max_cells
}

/// A run at the end of `s` without white space fits on a line.
proof fn lemma_end_run_fits(s: Seq<char>, r: Seq<char>, max_cells: nat)
    requires
        words_fit(s, max_cells),
        r.len() <= s.len(),
        r == s.skip(s.len() - r.len()),
        forall|k: int| 0 <= k < r.len() ==> !white_space(#[trigger] r[k]),
    ensures
        line_cells(r) <= max_cells,
{
    let i = s.len() - r.len();
    assert(s.subrange(i, s.len() as int) =~= r);
    assert forall|k: int| i <= k < s.len() implies !white_space(#[trigger] s[k]) by {
        assert(s[k] == r[k - i]);
    }
}

proof fn lemma_words_fit_prefix(s: Seq<char>, max_cells: nat)
    requires
        s.len() > 0,
        words_fit(s, max_cells),
    ensures
        words_fit(s.drop_last(), max_cells),
{
    let p = s.drop_last();
    assert forall|i: int, j: int|
        0 <= i <= j <= p.len() && (forall|k: int| i <= k < j ==> !white_space(#[trigger] p[k])) implies line_cells(
        #[trigger] p.subrange(i, j),
    ) <= max_cells by {
        assert(p.subrange(i, j) =~= s.subrange(i, j));
        assert forall|k: int| i <= k < j implies !white_space(#[trigger] s[k]) by {
            assert(s[k] == p[k]);
        }
    }
}

/// Making room never hard-breaks a word when every word fits: the line is
/// cut at its last break and what follows the break stays.
proof fn lemma_room_cuts_at_break(st: WrapState, p: Seq<char>, c: char, max_cells: nat)
    requires
        greedy_walk(st, p, max_cells),
        wrap_shape(st),
        words_fit(p.push(c), max_cells),
        !white_space(c),
        cell_width(c) >= 1,
        st.cur.len() > 0,
        line_cells(st.cur) + cell_width(c) > max_cells,
    ensures
        st.brk is Some,
        make_room(st, cell_width(c), max_cells) == wrap_overflow(st),
{
    let s = p.push(c);
    let cur = st.cur;
    let cw = cell_width(c);
    assert(forall|i: int| 0 <= i < cur.len() ==> #[trigger] cur[i] != '\u{200D}');
    match st.brk {
        None => {
            let r = cur.push(c);
            assert(r =~= s.skip(s.len() - r.len()));
            assert forall|k: int| 0 <= k < r.len() implies !white_space(#[trigger] r[k]) by {
                if k < cur.len() {
                    assert(r[k] == cur[k]);
                }
            }
            lemma_end_run_fits(s, r, max_cells);
            lemma_line_cells_push_plain(cur, c);
        },
        Some(b) => {
            let tail = cur.skip(b + 1int);
            let r = tail.push(c);
            if tail.len() > 0 && line_cells(tail) + cw > max_cells {
                assert(r =~= s.skip(s.len() - r.len()));
                assert forall|k: int| 0 <= k < r.len() implies !white_space(#[trigger] r[k]) by {
                    if k < tail.len() {
                        assert(r[k] == cur[b + 1 + k]);
                    }
                }
                assert forall|i: int| 0 <= i < tail.len() implies #[trigger] tail[i] != '\u{200D}' by {
                    assert(tail[i] == cur[b + 1 + i]);
                }
                lemma_end_run_fits(s, r, max_cells);
                lemma_line_cells_push_plain(tail, c);
            }
            assert(wrap_overflow(st).cur == tail);
        },
    }
}

#[verifier::rlimit(40)]
proof fn lemma_wrap_words_exact(s: Seq<char>, max_cells: nat)
    requires
        plain_spaced(s, max_cells),
        words_fit(s, max_cells),
    ensures
        reads_alike(lead(wrap_state(s, max_cells).lines) + wrap_state(s, max_cells).cur, s),
    decreases s.len(),
{
    if s.len() == 0 {
        assert(lead(Seq::<Seq<char>>::empty()) + Seq::<char>::empty() =~= Seq::<char>::empty());
        assert(s =~= Seq::<char>::empty());
    } else {
        let p = s.drop_last();
        let c = s.last();
        lemma_plain_spaced_prefix(s, max_cells);
        lemma_words_fit_prefix(s, max_cells);
        lemma_wrap_words_exact(p, max_cells);
        lemma_greedy_walk(p, max_cells);
        lemma_wrap_shape(p, max_cells);
        let st = wrap_state(p, max_cells);
        let st2 = wrap_state(s, max_cells);
        let cur = st.cur;
        let w = lead(st.lines) + cur;
        let w2 = lead(st2.lines) + st2.cur;
        assert(p.push(c) =~= s);
        assert(st2 == wrap_step(st, c, max_cells));
        let n = s.len();
        assert(c == s[n - 1]);
        assert(c != '\n' && c != '\u{200D}' && 1 <= cell_width(c));
        assert(!joins_grapheme(cur, c)) by {
            if cur.len() >= 2 {
                assert(cur.last() == cur[cur.len() - 1]);
            }
        }
        lemma_alike_push(w, p, c);
        let cw = cell_width(c);
        let over = cur.len() > 0 && line_cells(cur) + cw > max_cells;
        if over && white_space(c) {
            assert(white_space(c) ==> !white_space(p.last())) by {
                if white_space(c) {
                    assert(p.last() == s[n - 2]);
                }
            }
            lemma_trim_end_keeps(cur);
            assert(ended_line(st) == cur);
            lemma_text_of_lines_push(st.lines, cur);
            assert(w2 =~= w + seq!['\n']);
            assert(w.push(c) =~= w + seq![c]);
            lemma_one_space(seq!['\n']);
            lemma_one_space(seq![c]);
            lemma_space_tail(w, seq!['\n']);
            lemma_space_tail(w, seq![c]);
        } else if !over {
            assert(w2 =~= w.push(c));
        } else {
            lemma_room_cuts_at_break(st, p, c, max_cells);
            let b = st.brk->0;
            let head = cur.take(b as int);
            let tail = cur.skip(b + 1int);
            let st1 = wrap_overflow(st);
            lemma_text_of_lines_push(st.lines, trim_end(head));
            let w1 = lead(st1.lines) + st1.cur;
            assert(w1 =~= (lead(st.lines) + trim_end(head) + seq!['\n']) + tail);
            lemma_alike_cut(lead(st.lines), head, cur[b as int]);
            assert(w =~= (lead(st.lines) + head.push(cur[b as int])) + tail);
            lemma_alike_append(
                lead(st.lines) + trim_end(head) + seq!['\n'],
                lead(st.lines) + head.push(cur[b as int]),
                tail,
            );
            assert(w2 =~= w1.push(c));
            lemma_alike_push(w1, w, c);
        }
    }
}

/// Wrapping splits no word that fits on a line: on plain spaced text whose
/// words all fit, the lines written out with a line feed between each two
/// hold the input's characters that are not white space, in order, and
/// start a word exactly where the input does.
pub proof fn law_wrap_splits_no_fitting_word(s: Seq<char>, max_cells: nat)
    requires
        max_cells >= 1,
        plain_spaced(s, max_cells),
        words_fit(s, max_cells),
    ensures
        visible(text_of_lines(wrap_lines(s, max_cells))) == visible(s),
        word_starts(text_of_lines(wrap_lines(s, max_cells))) == word_starts(s),
{
    lemma_wrap_words_exact(s, max_cells);
    let out = text_of_lines(wrap_lines(s, max_cells));
    let st = wrap_state(s, max_cells);
    lemma_text_of_lines_push(st.lines, st.cur);
    if !(st.cur.len() > 0 || st.lines.len() == 0) {
        assert(lead(st.lines) + st.cur =~= out.push('\n'));
        assert(out.push('\n').drop_last() =~= out);
        lemma_visible_push(out, '\n');
    }
}

/// Whether the first `n` characters of `s` are the longest prefix whose
/// cells fit in `budget`.
pub open spec fn longest_fitting_prefix(s: Seq<char>, n: int, budget: nat) -> bool {
    &&& 0 <= n <= s.len()
    &&& cells(s.take(n)) <= budget
    &&& (n == s.len() || cells(s.take(n + 1)) > budget)
}

/// The length of the longest prefix of `v` whose cells fit in `budget`.
fn fitting_prefix_len(v: &Vec<char>, budget: usize) -> (k: usize)
    ensures
        longest_fitting_prefix(v@, k as int, budget as nat),
{
    let n = v.len();
    let mut used: usize = 0;
    let mut k: usize = 0;
    let mut full = false;
    while k < n && !full
        invariant
            n == v@.len(),
            k <= n,
            used == cells(v@.take(k as int)),
            used <= budget,
            full ==> k < n && cells(v@.take(k + 1)) > budget,
        decreases n - k + (if full { 0int } else { 1int }),
    {
        let cw = cell_width_of(v[k]);
        assert(v@.take(k + 1).drop_last() =~= v@.take(k as int));
        if cw > budget - used {
            full = true;
        } else {
            used = used + cw;
            k = k + 1;
        }
    }
    k
}

/// Truncate a string to at most `max_cells` display cells, appending
/// `ellipsis` when it was cut.
///
/// Nothing is kept where `max_cells` is 0; a string whose width fits is
/// returned whole; where even the ellipsis does not fit, the longest prefix
/// of the ellipsis whose cells fit in `max_cells` is returned; otherwise the longest
/// prefix whose cells fit beside the ellipsis, then the ellipsis.
pub fn truncate_to_cells(s: &str, max_cells: usize, ellipsis: &str) -> (r: String)
    ensures
        max_cells == 0 ==> r@ == Seq::<char>::empty(),
        max_cells > 0 && str_columns(s@) <= max_cells ==> r@ == s@,
        max_cells > 0 && str_columns(s@) > max_cells && max_cells <= str_columns(ellipsis@) ==> {
            &&& r@ == ellipsis@.take(r@.len() as int)
            &&& longest_fitting_prefix(ellipsis@, r@.len() as int, max_cells as nat)
        },
        max_cells > 0 && str_columns(s@) > max_cells && max_cells > str_columns(ellipsis@) ==> {
            &&& r@.len() >= ellipsis@.len()
            &&& r@ == s@.take(r@.len() - ellipsis@.len()) + ellipsis@
            &&& longest_fitting_prefix(
                s@,
                r@.len() - ellipsis@.len(),
                (max_cells - str_columns(ellipsis@)) as nat,
            )
        },
{
    if max_cells == 0 {
        let r = String::from_str("");
        proof {
            reveal_strlit("");
        }
        return r;
    }
    let s_width = str_width(s);
    if s_width <= max_cells {
        return String::from_str(s);
    }
    let ellipsis_w = str_width(ellipsis);
    let e = chars_of(ellipsis);
    if max_cells <= ellipsis_w {
        let k = fitting_prefix_len(&e, max_cells);
        let t = take_chars(&e, k);
        return string_of(t.as_slice());
    }
    let budget = max_cells - ellipsis_w;
    let chars = chars_of(s);
    let k = fitting_prefix_len(&chars, budget);
    let mut out = string_of(take_chars(&chars, k).as_slice());
    out.append(ellipsis);
    assert(out@.len() - e@.len() == k);
    assert(out@ =~= s@.take(k as int) + ellipsis@);
    out
}

/// The result of `truncate_safe` on `t` after `count` visible characters
/// were kept: escape sequences are copied without being counted, and other
/// characters are copied until `max_chars` of them were kept.
pub open spec fn safe_prefix(t: Seq<char>, count: nat, max_chars: nat) -> Seq<char>
    decreases t.len(), 1int,
{
    if t.len() == 0 || count >= max_chars {
        seq![]
    } else if t[0] == '\x1b' {
        if t.len() > 1 && t[1] == '[' {
            seq!['\x1b', '['] + escape_body(t.skip(2), count, max_chars)
        } else {
            seq!['\x1b'] + safe_prefix(t.skip(1), count, max_chars)
        }
    } else {
        seq![t[0]] + safe_prefix(t.skip(1), count + 1, max_chars)
    }
}

/// The rest of `truncate_safe` inside a control sequence: each character is
/// copied, up to and including a final character in `@..=~`.
pub open spec fn escape_body(t: Seq<char>, count: nat, max_chars: nat) -> Seq<char>
    decreases t.len(), 0int,
{
    if t.len() == 0 {
        seq![]
    } else if '@' <= t[0] <= '~' {
        seq![t[0]] + safe_prefix(t.skip(1), count, max_chars)
    } else {
        seq![t[0]] + escape_body(t.skip(1), count, max_chars)
    }
}

/// Truncate text to `max_chars` visible characters; ANSI escape sequences
/// are copied without being counted.
pub fn truncate_safe(text: &str, max_chars: usize) -> (r: String)
    ensures
        r@ == safe_prefix(text@, 0, max_chars as nat),
        r@.len() <= text@.len(),
        r@ == text@.take(r@.len() as int),
{
    proof {
        lemma_safe_prefix_is_prefix(text@, 0, max_chars as nat);
    }
    let chars = chars_of(text);
    let n = chars.len();
    let mut result = String::from_str("");
    proof {
        reveal_strlit("");
    }
    let mut count: usize = 0;
    let mut i: usize = 0;
    assert(chars@.skip(0) =~= chars@);
    while i < n && count < max_chars
        invariant
            n == chars@.len(),
            i <= n,
            count <= max_chars,
            result@ + safe_prefix(chars@.skip(i as int), count as nat, max_chars as nat)
                == safe_prefix(text@, 0, max_chars as nat),
            chars@ == text@,
        decreases n - i,
    {
        let c = chars[i];
        let ghost t = chars@.skip(i as int);
        assert(t[0] == c);
        assert(t.skip(1) =~= chars@.skip(i + 1));
        if c == '\x1b' {
            push_char(&mut result, c);
            i = i + 1;
            if i < n && chars[i] == '[' {
                assert(t[1] == '[');
                assert(t.skip(2) =~= chars@.skip(i + 1));
                push_char(&mut result, '[');
                i = i + 1;
                assert(result@ + escape_body(chars@.skip(i as int), count as nat, max_chars as nat)
                    =~= safe_prefix(text@, 0, max_chars as nat));
                let mut done = false;
                let ghost i0 = i;
                while i < n && !done
                    invariant
                        i0 <= i,
                        n == chars@.len(),
                        i <= n,
                        count <= max_chars,
                        chars@ == text@,
                        !done ==> result@ + escape_body(chars@.skip(i as int), count as nat, max_chars as nat)
                            == safe_prefix(text@, 0, max_chars as nat),
                        done ==> result@ + safe_prefix(chars@.skip(i as int), count as nat, max_chars as nat)
                            == safe_prefix(text@, 0, max_chars as nat),
                    decreases n - i,
                {
                    let b = chars[i];
                    let ghost u = chars@.skip(i as int);
                    assert(u[0] == b);
                    assert(u.skip(1) =~= chars@.skip(i + 1));
                    let ghost before = result@;
                    push_char(&mut result, b);
                    i = i + 1;
                    if '@' <= b && b <= '~' {
                        done = true;
                        assert(result@ + safe_prefix(chars@.skip(i as int), count as nat, max_chars as nat)
                            =~= before + escape_body(u, count as nat, max_chars as nat));
                    } else {
                        assert(result@ + escape_body(chars@.skip(i as int), count as nat, max_chars as nat)
                            =~= before + escape_body(u, count as nat, max_chars as nat));
                    }
                }
                if !done {
                    assert(chars@.skip(i as int) =~= Seq::<char>::empty());
                    assert(result@ + safe_prefix(chars@.skip(i as int), count as nat, max_chars as nat)
                        =~= result@ + escape_body(chars@.skip(i as int), count as nat, max_chars as nat));
                }
            } else {
                assert(result@ + safe_prefix(chars@.skip(i as int), count as nat, max_chars as nat)
                    =~= safe_prefix(text@, 0, max_chars as nat));
            }
        } else {
            let ghost before = result@;
            push_char(&mut result, c);
            count = count + 1;
            i = i + 1;
            assert(result@ + safe_prefix(chars@.skip(i as int), count as nat, max_chars as nat)
                =~= before + safe_prefix(t, (count - 1) as nat, max_chars as nat));
        }
    }
    assert(safe_prefix(chars@.skip(i as int), count as nat, max_chars as nat) =~= Seq::<char>::empty())
        by {
        if i >= n {
            assert(chars@.skip(i as int).len() == 0);
        }
    }
    assert(result@ =~= result@ + Seq::<char>::empty());
    result
}


/// No character of `t` starts an escape sequence.
pub open spec fn no_escape(t: Seq<char>) -> bool {
    forall|i: int| 0 <= i < t.len() ==> t[i] != '\x1b'
}

proof fn lemma_safe_prefix_plain(t: Seq<char>, count: nat, max_chars: nat)
    requires
        no_escape(t),
        count <= max_chars,
    ensures
        safe_prefix(t, count, max_chars) == t.take(
            if max_chars - count < t.len() { (max_chars - count) as int } else { t.len() as int },
        ),
    decreases t.len(),
{
    if t.len() == 0 || count >= max_chars {
        assert(t.take(0) =~= Seq::<char>::empty());
    } else {
        assert(t[0] != '\x1b');
        assert(no_escape(t.skip(1))) by {
            assert forall|i: int| 0 <= i < t.skip(1).len() implies t.skip(1)[i] != '\x1b' by {
                assert(t.skip(1)[i] == t[i + 1]);
            }
        }
        lemma_safe_prefix_plain(t.skip(1), count + 1, max_chars);
        let k = if max_chars - count < t.len() { (max_chars - count) as int } else { t.len() as int };
        assert(seq![t[0]] + t.skip(1).take(k - 1) =~= t.take(k));
    }
}

/// Without escape sequences, `truncate_safe` keeps the first `max_chars`
/// characters (all of them where there are fewer).
pub proof fn law_truncate_safe_plain_text(t: Seq<char>, max_chars: nat)
    requires
        no_escape(t),
    ensures
        safe_prefix(t, 0, max_chars) == t.take(
            if max_chars < t.len() { max_chars as int } else { t.len() as int },
        ),
{
    lemma_safe_prefix_plain(t, 0, max_chars);
}

proof fn lemma_safe_prefix_is_prefix(t: Seq<char>, count: nat, max_chars: nat)
    ensures
        safe_prefix(t, count, max_chars).len() <= t.len(),
        safe_prefix(t, count, max_chars) == t.take(safe_prefix(t, count, max_chars).len() as int),
        escape_body(t, count, max_chars).len() <= t.len(),
        escape_body(t, count, max_chars) == t.take(escape_body(t, count, max_chars).len() as int),
    decreases t.len(),
{
    if t.len() > 0 {
        lemma_safe_prefix_is_prefix(t.skip(1), count, max_chars);
        lemma_safe_prefix_is_prefix(t.skip(1), count + 1, max_chars);
        if t.len() > 1 {
            lemma_safe_prefix_is_prefix(t.skip(2), count, max_chars);
            let e = escape_body(t.skip(2), count, max_chars);
            if t[0] == '\x1b' && t[1] == '[' {
                assert forall|i: int| 0 <= i < e.len() + 2 implies (seq!['\x1b', '['] + e)[i] == t.take(e.len() + 2int)[i] by {
                    if i >= 2 {
                        assert(e[i - 2] == t.skip(2)[i - 2]);
                    }
                }
                assert(seq!['\x1b', '['] + e =~= t.take(e.len() + 2int));
            }
        }
        let a = safe_prefix(t.skip(1), count, max_chars);
        let b = safe_prefix(t.skip(1), count + 1, max_chars);
        let f = escape_body(t.skip(1), count, max_chars);
        assert(seq![t[0]] + a =~= t.take(a.len() + 1int)) by {
            assert forall|i: int| 1 <= i < a.len() + 1 implies (seq![t[0]] + a)[i] == t[i] by {
                assert(a[i - 1] == t.skip(1)[i - 1]);
            }
        }
        assert(seq![t[0]] + b =~= t.take(b.len() + 1int)) by {
            assert forall|i: int| 1 <= i < b.len() + 1 implies (seq![t[0]] + b)[i] == t[i] by {
                assert(b[i - 1] == t.skip(1)[i - 1]);
            }
        }
        assert(seq![t[0]] + f =~= t.take(f.len() + 1int)) by {
            assert forall|i: int| 1 <= i < f.len() + 1 implies (seq![t[0]] + f)[i] == t[i] by {
                assert(f[i - 1] == t.skip(1)[i - 1]);
            }
        }
    } else {
        assert(t.take(0) =~= Seq::<char>::empty());
    }
}

/// `truncate_safe` returns a prefix of its input, cut between characters.
pub proof fn law_truncate_safe_is_prefix(t: Seq<char>, max_chars: nat)
    ensures
        safe_prefix(t, 0, max_chars).len() <= t.len(),
        safe_prefix(t, 0, max_chars) == t.take(safe_prefix(t, 0, max_chars).len() as int),
{
    lemma_safe_prefix_is_prefix(t, 0, max_chars);
}


/// Whether `input` looks like a slash command: it starts with `/` and holds
/// no line feed.
pub open spec fn is_slash_command(input: Seq<char>) -> bool {
    input.len() > 0 && input[0] == '/' && !input.contains('\n')
}

/// Determine if input looks like a slash command.
pub fn looks_like_slash_command(input: &str) -> (b: bool)
    ensures
        b == is_slash_command(input@),
{
    let chars = chars_of(input);
    if chars.len() == 0 || chars[0] != '/' {
        return false;
    }
    let n = chars.len();
    for i in 0..n
        invariant
            n == chars@.len(),
            chars@ == input@,
            forall|j: int| 0 <= j < i ==> chars@[j] != '\n',
    {
        if chars[i] == '\n' {
            assert(input@[i as int] == '\n');
            return false;
        }
    }
    true
}

/// A completion request derived from user input.
#[derive(Debug, Clone, PartialEq, Eq)]
pub struct CompletionRequest {
    /// Method name to send to the gateway.
    pub method: &'static str,
    /// Query text (`text` for slash, `word` for path).
    pub query: String,
    /// Character index in the input where replacement should start.
    pub replace_from: usize,
}

/// A character that ends the token before it: white space or a quote.
pub open spec fn token_delimiter(c: char) -> bool {
    white_space(c) || c == '"' || c == '\''
}

/// The index of the last token delimiter in `s`, if any.
pub open spec fn last_delimiter(s: Seq<char>) -> Option<int>
    decreases s.len(),
{
    if s.len() == 0 {
        None
    } else if token_delimiter(s.last()) {
        Some(s.len() - 1)
    } else {
        last_delimiter(s.drop_last())
    }
}

/// The last token of `s`: what follows its last delimiter.
pub open spec fn last_token(s: Seq<char>) -> Seq<char> {
    match last_delimiter(s) {
        Some(k) => s.skip(k + 1),
        None => s,
    }
}

/// Whether `w` starts with the characters of `p`.
pub open spec fn starts_with(w: Seq<char>, p: Seq<char>) -> bool {
    p.len() <= w.len() && w.take(p.len() as int) == p
}

/// Whether a token looks like a path: it starts with `./`, `../`, `~/`, `/`
/// or `@`, holds a `/`, or is a drive path (its second byte `:` and its
/// third `/` or `\`).
pub open spec fn path_like(w: Seq<char>) -> bool {
    let b = encode_utf8(w);
    ||| starts_with(w, seq!['.', '/'])
    ||| starts_with(w, seq!['.', '.', '/'])
    ||| starts_with(w, seq!['~', '/'])
    ||| starts_with(w, seq!['/'])
    ||| starts_with(w, seq!['@'])
    ||| w.contains('/')
    ||| (b.len() >= 3 && b[1] == 0x3Au8 && (b[2] == 0x2Fu8 || b[2] == 0x5Cu8))
}

/// The path-like last token of `s`, if its last token is not empty and looks
/// like a path.
pub open spec fn path_token(s: Seq<char>) -> Option<Seq<char>> {
    let w = last_token(s);
    if w.len() > 0 && path_like(w) {
        Some(w)
    } else {
        None
    }
}

/// `/model` alone or followed by white space: the model picker handles it.
pub open spec fn is_model_command(s: Seq<char>) -> bool {
    starts_with(s, seq!['/', 'm', 'o', 'd', 'e', 'l']) && (s.len() == 6 || white_space(s[6]))
}

/// The UTF-8 encoding of a concatenation is the concatenation of encodings.
pub proof fn lemma_encode_utf8_concat(a: Seq<char>, b: Seq<char>)
    ensures
        encode_utf8(a + b) == encode_utf8(a) + encode_utf8(b),
    decreases a.len(),
{
    if a.len() == 0 {
        assert(a + b =~= b);
        assert(encode_utf8(a) =~= Seq::<u8>::empty());
        assert(encode_utf8(a) + encode_utf8(b) =~= encode_utf8(b));
    } else {
        lemma_encode_utf8_concat(a.drop_first(), b);
        assert((a + b).drop_first() =~= a.drop_first() + b);
        assert((a + b)[0] == a[0]);
        assert(encode_utf8(a + b) =~= encode_utf8(a) + encode_utf8(b));
    }
}

proof fn lemma_last_delimiter(s: Seq<char>)
    ensures
        last_delimiter(s) matches Some(k) ==> 0 <= k < s.len() && token_delimiter(s[k])
            && forall|j: int| k < j < s.len() ==> !token_delimiter(s[j]),
        last_delimiter(s) is None ==> forall|j: int| 0 <= j < s.len() ==> !token_delimiter(s[j]),
    decreases s.len(),
{
    if s.len() > 0 {
        lemma_last_delimiter(s.drop_last());
        assert forall|j: int| 0 <= j < s.len() - 1 implies s.drop_last()[j] == s[j] by {}
    }
}

/// A path completion replaces a suffix of the input: the token is what
/// follows the last delimiter, and its bytes end the input's bytes.
pub proof fn law_path_token_is_suffix(s: Seq<char>)
    ensures
        path_token(s) matches Some(w) ==> w.len() <= s.len() && s.skip(s.len() - w.len()) == w
            && encode_utf8(s).len() >= encode_utf8(w).len() && encode_utf8(s).subrange(
            encode_utf8(s).len() - encode_utf8(w).len(),
            encode_utf8(s).len() as int,
        ) == encode_utf8(w),
{
    if let Some(w) = path_token(s) {
        lemma_last_delimiter(s);
        let p = match last_delimiter(s) {
            Some(m) => s.take(m + 1),
            None => Seq::<char>::empty(),
        };
        assert(p + w =~= s);
        assert(s.skip(s.len() - w.len()) =~= w);
        lemma_encode_utf8_concat(p, w);
        assert(encode_utf8(s).subrange(
            encode_utf8(s).len() - encode_utf8(w).len(),
            encode_utf8(s).len() as int,
        ) =~= encode_utf8(w));
    }
}

proof fn lemma_last_delimiter_skips(p: Seq<char>, w: Seq<char>)
    requires
        forall|i: int| 0 <= i < w.len() ==> !#[trigger] token_delimiter(w[i]),
    ensures
        last_delimiter(p + w) == last_delimiter(p),
    decreases w.len(),
{
    if w.len() == 0 {
        assert(p + w =~= p);
    } else {
        assert((p + w).drop_last() =~= p + w.drop_last());
        assert((p + w).last() == w[w.len() - 1]);
        lemma_last_delimiter_skips(p, w.drop_last());
    }
}

/// The path token is what follows the input's last white space, double
/// quote or single quote: for an input made of `p` then `w`, where `w` holds
/// none of these and `p` is empty or ends in one of them, the token is `w`
/// where `w` is not empty and looks like a path (such as a `w` that starts
/// with `@`), and there is none otherwise.
pub proof fn law_path_token_follows_last_delimiter(p: Seq<char>, w: Seq<char>)
    requires
        forall|i: int| 0 <= i < w.len() ==> !white_space(#[trigger] w[i]) && w[i] != '"' && w[i] != '\'',
        p.len() == 0 || white_space(p.last()) || p.last() == '"' || p.last() == '\'',
    ensures
        path_token(p + w) == if w.len() > 0 && path_like(w) { Some(w) } else { None },
        w.len() > 0 && w[0] == '@' ==> path_token(p + w) == Some(w),
{
    assert forall|i: int| 0 <= i < w.len() implies !#[trigger] token_delimiter(w[i]) by {}
    lemma_last_delimiter_skips(p, w);
    if p.len() > 0 {
        assert(p =~= p.drop_last().push(p.last()));
        assert(last_delimiter(p) == Some(p.len() - 1));
    } else {
        assert(last_delimiter(p) is None);
    }
    assert((p + w).skip(p.len() as int) =~= w);
    if w.len() > 0 && w[0] == '@' {
        assert(w.take(1) =~= seq!['@']);
    }
}

/// The last path-like token of `input`, if any.
fn last_path_token(input: &str) -> (r: Option<String>)
    ensures
        match path_token(input@) {
            Some(w) => (r matches Some(t) && t@ == w),
            None => r is None,
        },
{
    let chars = chars_of(input);
    let n = chars.len();
    let mut k = n;
    proof {
        lemma_last_delimiter(input@);
    }
    while k > 0 && !(is_whitespace(chars[k - 1]) || chars[k - 1] == '"' || chars[k - 1] == '\'')
        invariant
            n == chars@.len(),
            chars@ == input@,
            k <= n,
            forall|j: int| k <= j < n ==> !token_delimiter(chars@[j]),
        decreases k,
    {
        k = k - 1;
    }
    proof {
        if k > 0 {
            let d = last_delimiter(input@);
            assert(token_delimiter(input@[k - 1]));
            assert(d matches Some(m) && m == k - 1);
        } else {
            assert(last_delimiter(input@) is None);
            assert(input@.skip(0) =~= input@);
        }
    }
    let word = skip_chars(&chars, k);
    assert(word@ == last_token(input@));
    let w = word.len();
    if w == 0 {
        return None;
    }
    let dot_slash = w >= 2 && word[0] == '.' && word[1] == '/';
    let dot_dot_slash = w >= 3 && word[0] == '.' && word[1] == '.' && word[2] == '/';
    let tilde_slash = w >= 2 && word[0] == '~' && word[1] == '/';
    let slash = word[0] == '/';
    let at = word[0] == '@';
    let mut contains_slash = false;
    for i in 0..w
        invariant
            w == word@.len(),
            contains_slash <==> exists|j: int| 0 <= j < i && word@[j] == '/',
    {
        if word[i] == '/' {
            contains_slash = true;
        }
    }
    let text = string_of(word.as_slice());
    let bytes = text.as_str().as_bytes();
    let windows_abs = bytes.len() >= 3 && bytes[1] == 0x3Au8 && (bytes[2] == 0x2Fu8 || bytes[2] == 0x5Cu8);
    proof {
        let wv = word@;
        assert(dot_slash == starts_with(wv, seq!['.', '/'])) by {
            if wv.len() >= 2 {
                assert(wv.take(2) =~= seq![wv[0], wv[1]]);
            }
        }
        assert(dot_dot_slash == starts_with(wv, seq!['.', '.', '/'])) by {
            if wv.len() >= 3 {
                assert(wv.take(3) =~= seq![wv[0], wv[1], wv[2]]);
            }
        }
        assert(tilde_slash == starts_with(wv, seq!['~', '/'])) by {
            if wv.len() >= 2 {
                assert(wv.take(2) =~= seq![wv[0], wv[1]]);
            }
        }
        assert(slash == starts_with(wv, seq!['/'])) by {
            assert(wv.take(1) =~= seq![wv[0]]);
            assert(seq!['/'][0] == '/');
            assert(seq![wv[0]][0] == wv[0]);
            if wv[0] == '/' {
                assert(seq![wv[0]] =~= seq!['/']);
            }
        }
        assert(at == starts_with(wv, seq!['@'])) by {
            assert(wv.take(1) =~= seq![wv[0]]);
            assert(seq!['@'][0] == '@');
            assert(seq![wv[0]][0] == wv[0]);
            if wv[0] == '@' {
                assert(seq![wv[0]] =~= seq!['@']);
            }
        }
        assert(contains_slash == wv.contains('/'));
    }
    if dot_slash || dot_dot_slash || tilde_slash || slash || at || contains_slash || windows_abs {
        Some(text)
    } else {
        None
    }
}

/// Compute the completion request (if any) for the current input: slash
/// completion for a slash command other than `/model`, path completion of
/// the last path-like token otherwise.
pub fn completion_request_for_input(input: &str) -> (r: Option<CompletionRequest>)
    ensures
        is_slash_command(input@) && is_model_command(input@) ==> r is None,
        is_slash_command(input@) && !is_model_command(input@) ==> (r matches Some(q) && q.method@
            == "complete.slash"@ && q.query@ == input@ && q.replace_from == 1),
        !is_slash_command(input@) ==> match path_token(input@) {
            Some(w) => (r matches Some(q) && q.method@ == "complete.path"@ && q.query@ == w
                && q.replace_from == input@.len() - w.len()),
            None => r is None,
        },
{
    let is_slash = looks_like_slash_command(input);
    if is_slash {
        let chars = chars_of(input);
        let n = chars.len();
        let model = n >= 6 && chars[0] == '/' && chars[1] == 'm' && chars[2] == 'o' && chars[3] == 'd'
            && chars[4] == 'e' && chars[5] == 'l' && (n == 6 || is_whitespace(chars[6]));
        proof {
            if n >= 6 {
                assert(input@.take(6) =~= seq![input@[0], input@[1], input@[2], input@[3], input@[4], input@[5]]);
                assert(seq!['/', 'm', 'o', 'd', 'e', 'l'] =~= seq![input@[0], input@[1], input@[2], input@[3], input@[4], input@[5]] ==> input@[1] == 'm');
            }
            assert(model == is_model_command(input@)) by {
                if n >= 6 && is_model_command(input@) {
                    assert(input@.take(6)[1] == 'm');
                    assert(input@.take(6)[2] == 'o');
                    assert(input@.take(6)[3] == 'd');
                    assert(input@.take(6)[4] == 'e');
                    assert(input@.take(6)[5] == 'l');
                }
            }
        }
        if model {
            return None;
        }
        return Some(CompletionRequest {
            method: "complete.slash",
            query: String::from_str(input),
            replace_from: 1,
        });
    }
    match last_path_token(input) {
        Some(word) => {
            let n = chars_of(input).len();
            let w = chars_of(word.as_str()).len();
            proof {
                let k = last_delimiter(input@);
                lemma_last_delimiter(input@);
                let p = match k { Some(m) => input@.take(m + 1), None => Seq::<char>::empty() };
                assert(p + word@ =~= input@);
            }
            let replace_from = n - w;
            Some(CompletionRequest { method: "complete.path", query: word, replace_from })
        },
        None => None,
    }
}

} // verus!
