//! The chat transcript component: its messages, their heights, scrolling,
//! the rows each visible message gets, and message decorations.

use vstd::prelude::*;
use crate::types::{ChatColorsRgb, Color, Message, MessageRole, Style};
use crate::unicode::{chars_of, push_char, string_of, take_chars};
use crate::layout::{clock_time, format_utc, utc_formatted};
use std::time::SystemTime;

verus! {

/// The character of the decimal digit `d`.
pub open spec fn digit_char(d: nat) -> char {
    ((48 + d) as u8) as char
}

/// The decimal digits of `n`, most significant first.
pub open spec fn digits(n: nat) -> Seq<char>
    decreases n,
{
    if n < 10 {
        seq![digit_char(n)]
    } else {
        digits(n / 10).push(digit_char(n % 10))
    }
}

/// The decimal text of `n`, with a `-` before a negative number.
pub open spec fn decimal(n: int) -> Seq<char> {
    if n < 0 {
        seq!['-'] + digits((-n) as nat)
    } else {
        digits(n as nat)
    }
}

fn push_digits(out: &mut String, m: u64)
    ensures
        final(out)@ == old(out)@ + digits(m as nat),
    decreases m,
{
    if m >= 10 {
        push_digits(out, m / 10);
    }
    let d = (m % 10) as u8;
    push_char(out, (48u8 + d) as char);
    proof {
        if m < 10 {
            assert(digits(m as nat) == seq![digit_char(m as nat)]);
        }
    }
    assert(final(out)@ =~= old(out)@ + digits(m as nat)) by {
        if m >= 10 {
            assert(digits(m as nat) == digits((m / 10) as nat).push(digit_char((m % 10) as nat)));
        }
    }
}

/// The decimal text of a number.
pub fn decimal_string(n: i64) -> (s: String)
    ensures
        s@ == decimal(n as int),
{
    let mut s = String::from_str("");
    proof {
        reveal_strlit("");
    }
    if n < 0 {
        push_char(&mut s, '-');
        let m: u64 = (0i128 - n as i128) as u64;
        push_digits(&mut s, m);
        assert(s@ =~= seq!['-'] + digits((-(n as int)) as nat));
    } else {
        push_digits(&mut s, n as u64);
        assert(s@ =~= digits(n as nat));
    }
    s
}

/// The decimal text of an unsigned number.
pub fn decimal_string_u64(n: u64) -> (s: String)
    ensures
        s@ == decimal(n as int),
{
    let mut s = String::from_str("");
    proof {
        reveal_strlit("");
    }
    push_digits(&mut s, n);
    assert(s@ =~= digits(n as nat));
    s
}

/// `n / d` rounded toward zero, as Rust divides signed integers.
pub open spec fn div_trunc(n: int, d: int) -> int {
    if n >= 0 {
        n / d
    } else {
        -((-n) / d)
    }
}

/// How long ago something happened, given the seconds since: seconds under
/// a minute, else whole minutes under an hour, else whole hours under a
/// day, else whole days, each followed by its unit letter and " ago".
pub open spec fn relative_time(secs: int) -> Seq<char> {
    if secs < 60 {
        decimal(secs) + seq!['s', ' ', 'a', 'g', 'o']
    } else if div_trunc(secs, 60) < 60 {
        decimal(div_trunc(secs, 60)) + seq!['m', ' ', 'a', 'g', 'o']
    } else if div_trunc(secs, 3600) < 24 {
        decimal(div_trunc(secs, 3600)) + seq!['h', ' ', 'a', 'g', 'o']
    } else {
        decimal(div_trunc(secs, 86400)) + seq!['d', ' ', 'a', 'g', 'o']
    }
}

fn append_unit(s: &mut String, unit: char)
    ensures
        final(s)@ == old(s)@ + seq![unit, ' ', 'a', 'g', 'o'],
{
    push_char(s, unit);
    push_char(s, ' ');
    push_char(s, 'a');
    push_char(s, 'g');
    push_char(s, 'o');
    assert(final(s)@ =~= old(s)@ + seq![unit, ' ', 'a', 'g', 'o']);
}

/// The relative-time label for a span of `elapsed_secs` seconds.
pub fn relative_time_label(elapsed_secs: i64) -> (s: String)
    ensures
        s@ == relative_time(elapsed_secs as int),
{
    if elapsed_secs < 60 {
        let mut s = decimal_string(elapsed_secs);
        append_unit(&mut s, 's');
        s
    } else if elapsed_secs / 60 < 60 {
        let mut s = decimal_string(elapsed_secs / 60);
        append_unit(&mut s, 'm');
        s
    } else if elapsed_secs / 3600 < 24 {
        let mut s = decimal_string(elapsed_secs / 3600);
        append_unit(&mut s, 'h');
        s
    } else {
        let mut s = decimal_string(elapsed_secs / 86400);
        append_unit(&mut s, 'd');
        s
    }
}

/// The seconds from `since` to `now`, saturated to the range of `i64`.
pub open spec fn seconds_between(now: int, since: int) -> int {
    let d = now - since;
    if d > i64::MAX {
        i64::MAX as int
    } else if d < i64::MIN {
        i64::MIN as int
    } else {
        d
    }
}

/// The relative-time label, read at Unix time `now`, for something that
/// happened at Unix time `timestamp`.
pub fn relative_time_at(now: i64, timestamp: i64) -> (s: String)
    ensures
        s@ == relative_time(seconds_between(now as int, timestamp as int)),
{
    let elapsed = match now.checked_sub(timestamp) {
        Some(d) => d,
        None => if timestamp < 0 { i64::MAX } else { i64::MIN },
    };
    relative_time_label(elapsed)
}

#[verifier::external_type_specification]
#[verifier::external_body]
pub struct ExSystemTime(std::time::SystemTime);

/// Calls `SystemTime::now`; nothing is stated of the clock's reading.
#[verifier::external_body]
fn system_now() -> SystemTime {
    SystemTime::now()
}

/// Calls `SystemTime::duration_since` with the Unix epoch and gives the
/// whole seconds of the result: `Ok` with the seconds from the epoch to `t`,
/// or `Err` with the seconds from `t` to the epoch where `t` lies before it.
/// Nothing is stated of the values, which come from the clock reading.
#[verifier::external_body]
fn seconds_from_epoch(t: &SystemTime) -> Result<u64, u64> {
    match t.duration_since(std::time::UNIX_EPOCH) {
        Ok(d) => Ok(d.as_secs()),
        Err(e) => Err(e.duration().as_secs()),
    }
}

/// The Unix time of a clock reading given as whole seconds after (`Ok`) or
/// before (`Err`) the epoch, kept within the range of `i64`.
pub open spec fn unix_time_of(reading: Result<u64, u64>) -> int {
    match reading {
        Ok(secs) => if secs > i64::MAX { i64::MAX as int } else { secs as int },
        Err(secs) => if secs > i64::MAX { -(i64::MAX as int) } else { -(secs as int) },
    }
}

/// The Unix time in seconds of a clock reading (`unix_time_of`).
pub fn unix_seconds(reading: Result<u64, u64>) -> (t: i64)
    ensures
        t == unix_time_of(reading),
{
    match reading {
        Ok(secs) => if secs > i64::MAX as u64 { i64::MAX } else { secs as i64 },
        Err(secs) => if secs > i64::MAX as u64 { -i64::MAX } else { -(secs as i64) },
    }
}


/// The position after scrolling down by `amount` from `pos`: no further
/// than `max` (the sum saturates at the largest `u16` first).
pub open spec fn scrolled_down(pos: int, amount: int, max: int) -> int {
    let next = if pos + amount > u16::MAX { u16::MAX as int } else { pos + amount };
    if next < max {
        next
    } else {
        max
    }
}

/// The position after scrolling up by `amount` from `pos`: no further than
/// the top.
pub open spec fn scrolled_up(pos: int, amount: int) -> int {
    sub_floor(pos, amount)
}

/// Scrolling down never passes the greatest position.
pub proof fn law_scroll_down_stays_within_max(pos: int, amount: int, max: int)
    ensures
        scrolled_down(pos, amount, max) <= max,
{
}

/// Scrolling down and then up by the same amount returns to the start,
/// where the way down stays within the greatest position.
pub proof fn law_scroll_down_then_up_returns(pos: int, amount: int, max: int)
    requires
        0 <= pos,
        0 <= amount,
        pos + amount <= max <= u16::MAX,
    ensures
        scrolled_up(scrolled_down(pos, amount, max), amount) == pos,
{
}

/// The number of line feeds in `s`.
pub open spec fn newline_count(s: Seq<char>) -> nat
    decreases s.len(),
{
    if s.len() == 0 {
        0
    } else {
        newline_count(s.drop_last()) + if s.last() == '\n' { 1nat } else { 0nat }
    }
}

/// How many lines `str::lines` yields for `s`: one per line feed, and one
/// more for a last line that does not end in a line feed.
pub open spec fn line_count(s: Seq<char>) -> nat {
    if s.len() == 0 {
        0
    } else {
        newline_count(s) + if s.last() == '\n' { 0nat } else { 1nat }
    }
}

/// The rows a message takes: its line count (truncated to 16 bits, as an
/// `as u16` cast does), at least one while streaming, plus two border
/// rows and one spacing row.
pub open spec fn message_rows(m: Message) -> nat {
    let c = line_count(m.content@) % 65536;
    let c2 = if c == 0 && m.streaming { 1 } else { c };
    c2 + 3
}

/// The rows of all messages together.
pub open spec fn total_rows(msgs: Seq<Message>) -> nat
    decreases msgs.len(),
{
    if msgs.len() == 0 {
        0
    } else {
        total_rows(msgs.drop_last()) + message_rows(msgs.last())
    }
}

/// The rows of all messages fit in a `u16`, as the height sums need.
pub open spec fn rows_fit(msgs: Seq<Message>) -> bool {
    total_rows(msgs) <= u16::MAX
}

/// `a - b`, or 0 where `b` is larger.
pub open spec fn sub_floor(a: int, b: int) -> int {
    if a >= b {
        a - b
    } else {
        0
    }
}

proof fn lemma_newline_count_bound(s: Seq<char>)
    ensures
        newline_count(s) <= s.len(),
    decreases s.len(),
{
    if s.len() > 0 {
        lemma_newline_count_bound(s.drop_last());
    }
}

/// The number of lines of a text.
fn count_lines(s: &str) -> (n: usize)
    ensures
        n == line_count(s@),
{
    let chars = chars_of(s);
    let len = chars.len();
    let mut newlines: usize = 0;
    for i in 0..len
        invariant
            len == chars@.len(),
            newlines == newline_count(chars@.take(i as int)),
            newlines <= i,
    {
        assert(chars@.take(i + 1).drop_last() =~= chars@.take(i as int));
        if chars[i] == '\n' {
            newlines = newlines + 1;
        }
    }
    assert(chars@.take(len as int) =~= s@);
    if len == 0 {
        0
    } else if chars[len - 1] == '\n' {
        newlines
    } else {
        proof {
            lemma_newline_count_bound(s@.drop_last());
        }
        newlines + 1
    }
}

proof fn lemma_total_rows_prefix(msgs: Seq<Message>, k: int)
    requires
        0 <= k <= msgs.len(),
    ensures
        total_rows(msgs.take(k)) <= total_rows(msgs),
    decreases msgs.len() - k,
{
    if k < msgs.len() {
        lemma_total_rows_prefix(msgs, k + 1);
        assert(msgs.take(k + 1).drop_last() =~= msgs.take(k));
    } else {
        assert(msgs.take(k) =~= msgs);
    }
}

/// Where a message is drawn inside the chat area: its index, its first
/// row relative to the area, and how many rows it gets.
#[derive(Debug, Clone, Copy, PartialEq, Eq, Structural)]
pub struct MessageSlot {
    pub index: usize,
    pub y: u16,
    pub height: u16,
}

/// What the chat area shows for an inner height: the messages' slots, the
/// rows of all messages, the scroll position used, and whether a scrollbar
/// is drawn.
#[derive(Debug, Clone)]
pub struct ChatRenderPlan {
    pub slots: Vec<MessageSlot>,
    pub total_height: u16,
    pub scroll: u16,
    pub show_scrollbar: bool,
}

/// The first message that reaches below row `scroll`, looking from message
/// `i` whose top is row `y`, and how many of its rows lie above `scroll`;
/// `(0, 0)` where none does.
pub open spec fn find_start(msgs: Seq<Message>, i: int, y: int, scroll: int) -> (int, int)
    decreases msgs.len() - i,
{
    if i < 0 || i >= msgs.len() {
        (0, 0)
    } else if y + message_rows(msgs[i]) > scroll {
        (i, sub_floor(scroll, y))
    } else {
        find_start(msgs, i + 1, y + message_rows(msgs[i]), scroll)
    }
}

/// The slots of the messages from `i` on, the first drawn at row `y` with
/// its top `off` rows cut, each getting its remaining rows up to the bottom
/// `h` of the area; a message left with no rows gets no slot.
pub open spec fn plan_slots(msgs: Seq<Message>, i: int, y: int, off: int, h: int) -> Seq<(int, int, int)>
    decreases msgs.len() - i,
{
    if i < 0 || i >= msgs.len() || y >= h {
        seq![]
    } else {
        let rest = sub_floor(message_rows(msgs[i]) as int, off);
        let rh = if rest < h - y { rest } else { h - y };
        if rh > 0 {
            seq![(i, y, rh)] + plan_slots(msgs, i + 1, y + rh, 0, h)
        } else {
            plan_slots(msgs, i + 1, y, 0, h)
        }
    }
}

/// The slots as triples.
pub open spec fn slot_triples(v: Seq<MessageSlot>) -> Seq<(int, int, int)> {
    v.map_values(|s: MessageSlot| (s.index as int, s.y as int, s.height as int))
}

/// The scroll position the chat area uses for an inner height `h`: the
/// component's position, no further than the rows beyond one screen.
pub open spec fn effective_scroll(msgs: Seq<Message>, scroll: int, h: int) -> int {
    let max = sub_floor(total_rows(msgs) as int, h);
    if scroll < max {
        scroll
    } else {
        max
    }
}

/// The slots of the chat area for an inner height `h`.
pub open spec fn chat_slots(msgs: Seq<Message>, scroll: int, h: int) -> Seq<(int, int, int)> {
    let start = find_start(msgs, 0, 0, effective_scroll(msgs, scroll, h));
    plan_slots(msgs, start.0, 0, start.1, h)
}

proof fn lemma_rows_prefix_step(msgs: Seq<Message>, i: int)
    requires
        0 <= i < msgs.len(),
    ensures
        total_rows(msgs.take(i + 1)) == total_rows(msgs.take(i)) + message_rows(msgs[i]),
{
    assert(msgs.take(i + 1).drop_last() =~= msgs.take(i));
}

/// Every slot of the chat area lies inside it, the first starts at its top,
/// and each next slot starts where the previous one ends.
pub proof fn law_slots_tile_the_area(msgs: Seq<Message>, scroll: int, h: int)
    requires
        h >= 0,
    ensures
        chat_slots(msgs, scroll, h).len() > 0 ==> chat_slots(msgs, scroll, h)[0].1 == 0,
        forall|k: int| 0 <= k < chat_slots(msgs, scroll, h).len() ==> {
            let t = #[trigger] chat_slots(msgs, scroll, h)[k];
            0 <= t.1 && 0 < t.2 && t.1 + t.2 <= h
        },
        forall|k: int| 0 <= k < chat_slots(msgs, scroll, h).len() - 1 ==> {
            let t = #[trigger] chat_slots(msgs, scroll, h)[k];
            chat_slots(msgs, scroll, h)[k + 1].1 == t.1 + t.2 && chat_slots(msgs, scroll, h)[k + 1].0 > t.0
        },
{
    let start = find_start(msgs, 0, 0, effective_scroll(msgs, scroll, h));
    lemma_plan_slots_tile(msgs, start.0, 0, start.1, h);
}

proof fn lemma_plan_slots_tile(msgs: Seq<Message>, i: int, y: int, off: int, h: int)
    requires
        0 <= y,
    ensures
        plan_slots(msgs, i, y, off, h).len() > 0 ==> plan_slots(msgs, i, y, off, h)[0].1 == y
            && plan_slots(msgs, i, y, off, h)[0].0 >= i,
        forall|k: int| 0 <= k < plan_slots(msgs, i, y, off, h).len() ==> {
            let t = #[trigger] plan_slots(msgs, i, y, off, h)[k];
            y <= t.1 && 0 < t.2 && t.1 + t.2 <= h && t.0 >= i
        },
        forall|k: int| 0 <= k < plan_slots(msgs, i, y, off, h).len() - 1 ==> {
            let t = #[trigger] plan_slots(msgs, i, y, off, h)[k];
            plan_slots(msgs, i, y, off, h)[k + 1].1 == t.1 + t.2 && plan_slots(msgs, i, y, off, h)[k + 1].0 > t.0
        },
    decreases msgs.len() - i,
{
    if i < 0 || i >= msgs.len() || y >= h {
    } else {
        let rest = sub_floor(message_rows(msgs[i]) as int, off);
        let rh = if rest < h - y { rest } else { h - y };
        if rh > 0 {
            lemma_plan_slots_tile(msgs, i + 1, y + rh, 0, h);
            let tail = plan_slots(msgs, i + 1, y + rh, 0, h);
            let all = plan_slots(msgs, i, y, off, h);
            assert(all == seq![(i, y, rh)] + tail);
            assert forall|k: int| 0 <= k < all.len() implies {
                let t = #[trigger] all[k];
                y <= t.1 && 0 < t.2 && t.1 + t.2 <= h && t.0 >= i
            } by {
                if k > 0 {
                    assert(all[k] == tail[k - 1]);
                }
            }
            assert forall|k: int| 0 <= k < all.len() - 1 implies {
                let t = #[trigger] all[k];
                all[k + 1].1 == t.1 + t.2 && all[k + 1].0 > t.0
            } by {
                assert(all[k + 1] == tail[k]);
                if k > 0 {
                    assert(all[k] == tail[k - 1]);
                }
            }
        } else {
            lemma_plan_slots_tile(msgs, i + 1, y, 0, h);
        }
    }
}

/// A line without the carriage return that ends it, if one does.
pub open spec fn strip_cr(l: Seq<char>) -> Seq<char> {
    if l.len() > 0 && l.last() == '\r' {
        l.drop_last()
    } else {
        l
    }
}

/// The walk of `str::lines` over `s`: the lines ended by a line feed (each
/// without a carriage return before that feed), and the characters after
/// the last line feed.
pub open spec fn lines_walk(s: Seq<char>) -> (Seq<Seq<char>>, Seq<char>)
    decreases s.len(),
{
    if s.len() == 0 {
        (seq![], seq![])
    } else {
        let (done, cur) = lines_walk(s.drop_last());
        if s.last() == '\n' {
            (done.push(strip_cr(cur)), seq![])
        } else {
            (done, cur.push(s.last()))
        }
    }
}

/// The lines of a text as `str::lines` yields them: split at line feeds,
/// a carriage return before a line feed dropped, and no empty line after a
/// final line feed.
pub open spec fn content_lines(s: Seq<char>) -> Seq<Seq<char>> {
    let (done, cur) = lines_walk(s);
    if cur.len() > 0 {
        done.push(cur)
    } else {
        done
    }
}

/// The lines drawn inside a message bubble: its content lines, or one empty
/// line for the cursor of a streaming message without content.
pub open spec fn body_lines(m: Message) -> Seq<Seq<char>> {
    if m.streaming && content_lines(m.content@).len() == 0 {
        seq![seq![]]
    } else {
        content_lines(m.content@)
    }
}

proof fn lemma_lines_walk_count(s: Seq<char>)
    ensures
        lines_walk(s).0.len() == newline_count(s),
        (lines_walk(s).1.len() == 0) == (s.len() == 0 || s.last() == '\n'),
    decreases s.len(),
{
    if s.len() > 0 {
        lemma_lines_walk_count(s.drop_last());
    }
}

/// A message bubble shows as many content lines as its height counts.
pub proof fn law_content_lines_counted(s: Seq<char>)
    ensures
        content_lines(s).len() == line_count(s),
{
    lemma_lines_walk_count(s);
}

/// The lines drawn inside the bubble of `message`, and whether a cursor
/// follows the last of them (while the message streams).
pub fn message_body(message: &Message) -> (r: (Vec<String>, bool))
    ensures
        crate::text::views(r.0@) == body_lines(*message),
        r.1 == message.streaming,
{
    let chars = chars_of(message.content.as_str());
    let n = chars.len();
    let mut lines: Vec<String> = Vec::new();
    let mut cur: Vec<char> = Vec::new();
    assert(chars@.take(0) =~= Seq::<char>::empty());
    assert(crate::text::views(lines@) =~= Seq::<Seq<char>>::empty());
    for i in 0..n
        invariant
            n == chars@.len(),
            chars@ == message.content@,
            lines_walk(chars@.take(i as int)) == (crate::text::views(lines@), cur@),
    {
        let c = chars[i];
        assert(chars@.take(i + 1).drop_last() =~= chars@.take(i as int));
        assert(chars@.take(i + 1).last() == c);
        if c == '\n' {
            let len = cur.len();
            let line = if len > 0 && cur[len - 1] == '\r' {
                let t = take_chars(&cur, len - 1);
                assert(cur@.take(len - 1) =~= cur@.drop_last());
                string_of(t.as_slice())
            } else {
                string_of(cur.as_slice())
            };
            let ghost before = crate::text::views(lines@);
            lines.push(line);
            assert(crate::text::views(lines@) =~= before.push(strip_cr(cur@)));
            cur = Vec::new();
            assert(cur@ =~= Seq::<char>::empty());
        } else {
            cur.push(c);
        }
    }
    assert(chars@.take(n as int) =~= message.content@);
    if cur.len() > 0 {
        let ghost before = crate::text::views(lines@);
        lines.push(string_of(cur.as_slice()));
        assert(crate::text::views(lines@) =~= before.push(cur@));
    }
    if message.is_streaming() && lines.len() == 0 {
        let empty = String::from_str("");
        proof {
            reveal_strlit("");
        }
        assert(empty@ =~= Seq::<char>::empty());
        lines.push(empty);
        assert(lines@[0]@ == Seq::<char>::empty());
        assert(crate::text::views(lines@) =~= seq![Seq::<char>::empty()]);
    }
    (lines, message.is_streaming())
}

/// Whether `pat` occurs in `s` as a run of consecutive characters.
pub open spec fn has_substring(s: Seq<char>, pat: Seq<char>) -> bool {
    exists|i: int| 0 <= i && i + pat.len() <= s.len() && #[trigger] s.subrange(i, i + pat.len()) == pat
}

/// Whether `pat` occurs in `s`.
fn contains_text(s: &Vec<char>, pat: &Vec<char>) -> (b: bool)
    ensures
        b == has_substring(s@, pat@),
{
    let n = s.len();
    let m = pat.len();
    if m > n {
        return false;
    }
    if m == 0 {
        assert(s@.subrange(0, 0int + pat@.len()) =~= pat@);
        return true;
    }
    let mut i: usize = 0;
    while i <= n - m
        invariant
            n == s@.len(),
            m == pat@.len(),
            0 < m <= n,
            i <= n - m + 1,
            forall|k: int| 0 <= k < i ==> #[trigger] s@.subrange(k, k + m) != pat@,
        decreases n - m + 1 - i,
    {
        let mut j: usize = 0;
        let mut same = true;
        while j < m && same
            invariant
                n == s@.len(),
                m == pat@.len(),
                i + m <= n,
                j <= m,
                same ==> forall|q: int| 0 <= q < j ==> s@[i + q] == pat@[q],
                !same ==> s@.subrange(i as int, i + m) != pat@,
            decreases m - j + (if same { 1int } else { 0int }),
        {
            if s[i + j] != pat[j] {
                same = false;
                assert(s@.subrange(i as int, i + m)[j as int] != pat@[j as int]);
            } else {
                j = j + 1;
            }
        }
        if same {
            assert(s@.subrange(i as int, i + pat@.len()) =~= pat@);
            return true;
        }
        i = i + 1;
    }
    assert forall|k: int| 0 <= k && k + pat@.len() <= s@.len() implies #[trigger] s@.subrange(k, k + pat@.len()) != pat@ by {
        assert(k < i);
    }
    false
}

/// The emoji a tool message carries: a shell for shell commands, a scroll
/// for file reads and writes, a magnifier for searches, tools otherwise.
pub open spec fn tool_emoji_of(content: Seq<char>) -> Seq<char> {
    if has_substring(content, "run_shell_command"@) {
        "🐚"@
    } else if has_substring(content, "read_file"@) || has_substring(content, "write_file"@) {
        "📜"@
    } else if has_substring(content, "grep_search"@) || has_substring(content, "glob"@) {
        "🔍"@
    } else {
        "🛠️"@
    }
}

proof fn lemma_mentions(a: Seq<char>, name: Seq<char>, b: Seq<char>)
    ensures
        has_substring(a + name + b, name),
{
    assert((a + name + b).subrange(a.len() as int, a.len() + name.len() as int) =~= name);
}

/// A tool message that mentions a shell command carries the shell emoji.
pub proof fn law_shell_tools_show_a_shell(a: Seq<char>, b: Seq<char>)
    ensures
        tool_emoji_of(a + "run_shell_command"@ + b) == "🐚"@,
{
    lemma_mentions(a, "run_shell_command"@, b);
}

/// A tool message that mentions reading a file or writing one, and no shell
/// command, carries the scroll emoji: reads and writes are shown alike.
pub proof fn law_file_tools_show_a_scroll(a: Seq<char>, name: Seq<char>, b: Seq<char>)
    requires
        name == "read_file"@ || name == "write_file"@,
        !has_substring(a + name + b, "run_shell_command"@),
    ensures
        tool_emoji_of(a + name + b) == "📜"@,
{
    lemma_mentions(a, name, b);
}

/// A tool message that mentions a search (`grep_search` or `glob`), and no
/// shell command or file read or write, carries the magnifier emoji.
pub proof fn law_search_tools_show_a_magnifier(a: Seq<char>, name: Seq<char>, b: Seq<char>)
    requires
        name == "grep_search"@ || name == "glob"@,
        !has_substring(a + name + b, "run_shell_command"@),
        !has_substring(a + name + b, "read_file"@),
        !has_substring(a + name + b, "write_file"@),
    ensures
        tool_emoji_of(a + name + b) == "🔍"@,
{
    lemma_mentions(a, name, b);
}

/// The emoji shown under a tool message with this content.
pub fn tool_emoji(content: &str) -> (e: &'static str)
    ensures
        e@ == tool_emoji_of(content@),
{
    let text = chars_of(content);
    if contains_text(&text, &chars_of("run_shell_command")) {
        "🐚"
    } else if contains_text(&text, &chars_of("read_file")) || contains_text(&text, &chars_of("write_file")) {
        "📜"
    } else if contains_text(&text, &chars_of("grep_search")) || contains_text(&text, &chars_of("glob")) {
        "🔍"
    } else {
        "🛠️"
    }
}

/// The colour of row `row` of the landing-page art: a gradient of two rows
/// per colour, from green through cyan, purple, pink and orange, then grey.
pub open spec fn hero_color_of(row: int) -> Color {
    if row <= 1 {
        Color::Rgb(166, 226, 46)
    } else if row <= 3 {
        Color::Rgb(102, 217, 239)
    } else if row <= 5 {
        Color::Rgb(174, 129, 255)
    } else if row <= 7 {
        Color::Rgb(249, 38, 114)
    } else if row <= 9 {
        Color::Rgb(253, 151, 31)
    } else {
        Color::Rgb(117, 113, 94)
    }
}

/// The colour of a row of the landing-page art (`hero_color_of`).
pub fn hero_color(row: usize) -> (c: Color)
    ensures
        c == hero_color_of(row as int),
{
    if row <= 1 {
        Color::Rgb(166, 226, 46)
    } else if row <= 3 {
        Color::Rgb(102, 217, 239)
    } else if row <= 5 {
        Color::Rgb(174, 129, 255)
    } else if row <= 7 {
        Color::Rgb(249, 38, 114)
    } else if row <= 9 {
        Color::Rgb(253, 151, 31)
    } else {
        Color::Rgb(117, 113, 94)
    }
}

/// The border drawn around a message bubble.
#[derive(Debug, Clone, Copy, PartialEq, Eq, Structural)]
pub enum BorderKind {
    Plain,
    Rounded,
    Thick,
}

/// Chat component for displaying conversation messages.
#[derive(Debug, Clone)]
pub struct ChatComponent {
    messages: Vec<Message>,
    scroll_position: u16,
    visible_height: u16,
    colors: ChatColorsRgb,
    show_timestamps: bool,
}

/// Scrolling a component down and then up by the same amount returns it to
/// its position, where the way down stays within the greatest position and
/// the rows of its messages fit in a `u16`.
pub proof fn law_component_scroll_down_then_up(c: ChatComponent, amount: u16)
    requires
        rows_fit(c.msgs()),
        c.scroll() + amount <= c.max_scroll(),
    ensures
        scrolled_up(scrolled_down(c.scroll() as int, amount as int, c.max_scroll()), amount as int) == c.scroll(),
{
    law_scroll_down_then_up_returns(c.scroll() as int, amount as int, c.max_scroll());
}

impl ChatComponent {
    /// The messages, in order.
    pub closed spec fn msgs(&self) -> Seq<Message> {
        self.messages@
    }

    /// The scroll position in rows.
    pub closed spec fn scroll(&self) -> u16 {
        self.scroll_position
    }

    /// The height of the visible area in rows.
    pub closed spec fn visible(&self) -> u16 {
        self.visible_height
    }

    /// The configured colours.
    pub closed spec fn palette(&self) -> ChatColorsRgb {
        self.colors
    }

    /// Whether timestamps are shown.
    pub closed spec fn timestamps_shown(&self) -> bool {
        self.show_timestamps
    }

    /// The greatest scroll position: the rows of all messages less the
    /// visible height, or 0.
    pub open spec fn max_scroll(&self) -> int {
        sub_floor(total_rows(self.msgs()) as int, self.visible() as int)
    }

    /// Create a new chat component with the given colors and timestamp setting.
    pub fn new(colors: ChatColorsRgb, show_timestamps: bool) -> (c: Self)
        ensures
            c.msgs() == Seq::<Message>::empty(),
            c.scroll() == 0,
            c.visible() == 0,
            c.palette() == colors,
            c.timestamps_shown() == show_timestamps,
    {
        ChatComponent {
            messages: Vec::new(),
            scroll_position: 0,
            visible_height: 0,
            colors,
            show_timestamps,
        }
    }

    /// Create a new chat component with the default palette and timestamps shown.
    pub fn with_defaults() -> (c: Self)
        ensures
            c.msgs() == Seq::<Message>::empty(),
            c.scroll() == 0,
            c.visible() == 0,
            c.timestamps_shown(),
            c.palette() == (ChatColorsRgb {
                user_bg: Color::Indexed(238),
                user_text: Color::Indexed(252),
                assistant_bg: Color::Indexed(236),
                assistant_text: Color::Indexed(248),
                system_bg: Color::Indexed(235),
                system_text: Color::Indexed(245),
                tool_bg: Color::Indexed(237),
                tool_text: Color::Indexed(243),
                code_bg: Color::Indexed(233),
                code_text: Color::Indexed(252),
                border: Color::Indexed(240),
                timestamp: Color::Indexed(246),
            }),
    {
        Self::new(
            ChatColorsRgb {
                user_bg: Color::Indexed(238),
                user_text: Color::Indexed(252),
                assistant_bg: Color::Indexed(236),
                assistant_text: Color::Indexed(248),
                system_bg: Color::Indexed(235),
                system_text: Color::Indexed(245),
                tool_bg: Color::Indexed(237),
                tool_text: Color::Indexed(243),
                code_bg: Color::Indexed(233),
                code_text: Color::Indexed(252),
                border: Color::Indexed(240),
                timestamp: Color::Indexed(246),
            },
            true,
        )
    }

    /// Set the messages to display.
    pub fn with_messages(self, messages: Vec<Message>) -> (c: Self)
        ensures
            c.msgs() == messages@,
            c.scroll() == self.scroll(),
            c.visible() == self.visible(),
            c.palette() == self.palette(),
            c.timestamps_shown() == self.timestamps_shown(),
    {
        let mut c = self;
        c.messages = messages;
        c
    }

    /// Set the visible height of the chat area.
    pub fn set_visible_height(&mut self, height: u16)
        ensures
            final(self).visible() == height,
            final(self).msgs() == old(self).msgs(),
            final(self).scroll() == old(self).scroll(),
            final(self).palette() == old(self).palette(),
            final(self).timestamps_shown() == old(self).timestamps_shown(),
    {
        self.visible_height = height;
    }

    /// Scroll down by `amount` rows, no further than the greatest position.
    pub fn scroll_down(&mut self, amount: u16)
        requires
            rows_fit(old(self).msgs()),
        ensures
            final(self).scroll() == scrolled_down(old(self).scroll() as int, amount as int, old(self).max_scroll()),
            final(self).msgs() == old(self).msgs(),
            final(self).visible() == old(self).visible(),
            final(self).palette() == old(self).palette(),
            final(self).timestamps_shown() == old(self).timestamps_shown(),
    {
        let max = self.max_scroll_position();
        let next = self.scroll_position.saturating_add(amount);
        self.scroll_position = if next < max { next } else { max };
    }

    /// Scroll up by `amount` rows, no further than the top.
    pub fn scroll_up(&mut self, amount: u16)
        ensures
            final(self).scroll() == scrolled_up(old(self).scroll() as int, amount as int),
            final(self).msgs() == old(self).msgs(),
            final(self).visible() == old(self).visible(),
            final(self).palette() == old(self).palette(),
            final(self).timestamps_shown() == old(self).timestamps_shown(),
    {
        self.scroll_position = self.scroll_position.saturating_sub(amount);
    }

    /// Scroll to the bottom.
    pub fn scroll_to_bottom(&mut self)
        requires
            rows_fit(old(self).msgs()),
        ensures
            final(self).scroll() == old(self).max_scroll(),
            final(self).msgs() == old(self).msgs(),
            final(self).visible() == old(self).visible(),
            final(self).palette() == old(self).palette(),
            final(self).timestamps_shown() == old(self).timestamps_shown(),
    {
        self.scroll_position = self.max_scroll_position();
    }

    /// Scroll to the top.
    pub fn scroll_to_top(&mut self)
        ensures
            final(self).scroll() == 0,
            final(self).msgs() == old(self).msgs(),
            final(self).visible() == old(self).visible(),
            final(self).palette() == old(self).palette(),
            final(self).timestamps_shown() == old(self).timestamps_shown(),
    {
        self.scroll_position = 0;
    }

    /// The current scroll position in rows.
    pub fn scroll_position(&self) -> (p: u16)
        ensures
            p == self.scroll(),
    {
        self.scroll_position
    }

    /// Whether timestamps are shown.
    pub fn show_timestamps(&self) -> (b: bool)
        ensures
            b == self.timestamps_shown(),
    {
        self.show_timestamps
    }

    /// The configured colours.
    pub fn colors(&self) -> (c: ChatColorsRgb)
        ensures
            c == self.palette(),
    {
        self.colors
    }

    /// The rows of all messages, or `None` where they do not fit in a `u16`.
    pub fn checked_total_height(&self) -> (t: Option<u16>)
        ensures
            rows_fit(self.msgs()) ==> t == Some(total_rows(self.msgs()) as u16),
            !rows_fit(self.msgs()) ==> t is None,
    {
        let n = self.messages.len();
        let mut total: u16 = 0;
        for i in 0..n
            invariant
                n == self.messages@.len(),
                total == total_rows(self.messages@.take(i as int)),
        {
            proof {
                lemma_rows_prefix_step(self.messages@, i as int);
            }
            let m = &self.messages[i];
            let lines = count_lines(m.content.as_str());
            let mut content_lines = lines as u16;
            assert(content_lines == lines % 65536) by (bit_vector)
                requires
                    content_lines == lines as u16,
            ;
            if content_lines == 0 && m.is_streaming() {
                content_lines = 1;
            }
            let h = content_lines as u32 + 3;
            if h > 65535 || total as u32 + h > 65535 {
                proof {
                    lemma_total_rows_prefix(self.messages@, i + 1);
                }
                return None;
            }
            total = (total as u32 + h) as u16;
        }
        assert(self.messages@.take(n as int) =~= self.messages@);
        Some(total)
    }

    /// The greatest scroll position.
    pub fn max_scroll_position(&self) -> (m: u16)
        requires
            rows_fit(self.msgs()),
        ensures
            m == self.max_scroll(),
    {
        let total = self.total_height();
        total.saturating_sub(self.visible_height)
    }

    /// The rows of all messages.
    fn total_height(&self) -> (t: u16)
        requires
            rows_fit(self.msgs()),
        ensures
            t == total_rows(self.msgs()),
    {
        let n = self.messages.len();
        let mut total: u16 = 0;
        for i in 0..n
            invariant
                n == self.messages@.len(),
                rows_fit(self.messages@),
                total == total_rows(self.messages@.take(i as int)),
        {
            proof {
                lemma_total_rows_prefix(self.messages@, i + 1);
                assert(self.messages@.take(i + 1).drop_last() =~= self.messages@.take(i as int));
            }
            total = total + self.message_height(&self.messages[i]);
        }
        assert(self.messages@.take(n as int) =~= self.messages@);
        total
    }

    /// The rows a message takes.
    pub fn message_height(&self, message: &Message) -> (h: u16)
        requires
            message_rows(*message) <= u16::MAX,
        ensures
            h == message_rows(*message),
    {
        let lines = count_lines(message.content.as_str());
        let mut content_lines = lines as u16;
        assert(content_lines == lines % 65536) by (bit_vector)
            requires
                content_lines == lines as u16,
        ;
        if content_lines == 0 && message.is_streaming() {
            content_lines = 1;
        }
        content_lines + 3
    }

    /// The style for a message role: the role's background and text colours.
    pub fn get_role_style(&self, role: MessageRole) -> (s: Style)
        ensures
            s == match role {
                MessageRole::User => Style { fg: Some(self.palette().user_text), bg: Some(self.palette().user_bg) },
                MessageRole::Assistant => Style {
                    fg: Some(self.palette().assistant_text),
                    bg: Some(self.palette().assistant_bg),
                },
                MessageRole::System => Style {
                    fg: Some(self.palette().system_text),
                    bg: Some(self.palette().system_bg),
                },
                MessageRole::Tool => Style { fg: Some(self.palette().tool_text), bg: Some(self.palette().tool_bg) },
            },
    {
        match role {
            MessageRole::User => Style { fg: Some(self.colors.user_text), bg: Some(self.colors.user_bg) },
            MessageRole::Assistant => Style {
                fg: Some(self.colors.assistant_text),
                bg: Some(self.colors.assistant_bg),
            },
            MessageRole::System => Style { fg: Some(self.colors.system_text), bg: Some(self.colors.system_bg) },
            MessageRole::Tool => Style { fg: Some(self.colors.tool_text), bg: Some(self.colors.tool_bg) },
        }
    }

    /// The title shown for a message role.
    pub fn get_role_display(&self, role: MessageRole) -> (s: &'static str)
        ensures
            s@ == match role {
                MessageRole::User => " User "@,
                MessageRole::Assistant => " ≡ Kraken "@,
                MessageRole::System => " System "@,
                MessageRole::Tool => " Tool "@,
            },
    {
        match role {
            MessageRole::User => " User ",
            MessageRole::Assistant => " ≡ Kraken ",
            MessageRole::System => " System ",
            MessageRole::Tool => " Tool ",
        }
    }

    /// The bubble border for a role: thick in the border colour for the
    /// assistant, rounded in the user background for the user, rounded in
    /// the tool text colour for tools, plain in the system text colour for
    /// the system.
    pub fn bubble_border(&self, role: MessageRole) -> (r: (BorderKind, Style))
        ensures
            r == match role {
                MessageRole::Assistant => (BorderKind::Thick, Style { fg: Some(self.palette().border), bg: None }),
                MessageRole::User => (BorderKind::Rounded, Style { fg: Some(self.palette().user_bg), bg: None }),
                MessageRole::Tool => (BorderKind::Rounded, Style { fg: Some(self.palette().tool_text), bg: None }),
                MessageRole::System => (BorderKind::Plain, Style { fg: Some(self.palette().system_text), bg: None }),
            },
    {
        match role {
            MessageRole::Assistant => (BorderKind::Thick, Style { fg: Some(self.colors.border), bg: None }),
            MessageRole::User => (BorderKind::Rounded, Style { fg: Some(self.colors.user_bg), bg: None }),
            MessageRole::Tool => (BorderKind::Rounded, Style { fg: Some(self.colors.tool_text), bg: None }),
            MessageRole::System => (BorderKind::Plain, Style { fg: Some(self.colors.system_text), bg: None }),
        }
    }

    /// The time shown under a message while timestamps are shown: its UTC
    /// time as `HH:MM:SS` between spaces; nothing where timestamps are off
    /// or `chrono` has no such time.
    pub fn timestamp_label(&self, message: &Message) -> (r: Option<String>)
        ensures
            !self.timestamps_shown() ==> r is None,
            self.timestamps_shown() ==> match utc_formatted(message.timestamp, "%H:%M:%S"@) {
                Some(t) => (r matches Some(l) && l@ == seq![' '] + t + seq![' ']),
                None => r is None,
            },
            r matches Some(l) ==> l@ == seq![' '] + clock_time(message.timestamp as int) + seq![' '],
    {
        if !self.show_timestamps {
            return None;
        }
        proof {
            reveal_strlit("%H:%M:%S");
        }
        match format_utc(message.timestamp, "%H:%M:%S") {
            Some(t) => {
                let mut l = String::from_str(" ");
                l.append(t.as_str());
                push_char(&mut l, ' ');
                proof {
                    reveal_strlit(" ");
                }
                assert(l@ =~= seq![' '] + t@ + seq![' ']);
                Some(l)
            },
            None => None,
        }
    }

    /// The relative time since `timestamp` (Unix seconds), read against the
    /// current clock.
    pub fn format_timestamp(&self, timestamp: i64) -> (s: String)
        ensures
            exists|now: i64| s@ == relative_time(seconds_between(now as int, timestamp as int)),
    {
        let now = unix_seconds(seconds_from_epoch(&system_now()));
        relative_time_at(now, timestamp)
    }

    /// All messages.
    pub fn messages(&self) -> (m: &[Message])
        ensures
            m@ == self.msgs(),
    {
        self.messages.as_slice()
    }

    /// Add a message and scroll to the bottom.
    pub fn add_message(&mut self, message: Message)
        requires
            rows_fit(old(self).msgs().push(message)),
        ensures
            final(self).msgs() == old(self).msgs().push(message),
            final(self).scroll() == final(self).max_scroll(),
            final(self).visible() == old(self).visible(),
            final(self).palette() == old(self).palette(),
            final(self).timestamps_shown() == old(self).timestamps_shown(),
    {
        self.messages.push(message);
        self.scroll_to_bottom();
    }

    /// Replace the first message with the same id, if there is one.
    pub fn update_message(&mut self, updated_message: Message)
        ensures
            (exists|i: int| 0 <= i < old(self).msgs().len() && old(self).msgs()[i].message_id
                == updated_message.message_id) ==> (exists|i: int|
                0 <= i < old(self).msgs().len() && old(self).msgs()[i].message_id
                    == updated_message.message_id && (forall|j: int|
                    0 <= j < i ==> old(self).msgs()[j].message_id != updated_message.message_id)
                    && final(self).msgs() == old(self).msgs().update(i, updated_message)),
            (forall|i: int| 0 <= i < old(self).msgs().len() ==> old(self).msgs()[i].message_id
                != updated_message.message_id) ==> final(self).msgs() == old(self).msgs(),
            final(self).scroll() == old(self).scroll(),
            final(self).visible() == old(self).visible(),
            final(self).palette() == old(self).palette(),
            final(self).timestamps_shown() == old(self).timestamps_shown(),
    {
        let n = self.messages.len();
        let mut i: usize = 0;
        while i < n
            invariant
                n == self.messages@.len(),
                self.messages@ == old(self).messages@,
                self.scroll_position == old(self).scroll_position,
                self.visible_height == old(self).visible_height,
                self.colors == old(self).colors,
                self.show_timestamps == old(self).show_timestamps,
                i <= n,
                forall|j: int| 0 <= j < i ==> self.messages@[j].message_id != updated_message.message_id,
            decreases n - i,
        {
            if self.messages[i].message_id == updated_message.message_id {
                self.messages.set(i, updated_message);
                return;
            }
            i = i + 1;
        }
    }

    /// Clear all messages and scroll to the top.
    pub fn clear_messages(&mut self)
        ensures
            final(self).msgs() == Seq::<Message>::empty(),
            final(self).scroll() == 0,
            final(self).visible() == old(self).visible(),
            final(self).palette() == old(self).palette(),
            final(self).timestamps_shown() == old(self).timestamps_shown(),
    {
        self.messages = Vec::new();
        self.scroll_position = 0;
    }

    /// The layout of the chat area for an inner height: which messages are
    /// drawn where, the rows of all messages, the scroll position used, and
    /// whether the rows exceed the area so that a scrollbar is drawn.
    pub fn render_plan(&self, inner_height: u16) -> (p: ChatRenderPlan)
        requires
            rows_fit(self.msgs()),
        ensures
            p.total_height == total_rows(self.msgs()),
            p.scroll == effective_scroll(self.msgs(), self.scroll() as int, inner_height as int),
            p.show_scrollbar == (total_rows(self.msgs()) > inner_height),
            slot_triples(p.slots@) == chat_slots(self.msgs(), self.scroll() as int, inner_height as int),
    {
        let total = self.total_height();
        let max_scroll = total.saturating_sub(inner_height);
        let current_scroll = if self.scroll_position < max_scroll { self.scroll_position } else { max_scroll };
        let ghost msgs = self.messages@;
        let ghost sc = current_scroll as int;
        let n = self.messages.len();
        let mut current_y: u16 = 0;
        let mut start_idx: usize = 0;
        let mut start_offset: u16 = 0;
        let mut i: usize = 0;
        let mut found = false;
        while i < n && !found
            invariant
                n == msgs.len(),
                msgs == self.messages@,
                rows_fit(msgs),
                sc == current_scroll as int,
                i <= n,
                !found ==> current_y == total_rows(msgs.take(i as int)),
                !found ==> find_start(msgs, i as int, current_y as int, sc) == find_start(msgs, 0, 0, sc),
                found ==> (start_idx as int, start_offset as int) == find_start(msgs, 0, 0, sc),
                !found ==> start_idx == 0 && start_offset == 0,
            decreases n - i + (if found { 0int } else { 1int }),
        {
            proof {
                lemma_rows_prefix_step(msgs, i as int);
                lemma_total_rows_prefix(msgs, i + 1);
            }
            let msg_height = self.message_height(&self.messages[i]);
            if current_y + msg_height > current_scroll {
                start_idx = i;
                start_offset = current_scroll.saturating_sub(current_y);
                found = true;
            } else {
                current_y = current_y + msg_height;
                i = i + 1;
            }
        }
        proof {
            if !found {
                assert(find_start(msgs, n as int, current_y as int, sc) == (0int, 0int));
            }
        }
        let mut slots: Vec<MessageSlot> = Vec::new();
        let mut y_offset: u16 = 0;
        let mut offset = start_offset;
        let mut j = start_idx;
        assert(slot_triples(slots@) =~= Seq::<(int, int, int)>::empty());
        while j < n && y_offset < inner_height
            invariant
                n == msgs.len(),
                msgs == self.messages@,
                rows_fit(msgs),
                y_offset <= inner_height,
                slot_triples(slots@) + plan_slots(msgs, j as int, y_offset as int, offset as int, inner_height as int)
                    == plan_slots(msgs, start_idx as int, 0, start_offset as int, inner_height as int),
            decreases n - j,
        {
            proof {
                lemma_total_rows_prefix(msgs, j + 1);
                lemma_rows_prefix_step(msgs, j as int);
            }
            let msg_height = self.message_height(&self.messages[j]);
            let available = inner_height - y_offset;
            let rest = msg_height.saturating_sub(offset);
            let render_height = if rest < available { rest } else { available };
            let ghost before = slots@;
            if render_height > 0 {
                slots.push(MessageSlot { index: j, y: y_offset, height: render_height });
                assert(slot_triples(slots@) =~= slot_triples(before).push((j as int, y_offset as int, render_height as int)));
                y_offset = y_offset + render_height;
            }
            offset = 0;
            j = j + 1;
        }
        assert(plan_slots(msgs, j as int, y_offset as int, offset as int, inner_height as int) =~= Seq::<(int, int, int)>::empty());
        assert(slot_triples(slots@) =~= slot_triples(slots@) + Seq::<(int, int, int)>::empty());
        ChatRenderPlan {
            slots,
            total_height: total,
            scroll: current_scroll,
            show_scrollbar: total > inner_height,
        }
    }

    /// Set all messages at once and scroll to the bottom.
    pub fn set_messages(&mut self, messages: Vec<Message>)
        requires
            rows_fit(messages@),
        ensures
            final(self).msgs() == messages@,
            final(self).scroll() == final(self).max_scroll(),
            final(self).visible() == old(self).visible(),
            final(self).palette() == old(self).palette(),
            final(self).timestamps_shown() == old(self).timestamps_shown(),
    {
        self.messages = messages;
        self.scroll_to_bottom();
    }
}

} // verus!
