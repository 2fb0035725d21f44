//! What the screen shows, computed from the list's state: boxes, the visible
//! window of rows, and the texts of the header, footer, rows and dialog.
use vstd::prelude::*;

use crate::app::{AppState, SortMode};
use crate::scanner::{EntryView, PortEntry};
use crate::text::{chars_of, decimal, push_char, push_decimal, push_str};

verus! {

/// A rectangle of terminal cells.
#[derive(Clone, Copy, PartialEq, Eq, Structural, Debug)]
pub struct Area {
    pub x: u16,
    pub y: u16,
    pub width: u16,
    pub height: u16,
}

/// `a - b`, or 0 where `b` is larger.
pub open spec fn sat_sub(a: int, b: int) -> int {
    if a >= b {
        a - b
    } else {
        0
    }
}

/// The smaller of two numbers.
pub open spec fn min(a: int, b: int) -> int {
    if a <= b {
        a
    } else {
        b
    }
}

/// A box of at most `max_width` by `max_height` cells, centred in `area`
/// (rounding towards the top left).
pub open spec fn centered(area: Area, max_width: u16, max_height: u16) -> Area {
    let w = min(max_width as int, area.width as int);
    let h = min(max_height as int, area.height as int);
    Area {
        x: (area.x + sat_sub(area.width as int, w) / 2) as u16,
        y: (area.y + sat_sub(area.height as int, h) / 2) as u16,
        width: w as u16,
        height: h as u16,
    }
}

/// Centring does not run past the largest coordinate.
pub open spec fn centers_within(area: Area, max_width: u16, max_height: u16) -> bool {
    let w = min(max_width as int, area.width as int);
    let h = min(max_height as int, area.height as int);
    &&& area.x + sat_sub(area.width as int, w) / 2 <= u16::MAX
    &&& area.y + sat_sub(area.height as int, h) / 2 <= u16::MAX
}

/// Whether centring a box in `area` stays within the largest coordinate.
pub fn centering_fits(area: Area, max_width: u16, max_height: u16) -> (r: bool)
    ensures
        r == centers_within(area, max_width, max_height),
{
    let w = if max_width <= area.width { max_width } else { area.width };
    let h = if max_height <= area.height { max_height } else { area.height };
    (area.width - w) / 2 <= u16::MAX - area.x && (area.height - h) / 2 <= u16::MAX - area.y
}

/// A box of at most `max_width` by `max_height` cells centred in `area`.
pub fn centered_box(area: Area, max_width: u16, max_height: u16) -> (r: Area)
    requires
        centers_within(area, max_width, max_height),
    ensures
        r == centered(area, max_width, max_height),
{
    let w = if max_width <= area.width { max_width } else { area.width };
    let h = if max_height <= area.height { max_height } else { area.height };
    let x = area.x + (area.width - w) / 2;
    let y = area.y + (area.height - h) / 2;
    Area { x, y, width: w, height: h }
}

/// A centred box lies within its area and is no larger than asked.
pub proof fn lemma_centered_inside(area: Area, max_width: u16, max_height: u16)
    requires
        centers_within(area, max_width, max_height),
    ensures
        centered(area, max_width, max_height).x >= area.x,
        centered(area, max_width, max_height).y >= area.y,
        centered(area, max_width, max_height).x + centered(area, max_width, max_height).width
            <= area.x + area.width,
        centered(area, max_width, max_height).y + centered(area, max_width, max_height).height
            <= area.y + area.height,
        centered(area, max_width, max_height).width <= max_width,
        centered(area, max_width, max_height).height <= max_height,
{
}

/// The box of the kill dialog inside the list's area: 56 by 4 cells where
/// there is room, leaving a margin of 2 cells at the sides and 1 above and
/// below.
pub open spec fn confirm_area(area: Area) -> Area {
    centered(
        area,
        min(56, sat_sub(area.width as int, 4)) as u16,
        min(4, sat_sub(area.height as int, 2)) as u16,
    )
}

/// The box of the kill dialog inside `area`.
pub fn confirm_box(area: Area) -> (r: Area)
    requires
        centers_within(
            area,
            min(56, sat_sub(area.width as int, 4)) as u16,
            min(4, sat_sub(area.height as int, 2)) as u16,
        ),
    ensures
        r == confirm_area(area),
{
    let w: u16 = if 56 <= area.width.saturating_sub(4) { 56 } else { area.width.saturating_sub(4) };
    let h: u16 = if 4 <= area.height.saturating_sub(2) { 4 } else { area.height.saturating_sub(2) };
    centered_box(area, w, h)
}

/// Whether the kill dialog can be centred in `area` (see [`confirm_box`]).
pub fn confirm_fits(area: Area) -> (r: bool)
    ensures
        r == centers_within(
            area,
            min(56, sat_sub(area.width as int, 4)) as u16,
            min(4, sat_sub(area.height as int, 2)) as u16,
        ),
{
    let w: u16 = if 56 <= area.width.saturating_sub(4) { 56 } else { area.width.saturating_sub(4) };
    let h: u16 = if 4 <= area.height.saturating_sub(2) { 4 } else { area.height.saturating_sub(2) };
    centering_fits(area, w, h)
}

/// Where the message of an empty list goes: three rows (fewer if the area
/// is lower) starting one row above the middle of `area`.
pub open spec fn empty_message_area(area: Area) -> Area {
    let cy = area.y + area.height / 2;
    Area {
        x: area.x,
        y: sat_sub(cy, 1) as u16,
        width: area.width,
        height: min(3, area.height as int) as u16,
    }
}

/// The area of the message of an empty list.
pub fn empty_message_box(area: Area) -> (r: Area)
    requires
        area.y + area.height / 2 <= u16::MAX,
    ensures
        r == empty_message_area(area),
{
    let cy = area.y + area.height / 2;
    Area {
        x: area.x,
        y: cy.saturating_sub(1),
        width: area.width,
        height: if 3 <= area.height { 3 } else { area.height },
    }
}

/// The first row that a list of `total` rows shows in `height` lines (two
/// of them taken by the column header), so that the selection stays near
/// the middle.
pub open spec fn scroll_offset(total: int, selected: int, height: int) -> int {
    let max_visible = sat_sub(height, 2);
    if total <= max_visible {
        0
    } else if selected < max_visible / 2 {
        0
    } else if selected >= sat_sub(total, max_visible / 2) {
        sat_sub(total, max_visible)
    } else {
        sat_sub(selected, max_visible / 2)
    }
}

/// The rows `offset..end` of a list of `total` rows that `height` lines
/// show when row `selected` is highlighted.
pub fn visible_rows(total: usize, selected: usize, height: u16) -> (r: (usize, usize))
    ensures
        r.0 == scroll_offset(total as int, selected as int, height as int),
        r.1 == min(total as int, r.0 + sat_sub(height as int, 2)),
        r.0 <= r.1 <= total,
{
    let max_visible = height.saturating_sub(2) as usize;
    let offset = if total <= max_visible {
        0
    } else if selected < max_visible / 2 {
        0
    } else if selected >= total.saturating_sub(max_visible / 2) {
        total.saturating_sub(max_visible)
    } else {
        selected.saturating_sub(max_visible / 2)
    };
    let end = if total - offset <= max_visible { total } else { offset + max_visible };
    (offset, end)
}

/// The highlighted row is among those shown, where there are at least
/// three lines (one row besides the header).
pub proof fn lemma_selected_row_visible(total: usize, selected: usize, height: u16)
    requires
        selected < total,
        height >= 3,
    ensures
        scroll_offset(total as int, selected as int, height as int) <= selected,
        selected < min(
            total as int,
            scroll_offset(total as int, selected as int, height as int) + sat_sub(height as int, 2),
        ),
{
}


/// `n` spaces.
pub open spec fn spaces(n: int) -> Seq<char> {
    Seq::new(sat_sub(n, 0) as nat, |i: int| ' ')
}

/// `t` right-aligned in `width` columns, as `format!("{:>width$}")` writes
/// it: spaces before it up to `width` characters.
pub open spec fn pad_left(t: Seq<char>, width: int) -> Seq<char> {
    spaces(width - t.len()) + t
}

/// `t` left-aligned in `width` columns (`format!("{:<width$}")`).
pub open spec fn pad_right(t: Seq<char>, width: int) -> Seq<char> {
    t + spaces(width - t.len())
}

/// `t` cut to at most `n` characters (`format!("{:.n$}")`).
pub open spec fn cut(t: Seq<char>, n: int) -> Seq<char> {
    if t.len() > n {
        t.take(n)
    } else {
        t
    }
}

/// The number of bytes that UTF-8 takes for `c` (`char::len_utf8`).
pub open spec fn utf8_width(c: char) -> nat {
    if (c as u32) < 0x80 {
        1
    } else if (c as u32) < 0x800 {
        2
    } else if (c as u32) < 0x10000 {
        3
    } else {
        4
    }
}

/// The number of bytes of `t` in UTF-8 (`str::len`).
pub open spec fn utf8_len(t: Seq<char>) -> nat
    decreases t.len(),
{
    if t.len() == 0 {
        0
    } else {
        utf8_len(t.drop_last()) + utf8_width(t.last())
    }
}

proof fn lemma_utf8_len_prefix(t: Seq<char>, k: int)
    requires
        0 <= k <= t.len(),
    ensures
        utf8_len(t.take(k)) <= utf8_len(t),
    decreases t.len(),
{
    if k < t.len() {
        lemma_utf8_len_prefix(t.drop_last(), k);
        assert(t.drop_last().take(k) =~= t.take(k));
    } else {
        assert(t.take(k) =~= t);
    }
}

/// The number of bytes that `t` takes in UTF-8, where that is at most
/// `limit`.
pub fn utf8_len_within(t: &Vec<char>, limit: usize) -> (r: Option<usize>)
    ensures
        match r {
            Some(n) => n == utf8_len(t@) && n <= limit,
            None => utf8_len(t@) > limit,
        },
{
    let mut acc: usize = 0;
    let mut i: usize = 0;
    while i < t.len()
        invariant
            i <= t.len(),
            acc == utf8_len(t@.take(i as int)),
            acc <= limit,
        decreases t.len() - i,
    {
        let c = t[i];
        let w: usize = if (c as u32) < 0x80 {
            1
        } else if (c as u32) < 0x800 {
            2
        } else if (c as u32) < 0x10000 {
            3
        } else {
            4
        };
        assert(t@.take(i + 1).drop_last() =~= t@.take(i as int));
        if w > limit - acc {
            proof {
                lemma_utf8_len_prefix(t@, i + 1);
            }
            return None;
        }
        acc = acc + w;
        i += 1;
    }
    assert(t@.take(t.len() as int) =~= t@);
    Some(acc)
}

/// Whether `t` takes more than `limit` bytes in UTF-8.
pub fn longer_than_bytes(t: &Vec<char>, limit: usize) -> (r: bool)
    ensures
        r == (utf8_len(t@) > limit),
{
    utf8_len_within(t, limit).is_none()
}

/// Appends `n` spaces to `s`.
fn push_spaces(s: &mut String, n: usize)
    ensures
        final(s)@ == old(s)@ + spaces(n as int),
{
    let mut i: usize = 0;
    while i < n
        invariant
            i <= n,
            s@ == old(s)@ + spaces(i as int),
        decreases n - i,
    {
        push_char(s, ' ');
        assert(spaces(i + 1) =~= spaces(i as int).push(' '));
        i += 1;
    }
}

/// `t` right-aligned in `width` columns.
pub fn padded_left(t: &Vec<char>, width: usize) -> (r: String)
    ensures
        r@ == pad_left(t@, width as int),
{
    let mut r = String::new();
    let n: usize = if t.len() < width { width - t.len() } else { 0 };
    push_spaces(&mut r, n);
    crate::text::push_chars(&mut r, t);
    assert(r@ =~= pad_left(t@, width as int));
    r
}

/// `t` left-aligned in `width` columns.
pub fn padded_right(t: &Vec<char>, width: usize) -> (r: String)
    ensures
        r@ == pad_right(t@, width as int),
{
    let mut r = String::new();
    crate::text::push_chars(&mut r, t);
    let n: usize = if t.len() < width { width - t.len() } else { 0 };
    push_spaces(&mut r, n);
    assert(r@ =~= pad_right(t@, width as int));
    r
}

/// `t` cut to at most `n` characters.
pub fn cut_to(t: &Vec<char>, n: usize) -> (r: String)
    ensures
        r@ == cut(t@, n as int),
{
    if t.len() > n {
        let mut r = String::new();
        let mut i: usize = 0;
        while i < n
            invariant
                i <= n < t.len(),
                r@ == t@.take(i as int),
            decreases n - i,
        {
            push_char(&mut r, t[i]);
            assert(t@.take(i + 1) =~= t@.take(i as int).push(t@[i as int]));
            i += 1;
        }
        r
    } else {
        crate::text::string_of(t)
    }
}

/// The texts of one row of the list, column by column.
pub struct RowCells {
    pub marker: String,
    pub port: String,
    pub proto: String,
    pub process: String,
    pub pid: String,
    pub address: String,
}

/// The marker in front of a row: a triangle for the highlighted row.
pub open spec fn marker_text(selected: bool) -> Seq<char> {
    if selected {
        " \u{25b8} "@
    } else {
        "   "@
    }
}

/// The command name as its column shows it: cut to 14 characters where it
/// is longer than 14 bytes, else padded to 14 characters.
pub open spec fn process_cell(process: Seq<char>) -> Seq<char> {
    if utf8_len(process) > 14 {
        cut(process, 14)
    } else {
        pad_right(process, 14)
    }
}

/// The texts of the row that shows `entry`.
pub fn row_cells(entry: &PortEntry, selected: bool) -> (r: RowCells)
    ensures
        r.marker@ == marker_text(selected),
        r.port@ == pad_left(decimal(entry.port as nat), 5),
        r.proto@ == pad_right(entry.proto@, 3),
        r.process@ == process_cell(entry.process@),
        r.pid@ == pad_left(decimal(entry.pid as nat), 6),
        r.address@ == entry.address@,
{
    let mut marker = String::new();
    if selected {
        push_str(&mut marker, " \u{25b8} ");
    } else {
        push_str(&mut marker, "   ");
    }
    assert(marker@ =~= marker_text(selected));
    let port = padded_left(&crate::text::decimal_digits(entry.port as u64), 5);
    let proto = padded_right(&chars_of(entry.proto.as_str()), 3);
    let name = chars_of(entry.process.as_str());
    let process = if longer_than_bytes(&name, 14) {
        cut_to(&name, 14)
    } else {
        padded_right(&name, 14)
    };
    let pid = padded_left(&crate::text::decimal_digits(entry.pid as u64), 6);
    RowCells { marker, port, proto, process, pid, address: entry.address.clone() }
}


/// The status line while a message stands: a check mark or a cross, then
/// the message.
pub open spec fn message_line(text: Seq<char>, success: bool) -> Seq<char> {
    (if success {
        "\u{2713}"@
    } else {
        "\u{2717}"@
    }) + " "@ + text
}

/// The status line of a message.
pub fn message_text(text: &str, success: bool) -> (r: String)
    ensures
        r@ == message_line(text@, success),
{
    let mut r = String::new();
    if success {
        push_str(&mut r, "\u{2713}");
    } else {
        push_str(&mut r, "\u{2717}");
    }
    push_str(&mut r, " ");
    push_str(&mut r, text);
    assert(r@ =~= message_line(text@, success));
    r
}

/// The count at the left of the status line: how many of how many entries
/// the filter shows, or how many sockets listen.
pub open spec fn count_line(shown: nat, total: nat, filter: Seq<char>) -> Seq<char> {
    if filter.len() > 0 {
        "  "@ + decimal(shown) + " of "@ + decimal(total) + " ports (filter: \""@ + filter + "\")"@
    } else {
        "  "@ + decimal(shown) + " listening "@ + (if shown == 1 {
            "port"@
        } else {
            "ports"@
        })
    }
}

/// The count at the left of the status line.
pub fn count_text(shown: usize, total: usize, filter: &str) -> (r: String)
    ensures
        r@ == count_line(shown as nat, total as nat, filter@),
{
    let mut r = String::new();
    push_str(&mut r, "  ");
    push_decimal(&mut r, shown as u64);
    if filter.is_empty() {
        push_str(&mut r, " listening ");
        if shown == 1 {
            push_str(&mut r, "port");
        } else {
            push_str(&mut r, "ports");
        }
    } else {
        push_str(&mut r, " of ");
        push_decimal(&mut r, total as u64);
        push_str(&mut r, " ports (filter: \"");
        push_str(&mut r, filter);
        push_str(&mut r, "\")");
    }
    assert(r@ =~= count_line(shown as nat, total as nat, filter@));
    r
}

/// The order at the right of the status line.
pub open spec fn order_line(mode: SortMode) -> Seq<char> {
    "sorted by "@ + (match mode {
        SortMode::Port => "port"@,
        SortMode::Pid => "pid"@,
        SortMode::Process => "name"@,
    }) + " "@
}

/// The order at the right of the status line.
pub fn order_text(mode: SortMode) -> (r: String)
    ensures
        r@ == order_line(mode),
{
    let mut r = String::new();
    push_str(&mut r, "sorted by ");
    push_str(&mut r, mode.label());
    push_str(&mut r, " ");
    assert(r@ =~= order_line(mode));
    r
}

/// The spaces between the two ends of the status line, so that together
/// they fill `width` cells as far as their bytes go.
pub fn padding_between(width: u16, left: &str, right: &str) -> (r: usize)
    ensures
        r == sat_sub(width as int, (utf8_len(left@) + utf8_len(right@)) as int),
{
    let w = width as usize;
    let l = match utf8_len_within(&chars_of(left), w) {
        Some(n) => n,
        None => return 0,
    };
    match utf8_len_within(&chars_of(right), w - l) {
        Some(n) => w - l - n,
        None => 0,
    }
}

/// The shortcuts that the footer lists: none while the filter is edited
/// (the footer shows the filter then), yes and no in the dialog, and the
/// list's keys otherwise, with one to clear a filter where there is one.
pub open spec fn footer_items(state: AppState, filter_empty: bool) -> Seq<(Seq<char>, Seq<char>)> {
    match state {
        AppState::Filtering => seq![],
        AppState::ConfirmKill => seq![("y"@, "confirm"@), ("n"@, "cancel"@)],
        AppState::Normal => {
            let front = seq![
                ("\u{2191}\u{2193}"@, "navigate"@),
                ("enter"@, "kill"@),
                ("r"@, "refresh"@),
                ("s"@, "sort"@),
                ("/"@, "filter"@),
            ];
            if filter_empty {
                front.push(("q"@, "quit"@))
            } else {
                front.push(("esc"@, "clear"@)).push(("q"@, "quit"@))
            }
        },
    }
}

/// The contents of a list of key and action labels.
pub open spec fn label_pairs(v: Seq<(&'static str, &'static str)>) -> Seq<(Seq<char>, Seq<char>)> {
    v.map_values(|p: (&'static str, &'static str)| (p.0@, p.1@))
}

/// The shortcuts that the footer lists, as key and action labels.
pub fn footer_hints(state: AppState, filter_empty: bool) -> (r: Vec<(&'static str, &'static str)>)
    ensures
        label_pairs(r@) == footer_items(state, filter_empty),
{
    let mut r: Vec<(&'static str, &'static str)> = Vec::new();
    match state {
        AppState::Filtering => {},
        AppState::ConfirmKill => {
            r.push(("y", "confirm"));
            r.push(("n", "cancel"));
        },
        AppState::Normal => {
            r.push(("\u{2191}\u{2193}", "navigate"));
            r.push(("enter", "kill"));
            r.push(("r", "refresh"));
            r.push(("s", "sort"));
            r.push(("/", "filter"));
            if !filter_empty {
                r.push(("esc", "clear"));
            }
            r.push(("q", "quit"));
        },
    }
    assert(label_pairs(r@) =~= footer_items(state, filter_empty));
    r
}

/// What an empty list says, and the hint below it.
pub open spec fn empty_lines(filter: Seq<char>) -> (Seq<char>, Seq<char>) {
    if filter.len() > 0 {
        ("No ports matching \""@ + filter + "\""@, "Press esc to clear filter"@)
    } else {
        ("No listening ports found"@, "Press r to refresh"@)
    }
}

/// What an empty list says, and the hint below it.
pub fn empty_texts(filter: &str) -> (r: (String, &'static str))
    ensures
        r.0@ == empty_lines(filter@).0,
        r.1@ == empty_lines(filter@).1,
{
    let mut m = String::new();
    if filter.is_empty() {
        push_str(&mut m, "No listening ports found");
        assert(m@ =~= empty_lines(filter@).0);
        (m, "Press r to refresh")
    } else {
        push_str(&mut m, "No ports matching \"");
        push_str(&mut m, filter);
        push_str(&mut m, "\"");
        assert(m@ =~= empty_lines(filter@).0);
        (m, "Press esc to clear filter")
    }
}

/// The line of the kill dialog that names the process.
pub open spec fn confirm_line(e: EntryView) -> Seq<char> {
    "  "@ + e.process + " (PID "@ + decimal(e.pid as nat) + ") on :"@ + decimal(e.port as nat)
}

/// The line of the kill dialog that names the process of `entry`.
pub fn confirm_text(entry: &PortEntry) -> (r: String)
    ensures
        r@ == confirm_line(entry@),
{
    let mut r = String::new();
    push_str(&mut r, "  ");
    push_str(&mut r, entry.process.as_str());
    push_str(&mut r, " (PID ");
    push_decimal(&mut r, entry.pid as u64);
    push_str(&mut r, ") on :");
    push_decimal(&mut r, entry.port as u64);
    assert(r@ =~= confirm_line(entry@));
    r
}


/// The titles of the columns, padded as the rows are: the port and PID
/// right-aligned in 5 and 6 columns, the protocol and command left-aligned
/// in 3 and 14.
pub open spec fn column_titles_spec() -> Seq<Seq<char>> {
    seq![
        pad_left("PORT"@, 5),
        pad_right("PRT"@, 3),
        pad_right("PROCESS"@, 14),
        pad_left("PID"@, 6),
        "ADDRESS"@,
    ]
}

/// The contents of a list of strings.
pub open spec fn string_texts(v: Seq<String>) -> Seq<Seq<char>> {
    v.map_values(|t: String| t@)
}

/// The titles of the columns.
pub fn column_titles() -> (r: Vec<String>)
    ensures
        string_texts(r@) == column_titles_spec(),
{
    let mut r: Vec<String> = Vec::new();
    r.push(padded_left(&chars_of("PORT"), 5));
    r.push(padded_right(&chars_of("PRT"), 3));
    r.push(padded_right(&chars_of("PROCESS"), 14));
    r.push(padded_left(&chars_of("PID"), 6));
    let mut a = String::new();
    push_str(&mut a, "ADDRESS");
    r.push(a);
    assert(string_texts(r@) =~= column_titles_spec());
    r
}

/// The two labels of a shortcut in the footer: the key with a space on
/// each side, and the action with one space before and two after.
pub open spec fn shortcut_lines(key: Seq<char>, action: Seq<char>) -> (Seq<char>, Seq<char>) {
    (" "@ + key + " "@, " "@ + action + "  "@)
}

/// The two labels of a shortcut in the footer.
pub fn shortcut_texts(key: &str, action: &str) -> (r: (String, String))
    ensures
        r.0@ == shortcut_lines(key@, action@).0,
        r.1@ == shortcut_lines(key@, action@).1,
{
    let mut k = String::new();
    push_str(&mut k, " ");
    push_str(&mut k, key);
    push_str(&mut k, " ");
    let mut a = String::new();
    push_str(&mut a, " ");
    push_str(&mut a, action);
    push_str(&mut a, "  ");
    (k, a)
}

/// The footer while the filter is edited: the filter text after a space,
/// then a block standing for the cursor.
pub open spec fn filter_prompt_line(filter: Seq<char>) -> Seq<char> {
    " "@ + filter + "\u{2588}"@
}

/// The footer while the filter is edited.
pub fn filter_prompt(filter: &str) -> (r: String)
    ensures
        r@ == filter_prompt_line(filter@),
{
    let mut r = String::new();
    push_str(&mut r, " ");
    push_str(&mut r, filter);
    push_str(&mut r, "\u{2588}");
    r
}

/// The colours that the screen uses, by role.
#[derive(Clone, Copy, PartialEq, Eq, Structural, Debug)]
pub enum Tone {
    /// The terminal's own colour.
    Default,
    /// The background reset to the terminal's.
    Reset,
    Accent,
    White,
    Text,
    Dim,
    Highlight,
}

/// The colour of a cell's text and whether it is bold.
#[derive(Clone, Copy, PartialEq, Eq, Structural, Debug)]
pub struct CellLook {
    pub fg: Tone,
    pub bold: bool,
}

/// How a row is coloured: its background, and the look of the marker, the
/// port, the dimmer columns (protocol, PID, address) and the command.
#[derive(Clone, Copy, PartialEq, Eq, Structural, Debug)]
pub struct RowLook {
    pub background: Tone,
    pub marker: CellLook,
    pub port: CellLook,
    pub dim: CellLook,
    pub process: CellLook,
}

/// How a row is coloured: the highlighted row on the highlight background,
/// with an accented bold marker, a white bold port, the dim columns in text
/// colour and a bold command; other rows on the terminal's background, with
/// text-coloured port, dim columns and an accented command.
pub open spec fn row_look_spec(selected: bool) -> RowLook {
    if selected {
        RowLook {
            background: Tone::Highlight,
            marker: CellLook { fg: Tone::Accent, bold: true },
            port: CellLook { fg: Tone::White, bold: true },
            dim: CellLook { fg: Tone::Text, bold: false },
            process: CellLook { fg: Tone::Accent, bold: true },
        }
    } else {
        RowLook {
            background: Tone::Reset,
            marker: CellLook { fg: Tone::Default, bold: false },
            port: CellLook { fg: Tone::Text, bold: false },
            dim: CellLook { fg: Tone::Dim, bold: false },
            process: CellLook { fg: Tone::Accent, bold: false },
        }
    }
}

/// How a row is coloured.
pub fn row_look(selected: bool) -> (r: RowLook)
    ensures
        r == row_look_spec(selected),
{
    if selected {
        RowLook {
            background: Tone::Highlight,
            marker: CellLook { fg: Tone::Accent, bold: true },
            port: CellLook { fg: Tone::White, bold: true },
            dim: CellLook { fg: Tone::Text, bold: false },
            process: CellLook { fg: Tone::Accent, bold: true },
        }
    } else {
        RowLook {
            background: Tone::Reset,
            marker: CellLook { fg: Tone::Default, bold: false },
            port: CellLook { fg: Tone::Text, bold: false },
            dim: CellLook { fg: Tone::Dim, bold: false },
            process: CellLook { fg: Tone::Accent, bold: false },
        }
    }
}

} // verus!
