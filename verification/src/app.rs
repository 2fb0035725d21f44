//! The state of the port list and how it answers keys, ticks and rescans.
use vstd::prelude::*;

use crate::order::{
    lemma_sort_idempotent, lemma_sorted_is_in_order, lemma_sorted_same_entries, lex_le, sort_key,
    sort_ports, stably_sorted,
};
use crate::scanner::{entry_views, EntryView, PortEntry};
use crate::text::{
    ascii_lower, ascii_upper, chars_of, contains, occurs_at, contains_chars, decimal, is_ascii_text, decimal_digits, lowercase, pop_char, push_char,
    push_decimal, push_str, to_lowercase,
};

verus! {

/// The order in which the list shows its entries.
#[derive(Clone, Copy, PartialEq, Eq, Structural, Debug)]
pub enum SortMode {
    Port,
    Pid,
    Process,
}

impl SortMode {
    /// The word the status line shows for this order.
    pub fn label(self) -> (r: &'static str)
        ensures
            self == SortMode::Port ==> r@ == "port"@,
            self == SortMode::Pid ==> r@ == "pid"@,
            self == SortMode::Process ==> r@ == "name"@,
    {
        match self {
            SortMode::Port => "port",
            SortMode::Pid => "pid",
            SortMode::Process => "name",
        }
    }

    /// The order that follows this one: port, then name, then pid, then
    /// port again.
    pub open spec fn following(self) -> SortMode {
        match self {
            SortMode::Port => SortMode::Process,
            SortMode::Process => SortMode::Pid,
            SortMode::Pid => SortMode::Port,
        }
    }

    /// The order that the `s` key switches to.
    pub fn next(self) -> (r: Self)
        ensures
            r == self.following(),
    {
        match self {
            SortMode::Port => SortMode::Process,
            SortMode::Process => SortMode::Pid,
            SortMode::Pid => SortMode::Port,
        }
    }
}

/// Switching the order three times comes back to where it started, and
/// passes through all three orders on the way.
pub proof fn lemma_sort_modes_cycle(m: SortMode)
    ensures
        m.following().following().following() == m,
        m.following() != m,
        m.following().following() != m,
        m.following() != m.following().following(),
{
}

/// What the keys act on: the list, the confirmation of a kill, or the
/// filter text.
#[derive(Clone, Copy, PartialEq, Eq, Structural, Debug)]
pub enum AppState {
    Normal,
    ConfirmKill,
    Filtering,
}


/// Whether entry `e` matches the lower-case query `q`: every entry matches
/// the empty query; otherwise `q` must stand in the lower-case command name,
/// the decimal port, the decimal PID or the lower-case address.
pub open spec fn entry_matches(e: EntryView, q: Seq<char>) -> bool {
    ||| q.len() == 0
    ||| contains(lowercase(e.process), q)
    ||| contains(decimal(e.port as nat), q)
    ||| contains(decimal(e.pid as nat), q)
    ||| contains(lowercase(e.address), q)
}

/// The indices of the entries of `s` that match `q`, in increasing order.
pub open spec fn matching_indices(s: Seq<EntryView>, q: Seq<char>) -> Seq<int>
    decreases s.len(),
{
    if s.len() == 0 {
        seq![]
    } else {
        let prev = matching_indices(s.drop_last(), q);
        if entry_matches(s.last(), q) {
            prev.push(s.len() - 1)
        } else {
            prev
        }
    }
}

/// The indices that matching yields are those of matching entries, strictly
/// increasing, and each entry that matches has its index among them.
pub proof fn lemma_matching_indices(s: Seq<EntryView>, q: Seq<char>)
    ensures
        forall|k: int|
            0 <= k < matching_indices(s, q).len() ==> 0 <= #[trigger] matching_indices(s, q)[k]
                < s.len() && entry_matches(s[matching_indices(s, q)[k]], q),
        forall|a: int, b: int|
            0 <= a < b < matching_indices(s, q).len() ==> #[trigger] matching_indices(s, q)[a]
                < #[trigger] matching_indices(s, q)[b],
        forall|i: int|
            0 <= i < s.len() && entry_matches(#[trigger] s[i], q) ==> matching_indices(
                s,
                q,
            ).contains(i),
        matching_indices(s, q).len() <= s.len(),
    decreases s.len(),
{
    if s.len() > 0 {
        let p = s.drop_last();
        lemma_matching_indices(p, q);
        let prev = matching_indices(p, q);
        assert forall|i: int| 0 <= i < s.len() && entry_matches(#[trigger] s[i], q) implies matching_indices(
            s,
            q,
        ).contains(i) by {
            if i < s.len() - 1 {
                assert(p[i] == s[i]);
                let k = choose|k: int| 0 <= k < prev.len() && prev[k] == i;
                assert(matching_indices(s, q)[k] == i);
            } else {
                assert(matching_indices(s, q)[prev.len() as int] == i);
            }
        }
        assert forall|k: int| 0 <= k < matching_indices(s, q).len() implies 0 <= #[trigger] matching_indices(s, q)[k]
            < s.len() && entry_matches(s[matching_indices(s, q)[k]], q) by {
            if k < prev.len() {
                assert(matching_indices(s, q)[k] == prev[k]);
                assert(p[prev[k]] == s[prev[k]]);
            }
        }
    }
}

/// The lower-case query that the filter text stands for: the text lowered
/// as `str::to_lowercase` lowers it, which on ASCII text is
/// `to_ascii_lowercase` character by character (so empty for an empty text).
pub open spec fn filter_query(filter: Seq<char>) -> Seq<char> {
    if is_ascii_text(filter) {
        filter.map_values(|c: char| ascii_lower(c))
    } else {
        lowercase(filter)
    }
}

/// Where the selection lands when the list is cut to `len` entries: it
/// stays where it was unless that is past the end, and then goes to the
/// last entry (or 0 for an empty list).
pub open spec fn clamp_selection(selected: usize, len: nat) -> usize {
    if selected >= len {
        if len == 0 {
            0
        } else {
            (len - 1) as usize
        }
    } else {
        selected
    }
}

/// The state of the port list.
pub struct App {
    /// Every listening socket of the last scan, in the current order.
    pub all_ports: Vec<PortEntry>,
    /// Indices into `all_ports` of the entries that the filter shows.
    pub filtered: Vec<usize>,
    /// Position of the highlighted entry within `filtered`.
    pub selected: usize,
    pub state: AppState,
    /// The filter text as typed.
    pub filter: String,
    pub sort_mode: SortMode,
    pub should_quit: bool,
    pub spinner_tick: usize,
    /// The last status message: its text, whether it reports a success, and
    /// when it was set (milliseconds on the caller's monotonic clock).
    pub message: Option<(String, bool, u64)>,
    /// When the next rescan is due (milliseconds on the same clock).
    pub rescan_at: u64,
}

/// How long a status message stays up, in milliseconds.
pub const MESSAGE_MS: u64 = 2000;

/// How often the list rescans by itself, in milliseconds.
pub const REFRESH_MS: u64 = 3000;

impl App {
    /// The shown list holds exactly the indices of the entries that match
    /// the filter, in order, and the selection lies within it.
    pub open spec fn wf(&self) -> bool {
        &&& self.filtered@.map_values(|i: usize| i as int) == matching_indices(
            entry_views(self.all_ports@),
            filter_query(self.filter@),
        )
        &&& if self.filtered.len() == 0 {
            self.selected == 0
        } else {
            self.selected < self.filtered.len()
        }
    }

    /// The entry that the highlighted row shows.
    pub open spec fn selection(&self) -> Option<EntryView> {
        if self.selected < self.filtered.len() {
            Some(self.all_ports@[self.filtered@[self.selected as int] as int]@)
        } else {
            None
        }
    }

    /// The highlighted entry, if the shown list is not empty.
    pub fn selected_entry(&self) -> (r: Option<&PortEntry>)
        requires
            self.wf(),
        ensures
            match r {
                Some(e) => self.selection() == Some(e@) && self.selected < self.filtered.len(),
                None => self.selection() is None && self.filtered.len() == 0,
            },
    {
        if self.selected < self.filtered.len() {
            let i = self.filtered[self.selected];
            proof {
                lemma_matching_indices(entry_views(self.all_ports@), filter_query(self.filter@));
                assert(self.filtered@.map_values(|i: usize| i as int)[self.selected as int] == i);
            }
            Some(&self.all_ports[i])
        } else {
            None
        }
    }

    /// Recomputes the shown list from the filter and keeps the selection
    /// within it.
    pub fn apply_filter(&mut self)
        ensures
            final(self).filtered@.map_values(|i: usize| i as int) == matching_indices(
                entry_views(old(self).all_ports@),
                filter_query(old(self).filter@),
            ),
            final(self).selected == clamp_selection(old(self).selected, final(self).filtered.len() as nat),
            final(self).all_ports == old(self).all_ports,
            final(self).state == old(self).state,
            final(self).filter == old(self).filter,
            final(self).sort_mode == old(self).sort_mode,
            final(self).should_quit == old(self).should_quit,
            final(self).spinner_tick == old(self).spinner_tick,
            final(self).message == old(self).message,
            final(self).rescan_at == old(self).rescan_at,
            final(self).wf(),
    {
        let low = to_lowercase(self.filter.as_str());
        let q = chars_of(low.as_str());
        let ghost s = entry_views(self.all_ports@);
        let mut out: Vec<usize> = Vec::new();
        let mut i: usize = 0;
        while i < self.all_ports.len()
            invariant
                i <= self.all_ports.len(),
                s == entry_views(self.all_ports@),
                q@ == filter_query(self.filter@),
                out@.map_values(|k: usize| k as int) == matching_indices(s.take(i as int), q@),
            decreases self.all_ports.len() - i,
        {
            let e = &self.all_ports[i];
            assert(s[i as int] == e@);
            let m = q.len() == 0 || contains_chars(&chars_of(to_lowercase(e.process.as_str()).as_str()), &q)
                || contains_chars(&decimal_digits(e.port as u64), &q)
                || contains_chars(&decimal_digits(e.pid as u64), &q)
                || contains_chars(&chars_of(to_lowercase(e.address.as_str()).as_str()), &q);
            assert(s.take(i + 1).drop_last() =~= s.take(i as int));
            if m {
                out.push(i);
                assert(out@.map_values(|k: usize| k as int) =~= matching_indices(s.take(i as int), q@).push(i as int));
            }
            i += 1;
        }
        assert(s.take(self.all_ports.len() as int) =~= s);
        self.filtered = out;
        if self.selected >= self.filtered.len() {
            self.selected = if self.filtered.len() == 0 { 0 } else { self.filtered.len() - 1 };
        }
    }

    /// Sorts the entries by the current order and recomputes the shown list.
    pub fn sort_and_filter(&mut self)
        ensures
            sorted_and_filtered(*old(self), *final(self)),
            final(self).wf(),
    {
        sort_ports(&mut self.all_ports, self.sort_mode);
        self.apply_filter();
    }

    /// A new list of the entries of a scan made at `now`: sorted by port,
    /// unfiltered, the first entry highlighted, the next rescan due
    /// `REFRESH_MS` later.
    pub fn new(entries: Vec<PortEntry>, now: u64) -> (r: App)
        ensures
            stably_sorted(SortMode::Port, entry_views(entries@), entry_views(r.all_ports@)),
            r.filtered@.map_values(|i: usize| i as int) == matching_indices(
                entry_views(r.all_ports@),
                filter_query(seq![]),
            ),
            r.filtered.len() == entries.len(),
            r.selected == 0,
            r.state == AppState::Normal,
            r.filter@ == Seq::<char>::empty(),
            r.sort_mode == SortMode::Port,
            !r.should_quit,
            r.spinner_tick == 0,
            r.message is None,
            r.rescan_at == now.saturating_add(REFRESH_MS),
            r.wf(),
    {
        let n = entries.len();
        let mut filtered: Vec<usize> = Vec::new();
        let mut i: usize = 0;
        while i < n
            invariant
                i <= n,
                filtered.len() == i,
            decreases n - i,
        {
            filtered.push(i);
            i += 1;
        }
        let mut app = App {
            all_ports: entries,
            filtered,
            selected: 0,
            state: AppState::Normal,
            filter: String::new(),
            sort_mode: SortMode::Port,
            should_quit: false,
            spinner_tick: 0,
            message: None,
            rescan_at: now.saturating_add(REFRESH_MS),
        };
        app.sort_and_filter();
        proof {
            assert(filter_query(seq![]) =~= seq![]);
            lemma_all_match_empty_query(entry_views(app.all_ports@));
            assert(app.filtered@.map_values(|i: usize| i as int).len() == app.filtered.len());
            let p = choose|p: Seq<int>| crate::order::stable_order(SortMode::Port, entry_views(entries@), p)
                && entry_views(app.all_ports@) == p.map_values(|k: int| entry_views(entries@)[k]);
            assert(entry_views(app.all_ports@).len() == n);
        }
        app
    }
}


impl App {
    /// The indices of the shown entries.
    pub open spec fn shown(&self) -> Seq<int> {
        self.filtered@.map_values(|i: usize| i as int)
    }

    /// `pos` is the first row of the shown list whose entry is process `pid`
    /// listening on `port`.
    pub open spec fn first_row_of(&self, pid: u32, port: u16, pos: int) -> bool {
        &&& 0 <= pos < self.filtered.len()
        &&& self.all_ports@[self.shown()[pos]].pid == pid
        &&& self.all_ports@[self.shown()[pos]].port == port
        &&& forall|j: int|
            0 <= j < pos ==> !(self.all_ports@[#[trigger] self.shown()[j]].pid == pid
                && self.all_ports@[self.shown()[j]].port == port)
    }

    /// Takes the entries of a scan made at `now`: sorts and filters them as
    /// before, keeps the highlight on the same process and port where that
    /// is still shown (else keeps the row number within the list), and puts
    /// the next rescan `REFRESH_MS` after `now`.
    pub fn refresh(&mut self, entries: Vec<PortEntry>, now: u64)
        requires
            old(self).wf(),
        ensures
            stably_sorted(old(self).sort_mode, entry_views(entries@), entry_views(final(self).all_ports@)),
            final(self).shown() == matching_indices(
                entry_views(final(self).all_ports@),
                filter_query(old(self).filter@),
            ),
            match old(self).selection() {
                Some(e) => if exists|pos: int| final(self).first_row_of(e.pid, e.port, pos) {
                    final(self).first_row_of(e.pid, e.port, final(self).selected as int)
                } else {
                    final(self).selected == clamp_selection(old(self).selected, final(self).filtered.len() as nat)
                },
                None => final(self).selected == clamp_selection(old(self).selected, final(self).filtered.len() as nat),
            },
            final(self).state == old(self).state,
            final(self).filter == old(self).filter,
            final(self).sort_mode == old(self).sort_mode,
            final(self).should_quit == old(self).should_quit,
            final(self).spinner_tick == old(self).spinner_tick,
            final(self).message == old(self).message,
            final(self).rescan_at == now.saturating_add(REFRESH_MS),
            final(self).wf(),
            keeps_highlight(*old(self), *final(self)),
    {
        let prev = match self.selected_entry() {
            Some(e) => Some((e.pid, e.port)),
            None => None,
        };
        self.all_ports = entries;
        self.sort_and_filter();
        if let Some((pid, port)) = prev {
            proof {
                lemma_matching_indices(entry_views(self.all_ports@), filter_query(self.filter@));
            }
            let mut k: usize = 0;
            let mut found: Option<usize> = None;
            while k < self.filtered.len()
                invariant
                    k <= self.filtered.len(),
                    self.wf(),
                    forall|j: int| 0 <= j < self.filtered.len() ==> 0 <= #[trigger] self.shown()[j] < self.all_ports.len(),
                    found is None ==> forall|j: int|
                        0 <= j < k ==> !(self.all_ports@[#[trigger] self.shown()[j]].pid == pid
                            && self.all_ports@[self.shown()[j]].port == port),
                    found matches Some(p) ==> self.first_row_of(pid, port, p as int),
                decreases self.filtered.len() - k,
            {
                let i = self.filtered[k];
                assert(self.shown()[k as int] == i);
                if found.is_none() && self.all_ports[i].pid == pid && self.all_ports[i].port == port {
                    found = Some(k);
                }
                k += 1;
            }
            match found {
                Some(p) => {
                    self.selected = p;
                },
                None => {
                    assert forall|pos: int| !self.first_row_of(pid, port, pos) by {
                        if 0 <= pos < self.filtered.len() {
                        }
                    }
                },
            }
            proof {
                if let Some(p) = found {
                    assert forall|q: int| self.first_row_of(pid, port, q) implies q == p by {
                        if q < p {
                            assert(!(self.all_ports@[self.shown()[q]].pid == pid && self.all_ports@[self.shown()[q]].port == port));
                        } else if q > p {
                            assert(!(self.all_ports@[self.shown()[p as int]].pid == pid && self.all_ports@[self.shown()[p as int]].port == port));
                        }
                    }
                }
            }
        }
        self.rescan_at = now.saturating_add(REFRESH_MS);
    }
}

/// A key as the list reads it; `Interrupt` is Ctrl+C.
#[derive(Clone, Copy, PartialEq, Eq, Structural, Debug)]
pub enum Key {
    Interrupt,
    Char(char),
    Up,
    Down,
    Enter,
    Esc,
    Backspace,
    Other,
}

/// What the caller is to do after a key: nothing, rescan and hand the
/// entries to [`App::refresh`], or kill the entry's process and report the
/// outcome to [`App::finish_kill`].
#[derive(Debug)]
pub enum Action {
    Nothing,
    Rescan,
    Kill(PortEntry),
}

/// The selection after moving up one row.
pub open spec fn moved_up(selected: usize) -> usize {
    if selected > 0 {
        (selected - 1) as usize
    } else {
        selected
    }
}

/// The selection after moving down one row in a list of `len` rows.
pub open spec fn moved_down(selected: usize, len: nat) -> usize {
    if selected + 1 < len {
        (selected + 1) as usize
    } else {
        selected
    }
}

/// The status message after killing the process of `e`.
pub open spec fn killed_text(e: EntryView) -> Seq<char> {
    "Killed "@ + e.process + " (PID "@ + decimal(e.pid as nat) + ") on :"@ + decimal(e.port as nat)
}

/// The error that a failed kill of `pid` reports.
pub open spec fn kill_failed_text(pid: u32) -> Seq<char> {
    "Failed to kill PID "@ + decimal(pid as nat) + " (permission denied?)"@
}

/// What a kill of `pid` comes to, given what the `kill` system call
/// returned: success for 0, else an error that names the PID.
pub fn kill_result(pid: u32, ret: i32) -> (r: Result<(), String>)
    ensures
        ret == 0 ==> r is Ok,
        ret != 0 ==> (r matches Err(m) && m@ == kill_failed_text(pid)),
{
    if ret == 0 {
        Ok(())
    } else {
        let mut m = String::new();
        push_str(&mut m, "Failed to kill PID ");
        push_decimal(&mut m, pid as u64);
        push_str(&mut m, " (permission denied?)");
        Err(m)
    }
}

impl App {
    /// The fields that keys other than the list's own leave alone agree.
    pub open spec fn same_list(&self, other: &App) -> bool {
        &&& self.all_ports == other.all_ports
        &&& self.filtered == other.filtered
        &&& self.filter == other.filter
        &&& self.sort_mode == other.sort_mode
    }

    /// The fields that the clock and the kill report own agree.
    pub open spec fn same_status(&self, other: &App) -> bool {
        &&& self.spinner_tick == other.spinner_tick
        &&& self.message == other.message
        &&& self.rescan_at == other.rescan_at
    }

    /// Answers a key: Ctrl+C quits whatever the state; other keys go to the
    /// list, the confirmation or the filter, as the state says.
    pub fn handle_key(&mut self, key: Key) -> (act: Action)
        requires
            old(self).wf(),
        ensures
            final(self).wf(),
            key == Key::Interrupt ==> final(self).should_quit && act is Nothing && *final(self) == (App {
                should_quit: true,
                ..*old(self)
            }),
            key != Key::Interrupt && old(self).state == AppState::Normal ==> normal_step(*old(self), *final(self), key, act),
            key != Key::Interrupt && old(self).state == AppState::ConfirmKill ==> confirm_step(*old(self), *final(self), key, act),
            key != Key::Interrupt && old(self).state == AppState::Filtering ==> filter_step(*old(self), *final(self), key, act),
    {
        if let Key::Interrupt = key {
            self.should_quit = true;
            return Action::Nothing;
        }
        match self.state {
            AppState::Normal => self.handle_normal_key(key),
            AppState::ConfirmKill => self.handle_confirm_key(key),
            AppState::Filtering => self.handle_filter_key(key),
        }
    }

    /// The list's keys.
    pub fn handle_normal_key(&mut self, key: Key) -> (act: Action)
        requires
            old(self).wf(),
        ensures
            final(self).wf(),
            normal_step(*old(self), *final(self), key, act),
    {
        match key {
            Key::Char('q') | Key::Esc => {
                self.should_quit = true;
                Action::Nothing
            },
            Key::Up | Key::Char('k') => {
                if self.selected > 0 {
                    self.selected -= 1;
                }
                Action::Nothing
            },
            Key::Down | Key::Char('j') => {
                if self.selected + 1 < self.filtered.len() {
                    self.selected += 1;
                }
                Action::Nothing
            },
            Key::Enter | Key::Char('x') => {
                if self.selected_entry().is_some() {
                    self.state = AppState::ConfirmKill;
                }
                Action::Nothing
            },
            Key::Char('r') => Action::Rescan,
            Key::Char('s') => {
                self.sort_mode = self.sort_mode.next();
                self.sort_and_filter();
                Action::Nothing
            },
            Key::Char('/') => {
                self.state = AppState::Filtering;
                Action::Nothing
            },
            _ => Action::Nothing,
        }
    }

    /// The confirmation's keys.
    pub fn handle_confirm_key(&mut self, key: Key) -> (act: Action)
        requires
            old(self).wf(),
        ensures
            final(self).wf(),
            confirm_step(*old(self), *final(self), key, act),
    {
        match key {
            Key::Char('y') | Key::Enter => {
                let act = match self.selected_entry() {
                    Some(e) => Action::Kill(e.clone()),
                    None => Action::Nothing,
                };
                self.state = AppState::Normal;
                act
            },
            Key::Char('n') | Key::Esc => {
                self.state = AppState::Normal;
                Action::Nothing
            },
            _ => Action::Nothing,
        }
    }

    /// The filter's keys.
    pub fn handle_filter_key(&mut self, key: Key) -> (act: Action)
        requires
            old(self).wf(),
        ensures
            final(self).wf(),
            filter_step(*old(self), *final(self), key, act),
    {
        match key {
            Key::Esc => {
                self.filter = String::new();
                self.apply_filter();
                self.state = AppState::Normal;
            },
            Key::Enter => {
                self.state = AppState::Normal;
            },
            Key::Backspace => {
                let _ = pop_char(&mut self.filter);
                self.apply_filter();
            },
            Key::Char(c) => {
                push_char(&mut self.filter, c);
                self.apply_filter();
            },
            _ => {},
        }
        Action::Nothing
    }

    /// Records the outcome of killing the process of `entry` at `now`: a
    /// success message and a rescan due `REFRESH_MS - 1000` sooner than a
    /// full period, or the error as a failure message.
    pub fn finish_kill(&mut self, entry: &PortEntry, outcome: Result<(), String>, now: u64)
        requires
            old(self).wf(),
        ensures
            final(self).wf(),
            final(self).same_list(old(self)),
            final(self).selected == old(self).selected,
            final(self).state == old(self).state,
            final(self).should_quit == old(self).should_quit,
            final(self).spinner_tick == old(self).spinner_tick,
            match outcome {
                Ok(_) => (final(self).message matches Some((m, ok, at)) && m@ == killed_text(entry@)
                    && ok && at == now) && final(self).rescan_at == now.saturating_add(1000),
                Err(e) => final(self).message == Some((e, false, now)) && final(self).rescan_at
                    == old(self).rescan_at,
            },
    {
        match outcome {
            Ok(()) => {
                let mut m = String::new();
                push_str(&mut m, "Killed ");
                push_str(&mut m, entry.process.as_str());
                push_str(&mut m, " (PID ");
                push_decimal(&mut m, entry.pid as u64);
                push_str(&mut m, ") on :");
                push_decimal(&mut m, entry.port as u64);
                self.message = Some((m, true, now));
                self.rescan_at = now.saturating_add(1000);
            },
            Err(e) => {
                self.message = Some((e, false, now));
            },
        }
    }

    /// Advances the clock to `now`: turns the spinner, drops a message that
    /// has stood `MESSAGE_MS`, and says whether a rescan is due.
    pub fn tick(&mut self, now: u64) -> (due: bool)
        requires
            old(self).wf(),
        ensures
            final(self).wf(),
            final(self).same_list(old(self)),
            final(self).selected == old(self).selected,
            final(self).state == old(self).state,
            final(self).should_quit == old(self).should_quit,
            final(self).rescan_at == old(self).rescan_at,
            final(self).spinner_tick == (if old(self).spinner_tick == usize::MAX { 0 } else { old(self).spinner_tick + 1 }),
            final(self).message == (match old(self).message {
                Some((_, _, at)) => if now >= at + MESSAGE_MS { None } else { old(self).message },
                None => None,
            }),
            due == (now >= old(self).rescan_at),
    {
        self.spinner_tick = self.spinner_tick.wrapping_add(1);
        let expired = match &self.message {
            Some((_, _, at)) => now >= *at && now - *at >= MESSAGE_MS,
            None => false,
        };
        if expired {
            self.message = None;
        }
        now >= self.rescan_at
    }
}

/// How a key changes the list when no dialog or filter has it.
pub open spec fn normal_step(pre: App, post: App, key: Key, act: Action) -> bool {
    &&& post.same_status(&pre)
    &&& if key == Key::Char('q') || key == Key::Esc {
        &&& post.should_quit
        &&& post.same_list(&pre) && post.selected == pre.selected && post.state == pre.state
        &&& act is Nothing
    } else if key == Key::Up || key == Key::Char('k') {
        &&& post.selected == moved_up(pre.selected)
        &&& post.same_list(&pre) && post.state == pre.state && post.should_quit == pre.should_quit
        &&& act is Nothing
    } else if key == Key::Down || key == Key::Char('j') {
        &&& post.selected == moved_down(pre.selected, pre.filtered.len() as nat)
        &&& post.same_list(&pre) && post.state == pre.state && post.should_quit == pre.should_quit
        &&& act is Nothing
    } else if key == Key::Enter || key == Key::Char('x') {
        &&& post.state == (if pre.filtered.len() > 0 { AppState::ConfirmKill } else { pre.state })
        &&& post.same_list(&pre) && post.selected == pre.selected && post.should_quit == pre.should_quit
        &&& act is Nothing
    } else if key == Key::Char('r') {
        &&& act is Rescan
        &&& post.same_list(&pre) && post.selected == pre.selected && post.state == pre.state
            && post.should_quit == pre.should_quit
    } else if key == Key::Char('s') {
        &&& post.sort_mode == pre.sort_mode.following()
        &&& stably_sorted(post.sort_mode, entry_views(pre.all_ports@), entry_views(post.all_ports@))
        &&& post.shown() == matching_indices(entry_views(post.all_ports@), filter_query(pre.filter@))
        &&& post.selected == clamp_selection(pre.selected, post.filtered.len() as nat)
        &&& post.filter == pre.filter && post.state == pre.state && post.should_quit == pre.should_quit
        &&& act is Nothing
    } else if key == Key::Char('/') {
        &&& post.state == AppState::Filtering
        &&& post.same_list(&pre) && post.selected == pre.selected && post.should_quit == pre.should_quit
        &&& act is Nothing
    } else {
        &&& post == pre
        &&& act is Nothing
    }
}

/// How a key answers the question whether to kill the highlighted process.
pub open spec fn confirm_step(pre: App, post: App, key: Key, act: Action) -> bool {
    &&& post.same_status(&pre)
    &&& post.same_list(&pre) && post.selected == pre.selected && post.should_quit == pre.should_quit
    &&& if key == Key::Char('y') || key == Key::Enter {
        &&& post.state == AppState::Normal
        &&& match pre.selection() {
            Some(e) => (act matches Action::Kill(k) && k@ == e),
            None => act is Nothing,
        }
    } else if key == Key::Char('n') || key == Key::Esc {
        &&& post.state == AppState::Normal
        &&& act is Nothing
    } else {
        &&& post.state == pre.state
        &&& act is Nothing
    }
}

/// How a key edits the filter.
pub open spec fn filter_step(pre: App, post: App, key: Key, act: Action) -> bool {
    &&& act is Nothing
    &&& post.same_status(&pre)
    &&& post.all_ports == pre.all_ports && post.sort_mode == pre.sort_mode
    &&& post.should_quit == pre.should_quit
    &&& if key == Key::Enter || !(key == Key::Esc || key == Key::Backspace || key is Char) {
        &&& post.state == (if key == Key::Enter { AppState::Normal } else { pre.state })
        &&& post.filter == pre.filter && post.filtered == pre.filtered && post.selected == pre.selected
    } else {
        &&& post.state == (if key == Key::Esc { AppState::Normal } else { pre.state })
        &&& post.filter@ == (match key {
            Key::Char(c) => pre.filter@.push(c),
            Key::Backspace => if pre.filter@.len() > 0 { pre.filter@.drop_last() } else { pre.filter@ },
            _ => Seq::<char>::empty(),
        })
        &&& post.shown() == matching_indices(entry_views(post.all_ports@), filter_query(post.filter@))
        &&& post.selected == clamp_selection(pre.selected, post.filtered.len() as nat)
    }
}

/// Under the empty query every entry matches: the shown list is every index
/// in order.
pub proof fn lemma_all_match_empty_query(s: Seq<EntryView>)
    ensures
        matching_indices(s, seq![]) == Seq::new(s.len(), |i: int| i),
    decreases s.len(),
{
    if s.len() > 0 {
        lemma_all_match_empty_query(s.drop_last());
        assert(matching_indices(s, seq![]) =~= Seq::new(s.len(), |i: int| i));
    } else {
        assert(matching_indices(s, seq![]) =~= Seq::new(s.len(), |i: int| i));
    }
}


/// Moving up and then down comes back to the same row, where there is a row
/// above; moving down and then up does too, where there is a row below.
pub proof fn lemma_up_down_round_trip(selected: usize, len: nat)
    requires
        selected < len <= usize::MAX,
    ensures
        selected > 0 ==> moved_down(moved_up(selected), len) == selected,
        selected + 1 < len ==> moved_up(moved_down(selected, len)) == selected,
        moved_up(selected) < len,
        moved_down(selected, len) < len,
{
}

/// Typing a character into the filter and then erasing it gives back the
/// filter text and the list that was shown.
pub proof fn lemma_type_then_erase(pre: App, mid: App, post: App, c: char, a1: Action, a2: Action)
    requires
        pre.wf(),
        filter_step(pre, mid, Key::Char(c), a1),
        filter_step(mid, post, Key::Backspace, a2),
    ensures
        post.filter@ == pre.filter@,
        post.shown() == pre.shown(),
        post.state == pre.state,
{
    assert(mid.filter@.drop_last() =~= pre.filter@);
}

/// Escape in the filter clears it and shows every entry again, in order.
pub proof fn lemma_escape_shows_all(pre: App, post: App, a: Action)
    requires
        filter_step(pre, post, Key::Esc, a),
    ensures
        post.filter@.len() == 0,
        post.state == AppState::Normal,
        post.shown() == Seq::new(post.all_ports@.len(), |i: int| i),
{
    lemma_all_match_empty_query(entry_views(post.all_ports@));
    assert(filter_query(post.filter@) =~= seq![]);
}

/// After an answer of yes or no the dialog is gone, and a kill is asked for
/// only on yes and only for the highlighted entry.
pub proof fn lemma_confirm_answers(pre: App, post: App, key: Key, act: Action)
    requires
        confirm_step(pre, post, key, act),
        key == Key::Char('y') || key == Key::Enter || key == Key::Char('n') || key == Key::Esc,
    ensures
        post.state == AppState::Normal,
        act is Kill ==> (key == Key::Char('y') || key == Key::Enter) && pre.selection() is Some,
        post.same_list(&pre),
{
}


proof fn lemma_contains_shorter(t: Seq<char>, q: Seq<char>, d: char)
    requires
        contains(t, q.push(d)),
    ensures
        contains(t, q),
{
    let i = choose|i: int| occurs_at(t, q.push(d), i);
    assert(t.subrange(i, i + q.len()) =~= t.subrange(i, i + q.len() + 1).drop_last());
    assert(q.push(d).drop_last() =~= q);
    assert(occurs_at(t, q, i));
}

proof fn lemma_matches_shorter(e: EntryView, q: Seq<char>, d: char)
    requires
        entry_matches(e, q.push(d)),
    ensures
        entry_matches(e, q),
{
    if q.len() > 0 {
        if contains(lowercase(e.process), q.push(d)) {
            lemma_contains_shorter(lowercase(e.process), q, d);
        } else if contains(decimal(e.port as nat), q.push(d)) {
            lemma_contains_shorter(decimal(e.port as nat), q, d);
        } else if contains(decimal(e.pid as nat), q.push(d)) {
            lemma_contains_shorter(decimal(e.pid as nat), q, d);
        } else {
            lemma_contains_shorter(lowercase(e.address), q, d);
        }
    }
}

proof fn lemma_matching_narrows(s: Seq<EntryView>, q1: Seq<char>, q2: Seq<char>)
    requires
        forall|e: EntryView| #[trigger] entry_matches(e, q2) ==> entry_matches(e, q1),
    ensures
        matching_indices(s, q2).len() <= matching_indices(s, q1).len(),
        forall|k: int|
            0 <= k < matching_indices(s, q2).len() ==> matching_indices(s, q1).contains(
                #[trigger] matching_indices(s, q2)[k],
            ),
    decreases s.len(),
{
    lemma_matching_indices(s, q1);
    lemma_matching_indices(s, q2);
    if s.len() > 0 {
        lemma_matching_narrows(s.drop_last(), q1, q2);
    }
    assert forall|k: int| 0 <= k < matching_indices(s, q2).len() implies matching_indices(s, q1).contains(
        #[trigger] matching_indices(s, q2)[k],
    ) by {
        let i = matching_indices(s, q2)[k];
        assert(entry_matches(s[i], q2));
    }
}

/// `m` picks the items of `a` out of `b`: at increasing positions of `b`,
/// one for each item of `a`, in order.
pub open spec fn embeds(m: Seq<int>, a: Seq<int>, b: Seq<int>) -> bool {
    &&& m.len() == a.len()
    &&& forall|k: int, l: int| 0 <= k < l < m.len() ==> #[trigger] m[k] < #[trigger] m[l]
    &&& forall|k: int| 0 <= k < m.len() ==> 0 <= #[trigger] m[k] < b.len() && b[m[k]] == a[k]
}

/// `a` is a subsequence of `b`: `b` with some items left out.
pub open spec fn is_subsequence(a: Seq<int>, b: Seq<int>) -> bool {
    exists|m: Seq<int>| #[trigger] embeds(m, a, b)
}

/// An increasing sequence whose items all occur in another increasing
/// sequence is a subsequence of it.
proof fn lemma_increasing_subset(a: Seq<int>, b: Seq<int>)
    requires
        forall|k: int, l: int| 0 <= k < l < a.len() ==> #[trigger] a[k] < #[trigger] a[l],
        forall|k: int, l: int| 0 <= k < l < b.len() ==> #[trigger] b[k] < #[trigger] b[l],
        forall|k: int| 0 <= k < a.len() ==> b.contains(#[trigger] a[k]),
    ensures
        is_subsequence(a, b),
{
    let m = Seq::new(a.len(), |k: int| choose|j: int| 0 <= j < b.len() && b[j] == a[k]);
    assert forall|k: int| 0 <= k < m.len() implies 0 <= #[trigger] m[k] < b.len() && b[m[k]] == a[k] by {
        assert(b.contains(a[k]));
    }
    assert forall|k: int, l: int| 0 <= k < l < m.len() implies #[trigger] m[k] < #[trigger] m[l] by {
        assert(0 <= m[k] < b.len() && b[m[k]] == a[k]);
        assert(0 <= m[l] < b.len() && b[m[l]] == a[l]);
        assert(a[k] < a[l]);
        if m[l] < m[k] {
            assert(b[m[l]] < b[m[k]]);
        }
    }
    assert(embeds(m, a, b));
}

/// Typing one more ASCII character into an ASCII filter never adds rows:
/// the rows still shown are a subsequence of those shown before, so there
/// are no more of them.
pub proof fn lemma_longer_filter_shows_fewer(a1: App, a2: App, c: char)
    requires
        a1.wf(),
        a2.wf(),
        entry_views(a1.all_ports@) == entry_views(a2.all_ports@),
        is_ascii_text(a1.filter@),
        (c as u32) < 128,
        a2.filter@ == a1.filter@.push(c),
    ensures
        a2.filtered.len() <= a1.filtered.len(),
        forall|k: int| 0 <= k < a2.filtered.len() ==> a1.shown().contains(#[trigger] a2.shown()[k]),
        is_subsequence(a2.shown(), a1.shown()),
{
    let f = a1.filter@;
    let q1 = filter_query(f);
    let d = ascii_lower(c);
    assert(is_ascii_text(f.push(c))) by {
        assert forall|i: int| 0 <= i < f.push(c).len() implies (#[trigger] f.push(c)[i] as u32) < 128 by {
            if i < f.len() {
                assert(f.push(c)[i] == f[i]);
            }
        }
    }
    assert(filter_query(f.push(c)) =~= q1.push(d));
    assert forall|e: EntryView| #[trigger] entry_matches(e, q1.push(d)) implies entry_matches(e, q1) by {
        lemma_matches_shorter(e, q1, d);
    }
    lemma_matching_narrows(entry_views(a1.all_ports@), q1, q1.push(d));
    lemma_matching_indices(entry_views(a1.all_ports@), q1);
    lemma_matching_indices(entry_views(a1.all_ports@), q1.push(d));
    lemma_increasing_subset(a2.shown(), a1.shown());
}

/// The filter ignores the case of ASCII letters: an ASCII filter and the
/// same filter in upper case show the same rows.
pub proof fn lemma_filter_ignores_ascii_case(a1: App, a2: App)
    requires
        a1.wf(),
        a2.wf(),
        entry_views(a1.all_ports@) == entry_views(a2.all_ports@),
        is_ascii_text(a1.filter@),
        a2.filter@ == a1.filter@.map_values(|c: char| ascii_upper(c)),
    ensures
        a2.filtered@ == a1.filtered@,
{
    let f = a1.filter@;
    let g = a2.filter@;
    assert forall|i: int| 0 <= i < g.len() implies ascii_lower(#[trigger] g[i]) == ascii_lower(f[i]) && (g[i] as u32) < 128 by {
        assert(g[i] == ascii_upper(f[i]));
        assert((f[i] as u32) < 128);
    }
    assert(is_ascii_text(g));
    assert(filter_query(g) =~= filter_query(f));
    assert(a2.shown() == a1.shown());
    assert forall|k: int| 0 <= k < a1.filtered.len() implies a2.filtered@[k] == a1.filtered@[k] by {
        assert(a2.shown()[k] == a1.shown()[k]);
    }
    assert(a2.filtered@ =~= a1.filtered@);
}


/// How sorting and refiltering change the list: the entries sorted stably
/// by the current order, the shown list recomputed, the selection kept
/// within it, and nothing else touched.
pub open spec fn sorted_and_filtered(pre: App, post: App) -> bool {
    &&& stably_sorted(pre.sort_mode, entry_views(pre.all_ports@), entry_views(post.all_ports@))
    &&& post.shown() == matching_indices(entry_views(post.all_ports@), filter_query(pre.filter@))
    &&& post.selected == clamp_selection(pre.selected, post.filtered.len() as nat)
    &&& post.state == pre.state
    &&& post.filter == pre.filter
    &&& post.sort_mode == pre.sort_mode
    &&& post.should_quit == pre.should_quit
    &&& post.spinner_tick == pre.spinner_tick
    &&& post.message == pre.message
    &&& post.rescan_at == pre.rescan_at
}

/// The entries of the shown rows, in row order.
pub open spec fn shown_entries(app: App) -> Seq<EntryView> {
    app.shown().map_values(|i: int| entry_views(app.all_ports@)[i])
}

/// Whether an entry matches the query `q`, as a predicate.
pub open spec fn matcher(q: Seq<char>) -> spec_fn(EntryView) -> bool {
    |e: EntryView| entry_matches(e, q)
}

/// The entries at the matching indices are the matching entries.
proof fn lemma_matching_entries(s: Seq<EntryView>, q: Seq<char>)
    ensures
        matching_indices(s, q).map_values(|i: int| s[i]) == s.filter(matcher(q)),
    decreases s.len(),
{
    if s.len() > 0 {
        let t = s.drop_last();
        lemma_matching_entries(t, q);
        lemma_matching_indices(t, q);
        let mt = matching_indices(t, q);
        assert forall|k: int| 0 <= k < mt.len() implies s[#[trigger] mt[k]] == t[mt[k]] by {
            assert(0 <= mt[k] < t.len());
        }
        assert(mt.map_values(|i: int| s[i]) =~= mt.map_values(|i: int| t[i]));
        assert(matcher(q)(s.last()) == entry_matches(s.last(), q));
        reveal_with_fuel(Seq::<_>::filter, 1);
        assert(s.filter(matcher(q)) == if entry_matches(s.last(), q) {
            t.filter(matcher(q)).push(s.last())
        } else {
            t.filter(matcher(q))
        });
        if entry_matches(s.last(), q) {
            assert(matching_indices(s, q) == mt.push(s.len() - 1));
            assert(matching_indices(s, q).map_values(|i: int| s[i]) =~= mt.map_values(|i: int| s[i]).push(s.last()));
        } else {
            assert(matching_indices(s, q) == mt);
        }
    } else {
        reveal_with_fuel(Seq::<_>::filter, 1);
        assert(matching_indices(s, q).map_values(|i: int| s[i]) =~= s.filter(matcher(q)));
    }
}

proof fn lemma_filter_count(s: Seq<EntryView>, q: Seq<char>, v: EntryView)
    ensures
        s.filter(matcher(q)).to_multiset().count(v) == if entry_matches(v, q) {
            s.to_multiset().count(v)
        } else {
            0
        },
    decreases s.len(),
{
    broadcast use vstd::seq_lib::to_multiset_build, vstd::multiset::group_multiset_axioms;

    reveal_with_fuel(Seq::<_>::filter, 1);
    if s.len() == 0 {
        assert(s.filter(matcher(q)) =~= seq![]);
        assert(s =~= seq![]);
        vstd::seq_lib::to_multiset_contains(s, v);
        vstd::seq_lib::to_multiset_contains(s.filter(matcher(q)), v);
    } else {
        let t = s.drop_last();
        lemma_filter_count(t, q, v);
        assert(s =~= t.push(s.last()));
        assert(matcher(q)(s.last()) == entry_matches(s.last(), q));
        reveal_with_fuel(Seq::<_>::filter, 1);
        assert(s.filter(matcher(q)) == if entry_matches(s.last(), q) {
            t.filter(matcher(q)).push(s.last())
        } else {
            t.filter(matcher(q))
        });
    }
}

/// Sorting and refiltering a well-formed list keeps the number of shown
/// rows, the highlighted row number and the shown entries (each as many
/// times), and shows them in order of the current sort key.
pub proof fn lemma_sort_and_filter_keeps_rows(pre: App, post: App)
    requires
        pre.wf(),
        sorted_and_filtered(pre, post),
    ensures
        post.filtered.len() == pre.filtered.len(),
        post.selected == pre.selected,
        shown_entries(post).to_multiset() == shown_entries(pre).to_multiset(),
        forall|a: int, b: int|
            0 <= a < b < post.filtered.len() ==> lex_le(
                sort_key(post.sort_mode, #[trigger] shown_entries(post)[a]),
                sort_key(post.sort_mode, #[trigger] shown_entries(post)[b]),
            ),
{
    broadcast use vstd::seq_lib::to_multiset_len;

    let s = entry_views(pre.all_ports@);
    let r = entry_views(post.all_ports@);
    let q = filter_query(pre.filter@);
    lemma_sorted_same_entries(pre.sort_mode, s, r);
    lemma_matching_entries(s, q);
    lemma_matching_entries(r, q);
    assert(shown_entries(pre) == s.filter(matcher(q)));
    assert(shown_entries(post) == r.filter(matcher(q)));
    assert forall|v: EntryView| shown_entries(post).to_multiset().count(v) == shown_entries(pre).to_multiset().count(v) by {
        lemma_filter_count(s, q, v);
        lemma_filter_count(r, q, v);
    }
    assert(shown_entries(post).to_multiset() =~= shown_entries(pre).to_multiset());
    assert(shown_entries(post).len() == post.filtered.len());
    assert(shown_entries(pre).len() == pre.filtered.len());
    assert(shown_entries(post).to_multiset().len() == shown_entries(pre).to_multiset().len());
    assert(post.filtered.len() == pre.filtered.len());
    lemma_sorted_is_in_order(pre.sort_mode, s, r);
    lemma_matching_indices(r, q);
    assert forall|a: int, b: int| 0 <= a < b < post.filtered.len() implies lex_le(
        sort_key(post.sort_mode, #[trigger] shown_entries(post)[a]),
        sort_key(post.sort_mode, #[trigger] shown_entries(post)[b]),
    ) by {
        let ia = post.shown()[a];
        let ib = post.shown()[b];
        assert(ia < ib);
        assert(shown_entries(post)[a] == r[ia]);
        assert(shown_entries(post)[b] == r[ib]);
    }
}

/// Sorting and refiltering twice gives what doing it once gave.
pub proof fn lemma_sort_and_filter_idempotent(pre: App, mid: App, post: App)
    requires
        sorted_and_filtered(pre, mid),
        sorted_and_filtered(mid, post),
    ensures
        entry_views(post.all_ports@) == entry_views(mid.all_ports@),
        post.filtered@ == mid.filtered@,
        post.selected == mid.selected,
        post.filter == mid.filter,
        post.sort_mode == mid.sort_mode,
{
    lemma_sort_idempotent(
        pre.sort_mode,
        entry_views(pre.all_ports@),
        entry_views(mid.all_ports@),
        entry_views(post.all_ports@),
    );
    assert(post.shown() == mid.shown());
    assert(post.filtered.len() == mid.filtered.len()) by {
        assert(post.shown().len() == mid.shown().len());
    }
    assert forall|k: int| 0 <= k < mid.filtered.len() implies post.filtered@[k] == mid.filtered@[k] by {
        assert(post.shown()[k] == mid.shown()[k]);
        assert(post.shown()[k] == post.filtered@[k] as int);
        assert(mid.shown()[k] == mid.filtered@[k] as int);
    }
    assert(post.filtered@ =~= mid.filtered@);
    lemma_matching_indices(entry_views(mid.all_ports@), filter_query(pre.filter@));
}

/// Whether the lower-case filter `q` stands somewhere in one of the fields
/// of entry `e` that the filter searches, read from the entry's fields.
pub open spec fn found_in_fields(e: PortEntry, q: Seq<char>) -> bool {
    ||| q.len() == 0
    ||| contains(lowercase(e.process@), q)
    ||| contains(decimal(e.port as nat), q)
    ||| contains(decimal(e.pid as nat), q)
    ||| contains(lowercase(e.address@), q)
}

proof fn lemma_shown_iff_found(app: App, i: int)
    requires
        app.wf(),
        0 <= i < app.all_ports.len(),
    ensures
        app.shown().contains(i) <==> found_in_fields(app.all_ports@[i], filter_query(app.filter@)),
{
    let s = entry_views(app.all_ports@);
    let q = filter_query(app.filter@);
    lemma_matching_indices(s, q);
    assert(s[i] == app.all_ports@[i]@);
    if app.shown().contains(i) {
        let k = choose|k: int| 0 <= k < app.shown().len() && app.shown()[k] == i;
        assert(matching_indices(s, q)[k] == i);
        assert(entry_matches(s[i], q));
    }
    if entry_matches(s[i], q) {
        assert(matching_indices(s, q).contains(i));
    }
}

/// The shown rows are exactly the entries in which the lower-case filter
/// stands somewhere (anywhere, not only at the start) in the lower-case
/// command, the decimal port, the decimal PID or the lower-case address,
/// or every entry where the filter is empty; they are shown in list order.
pub proof fn lemma_filter_shows_matches(app: App)
    requires
        app.wf(),
    ensures
        forall|i: int|
            0 <= i < app.all_ports.len() ==> (app.shown().contains(i) <==> found_in_fields(
                #[trigger] app.all_ports@[i],
                filter_query(app.filter@),
            )),
        forall|a: int, b: int|
            0 <= a < b < app.filtered.len() ==> #[trigger] app.filtered@[a] < #[trigger] app.filtered@[b],
{
    let s = entry_views(app.all_ports@);
    let q = filter_query(app.filter@);
    lemma_matching_indices(s, q);
    assert forall|i: int| 0 <= i < app.all_ports.len() implies (app.shown().contains(i) <==> found_in_fields(
        #[trigger] app.all_ports@[i],
        filter_query(app.filter@),
    )) by {
        lemma_shown_iff_found(app, i);
    }
    assert forall|a: int, b: int| 0 <= a < b < app.filtered.len() implies #[trigger] app.filtered@[a]
        < #[trigger] app.filtered@[b] by {
        assert(app.shown()[a] == app.filtered@[a] as int);
        assert(app.shown()[b] == app.filtered@[b] as int);
        assert(matching_indices(s, q)[a] < matching_indices(s, q)[b]);
    }
}

/// The entry that the highlighted row of a list shows, read from the
/// fields: the entry at the index that the shown list holds at the
/// highlighted row.
pub open spec fn highlighted_entry(app: App) -> EntryView {
    app.all_ports@[app.filtered@[app.selected as int] as int]@
}

/// What the list takes as highlighted is the entry of the highlighted shown
/// row (not the entry at that position of the whole list), and there is one
/// exactly when some row is shown.
pub proof fn lemma_selection_is_shown_row(app: App)
    requires
        app.wf(),
    ensures
        app.selection() is Some <==> app.filtered.len() > 0,
        app.filtered.len() > 0 ==> app.selection() == Some(shown_entries(app)[app.selected as int]),
        app.filtered.len() > 0 ==> app.selection() == Some(highlighted_entry(app)),
{
    if app.filtered.len() > 0 {
        lemma_matching_indices(entry_views(app.all_ports@), filter_query(app.filter@));
        assert(app.shown()[app.selected as int] == app.filtered@[app.selected as int] as int);
        assert(0 <= app.shown()[app.selected as int] < app.all_ports.len());
        assert(shown_entries(app)[app.selected as int] == entry_views(app.all_ports@)[app.shown()[app.selected as int]]);
    }
}

/// Answering yes in the dialog asks to kill exactly the entry that the
/// highlighted shown row displays.
pub proof fn lemma_confirm_kills_highlighted_row(pre: App, post: App, key: Key, act: Action)
    requires
        pre.wf(),
        pre.filtered.len() > 0,
        confirm_step(pre, post, key, act),
        key == Key::Char('y') || key == Key::Enter,
    ensures
        act matches Action::Kill(k) && k@ == highlighted_entry(pre)
            && k@ == shown_entries(pre)[pre.selected as int],
{
    lemma_selection_is_shown_row(pre);
}

/// Where a refresh puts the highlight of `pre` in the new list `post`: on
/// the first shown row of the same process and port where there is one,
/// else on the same row number within the list.
pub open spec fn keeps_highlight(pre: App, post: App) -> bool {
    match pre.selection() {
        Some(e) => if exists|pos: int| post.first_row_of(e.pid, e.port, pos) {
            post.first_row_of(e.pid, e.port, post.selected as int)
        } else {
            post.selected == clamp_selection(pre.selected, post.filtered.len() as nat)
        },
        None => post.selected == clamp_selection(pre.selected, post.filtered.len() as nat),
    }
}

proof fn lemma_first_row_exists(app: App, pid: u32, port: u16, j: int)
    requires
        0 <= j < app.filtered.len(),
        app.all_ports@[app.shown()[j]].pid == pid,
        app.all_ports@[app.shown()[j]].port == port,
    ensures
        exists|pos: int| app.first_row_of(pid, port, pos),
    decreases j,
{
    if exists|k: int| 0 <= k < j && app.all_ports@[#[trigger] app.shown()[k]].pid == pid
        && app.all_ports@[app.shown()[k]].port == port {
        let k = choose|k: int| 0 <= k < j && app.all_ports@[#[trigger] app.shown()[k]].pid == pid
            && app.all_ports@[app.shown()[k]].port == port;
        lemma_first_row_exists(app, pid, port, k);
    } else {
        assert(app.first_row_of(pid, port, j));
    }
}

/// A refresh keeps the highlight on the same process and the same port:
/// where the highlighted entry's PID and port pair is still shown, the new
/// highlighted row is the first shown row with both that PID and that port;
/// where it is not, the row number is kept within the list.
pub proof fn lemma_refresh_keeps_listener(pre: App, post: App)
    requires
        pre.wf(),
        post.wf(),
        keeps_highlight(pre, post),
    ensures
        pre.filtered.len() > 0 && (exists|j: int|
            0 <= j < post.filtered.len()
                && #[trigger] post.all_ports@[post.filtered@[j] as int].pid == highlighted_entry(pre).pid
                && post.all_ports@[post.filtered@[j] as int].port == highlighted_entry(pre).port)
            ==> {
            &&& post.selected < post.filtered.len()
            &&& highlighted_entry(post).pid == highlighted_entry(pre).pid
            &&& highlighted_entry(post).port == highlighted_entry(pre).port
            &&& forall|j: int|
                0 <= j < post.selected ==> !(#[trigger] post.all_ports@[post.filtered@[j] as int].pid
                    == highlighted_entry(pre).pid && post.all_ports@[post.filtered@[j] as int].port
                    == highlighted_entry(pre).port)
        },
        pre.filtered.len() > 0 && !(exists|j: int|
            0 <= j < post.filtered.len()
                && #[trigger] post.all_ports@[post.filtered@[j] as int].pid == highlighted_entry(pre).pid
                && post.all_ports@[post.filtered@[j] as int].port == highlighted_entry(pre).port)
            ==> post.selected == clamp_selection(pre.selected, post.filtered.len() as nat),
        pre.filtered.len() == 0 ==> post.selected == clamp_selection(pre.selected, post.filtered.len() as nat),
{
    lemma_selection_is_shown_row(pre);
    if pre.filtered.len() > 0 {
        let e = highlighted_entry(pre);
        assert(pre.selection() == Some(e));
        assert forall|j: int| 0 <= j < post.filtered.len() implies #[trigger] post.shown()[j] == post.filtered@[j] as int by {}
        if exists|j: int|
            0 <= j < post.filtered.len()
                && #[trigger] post.all_ports@[post.filtered@[j] as int].pid == e.pid
                && post.all_ports@[post.filtered@[j] as int].port == e.port {
            let j0 = choose|j: int|
                0 <= j < post.filtered.len()
                    && #[trigger] post.all_ports@[post.filtered@[j] as int].pid == e.pid
                    && post.all_ports@[post.filtered@[j] as int].port == e.port;
            assert(post.shown()[j0] == post.filtered@[j0] as int);
            lemma_first_row_exists(post, e.pid, e.port, j0);
            let p = post.selected as int;
            assert(post.first_row_of(e.pid, e.port, p));
            assert(post.shown()[p] == post.filtered@[p] as int);
            assert forall|j: int| 0 <= j < post.selected implies !(#[trigger] post.all_ports@[post.filtered@[j] as int].pid
                == e.pid && post.all_ports@[post.filtered@[j] as int].port == e.port) by {
                assert(post.shown()[j] == post.filtered@[j] as int);
                assert(!(post.all_ports@[post.shown()[j]].pid == e.pid && post.all_ports@[post.shown()[j]].port == e.port));
            }
        } else {
            assert forall|pos: int| !post.first_row_of(e.pid, e.port, pos) by {
                if post.first_row_of(e.pid, e.port, pos) {
                    assert(post.shown()[pos] == post.filtered@[pos] as int);
                    assert(post.all_ports@[post.filtered@[pos] as int].pid == e.pid);
                }
            }
        }
    }
}

} // verus!
