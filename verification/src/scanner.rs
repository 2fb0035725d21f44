//! Listening sockets as `lsof -iTCP -sTCP:LISTEN -P -n` reports them.
use std::collections::HashSet;
use vstd::prelude::*;

use crate::text::{
    chars_of, contains, decimal, decode_lossy, first_occurrence, last_index_of,
    lemma_decimal_is_digits, lemma_parse_u16_decimal, line_ranges, occurs_at, parse_u16_range, ranges_within,
    parse_u16_spec, parse_u32_range, parse_u32_spec, range_texts, split_words, str_lines,
    string_of, utf8_lossy, views, words,
};

verus! {

broadcast use vstd::std_specs::hash::group_hash_axioms;

/// One listening socket: its port, protocol, owning process and address.
#[derive(Debug)]
pub struct PortEntry {
    pub port: u16,
    pub proto: String,
    pub pid: u32,
    pub process: String,
    pub address: String,
}

/// The contents of a [`PortEntry`].
pub struct EntryView {
    pub port: u16,
    pub proto: Seq<char>,
    pub pid: u32,
    pub process: Seq<char>,
    pub address: Seq<char>,
}

impl View for PortEntry {
    type V = EntryView;

    open spec fn view(&self) -> EntryView {
        EntryView {
            port: self.port,
            proto: self.proto@,
            pid: self.pid,
            process: self.process@,
            address: self.address@,
        }
    }
}

impl Clone for PortEntry {
    fn clone(&self) -> (r: Self)
        ensures
            r == *self,
    {
        PortEntry {
            port: self.port,
            proto: self.proto.clone(),
            pid: self.pid,
            process: self.process.clone(),
            address: self.address.clone(),
        }
    }
}


/// The characters `]:` that close a bracketed IPv6 address before its port.
pub open spec fn bracket_close() -> Seq<char> {
    seq![']', ':']
}

/// How an lsof `NAME` field splits into address and port: a bracketed
/// address `[addr]:port` at the first `]:`, else `addr:port` at the last
/// `:`, else the whole field with port 0. A port that does not parse as a
/// `u16` reads as 0.
pub open spec fn name_split(name: Seq<char>) -> (Seq<char>, u16) {
    if contains(name, bracket_close()) {
        let b = choose|i: int| first_occurrence(name, bracket_close(), i);
        (
            name.subrange(1, b),
            match parse_u16_spec(name.subrange(b + 2, name.len() as int)) {
                Some(p) => p,
                None => 0,
            },
        )
    } else if exists|i: int| 0 <= i < name.len() && name[i] == ':' {
        let c = choose|i: int| last_index_of(name, ':', i);
        (
            name.subrange(0, c),
            match parse_u16_spec(name.subrange(c + 1, name.len() as int)) {
                Some(p) => p,
                None => 0,
            },
        )
    } else {
        (name, 0)
    }
}

/// The fields on which splitting a name does not panic: where it holds
/// `]:`, the first occurrence is not at the start and the first character
/// is one byte long, so that the address starts on a character boundary.
pub open spec fn name_splittable(name: Seq<char>) -> bool {
    forall|b: int|
        first_occurrence(name, bracket_close(), b) ==> b >= 1 && (name[0] as u32) < 128
}

proof fn lemma_first_occurrence_unique(s: Seq<char>, pat: Seq<char>, a: int, b: int)
    requires
        first_occurrence(s, pat, a),
        first_occurrence(s, pat, b),
    ensures
        a == b,
{
}

proof fn lemma_last_index_unique(s: Seq<char>, c: char, a: int, b: int)
    requires
        last_index_of(s, c, a),
        last_index_of(s, c, b),
    ensures
        a == b,
{
}

/// Where `str::find("]:")` reports the first `]:` of `name`.
fn find_bracket_close(name: &Vec<char>) -> (r: Option<usize>)
    ensures
        match r {
            Some(b) => first_occurrence(name@, bracket_close(), b as int),
            None => !contains(name@, bracket_close()),
        },
{
    let n = name.len();
    let ghost s = name@;
    let mut i: usize = 0;
    while n > 0 && i < n - 1
        invariant
            n == name.len(),
            s == name@,
            forall|j: int| 0 <= j < i ==> !occurs_at(s, bracket_close(), j),
        decreases n - i,
    {
        if name[i] == ']' && name[i + 1] == ':' {
            assert(s.subrange(i as int, i + 2) =~= bracket_close());
            return Some(i);
        }
        proof {
            if occurs_at(s, bracket_close(), i as int) {
                assert(s.subrange(i as int, i + 2)[0] == s[i as int]);
                assert(s.subrange(i as int, i + 2)[1] == s[i + 1]);
            }
        }
        i += 1;
    }
    assert forall|j: int| !occurs_at(s, bracket_close(), j) by {
        if 0 <= j < i {
        }
    }
    None
}

/// Where `str::rfind(':')` reports the last `:` of `name`.
fn find_last_colon(name: &Vec<char>) -> (r: Option<usize>)
    ensures
        match r {
            Some(c) => last_index_of(name@, ':', c as int),
            None => forall|j: int| 0 <= j < name@.len() ==> name@[j] != ':',
        },
{
    let n = name.len();
    let mut k: usize = n;
    while k > 0
        invariant
            k <= n,
            n == name.len(),
            forall|j: int| k <= j < n ==> name@[j] != ':',
        decreases k,
    {
        if name[k - 1] == ':' {
            return Some(k - 1);
        }
        k -= 1;
    }
    None
}

/// The characters `v[start..end]`.
pub fn copy_range(v: &Vec<char>, start: usize, end: usize) -> (r: Vec<char>)
    requires
        start <= end <= v.len(),
    ensures
        r@ == v@.subrange(start as int, end as int),
{
    let mut r: Vec<char> = Vec::new();
    let mut k: usize = start;
    while k < end
        invariant
            start <= k <= end <= v.len(),
            r@ == v@.subrange(start as int, k as int),
        decreases end - k,
    {
        r.push(v[k]);
        assert(v@.subrange(start as int, k + 1) =~= v@.subrange(start as int, k as int).push(
            v@[k as int],
        ));
        k += 1;
    }
    r
}

/// Whether splitting `name` would not panic (see [`name_splittable`]).
pub fn name_is_splittable(name: &Vec<char>) -> (r: bool)
    ensures
        r == name_splittable(name@),
{
    match find_bracket_close(name) {
        Some(b) => {
            proof {
                assert forall|c: int| first_occurrence(name@, bracket_close(), c) implies c
                    == b by {
                    lemma_first_occurrence_unique(name@, bracket_close(), c, b as int);
                }
            }
            b >= 1 && (name[0] as u32) < 128
        },
        None => true,
    }
}

/// Splits an lsof `NAME` field such as `127.0.0.1:8080` or `[::1]:3000`
/// into its address and port.
pub fn split_name(name: &Vec<char>) -> (r: (String, u16))
    requires
        name_splittable(name@),
    ensures
        r.0@ == name_split(name@).0,
        r.1 == name_split(name@).1,
{
    let n = name.len();
    let ghost s = name@;
    match find_bracket_close(name) {
        Some(b) => {
            proof {
                let c = choose|k: int| first_occurrence(s, bracket_close(), k);
                lemma_first_occurrence_unique(s, bracket_close(), c, b as int);
            }
            assert(b >= 1);
            let addr = copy_range(name, 1, b);
            let port = match parse_u16_range(name, b + 2, n) {
                Some(p) => p,
                None => 0,
            };
            (string_of(&addr), port)
        },
        None => match find_last_colon(name) {
            Some(c) => {
                proof {
                    let d = choose|j: int| last_index_of(s, ':', j);
                    lemma_last_index_unique(s, ':', d, c as int);
                }
                let addr = copy_range(name, 0, c);
                let port = match parse_u16_range(name, c + 1, n) {
                    Some(p) => p,
                    None => 0,
                };
                (string_of(&addr), port)
            },
            None => (string_of(name), 0),
        },
    }
}

/// Splits an lsof `NAME` field into its address and port.
pub fn parse_name(name: &str) -> (r: (String, u16))
    requires
        name_splittable(name@),
    ensures
        r.0@ == name_split(name@).0,
        r.1 == name_split(name@).1,
{
    let v = chars_of(name);
    split_name(&v)
}


/// The entry that one lsof row describes: its fields are the row's words;
/// it needs at least nine, a PID in the second that parses as a `u32`, and a
/// `NAME` in the ninth whose port is not 0. The command is the first field
/// and the protocol the eighth.
pub open spec fn row_entry(line: Seq<char>) -> Option<EntryView> {
    row_entry_of_words(words(line))
}

/// `a` and `b` are the same process listening on the same port.
pub open spec fn same_listener(a: EntryView, b: EntryView) -> bool {
    a.pid == b.pid && a.port == b.port
}

/// Whether some entry of `s` is the same listener as `e`.
pub open spec fn has_listener(s: Seq<EntryView>, e: EntryView) -> bool {
    exists|j: int| 0 <= j < s.len() && same_listener(s[j], e)
}

/// The entries that data rows describe, in row order, each listener kept at
/// its first row only.
pub open spec fn rows_entries(rows: Seq<Seq<char>>) -> Seq<EntryView>
    decreases rows.len(),
{
    if rows.len() == 0 {
        seq![]
    } else {
        let prev = rows_entries(rows.drop_last());
        match row_entry(rows.last()) {
            Some(e) => if has_listener(prev, e) {
                prev
            } else {
                prev.push(e)
            },
            None => prev,
        }
    }
}

/// The data rows of lsof's output: its lines after the header line.
pub open spec fn listing_rows(text: Seq<char>) -> Seq<Seq<char>> {
    let lines = str_lines(text);
    if lines.len() == 0 {
        seq![]
    } else {
        lines.drop_first()
    }
}

/// The entries that lsof's output lists.
pub open spec fn listing_entries(text: Seq<char>) -> Seq<EntryView> {
    rows_entries(listing_rows(text))
}

/// A row on which reading the listing does not panic: a row that gets as
/// far as splitting its `NAME` has one that splits.
pub open spec fn row_splittable(line: Seq<char>) -> bool {
    let parts = words(line);
    parts.len() >= 9 && parse_u32_spec(parts[1]) is Some ==> name_splittable(parts[8])
}

/// Reading the listing does not panic on any of its data rows.
pub open spec fn listing_splittable(text: Seq<char>) -> bool {
    forall|i: int| 0 <= i < listing_rows(text).len() ==> row_splittable(#[trigger] listing_rows(text)[i])
}

/// The contents of a list of entries.
pub open spec fn entry_views(v: Seq<PortEntry>) -> Seq<EntryView> {
    v.map_values(|e: PortEntry| e@)
}

/// The key under which a listener is remembered as seen.
pub open spec fn listener_key(pid: u32, port: u16) -> u64 {
    (pid as u64 * 65536 + port as u64) as u64
}

proof fn lemma_listener_key_injective(p1: u32, q1: u16, p2: u32, q2: u16)
    requires
        listener_key(p1, q1) == listener_key(p2, q2),
    ensures
        p1 == p2 && q1 == q2,
{
    assert(p1 as u64 * 65536 + q1 as u64 <= 0xffff_ffff_ffff_ffff) by (nonlinear_arith)
        requires p1 <= 0xffff_ffff, q1 <= 0xffff;
    assert(p2 as u64 * 65536 + q2 as u64 <= 0xffff_ffff_ffff_ffff) by (nonlinear_arith)
        requires p2 <= 0xffff_ffff, q2 <= 0xffff;
    assert(p1 == p2 && q1 == q2) by (nonlinear_arith)
        requires
            p1 as int * 65536 + q1 as int == p2 as int * 65536 + q2 as int,
            0 <= q1 < 65536,
            0 <= q2 < 65536,
    ;
}

/// The entry that the row of words `parts` describes (see [`row_entry`]).
fn entry_of_words(parts: &Vec<Vec<char>>) -> (r: Option<PortEntry>)
    requires
        parts@.len() >= 9 && parse_u32_spec(views(parts@)[1]) is Some ==> name_splittable(
            views(parts@)[8],
        ),
    ensures
        match r {
            Some(e) => row_entry_of_words(views(parts@)) == Some(e@),
            None => row_entry_of_words(views(parts@)) is None,
        },
{
    let ghost w = views(parts@);
    if parts.len() < 9 {
        return None;
    }
    assert(w[1] == parts@[1]@);
    assert(w[8] == parts@[8]@);
    assert(w[0] == parts@[0]@);
    assert(w[7] == parts@[7]@);
    let pid = match parse_u32_range(&parts[1], 0, parts[1].len()) {
        Some(p) => p,
        None => {
            assert(parts@[1]@.subrange(0, parts@[1]@.len() as int) =~= parts@[1]@);
            return None;
        },
    };
    assert(parts@[1]@.subrange(0, parts@[1]@.len() as int) =~= parts@[1]@);
    let (address, port) = split_name(&parts[8]);
    if port == 0 {
        return None;
    }
    Some(PortEntry {
        port,
        proto: string_of(&parts[7]),
        pid,
        process: string_of(&parts[0]),
        address,
    })
}

/// [`row_entry`] on a row already split into words.
pub open spec fn row_entry_of_words(parts: Seq<Seq<char>>) -> Option<EntryView> {
    if parts.len() < 9 {
        None
    } else {
        match parse_u32_spec(parts[1]) {
            None => None,
            Some(pid) => {
                let (address, port) = name_split(parts[8]);
                if port == 0 {
                    None
                } else {
                    Some(EntryView { port, proto: parts[7], pid, process: parts[0], address })
                }
            },
        }
    }
}

/// Whether reading the listing `text` would not panic (see
/// [`listing_splittable`]).
pub fn listing_is_splittable(text: &str) -> (r: bool)
    ensures
        r == listing_splittable(text@),
{
    let v = chars_of(text);
    let lines = line_ranges(&v);
    let ghost rows = listing_rows(text@);
    if lines.len() == 0 {
        return true;
    }
    let mut i: usize = 1;
    while i < lines.len()
        invariant
            1 <= i <= lines.len(),
            v@ == text@,
            range_texts(v@, lines@) == str_lines(v@),
            rows == listing_rows(text@),
            ranges_within(lines@, v.len() as int),
            forall|k: int| 0 <= k < i - 1 ==> row_splittable(#[trigger] rows[k]),
        decreases lines.len() - i,
    {
        let (a, b) = lines[i];
        let parts = split_words(&v, a, b);
        assert(rows[i - 1] == v@.subrange(a as int, b as int)) by {
            assert(range_texts(v@, lines@)[i as int] == v@.subrange(a as int, b as int));
        }
        if parts.len() >= 9 {
            assert(views(parts@)[1] == parts@[1]@);
            assert(views(parts@)[8] == parts@[8]@);
            let pid_ok = parse_u32_range(&parts[1], 0, parts[1].len()).is_some();
            assert(parts@[1]@.subrange(0, parts@[1]@.len() as int) =~= parts@[1]@);
            if pid_ok && !name_is_splittable(&parts[8]) {
                assert(!row_splittable(rows[i - 1]));
                return false;
            }
        }
        i += 1;
    }
    true
}


/// Reads lsof's listing: the entries of its data rows, in row order, with
/// each process and port pair kept at its first row only.
pub fn parse_listing(text: &str) -> (r: Vec<PortEntry>)
    requires
        listing_splittable(text@),
    ensures
        entry_views(r@) == listing_entries(text@),
{
    let v = chars_of(text);
    let lines = line_ranges(&v);
    let ghost rows = listing_rows(text@);
    let mut entries: Vec<PortEntry> = Vec::new();
    let mut seen: HashSet<u64> = HashSet::new();
    if lines.len() == 0 {
        assert(rows =~= seq![]);
        return entries;
    }
    assert(rows.take(0) =~= seq![]);
    let mut i: usize = 1;
    while i < lines.len()
        invariant
            1 <= i <= lines.len(),
            v@ == text@,
            range_texts(v@, lines@) == str_lines(v@),
            rows == listing_rows(text@),
            rows.len() == lines.len() - 1,
            listing_splittable(text@),
            ranges_within(lines@, v.len() as int),
            entry_views(entries@) == rows_entries(rows.take(i - 1)),
            forall|key: u64|
                seen@.contains(key) <==> exists|j: int|
                    0 <= j < entries.len() && listener_key(entries@[j].pid, entries@[j].port) == key,
        decreases lines.len() - i,
    {
        let (a, b) = lines[i];
        let parts = split_words(&v, a, b);
        let ghost row = rows[i - 1];
        assert(row == v@.subrange(a as int, b as int)) by {
            assert(range_texts(v@, lines@)[i as int] == v@.subrange(a as int, b as int));
        }
        assert(row_splittable(rows[i - 1]));
        let ghost prev = entry_views(entries@);
        assert(rows.take(i as int).drop_last() =~= rows.take(i - 1));
        assert(rows.take(i as int).last() == row);
        match entry_of_words(&parts) {
            Some(e) => {
                let key = (e.pid as u64) * 65536 + (e.port as u64);
                assert(key == listener_key(e.pid, e.port));
                let ghost old_seen = seen@;
                if seen.insert(key) {
                    assert(!has_listener(prev, e@)) by {
                        if has_listener(prev, e@) {
                            let j = choose|j: int| 0 <= j < prev.len() && same_listener(prev[j], e@);
                            assert(listener_key(entries@[j].pid, entries@[j].port) == key);
                        }
                    }
                    let ghost old_entries = entries@;
                    entries.push(e);
                    assert(entry_views(entries@) =~= prev.push(e@));
                    assert forall|k: u64| seen@.contains(k) <==> exists|j: int|
                        0 <= j < entries.len() && listener_key(entries@[j].pid, entries@[j].port) == k by {
                        assert(seen@ == old_seen.insert(key));
                        if k == key {
                            assert(entries@[entries.len() - 1] == e);
                        }
                        if seen@.contains(k) && k != key {
                            let j = choose|j: int| 0 <= j < old_entries.len() && listener_key(old_entries[j].pid, old_entries[j].port) == k;
                            assert(entries@[j] == old_entries[j]);
                        }
                        if exists|j: int| 0 <= j < entries.len() && listener_key(entries@[j].pid, entries@[j].port) == k {
                            let j = choose|j: int| 0 <= j < entries.len() && listener_key(entries@[j].pid, entries@[j].port) == k;
                            if j < old_entries.len() {
                                assert(entries@[j] == old_entries[j]);
                            } else {
                                assert(entries@[j] == e);
                            }
                        }
                    }
                } else {
                    assert(has_listener(prev, e@)) by {
                        let j = choose|j: int| 0 <= j < entries.len() && listener_key(entries@[j].pid, entries@[j].port) == key;
                        lemma_listener_key_injective(entries@[j].pid, entries@[j].port, e.pid, e.port);
                        assert(same_listener(prev[j], e@));
                    }
                }
            },
            None => {},
        }
        i += 1;
    }
    assert(rows.take(lines.len() - 1) =~= rows);
    entries
}


/// Reads the raw output of lsof: the entries it lists, or `None` where
/// reading it would panic on a `NAME` field (see [`listing_splittable`]).
pub fn scan_output(stdout: &[u8]) -> (r: Option<Vec<PortEntry>>)
    ensures
        match r {
            Some(v) => listing_splittable(utf8_lossy(stdout@)) && entry_views(v@)
                == listing_entries(utf8_lossy(stdout@)),
            None => !listing_splittable(utf8_lossy(stdout@)),
        },
{
    let text = decode_lossy(stdout);
    if listing_is_splittable(text.as_str()) {
        Some(parse_listing(text.as_str()))
    } else {
        None
    }
}


/// A field written as `addr:port` splits back into `addr` and `port`,
/// where `addr` holds no `]:` and does not end in `]`.
pub proof fn lemma_split_plain_name(addr: Seq<char>, port: u16)
    requires
        !contains(addr, bracket_close()),
        addr.len() > 0 ==> addr.last() != ']',
    ensures
        name_splittable(addr + seq![':'] + decimal(port as nat)),
        name_split(addr + seq![':'] + decimal(port as nat)) == (addr, port),
{
    let d = decimal(port as nat);
    let name = addr + seq![':'] + d;
    let n = addr.len() as int;
    lemma_parse_u16_decimal(port);
    lemma_decimal_is_digits(port as nat);
    assert forall|i: int| !occurs_at(name, bracket_close(), i) by {
        if occurs_at(name, bracket_close(), i) {
            assert(name.subrange(i, i + 2)[0] == name[i]);
            assert(name.subrange(i, i + 2)[1] == name[i + 1]);
            if i + 1 < n {
                assert(addr.subrange(i, i + 2) =~= name.subrange(i, i + 2));
                assert(occurs_at(addr, bracket_close(), i));
            } else if i == n - 1 {
                assert(name[i] == addr.last());
            } else if i == n {
            } else {
                assert(name[i] == d[i - n - 1]);
            }
        }
    }
    assert(!contains(name, bracket_close()));
    assert(name[n] == ':');
    assert(last_index_of(name, ':', n)) by {
        assert forall|j: int| n < j < name.len() implies name[j] != ':' by {
            assert(name[j] == d[j - n - 1]);
        }
    }
    let c = choose|i: int| last_index_of(name, ':', i);
    lemma_last_index_unique(name, ':', c, n);
    assert(name.subrange(0, n) =~= addr);
    assert(name.subrange(n + 1, name.len() as int) =~= d);
}

proof fn lemma_bracketed_first_close(addr: Seq<char>, rest: Seq<char>)
    requires
        !contains(addr, bracket_close()),
    ensures
        first_occurrence(seq!['['] + addr + bracket_close() + rest, bracket_close(), addr.len() + 1 as int),
{
    let name = seq!['['] + addr + bracket_close() + rest;
    let b = addr.len() + 1 as int;
    assert(name.subrange(b, b + 2) =~= bracket_close());
    assert forall|j: int| 0 <= j < b implies !occurs_at(name, bracket_close(), j) by {
        if occurs_at(name, bracket_close(), j) {
            assert(name.subrange(j, j + 2)[0] == name[j]);
            assert(name.subrange(j, j + 2)[1] == name[j + 1]);
            if j == 0 {
                assert(name[0] == '[');
            } else if j + 1 < b {
                assert(addr.subrange(j - 1, j + 1) =~= name.subrange(j, j + 2));
                assert(occurs_at(addr, bracket_close(), j - 1));
            } else {
                assert(name[j + 1] == ']');
            }
        }
    }
}

/// A field written as `[addr]:port` splits back into `addr` and `port`,
/// where `addr` holds no `]:`.
pub proof fn lemma_split_bracketed_name(addr: Seq<char>, port: u16)
    requires
        !contains(addr, bracket_close()),
    ensures
        name_splittable(seq!['['] + addr + bracket_close() + decimal(port as nat)),
        name_split(seq!['['] + addr + bracket_close() + decimal(port as nat)) == (addr, port),
{
    let d = decimal(port as nat);
    let name = seq!['['] + addr + bracket_close() + d;
    let b = addr.len() + 1 as int;
    lemma_bracketed_first_close(addr, d);
    assert(occurs_at(name, bracket_close(), b));
    assert(contains(name, bracket_close()));
    lemma_split_at_first_close(name, b);
    assert(name.subrange(1, b) =~= addr);
    assert(name.subrange(b + 2, name.len() as int) =~= d);
    lemma_parse_u16_decimal(port);
}

proof fn lemma_split_at_first_close(name: Seq<char>, b: int)
    requires
        first_occurrence(name, bracket_close(), b),
        b >= 1,
        (name[0] as u32) < 128,
    ensures
        name_splittable(name),
        name_split(name) == (
            name.subrange(1, b),
            match parse_u16_spec(name.subrange(b + 2, name.len() as int)) {
                Some(p) => p,
                None => 0,
            },
        ),
{
    assert(contains(name, bracket_close()));
    let c = choose|i: int| first_occurrence(name, bracket_close(), i);
    lemma_first_occurrence_unique(name, bracket_close(), c, b);
    assert forall|k: int| first_occurrence(name, bracket_close(), k) implies k >= 1 && (name[0] as u32) < 128 by {
        lemma_first_occurrence_unique(name, bracket_close(), k, b);
    }
}


/// A scan lists no socket on port 0 and no process twice on the same port.
pub proof fn lemma_listing_entries_distinct(rows: Seq<Seq<char>>)
    ensures
        forall|i: int| 0 <= i < rows_entries(rows).len() ==> #[trigger] rows_entries(rows)[i].port != 0,
        forall|i: int, j: int|
            0 <= i < j < rows_entries(rows).len() ==> !same_listener(
                #[trigger] rows_entries(rows)[i],
                #[trigger] rows_entries(rows)[j],
            ),
    decreases rows.len(),
{
    if rows.len() > 0 {
        lemma_listing_entries_distinct(rows.drop_last());
        let prev = rows_entries(rows.drop_last());
        match row_entry(rows.last()) {
            Some(e) => {
                if !has_listener(prev, e) {
                    let r = rows_entries(rows);
                    assert(r == prev.push(e));
                    assert forall|i: int, j: int| 0 <= i < j < r.len() implies !same_listener(
                        #[trigger] r[i],
                        #[trigger] r[j],
                    ) by {
                        if j == prev.len() {
                            assert(r[i] == prev[i]);
                            if same_listener(prev[i], e) {
                                assert(has_listener(prev, e));
                            }
                        } else {
                            assert(r[i] == prev[i]);
                            assert(r[j] == prev[j]);
                        }
                    }
                    assert forall|i: int| 0 <= i < r.len() implies #[trigger] r[i].port != 0 by {
                        if i < prev.len() {
                            assert(r[i] == prev[i]);
                        }
                    }
                }
            },
            None => {},
        }
    }
}

/// Row `k` of `rows` describes process `pid` listening on `port`.
pub open spec fn row_lists(rows: Seq<Seq<char>>, k: int, pid: u32, port: u16) -> bool {
    &&& 0 <= k < rows.len()
    &&& row_entry(rows[k]) is Some
    &&& row_entry(rows[k])->0.pid == pid
    &&& row_entry(rows[k])->0.port == port
}

/// Reading the rows keeps one entry for each process and port that a row
/// describes, and no more: every such pair is the PID and port of some
/// entry; every entry is what the first row with its PID and port
/// describes; and no two entries have both the same PID and the same port.
/// So a process listening on several ports has an entry for each.
pub proof fn lemma_listing_keeps_each_listener(rows: Seq<Seq<char>>)
    ensures
        forall|k: int, pid: u32, port: u16|
            #[trigger] row_lists(rows, k, pid, port) ==> exists|j: int|
                0 <= j < rows_entries(rows).len() && #[trigger] rows_entries(rows)[j].pid == pid
                    && rows_entries(rows)[j].port == port,
        forall|j: int|
            #![trigger rows_entries(rows)[j]]
            0 <= j < rows_entries(rows).len() ==> exists|k: int|
                0 <= k < rows.len() && row_entry(#[trigger] rows[k]) == Some(rows_entries(rows)[j])
                    && forall|k2: int|
                    0 <= k2 < k ==> !row_lists(
                        rows,
                        k2,
                        rows_entries(rows)[j].pid,
                        rows_entries(rows)[j].port,
                    ),
        forall|i: int, j: int|
            0 <= i < j < rows_entries(rows).len() && #[trigger] rows_entries(rows)[i].pid
                == #[trigger] rows_entries(rows)[j].pid ==> rows_entries(rows)[i].port
                != rows_entries(rows)[j].port,
    decreases rows.len(),
{
    lemma_listing_entries_distinct(rows);
    let r = rows_entries(rows);
    assert forall|i: int, j: int|
        0 <= i < j < r.len() && #[trigger] r[i].pid == #[trigger] r[j].pid implies r[i].port != r[j].port by {
        assert(!same_listener(r[i], r[j]));
    }
    if rows.len() == 0 {
        return;
    }
    let t = rows.drop_last();
    lemma_listing_keeps_each_listener(t);
    let prev = rows_entries(t);
    let n = t.len();
    assert forall|k: int| 0 <= k < n implies #[trigger] t[k] == rows[k] by {}
    assert forall|k: int, pid: u32, port: u16| row_lists(t, k, pid, port) <==> #[trigger] row_lists(rows, k, pid, port) && k < n by {
        if 0 <= k < n {
            assert(t[k] == rows[k]);
        }
    }
    match row_entry(rows.last()) {
        Some(e) => {
            if has_listener(prev, e) {
                assert(r == prev);
                assert forall|k: int, pid: u32, port: u16|
                    #[trigger] row_lists(rows, k, pid, port) implies exists|j: int|
                        0 <= j < r.len() && #[trigger] r[j].pid == pid && r[j].port == port by {
                    if k < n {
                        assert(row_lists(t, k, pid, port));
                    } else {
                        let j = choose|j: int| 0 <= j < prev.len() && same_listener(prev[j], e);
                        assert(r[j].pid == pid && r[j].port == port);
                    }
                }
                assert forall|j: int| #![trigger r[j]] 0 <= j < r.len() implies exists|k: int|
                    0 <= k < rows.len() && row_entry(#[trigger] rows[k]) == Some(r[j])
                        && forall|k2: int| 0 <= k2 < k ==> !row_lists(rows, k2, r[j].pid, r[j].port) by {
                    let k = choose|k: int|
                        0 <= k < t.len() && row_entry(#[trigger] t[k]) == Some(prev[j])
                            && forall|k2: int| 0 <= k2 < k ==> !row_lists(t, k2, prev[j].pid, prev[j].port);
                    assert(t[k] == rows[k]);
                    assert forall|k2: int| 0 <= k2 < k implies !row_lists(rows, k2, r[j].pid, r[j].port) by {
                        assert(!row_lists(t, k2, prev[j].pid, prev[j].port));
                    }
                }
            } else {
                assert(r == prev.push(e));
                assert forall|k: int, pid: u32, port: u16|
                    #[trigger] row_lists(rows, k, pid, port) implies exists|j: int|
                        0 <= j < r.len() && #[trigger] r[j].pid == pid && r[j].port == port by {
                    if k < n {
                        assert(row_lists(t, k, pid, port));
                        let j = choose|j: int| 0 <= j < prev.len() && #[trigger] prev[j].pid == pid && prev[j].port == port;
                        assert(r[j] == prev[j]);
                    } else {
                        assert(rows[k] == rows.last());
                        assert(r[prev.len() as int] == e);
                    }
                }
                assert forall|j: int| #![trigger r[j]] 0 <= j < r.len() implies exists|k: int|
                    0 <= k < rows.len() && row_entry(#[trigger] rows[k]) == Some(r[j])
                        && forall|k2: int| 0 <= k2 < k ==> !row_lists(rows, k2, r[j].pid, r[j].port) by {
                    if j < prev.len() {
                        assert(r[j] == prev[j]);
                        let k = choose|k: int|
                            0 <= k < t.len() && row_entry(#[trigger] t[k]) == Some(prev[j])
                                && forall|k2: int| 0 <= k2 < k ==> !row_lists(t, k2, prev[j].pid, prev[j].port);
                        assert(t[k] == rows[k]);
                        assert forall|k2: int| 0 <= k2 < k implies !row_lists(rows, k2, r[j].pid, r[j].port) by {
                            assert(!row_lists(t, k2, prev[j].pid, prev[j].port));
                        }
                    } else {
                        assert(r[j] == e);
                        assert(rows[n as int] == rows.last());
                        assert forall|k2: int| 0 <= k2 < n implies !row_lists(rows, k2, e.pid, e.port) by {
                            if row_lists(rows, k2, e.pid, e.port) {
                                assert(row_lists(t, k2, e.pid, e.port));
                                let j2 = choose|j2: int| 0 <= j2 < prev.len() && #[trigger] prev[j2].pid == e.pid && prev[j2].port == e.port;
                                assert(same_listener(prev[j2], e));
                                assert(has_listener(prev, e));
                            }
                        }
                    }
                }
            }
        },
        None => {
            assert(r == prev);
            assert forall|k: int, pid: u32, port: u16|
                #[trigger] row_lists(rows, k, pid, port) implies exists|j: int|
                    0 <= j < r.len() && #[trigger] r[j].pid == pid && r[j].port == port by {
                if k < n {
                    assert(row_lists(t, k, pid, port));
                } else {
                    assert(rows[k] == rows.last());
                }
            }
            assert forall|j: int| #![trigger r[j]] 0 <= j < r.len() implies exists|k: int|
                0 <= k < rows.len() && row_entry(#[trigger] rows[k]) == Some(r[j])
                    && forall|k2: int| 0 <= k2 < k ==> !row_lists(rows, k2, r[j].pid, r[j].port) by {
                let k = choose|k: int|
                    0 <= k < t.len() && row_entry(#[trigger] t[k]) == Some(prev[j])
                        && forall|k2: int| 0 <= k2 < k ==> !row_lists(t, k2, prev[j].pid, prev[j].port);
                assert(t[k] == rows[k]);
                assert forall|k2: int| 0 <= k2 < k implies !row_lists(rows, k2, r[j].pid, r[j].port) by {
                    assert(!row_lists(t, k2, prev[j].pid, prev[j].port));
                }
            }
        },
    }
}

} // verus!
