//! Character-level text handling: whitespace, words, decimal numbers and
//! substring search, each stated over `Seq<char>`.
use vstd::prelude::*;

verus! {

/// The characters of `s`, in order.
pub fn chars_of(s: &str) -> (r: Vec<char>)
    ensures
        r@ == s@,
{
    let mut r: Vec<char> = Vec::new();
    for c in it: s.chars()
        invariant
            r@ == it.seq().take(it.index() as int),
    {
        r.push(c);
    }
    r
}

/// Appends one character to `s` (`String::push`).
#[verifier::external_body]
pub(crate) fn push_char(s: &mut String, c: char)
    ensures
        final(s)@ == old(s)@.push(c),
{
    s.push(c);
}

/// Removes the last character of `s` and returns it (`String::pop`).
#[verifier::external_body]
pub(crate) fn pop_char(s: &mut String) -> (r: Option<char>)
    ensures
        old(s)@.len() == 0 ==> r is None && final(s)@ == old(s)@,
        old(s)@.len() > 0 ==> r == Some(old(s)@.last()) && final(s)@ == old(s)@.drop_last(),
{
    s.pop()
}

/// A string holding exactly the characters of `v`.
pub fn string_of(v: &Vec<char>) -> (r: String)
    ensures
        r@ == v@,
{
    let mut r = String::new();
    let mut i: usize = 0;
    while i < v.len()
        invariant
            i <= v.len(),
            r@ == v@.take(i as int),
        decreases v.len() - i,
    {
        push_char(&mut r, v[i]);
        assert(v@.take(i + 1) =~= v@.take(i as int).push(v@[i as int]));
        i += 1;
    }
    assert(v@.take(v.len() as int) =~= v@);
    r
}

/// The digit character for `d < 10`.
pub open spec fn digit_char(d: nat) -> char {
    (d + 48) as char
}

/// Whether `c` is one of `'0'..='9'`.
pub open spec fn is_digit(c: char) -> bool {
    '0' <= c && c <= '9'
}

/// The value of the decimal digit `c`.
pub open spec fn digit_value(c: char) -> nat {
    (c as int - 48) as nat
}

/// The shortest decimal representation of `n`, as `to_string` writes it.
pub open spec fn decimal(n: nat) -> Seq<char>
    decreases n,
{
    if n < 10 {
        seq![digit_char(n)]
    } else {
        decimal(n / 10).push(digit_char(n % 10))
    }
}

/// The value of a sequence of decimal digits (0 for the empty sequence).
pub open spec fn digits_value(s: Seq<char>) -> nat
    decreases s.len(),
{
    if s.len() == 0 {
        0
    } else {
        digits_value(s.drop_last()) * 10 + digit_value(s.last())
    }
}

/// The digits that `u16::from_str` and `u32::from_str` read: one leading
/// `'+'` is skipped unless it is the whole input.
pub open spec fn unsigned_body(s: Seq<char>) -> Seq<char> {
    if s.len() > 1 && s[0] == '+' {
        s.drop_first()
    } else {
        s
    }
}

/// What `str::parse` gives for an unsigned integer type whose largest value
/// is `max`: the value where the input is an optional `'+'` followed by at
/// least one ASCII digit and the value fits, and an error otherwise.
pub open spec fn parse_unsigned(s: Seq<char>, max: nat) -> Option<nat> {
    let body = unsigned_body(s);
    if body.len() > 0 && (forall|i: int| 0 <= i < body.len() ==> is_digit(#[trigger] body[i]))
        && digits_value(body) <= max {
        Some(digits_value(body))
    } else {
        None
    }
}

/// `u16::from_str`.
pub open spec fn parse_u16_spec(s: Seq<char>) -> Option<u16> {
    match parse_unsigned(s, 0xffff) {
        Some(v) => Some(v as u16),
        None => None,
    }
}

/// `u32::from_str`.
pub open spec fn parse_u32_spec(s: Seq<char>) -> Option<u32> {
    match parse_unsigned(s, 0xffff_ffff) {
        Some(v) => Some(v as u32),
        None => None,
    }
}

/// The decimal digits of `n`.
pub fn decimal_digits(n: u64) -> (r: Vec<char>)
    ensures
        r@ == decimal(n as nat),
    decreases n,
{
    if n < 10 {
        let c = ((n as u8) + 48) as char;
        let mut v: Vec<char> = Vec::new();
        v.push(c);
        assert(v@ =~= seq![digit_char(n as nat)]);
        v
    } else {
        let mut v = decimal_digits(n / 10);
        let c = (((n % 10) as u8) + 48) as char;
        v.push(c);
        v
    }
}


proof fn lemma_digits_value_prefix(s: Seq<char>, k: int)
    requires
        0 <= k <= s.len(),
    ensures
        digits_value(s.take(k)) <= digits_value(s),
    decreases s.len(),
{
    if k < s.len() {
        lemma_digits_value_prefix(s.drop_last(), k);
        assert(s.drop_last().take(k) =~= s.take(k));
    } else {
        assert(s.take(k) =~= s);
    }
}

/// Reads `v[start..end]` as `str::parse` reads an unsigned integer whose
/// largest value is `max`.
pub fn parse_unsigned_range(v: &Vec<char>, start: usize, end: usize, max: u64) -> (r: Option<u64>)
    requires
        start <= end <= v.len(),
        max <= 0xffff_ffff,
    ensures
        r == (match parse_unsigned(v@.subrange(start as int, end as int), max as nat) {
            Some(n) => Some(n as u64),
            None => None,
        }),
{
    let ghost s = v@.subrange(start as int, end as int);
    let b: usize = if end - start > 1 && v[start] == '+' { start + 1 } else { start };
    let ghost body = unsigned_body(s);
    assert(body =~= v@.subrange(b as int, end as int));
    if b == end {
        return None;
    }
    let mut acc: u64 = 0;
    let mut i: usize = b;
    while i < end
        invariant
            b <= i <= end <= v.len(),
            max <= 0xffff_ffff,
            body == v@.subrange(b as int, end as int),
            body == unsigned_body(v@.subrange(start as int, end as int)),
            acc as nat == digits_value(body.take(i - b)),
            acc <= max,
            forall|j: int| 0 <= j < i - b ==> is_digit(#[trigger] body[j]),
        decreases end - i,
    {
        let c = v[i];
        if !('0' <= c && c <= '9') {
            assert(!is_digit(body[i - b]));
            return None;
        }
        let d = (c as u32 - 48) as u64;
        assert(body.take(i - b + 1).drop_last() =~= body.take(i - b));
        acc = acc * 10 + d;
        if acc > max {
            proof {
                lemma_digits_value_prefix(body, i - b + 1);
            }
            return None;
        }
        i += 1;
    }
    assert(body.take(end - b) =~= body);
    Some(acc)
}

/// `u16::from_str` on `v[start..end]`.
pub fn parse_u16_range(v: &Vec<char>, start: usize, end: usize) -> (r: Option<u16>)
    requires
        start <= end <= v.len(),
    ensures
        r == parse_u16_spec(v@.subrange(start as int, end as int)),
{
    match parse_unsigned_range(v, start, end, 0xffff) {
        Some(n) => Some(n as u16),
        None => None,
    }
}

/// `u32::from_str` on `v[start..end]`.
pub fn parse_u32_range(v: &Vec<char>, start: usize, end: usize) -> (r: Option<u32>)
    requires
        start <= end <= v.len(),
    ensures
        r == parse_u32_spec(v@.subrange(start as int, end as int)),
{
    match parse_unsigned_range(v, start, end, 0xffff_ffff) {
        Some(n) => Some(n as u32),
        None => None,
    }
}


/// The Unicode `White_Space` characters, which `char::is_whitespace` and
/// `str::split_whitespace` treat as separators.
pub open spec fn is_space(c: char) -> bool {
    ||| '\t' <= c && c <= '\r'
    ||| c == ' '
    ||| c == '\u{85}'
    ||| c == '\u{a0}'
    ||| c == '\u{1680}'
    ||| '\u{2000}' <= c && c <= '\u{200a}'
    ||| c == '\u{2028}'
    ||| c == '\u{2029}'
    ||| c == '\u{202f}'
    ||| c == '\u{205f}'
    ||| c == '\u{3000}'
}

/// `char::is_whitespace`.
pub fn is_space_char(c: char) -> (r: bool)
    ensures
        r == is_space(c),
{
    ('\t' <= c && c <= '\r') || c == ' ' || c == '\u{85}' || c == '\u{a0}' || c == '\u{1680}'
        || ('\u{2000}' <= c && c <= '\u{200a}') || c == '\u{2028}' || c == '\u{2029}'
        || c == '\u{202f}' || c == '\u{205f}' || c == '\u{3000}'
}

/// The maximal runs of non-space characters of `s`, in order: what
/// `str::split_whitespace` yields. Stated by how the runs change when one
/// more character is appended.
pub open spec fn words(s: Seq<char>) -> Seq<Seq<char>>
    decreases s.len(),
{
    if s.len() == 0 {
        seq![]
    } else {
        let p = s.drop_last();
        let c = s.last();
        if is_space(c) {
            words(p)
        } else if p.len() > 0 && !is_space(p.last()) {
            let w = words(p);
            w.drop_last().push(w.last().push(c))
        } else {
            words(p).push(seq![c])
        }
    }
}

/// The contents of a list of character vectors.
pub open spec fn views(v: Seq<Vec<char>>) -> Seq<Seq<char>> {
    v.map_values(|t: Vec<char>| t@)
}

proof fn lemma_words_nonempty_after_word_char(s: Seq<char>)
    requires
        s.len() > 0,
        !is_space(s.last()),
    ensures
        words(s).len() > 0,
{
}

/// The words of `v[start..end]`, as `split_whitespace` yields them.
pub fn split_words(v: &Vec<char>, start: usize, end: usize) -> (r: Vec<Vec<char>>)
    requires
        start <= end <= v.len(),
    ensures
        views(r@) == words(v@.subrange(start as int, end as int)),
{
    let mut toks: Vec<Vec<char>> = Vec::new();
    let mut i: usize = start;
    while i < end
        invariant
            start <= i <= end <= v.len(),
            views(toks@) == words(v@.subrange(start as int, i as int)),
        decreases end - i,
    {
        let ghost pre = v@.subrange(start as int, i as int);
        let ghost cur = v@.subrange(start as int, i + 1);
        assert(cur.drop_last() =~= pre);
        assert(cur.last() == v@[i as int]);
        let c = v[i];
        if is_space_char(c) {
        } else if i > start && !is_space_char(v[i - 1]) {
            assert(pre.last() == v@[i - 1]);
            proof {
                lemma_words_nonempty_after_word_char(pre);
            }
            let mut last = toks.pop().unwrap();
            last.push(c);
            toks.push(last);
            assert(views(toks@) =~= words(pre).drop_last().push(words(pre).last().push(c)));
        } else {
            let mut t: Vec<char> = Vec::new();
            t.push(c);
            toks.push(t);
            assert(views(toks@) =~= words(pre).push(seq![c]));
        }
        i += 1;
    }
    toks
}


/// `pat` stands in `s` from index `i` on.
pub open spec fn occurs_at(s: Seq<char>, pat: Seq<char>, i: int) -> bool {
    0 <= i && i + pat.len() <= s.len() && s.subrange(i, i + pat.len()) == pat
}

/// `str::contains` with a string pattern.
pub open spec fn contains(s: Seq<char>, pat: Seq<char>) -> bool {
    exists|i: int| occurs_at(s, pat, i)
}

/// `i` is where `str::find` reports `pat`: its first occurrence.
pub open spec fn first_occurrence(s: Seq<char>, pat: Seq<char>, i: int) -> bool {
    occurs_at(s, pat, i) && forall|j: int| 0 <= j < i ==> !occurs_at(s, pat, j)
}

/// `i` is where `str::rfind` reports the character `c`: its last occurrence.
pub open spec fn last_index_of(s: Seq<char>, c: char, i: int) -> bool {
    0 <= i < s.len() && s[i] == c && forall|j: int| i < j < s.len() ==> s[j] != c
}

/// Whether `pat` stands in `hay` from index `i` on.
fn matches_at(hay: &Vec<char>, pat: &Vec<char>, i: usize) -> (r: bool)
    requires
        i + pat.len() <= hay.len(),
    ensures
        r == (hay@.subrange(i as int, i + pat.len()) == pat@),
{
    let mut k: usize = 0;
    while k < pat.len()
        invariant
            k <= pat.len(),
            i + pat.len() <= hay.len(),
            hay@.subrange(i as int, i + k) == pat@.take(k as int),
        decreases pat.len() - k,
    {
        if hay[i + k] != pat[k] {
            assert(hay@.subrange(i as int, i + pat.len())[k as int] != pat@[k as int]);
            return false;
        }
        assert(hay@.subrange(i as int, i + k + 1) =~= pat@.take(k + 1));
        k += 1;
    }
    assert(pat@.take(pat.len() as int) =~= pat@);
    true
}

/// `str::contains`: whether `pat` stands somewhere in `hay`.
pub fn contains_chars(hay: &Vec<char>, pat: &Vec<char>) -> (r: bool)
    ensures
        r == contains(hay@, pat@),
{
    if pat.len() > hay.len() {
        return false;
    }
    let last = hay.len() - pat.len();
    let mut i: usize = 0;
    while i <= last
        invariant
            last + pat.len() == hay.len(),
            forall|j: int| 0 <= j < i ==> !occurs_at(hay@, pat@, j),
        decreases last + 1 - i,
    {
        if matches_at(hay, pat, i) {
            assert(occurs_at(hay@, pat@, i as int));
            return true;
        }
        if i == last {
            assert forall|j: int| !occurs_at(hay@, pat@, j) by {
                if 0 <= j && j < i {
                }
            }
            return false;
        }
        i += 1;
    }
    false
}


/// The pieces of `s` between `'\n'` characters: `str::split('\n')`.
pub open spec fn split_lines(s: Seq<char>) -> Seq<Seq<char>>
    decreases s.len(),
{
    if s.len() == 0 {
        seq![seq![]]
    } else {
        let p = s.drop_last();
        if s.last() == '\n' {
            split_lines(p).push(seq![])
        } else {
            let g = split_lines(p);
            g.drop_last().push(g.last().push(s.last()))
        }
    }
}

/// A piece that ended at a `'\n'`, without the `'\r'` of a `"\r\n"` ending.
pub open spec fn line_text(piece: Seq<char>) -> Seq<char> {
    if piece.len() > 0 && piece.last() == '\r' {
        piece.drop_last()
    } else {
        piece
    }
}

/// The lines of `s` as `str::lines` yields them: every piece that ends at a
/// `'\n'` (less a final `'\r'`), then the rest of `s` where it is not empty.
pub open spec fn str_lines(s: Seq<char>) -> Seq<Seq<char>> {
    let pieces = split_lines(s);
    let ended = pieces.drop_last().map_values(|l: Seq<char>| line_text(l));
    if pieces.last().len() == 0 {
        ended
    } else {
        ended.push(pieces.last())
    }
}

/// The text that index ranges select from `v`.
pub open spec fn range_texts(v: Seq<char>, r: Seq<(usize, usize)>) -> Seq<Seq<char>> {
    r.map_values(|p: (usize, usize)| v.subrange(p.0 as int, p.1 as int))
}

proof fn lemma_split_lines_nonempty(s: Seq<char>)
    ensures
        split_lines(s).len() >= 1,
    decreases s.len(),
{
    if s.len() > 0 {
        lemma_split_lines_nonempty(s.drop_last());
    }
}

/// Every range of `r` is ordered and ends at or before `end`.
pub open spec fn ranges_within(r: Seq<(usize, usize)>, end: int) -> bool {
    forall|k: int| 0 <= k < r.len() ==> #[trigger] r[k].0 <= r[k].1 <= end
}

proof fn lemma_ranges_within_push(r: Seq<(usize, usize)>, x: (usize, usize), end: int)
    requires
        ranges_within(r, end),
        x.0 <= x.1 <= end,
    ensures
        ranges_within(r.push(x), end),
        ranges_within(r.push(x), end + 1),
{
    assert forall|k: int| 0 <= k < r.push(x).len() implies #[trigger] r.push(x)[k].0 <= r.push(x)[k].1 <= end by {
        if k < r.len() {
            assert(r.push(x)[k] == r[k]);
        }
    }
}

/// Where the lines of `v` stand, as `str::lines` splits it.
pub fn line_ranges(v: &Vec<char>) -> (r: Vec<(usize, usize)>)
    ensures
        range_texts(v@, r@) == str_lines(v@),
        ranges_within(r@, v.len() as int),
{
    let n = v.len();
    let mut r: Vec<(usize, usize)> = Vec::new();
    let mut start: usize = 0;
    let mut i: usize = 0;
    let ghost mut done: Seq<Seq<char>> = seq![];
    assert(v@.take(0) =~= seq![]);
    assert(v@.subrange(0, 0) =~= seq![]);
    while i < n
        invariant
            n == v.len(),
            start <= i <= n,
            split_lines(v@.take(i as int)) == done.push(v@.subrange(start as int, i as int)),
            range_texts(v@, r@) == done.map_values(|l: Seq<char>| line_text(l)),
            ranges_within(r@, i as int),
        decreases n - i,
    {
        let ghost pre = v@.take(i as int);
        assert(v@.take(i + 1).drop_last() =~= pre);
        proof {
            lemma_split_lines_nonempty(pre);
        }
        if v[i] == '\n' {
            let ghost piece = v@.subrange(start as int, i as int);
            let end = if i > start && v[i - 1] == '\r' { i - 1 } else { i };
            assert(v@.subrange(start as int, end as int) == line_text(piece)) by {
                if i > start && v@[i - 1] == '\r' {
                    assert(v@.subrange(start as int, end as int) =~= piece.drop_last());
                }
            }
            let ghost old_r = r@;
            let ghost old_done = done;
            r.push((start, end));
            assert(old_r.len() == old_done.len()) by {
                assert(range_texts(v@, old_r).len() == old_done.map_values(
                    |l: Seq<char>| line_text(l),
                ).len());
            }
            proof {
                done = done.push(piece);
                assert(r@ == old_r.push((start, end)));
                assert forall|k: int| 0 <= k < r@.len() implies range_texts(v@, r@)[k]
                    == done.map_values(|l: Seq<char>| line_text(l))[k] by {
                    if k < old_r.len() {
                        assert(range_texts(v@, old_r)[k] == old_done.map_values(
                            |l: Seq<char>| line_text(l),
                        )[k]);
                    } else {
                        assert(done[k] == piece);
                        assert(r@[k] == (start, end));
                    }
                }
            }
            assert(range_texts(v@, r@) =~= done.map_values(|l: Seq<char>| line_text(l)));
            assert(start <= end <= i);
            proof {
                lemma_ranges_within_push(old_r, (start, end), i as int);
            }
            assert(v@.subrange(i + 1, i + 1) =~= seq![]);
            assert(split_lines(v@.take(i + 1)) =~= done.push(seq![]));
            start = i + 1;
        } else {
            assert(v@.subrange(start as int, i + 1) =~= v@.subrange(start as int, i as int).push(v@[i as int]));
            assert(split_lines(v@.take(i + 1)) =~= done.push(v@.subrange(start as int, i + 1)));
        }
        i += 1;
    }
    assert(v@.take(n as int) =~= v@);
    assert(split_lines(v@).drop_last() =~= done);
    if start < n {
        let ghost old_r = r@;
        r.push((start, n));
        assert forall|k: int| 0 <= k < r@.len() implies range_texts(v@, r@)[k]
            == str_lines(v@)[k] by {
            if k < old_r.len() {
                assert(range_texts(v@, old_r)[k] == done.map_values(
                    |l: Seq<char>| line_text(l),
                )[k]);
            }
        }
        assert(range_texts(v@, r@) =~= str_lines(v@));
        proof {
            lemma_ranges_within_push(old_r, (start, n), n as int);
        }
    } else {
        assert(v@.subrange(start as int, n as int) =~= seq![]);
        assert(range_texts(v@, r@) =~= str_lines(v@));
    }
    r
}


/// What `str::to_lowercase` returns for `s`: each character replaced by its
/// Unicode lowercase mapping.
pub uninterp spec fn lowercase(s: Seq<char>) -> Seq<char>;

/// Every character of `s` is ASCII.
pub open spec fn is_ascii_text(s: Seq<char>) -> bool {
    forall|i: int| 0 <= i < s.len() ==> (#[trigger] s[i] as u32) < 128
}

/// `char::to_ascii_lowercase`: `'A'..='Z'` to `'a'..='z'`, the rest as is.
pub open spec fn ascii_lower(c: char) -> char {
    if 'A' <= c && c <= 'Z' {
        ((c as u32) + 32) as char
    } else {
        c
    }
}

/// `char::to_ascii_uppercase`: `'a'..='z'` to `'A'..='Z'`, the rest as is.
pub open spec fn ascii_upper(c: char) -> char {
    if 'a' <= c && c <= 'z' {
        ((c as u32) - 32) as char
    } else {
        c
    }
}

/// `str::to_lowercase`. Each character maps to one or more characters, so
/// the result is empty exactly when `s` is; on ASCII text each character is
/// lowered as `to_ascii_lowercase` lowers it. What the mapping is on other
/// characters, case by case, the contract leaves to the name [`lowercase`].
#[verifier::external_body]
pub(crate) fn to_lowercase(s: &str) -> (r: String)
    ensures
        r@ == lowercase(s@),
        r@.len() == 0 <==> s@.len() == 0,
        is_ascii_text(s@) ==> r@ == s@.map_values(|c: char| ascii_lower(c)),
{
    s.to_lowercase()
}

/// What `String::from_utf8_lossy` makes of `bytes`: the text they encode,
/// with U+FFFD in place of each sequence that is not UTF-8.
pub uninterp spec fn utf8_lossy(bytes: Seq<u8>) -> Seq<char>;

/// `String::from_utf8_lossy`. Where `bytes` is valid UTF-8, the result is
/// exactly the text that they encode; how invalid sequences are replaced,
/// the contract leaves to the name [`utf8_lossy`].
#[verifier::external_body]
pub(crate) fn decode_lossy(bytes: &[u8]) -> (r: String)
    ensures
        r@ == utf8_lossy(bytes@),
        vstd::utf8::valid_utf8(bytes@) ==> r@ == vstd::utf8::decode_utf8(bytes@),
{
    String::from_utf8_lossy(bytes).into_owned()
}


/// Appends the characters of `t` to `s`.
pub fn push_chars(s: &mut String, t: &Vec<char>)
    ensures
        final(s)@ == old(s)@ + t@,
{
    let mut i: usize = 0;
    while i < t.len()
        invariant
            i <= t.len(),
            s@ == old(s)@ + t@.take(i as int),
        decreases t.len() - i,
    {
        push_char(s, t[i]);
        assert(t@.take(i + 1) =~= t@.take(i as int).push(t@[i as int]));
        i += 1;
    }
    assert(t@.take(t.len() as int) =~= t@);
}

/// Appends `t` to `s` (`String::push_str`).
pub fn push_str(s: &mut String, t: &str)
    ensures
        final(s)@ == old(s)@ + t@,
{
    let v = chars_of(t);
    push_chars(s, &v);
}

/// Appends the decimal digits of `n` to `s`.
pub fn push_decimal(s: &mut String, n: u64)
    ensures
        final(s)@ == old(s)@ + decimal(n as nat),
{
    let d = decimal_digits(n);
    push_chars(s, &d);
}


proof fn lemma_decimal_digits_value(n: nat)
    ensures
        decimal(n).len() >= 1,
        forall|i: int| 0 <= i < decimal(n).len() ==> is_digit(#[trigger] decimal(n)[i]),
        digits_value(decimal(n)) == n,
    decreases n,
{
    if n >= 10 {
        lemma_decimal_digits_value(n / 10);
        let d = decimal(n);
        assert(d.drop_last() =~= decimal(n / 10));
        assert(digit_value(digit_char(n % 10)) == n % 10);
        assert((n / 10) * 10 + n % 10 == n) by (nonlinear_arith);
        assert(d.last() == digit_char(n % 10));
        assert(digits_value(d) == digits_value(decimal(n / 10)) * 10 + digit_value(digit_char(n % 10)));
    } else {
        assert(digit_value(digit_char(n)) == n);
        let d = decimal(n);
        assert(d.drop_last() =~= seq![]);
        assert(digits_value(d) == digits_value(d.drop_last()) * 10 + digit_value(d.last()));
    }
}

/// Reading back what `to_string` writes for an integer gives that integer
/// (`u16`).
pub proof fn lemma_parse_u16_decimal(p: u16)
    ensures
        parse_u16_spec(decimal(p as nat)) == Some(p),
{
    lemma_decimal_digits_value(p as nat);
    assert(unsigned_body(decimal(p as nat)) == decimal(p as nat));
}

/// Reading back what `to_string` writes for an integer gives that integer
/// (`u32`).
pub proof fn lemma_parse_u32_decimal(p: u32)
    ensures
        parse_u32_spec(decimal(p as nat)) == Some(p),
{
    lemma_decimal_digits_value(p as nat);
    assert(unsigned_body(decimal(p as nat)) == decimal(p as nat));
}


/// Every character that `to_string` writes for an integer is a digit.
pub proof fn lemma_decimal_is_digits(n: nat)
    ensures
        forall|i: int| 0 <= i < decimal(n).len() ==> is_digit(#[trigger] decimal(n)[i]),
{
    lemma_decimal_digits_value(n);
}

} // verus!
