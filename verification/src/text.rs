//! The text formats that the tools read: lists of parameter identifiers and
//! tables of records.

use vstd::prelude::*;
use vstd::string::StringExecFns;

verus! {

/// Trusted: `String::push` of the standard library appends the character
/// `c` to the end of the string, and leaves what the string held before as
/// it was.
pub assume_specification[ String::push ](s: &mut String, c: char)
    ensures
        final(s)@ == old(s)@.push(c),
;

/// The number of characters of `s` before the first one that `stop` holds
/// of: the length of `s` where there is none.
pub open spec fn until(s: Seq<char>, stop: spec_fn(char) -> bool) -> int
    decreases s.len(),
{
    if s.len() == 0 || stop(s[0]) {
        0
    } else {
        1 + until(s.skip(1), stop)
    }
}

/// `until` is the place of the first character that `stop` holds of.
pub proof fn lemma_until(s: Seq<char>, stop: spec_fn(char) -> bool, n: int)
    requires
        0 <= n <= s.len(),
        forall|j: int| 0 <= j < n ==> !stop(#[trigger] s[j]),
        n < s.len() ==> stop(s[n]),
    ensures
        until(s, stop) == n,
    decreases n,
{
    if n > 0 {
        lemma_until(s.skip(1), stop, n - 1);
    }
}

/// `until` stays within the sequence, and is not zero where the sequence
/// begins with a character that `stop` does not hold of.
pub proof fn lemma_until_bounds(s: Seq<char>, stop: spec_fn(char) -> bool)
    ensures
        0 <= until(s, stop) <= s.len(),
        s.len() > 0 && !stop(s[0]) ==> until(s, stop) >= 1,
    decreases s.len(),
{
    if s.len() > 0 && !stop(s[0]) {
        lemma_until_bounds(s.skip(1), stop);
    }
}

/// The characters of a text.
pub fn chars_of(text: &str) -> (chars: Vec<char>)
    ensures
        chars@ == text@,
{
    let mut chars: Vec<char> = Vec::new();
    for c in it: text.chars()
        invariant
            it.seq() == text@,
            chars@ == it.seq().take(it.index() as int),
    {
        chars.push(c);
    }
    chars
}

/// The text of the characters from `from` up to `to`.
pub fn text_of(chars: &Vec<char>, from: usize, to: usize) -> (text: String)
    requires
        from <= to <= chars.len(),
    ensures
        text@ == chars@.subrange(from as int, to as int),
{
    let mut text = String::new();
    let mut i: usize = from;
    while i < to
        invariant
            from <= i <= to <= chars.len(),
            text@ == chars@.subrange(from as int, i as int),
        decreases to - i,
    {
        text.push(chars[i]);
        i = i + 1;
    }
    text
}

/// The place of the first `stop` among the characters from `from` up to
/// `to`: `to` where there is none.
fn find(chars: &Vec<char>, from: usize, to: usize, stop: char) -> (at: usize)
    requires
        from <= to <= chars.len(),
    ensures
        from <= at <= to,
        at - from == until(chars@.subrange(from as int, to as int), |c: char| c == stop),
        forall|j: int| from <= j < at ==> chars[j] != stop,
        at < to ==> chars[at as int] == stop,
{
    let mut at: usize = from;
    while at < to && chars[at] != stop
        invariant
            from <= at <= to <= chars.len(),
            forall|j: int| from <= j < at ==> chars[j] != stop,
        decreases to - at,
    {
        at = at + 1;
    }
    proof {
        let s = chars@.subrange(from as int, to as int);
        let is_stop = |c: char| c == stop;
        lemma_until(s, is_stop, at - from);
    }
    at
}

/// Whether `c` is one of the five characters that separate words in ASCII
/// text: space, tab, line feed, form feed and carriage return.
pub open spec fn is_ascii_space(c: char) -> bool {
    c == ' ' || c == '\t' || c == '\n' || c == '\x0C' || c == '\r'
}

/// Whether `c` separates words in ASCII text.
pub fn ascii_space(c: char) -> (space: bool)
    ensures
        space == is_ascii_space(c),
{
    c == ' ' || c == '\t' || c == '\n' || c == '\x0C' || c == '\r'
}

/// The words of a text: its longest runs of characters that are not ASCII
/// white space, in order.
pub open spec fn words(s: Seq<char>) -> Seq<Seq<char>>
    decreases s.len(),
    via words_decreases
{
    if s.len() == 0 {
        Seq::empty()
    } else if is_ascii_space(s[0]) {
        words(s.skip(1))
    } else {
        let n = until(s, |c: char| is_ascii_space(c));
        seq![s.take(n)] + words(s.skip(n))
    }
}

#[via_fn]
proof fn words_decreases(s: Seq<char>) {
    lemma_until_bounds(s, |c: char| is_ascii_space(c));
}

/// Read a list of parameter identifiers: the words of the text, which ASCII
/// white space separates.
pub fn load_subset(text: &str) -> (ids: Vec<String>)
    ensures
        crate::string_set::texts(ids@) == words(text@),
{
    let chars = chars_of(text);
    let ghost s = chars@;
    let n: usize = chars.len();
    let mut ids: Vec<String> = Vec::new();
    let mut pos: usize = 0;
    assert(s.skip(0) =~= s);
    while pos < n
        invariant
            s == chars@,
            s == text@,
            n == chars.len(),
            pos <= n,
            words(s) == crate::string_set::texts(ids@) + words(s.skip(pos as int)),
        decreases n - pos,
    {
        let ghost rest = s.skip(pos as int);
        if ascii_space(chars[pos]) {
            assert(rest.skip(1) =~= s.skip(pos + 1));
            pos = pos + 1;
        } else {
            let mut end: usize = pos + 1;
            while end < n && !ascii_space(chars[end])
                invariant
                    s == chars@,
                    pos < end <= n,
                    n == chars.len(),
                    forall|j: int| pos <= j < end ==> !is_ascii_space(s[j]),
                decreases n - end,
            {
                end = end + 1;
            }
            let word = text_of(&chars, pos, end);
            proof {
                let stop = |c: char| is_ascii_space(c);
                lemma_until(rest, stop, end - pos);
                assert(rest.take(end - pos) =~= s.subrange(pos as int, end as int));
                assert(rest.skip(end - pos) =~= s.skip(end as int));
            }
            ids.push(word);
            pos = end;
        }
    }
    ids
}

/// Whether `c` is white space: one of the characters that Unicode gives the
/// property `White_Space`.
pub open spec fn is_whitespace(c: char) -> bool {
    let u = c as u32;
    ||| 0x09 <= u <= 0x0D
    ||| u == 0x20
    ||| u == 0x85
    ||| u == 0xA0
    ||| u == 0x1680
    ||| 0x2000 <= u <= 0x200A
    ||| u == 0x2028
    ||| u == 0x2029
    ||| u == 0x202F
    ||| u == 0x205F
    ||| u == 0x3000
}

/// Whether `c` is white space.
pub fn whitespace(c: char) -> (space: bool)
    ensures
        space == is_whitespace(c),
{
    let u: u32 = c as u32;
    (0x09 <= u && u <= 0x0D) || u == 0x20 || u == 0x85 || u == 0xA0 || u == 0x1680 || (0x2000 <= u
        && u <= 0x200A) || u == 0x2028 || u == 0x2029 || u == 0x202F || u == 0x205F || u == 0x3000
}

/// `s` without the white space at its start.
pub open spec fn trim_start(s: Seq<char>) -> Seq<char>
    decreases s.len(),
{
    if s.len() > 0 && is_whitespace(s[0]) {
        trim_start(s.skip(1))
    } else {
        s
    }
}

/// `s` without the white space at its end.
pub open spec fn trim_end(s: Seq<char>) -> Seq<char>
    decreases s.len(),
{
    if s.len() > 0 && is_whitespace(s.last()) {
        trim_end(s.drop_last())
    } else {
        s
    }
}

/// `s` without the white space at its start and at its end.
pub open spec fn trimmed(s: Seq<char>) -> Seq<char> {
    trim_end(trim_start(s))
}

/// The part of the characters from `from` up to `to` that is left when the
/// white space at both ends is taken away.
fn trim(chars: &Vec<char>, from: usize, to: usize) -> (part: (usize, usize))
    requires
        from <= to <= chars.len(),
    ensures
        from <= part.0 <= part.1 <= to,
        chars@.subrange(part.0 as int, part.1 as int) == trimmed(
            chars@.subrange(from as int, to as int),
        ),
{
    let ghost s = chars@;
    let mut a: usize = from;
    while a < to && whitespace(chars[a])
        invariant
            s == chars@,
            from <= a <= to <= chars.len(),
            trim_start(s.subrange(from as int, to as int)) == trim_start(
                s.subrange(a as int, to as int),
            ),
        decreases to - a,
    {
        assert(s.subrange(a as int, to as int).skip(1) =~= s.subrange(a + 1, to as int));
        a = a + 1;
    }
    let mut b: usize = to;
    while b > a && whitespace(chars[b - 1])
        invariant
            s == chars@,
            a <= b <= to <= chars.len(),
            trim_end(s.subrange(a as int, to as int)) == trim_end(s.subrange(a as int, b as int)),
        decreases b,
    {
        assert(s.subrange(a as int, b as int).drop_last() =~= s.subrange(a as int, b - 1));
        b = b - 1;
    }
    (a, b)
}

/// The value of a decimal digit.
pub open spec fn digit_value(c: char) -> Option<nat> {
    let u = c as u32;
    if 48 <= u <= 57 {
        Some((u - 48) as nat)
    } else {
        None
    }
}

/// The number that a run of decimal digits stands for: none where the run
/// is empty or holds another character.
pub open spec fn digits_value(s: Seq<char>) -> Option<nat>
    decreases s.len(),
{
    if s.len() == 0 {
        None
    } else {
        match digit_value(s.last()) {
            None => None,
            Some(d) => if s.len() == 1 {
                Some(d)
            } else {
                match digits_value(s.drop_last()) {
                    Some(rest) => Some(rest * 10 + d),
                    None => None,
                }
            },
        }
    }
}

/// The number that a numeral stands for: decimal digits, with or without a
/// plus sign before them.
pub open spec fn number(s: Seq<char>) -> Option<nat> {
    if s.len() > 0 && s[0] == '+' {
        digits_value(s.skip(1))
    } else {
        digits_value(s)
    }
}

/// A run that stands for a number holds digits only.
proof fn lemma_digits_are_digits(s: Seq<char>, j: int)
    requires
        digits_value(s) is Some,
        0 <= j < s.len(),
    ensures
        digit_value(s[j]) is Some,
    decreases s.len(),
{
    if j < s.len() - 1 {
        lemma_digits_are_digits(s.drop_last(), j);
    }
}

/// The first digits of a run stand for a number that is not larger than
/// that of the whole run.
proof fn lemma_digits_prefix(s: Seq<char>, k: int)
    requires
        digits_value(s) is Some,
        0 < k <= s.len(),
    ensures
        digits_value(s.take(k)) is Some,
        digits_value(s.take(k)).unwrap() <= digits_value(s).unwrap(),
    decreases s.len(),
{
    if k == s.len() {
        assert(s.take(k) =~= s);
    } else {
        assert(s.drop_last().take(k) =~= s.take(k));
        lemma_digits_prefix(s.drop_last(), k);
    }
}

/// The number that the characters from `from` up to `to` stand for, where
/// they are a numeral of a number that fits.
fn parse_number(chars: &Vec<char>, from: usize, to: usize) -> (n: Option<usize>)
    requires
        from <= to <= chars.len(),
    ensures
        match n {
            Some(n) => number(chars@.subrange(from as int, to as int)) == Some(n as nat),
            None => match number(chars@.subrange(from as int, to as int)) {
                Some(n) => n > usize::MAX,
                None => true,
            },
        },
{
    let ghost s = chars@.subrange(from as int, to as int);
    let start: usize = if from < to && chars[from] == '+' {
        from + 1
    } else {
        from
    };
    let ghost digits = chars@.subrange(start as int, to as int);
    proof {
        if start != from {
            assert(digits =~= s.skip(1));
        }
    }
    if start == to {
        return None;
    }
    let mut acc: usize = 0;
    let mut i: usize = start;
    while i < to
        invariant
            start <= i <= to <= chars.len(),
            start < to,
            digits == chars@.subrange(start as int, to as int),
            number(chars@.subrange(from as int, to as int)) == digits_value(digits),
            i == start ==> acc == 0,
            i > start ==> digits_value(digits.take(i - start)) == Some(acc as nat),
        decreases to - i,
    {
        let u: u32 = chars[i] as u32;
        if u < 48 || u > 57 {
            proof {
                if digits_value(digits) is Some {
                    lemma_digits_are_digits(digits, i - start);
                }
            }
            return None;
        }
        let d: usize = (u - 48) as usize;
        let ghost prefix = digits.take(i - start + 1);
        proof {
            assert(prefix.drop_last() =~= digits.take(i - start));
        }
        let next = match acc.checked_mul(10) {
            Some(t) => t.checked_add(d),
            None => None,
        };
        match next {
            Some(v) => {
                acc = v;
            },
            None => {
                proof {
                    if digits_value(digits) is Some {
                        lemma_digits_prefix(digits, i - start + 1);
                    }
                }
                return None;
            },
        }
        i = i + 1;
    }
    assert(digits.take(to - start) =~= digits);
    Some(acc)
}

/// A line without the carriage return at its end, if there is one.
pub open spec fn without_cr(line: Seq<char>) -> Seq<char> {
    if line.len() > 0 && line.last() == '\r' {
        line.drop_last()
    } else {
        line
    }
}

/// The lines of a text. A line ends with a line feed, or with a carriage
/// return and a line feed, neither of which belongs to the line; the last
/// line need not end with one.
pub open spec fn lines(s: Seq<char>) -> Seq<Seq<char>>
    decreases s.len(),
    via lines_decreases
{
    if s.len() == 0 {
        Seq::empty()
    } else {
        let n = until(s, |c: char| c == '\n');
        if n < s.len() {
            seq![without_cr(s.take(n))] + lines(s.skip(n + 1))
        } else {
            seq![s]
        }
    }
}

#[via_fn]
proof fn lines_decreases(s: Seq<char>) {
    lemma_until_bounds(s, |c: char| c == '\n');
}

/// The parts of the text that the pairs of places bound.
pub open spec fn parts(s: Seq<char>, ranges: Seq<(usize, usize)>) -> Seq<Seq<char>> {
    ranges.map_values(|r: (usize, usize)| s.subrange(r.0 as int, r.1 as int))
}

/// Where the lines of the text begin and end.
fn line_ranges(chars: &Vec<char>) -> (ranges: Vec<(usize, usize)>)
    ensures
        parts(chars@, ranges@) == lines(chars@),
        forall|i: int|
            0 <= i < ranges.len() ==> (#[trigger] ranges[i]).0 <= ranges[i].1 <= chars.len(),
        ranges.len() <= chars.len(),
{
    let ghost s = chars@;
    let n: usize = chars.len();
    let mut ranges: Vec<(usize, usize)> = Vec::new();
    let mut pos: usize = 0;
    assert(s.skip(0) =~= s);
    while pos < n
        invariant
            s == chars@,
            n == chars.len(),
            pos <= n,
            ranges.len() <= pos,
            forall|i: int| 0 <= i < ranges.len() ==> (#[trigger] ranges[i]).0 <= ranges[i].1 <= n,
            lines(s) == parts(s, ranges@) + lines(s.skip(pos as int)),
        decreases n - pos,
    {
        let ghost rest = s.skip(pos as int);
        let at = find(chars, pos, n, '\n');
        if at < n {
            let end: usize = if at > pos && chars[at - 1] == '\r' {
                at - 1
            } else {
                at
            };
            proof {
                assert(without_cr(rest.take(at - pos)) =~= s.subrange(pos as int, end as int));
                assert(rest.skip(at - pos + 1) =~= s.skip(at + 1));
            }
            ranges.push((pos, end));
            pos = at + 1;
        } else {
            ranges.push((pos, n));
            pos = n;
        }
    }
    ranges
}

/// Why a row of a table of records cannot be read.
#[derive(Clone, Copy, Debug, PartialEq, Eq, Structural)]
pub enum Cause {
    /// The row does not have two fields.
    Fields,
    /// The first field is no number, or a number too large for an
    /// identifier.
    Id,
}

/// A row of a table of records that cannot be read.
#[derive(Clone, Copy, Debug, PartialEq, Eq)]
pub struct CsvError {
    /// The number of the line, the header being line 1.
    pub line: usize,
    /// What is wrong with the row.
    pub cause: Cause,
}

/// The record that a row stands for. A row has two fields, which one comma
/// separates; white space around a field does not count. The first field is
/// the numeral of the record's identifier, the second its value.
pub open spec fn row_record(row: Seq<char>) -> Result<(nat, Seq<char>), Cause> {
    let k = until(row, |c: char| c == ',');
    if k < row.len() && until(row.skip(k + 1), |c: char| c == ',') == row.len() - (k + 1) {
        match number(trimmed(row.take(k))) {
            Some(id) => if id <= usize::MAX {
                Ok((id, trimmed(row.skip(k + 1))))
            } else {
                Err(Cause::Id)
            },
            None => Err(Cause::Id),
        }
    } else {
        Err(Cause::Fields)
    }
}

/// The rows of a table of records: its lines but the first, which is the
/// header.
pub open spec fn rows(text: Seq<char>) -> Seq<Seq<char>> {
    if lines(text).len() == 0 {
        lines(text)
    } else {
        lines(text).skip(1)
    }
}

/// The identifier of a record and the text of its value.
pub open spec fn record_view(r: crate::record::Record<String>) -> (nat, Seq<char>) {
    (r.id as nat, r.value@)
}

/// Read the row that the characters from `from` up to `to` hold.
fn parse_row(chars: &Vec<char>, from: usize, to: usize) -> (r: Result<
    crate::record::Record<String>,
    Cause,
>)
    requires
        from <= to <= chars.len(),
    ensures
        match r {
            Ok(record) => row_record(chars@.subrange(from as int, to as int)) == Ok::<
                (nat, Seq<char>),
                Cause,
            >(record_view(record)),
            Err(cause) => row_record(chars@.subrange(from as int, to as int)) == Err::<
                (nat, Seq<char>),
                Cause,
            >(cause),
        },
{
    let ghost row = chars@.subrange(from as int, to as int);
    let k = find(chars, from, to, ',');
    if k == to {
        return Err(Cause::Fields);
    }
    let k2 = find(chars, k + 1, to, ',');
    proof {
        assert(row.skip(k - from + 1) =~= chars@.subrange(k + 1, to as int));
        assert(row.take(k - from) =~= chars@.subrange(from as int, k as int));
    }
    if k2 != to {
        return Err(Cause::Fields);
    }
    let (a, b) = trim(chars, from, k);
    let (c, d) = trim(chars, k + 1, to);
    match parse_number(chars, a, b) {
        Some(id) => Ok(crate::record::Record { id, value: text_of(chars, c, d) }),
        None => Err(Cause::Id),
    }
}

/// Read a table of records: one header line, which is skipped, and then one
/// row for each record, with the record's identifier and its value. The
/// value is kept as it is written, without the white space around it.
///
/// The table cannot be read where one of its rows cannot. The error then
/// names the first such row.
pub fn load_csv(text: &str) -> (r: Result<Vec<crate::record::Record<String>>, CsvError>)
    ensures
        match r {
            Ok(records) => {
                &&& records.len() == rows(text@).len()
                &&& forall|i: int|
                    0 <= i < records.len() ==> row_record(#[trigger] rows(text@)[i]) == Ok::<
                        (nat, Seq<char>),
                        Cause,
                    >(record_view(records[i]))
            },
            Err(e) => {
                &&& 2 <= e.line < rows(text@).len() + 2
                &&& row_record(rows(text@)[e.line - 2]) == Err::<(nat, Seq<char>), Cause>(e.cause)
                &&& forall|j: int|
                    0 <= j < e.line - 2 ==> row_record(#[trigger] rows(text@)[j]) is Ok
            },
        },
{
    let chars = chars_of(text);
    let ranges = line_ranges(&chars);
    let ghost all = rows(text@);
    let mut records: Vec<crate::record::Record<String>> = Vec::new();
    if ranges.len() == 0 {
        return Ok(records);
    }
    let mut i: usize = 1;
    while i < ranges.len()
        invariant
            1 <= i <= ranges.len(),
            ranges.len() <= chars.len(),
            chars@ == text@,
            all == rows(text@),
            parts(chars@, ranges@) == lines(chars@),
            forall|k: int|
                0 <= k < ranges.len() ==> (#[trigger] ranges[k]).0 <= ranges[k].1 <= chars.len(),
            records.len() == i - 1,
            forall|k: int|
                0 <= k < records.len() ==> row_record(#[trigger] all[k]) == Ok::<
                    (nat, Seq<char>),
                    Cause,
                >(record_view(records[k])),
        decreases ranges.len() - i,
    {
        let (from, to) = ranges[i];
        match parse_row(&chars, from, to) {
            Ok(record) => {
                records.push(record);
            },
            Err(cause) => {
                return Err(CsvError { line: i + 1, cause });
            },
        }
        i = i + 1;
    }
    Ok(records)
}

/// The decimal digit that stands for `d`.
pub open spec fn digit(d: nat) -> char {
    if d == 0 {
        '0'
    } else if d == 1 {
        '1'
    } else if d == 2 {
        '2'
    } else if d == 3 {
        '3'
    } else if d == 4 {
        '4'
    } else if d == 5 {
        '5'
    } else if d == 6 {
        '6'
    } else if d == 7 {
        '7'
    } else if d == 8 {
        '8'
    } else {
        '9'
    }
}

/// The decimal numeral of `n`, without sign or leading zeros.
pub open spec fn decimal(n: nat) -> Seq<char>
    decreases n,
{
    if n < 10 {
        seq![digit(n)]
    } else {
        decimal(n / 10).push(digit(n % 10))
    }
}

/// The numeral of one digit.
fn digit_str(d: usize) -> (s: &'static str)
    requires
        d < 10,
    ensures
        s@ == seq![digit(d as nat)],
{
    proof {
        reveal_strlit("0");
        reveal_strlit("1");
        reveal_strlit("2");
        reveal_strlit("3");
        reveal_strlit("4");
        reveal_strlit("5");
        reveal_strlit("6");
        reveal_strlit("7");
        reveal_strlit("8");
        reveal_strlit("9");
    }
    let s = if d == 0 {
        "0"
    } else if d == 1 {
        "1"
    } else if d == 2 {
        "2"
    } else if d == 3 {
        "3"
    } else if d == 4 {
        "4"
    } else if d == 5 {
        "5"
    } else if d == 6 {
        "6"
    } else if d == 7 {
        "7"
    } else if d == 8 {
        "8"
    } else {
        "9"
    };
    s
}

/// The decimal numeral of `n`.
pub fn decimal_string(n: usize) -> (s: String)
    ensures
        s@ == decimal(n as nat),
    decreases n,
{
    if n < 10 {
        String::from_str(digit_str(n))
    } else {
        let mut s = decimal_string(n / 10);
        s.append(digit_str(n % 10));
        s
    }
}

} // verus!
