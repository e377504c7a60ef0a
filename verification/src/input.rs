//! Reading puzzle input that has already been loaded as text: grids of
//! digits, and lists of ranges followed by lists of values.
use vstd::prelude::*;
use vstd::string::StringSliceAdditionalSpecFns;
use vstd::string::StringExecFns;
use crate::notation::{piece_text, shown};
use crate::text::{
    decimal_text, find_byte, is_digit, is_digit_byte, message_with_number, next_at, parse_i64, reads_signed,
    trim_hi, trim_lo, trim_range,
};

verus! {

/// Ranges, each with its inclusive ends, and values to look up in them.
#[derive(Debug, PartialEq)]
pub struct RangeData {
    /// The ranges, start and end inclusive.
    pub ranges: Vec<(isize, isize)>,
    /// The values.
    pub values: Vec<isize>,
}

/// The decimal digits among `line[from..to]`, as numbers, in order.
pub open spec fn digits_of(line: Seq<u8>, from: int, to: int) -> Seq<u8>
    decreases to - from,
{
    if to <= from {
        Seq::empty()
    } else if is_digit(line[to - 1]) {
        digits_of(line, from, to - 1).push((line[to - 1] - 48) as u8)
    } else {
        digits_of(line, from, to - 1)
    }
}

/// Reads the decimal digits of one line, passing over every other byte.
pub fn line_digits(s: &[u8], from: usize, to: usize) -> (row: Vec<u8>)
    requires
        from <= to <= s.len(),
    ensures
        row@ == digits_of(s@, from as int, to as int),
        forall|i: int| 0 <= i < row.len() ==> row[i] <= 9,
{
    let mut row: Vec<u8> = Vec::new();
    let mut i: usize = from;
    while i < to
        invariant
            from <= i <= to <= s.len(),
            row@ == digits_of(s@, from as int, i as int),
            forall|j: int| 0 <= j < row.len() ==> row[j] <= 9,
        decreases to - i,
    {
        let b: u8 = s[i];
        if is_digit_byte(b) {
            row.push(b - 48);
        }
        i = i + 1;
    }
    row
}

/// Where the line that starts at `i` ends: at the next line feed, or at
/// the end of the text.
pub open spec fn line_end(s: Seq<u8>, i: int) -> int
    decreases s.len() - i,
{
    if i >= s.len() || i < 0 || s[i] == 10 {
        i
    } else {
        line_end(s, i + 1)
    }
}

/// The rows of digits of the lines from place `start` on: one row per
/// line that holds a decimal digit.
pub open spec fn rows_from(s: Seq<u8>, start: int) -> Seq<Seq<u8>>
    decreases s.len() - start,
{
    if start >= s.len() || start < 0 {
        Seq::empty()
    } else {
        let end = line_end(s, start);
        let row = digits_of(s, start, end);
        let rest = if start <= end && end < s.len() {
            rows_from(s, end + 1)
        } else {
            Seq::empty()
        };
        if row.len() > 0 {
            seq![row] + rest
        } else {
            rest
        }
    }
}

/// The rows of a grid, as sequences.
pub open spec fn rows_view(grid: Seq<Vec<u8>>) -> Seq<Seq<u8>> {
    Seq::new(grid.len(), |i: int| grid[i]@)
}

/// A place with a line feed, before which there is none, is the line's end.
pub proof fn lemma_line_end(s: Seq<u8>, start: int, end: int)
    requires
        0 <= start <= end <= s.len(),
        forall|j: int| start <= j < end ==> s[j] != 10,
        end < s.len() ==> s[end] == 10,
    ensures
        line_end(s, start) == end,
    decreases end - start,
{
    if start < end {
        lemma_line_end(s, start + 1, end);
    }
}

/// Reads a grid of digits: one row per line that holds a decimal digit,
/// each row the digits of its line in order. Every other character is
/// passed over, and so are lines without digits.
pub fn parse_to_number_grid(input: &str) -> (grid: Vec<Vec<u8>>)
    ensures
        rows_view(grid@) == rows_from(input.spec_bytes(), 0),
        forall|r: int, c: int| 0 <= r < grid.len() && 0 <= c < grid[r].len() ==> (#[trigger] grid[r][c]) <= 9,
        forall|r: int| 0 <= r < grid.len() ==> (#[trigger] grid[r]).len() >= 1,
{
    let s = input.as_bytes();
    let len: usize = s.len();
    let mut grid: Vec<Vec<u8>> = Vec::new();
    let mut start: usize = 0;
    proof {
        assert(rows_view(grid@) + rows_from(s@, 0) =~= rows_from(s@, 0));
    }
    while start < len
        invariant
            start <= len,
            len == s.len(),
            rows_view(grid@) + rows_from(s@, start as int) == rows_from(s@, 0),
            forall|r: int, c: int|
                0 <= r < grid.len() && 0 <= c < grid[r].len() ==> (#[trigger] grid[r][c]) <= 9,
            forall|r: int| 0 <= r < grid.len() ==> (#[trigger] grid[r]).len() >= 1,
        decreases len - start,
    {
        let end: usize = match crate::text::find_byte(s, start, len, 10) {
            Some(i) => i,
            None => len,
        };
        proof {
            lemma_line_end(s@, start as int, end as int);
        }
        let row = line_digits(s, start, end);
        let ghost before = rows_view(grid@);
        let ghost rest = if end < len {
            rows_from(s@, end as int + 1)
        } else {
            Seq::empty()
        };
        if row.len() > 0 {
            grid.push(row);
            proof {
                assert(rows_view(grid@) =~= before + seq![row@]);
                assert(rows_view(grid@) + rest =~= before + (seq![row@] + rest));
            }
        }
        if end == len {
            start = len;
            proof {
                assert(rows_from(s@, len as int) =~= rest);
            }
        } else {
            start = end + 1;
        }
    }
    proof {
        assert(rows_view(grid@) + rows_from(s@, len as int) =~= rows_view(grid@));
    }
    grid
}


/// The first place at or after `i` where two line feeds follow each
/// other; the length of the text where there is none.
pub open spec fn next_double(s: Seq<u8>, i: int) -> int
    decreases s.len() - i,
{
    if i < 0 || i >= s.len() {
        s.len() as int
    } else if s[i] == 10 && i + 1 < s.len() && s[i + 1] == 10 {
        i
    } else {
        next_double(s, i + 1)
    }
}

/// The sections of the text from place `from` on: the pieces between
/// pairs of line feeds, each without the white space around it, those
/// left out that hold nothing else.
pub open spec fn sections_from(s: Seq<u8>, from: int) -> Seq<(int, int)>
    decreases s.len() - from,
{
    if from < 0 || from > s.len() {
        Seq::empty()
    } else {
        let end = next_double(s, from);
        let a = trim_lo(s, from, end);
        let b = trim_hi(s, a, end);
        let here = if a < b {
            seq![(a, b)]
        } else {
            Seq::empty()
        };
        if from <= end && end + 1 < s.len() {
            here + sections_from(s, end + 2)
        } else {
            here
        }
    }
}

/// What `s[from..to]` reads as, as a number of the machine's word size
/// with a sign.
pub open spec fn reads_word(s: Seq<u8>, from: int, to: int) -> Option<int> {
    reads_signed(s, from, to, isize::MIN as int, isize::MAX as int)
}

/// Where the line that starts at `from` within `s[..to]` ends, a
/// carriage return before the line feed left out, and where the next
/// line starts.
pub open spec fn line_stop(s: Seq<u8>, from: int, to: int) -> (int, int) {
    let feed = next_at(s, from, to, 10);
    let end = if from < feed < to && s[feed - 1] == 13 {
        feed - 1
    } else {
        feed
    };
    (
        end,
        if feed >= to {
            to
        } else {
            feed + 1
        },
    )
}

/// What a line reads as, as a range: a number, a `-`, and a number no
/// lower than the first; what follows a second `-` is not read.
pub open spec fn range_of(s: Seq<u8>, from: int, end: int) -> Option<(int, int)> {
    let dash = next_at(s, from, end, 45);
    match reads_word(s, from, dash) {
        None => None,
        Some(start) => if dash >= end {
            None
        } else {
            match reads_word(s, dash + 1, next_at(s, dash + 1, end, 45)) {
                None => None,
                Some(last) => if start > last {
                    None
                } else {
                    Some((start, last))
                },
            }
        },
    }
}

/// What a line reads as, as a value: a number, with white space around
/// it or none.
pub open spec fn value_of(s: Seq<u8>, from: int, end: int) -> Option<int> {
    reads_word(s, trim_lo(s, from, end), trim_hi(s, trim_lo(s, from, end), end))
}

/// A list with items put in front; nothing where there is no list.
pub open spec fn put_before<T>(acc: Seq<T>, list: Option<Seq<T>>) -> Option<Seq<T>> {
    match list {
        None => None,
        Some(rest) => Some(acc + rest),
    }
}

/// The ranges of the lines of `s[pos..to]`; nothing where a line is no
/// range.
pub open spec fn ranges_from(s: Seq<u8>, pos: int, to: int) -> Option<Seq<(int, int)>>
    decreases to - pos,
{
    if pos >= to {
        Some(Seq::empty())
    } else {
        let stop = line_stop(s, pos, to);
        match range_of(s, pos, stop.0) {
            None => None,
            Some(r) => if pos < stop.1 <= to {
                put_before(seq![r], ranges_from(s, stop.1, to))
            } else {
                None
            },
        }
    }
}

/// The values of the lines of `s[pos..to]`; nothing where a line is no
/// value.
pub open spec fn values_from(s: Seq<u8>, pos: int, to: int) -> Option<Seq<int>>
    decreases to - pos,
{
    if pos >= to {
        Some(Seq::empty())
    } else {
        let stop = line_stop(s, pos, to);
        match value_of(s, pos, stop.0) {
            None => None,
            Some(v) => if pos < stop.1 <= to {
                put_before(seq![v], values_from(s, stop.1, to))
            } else {
                None
            },
        }
    }
}

/// What a text reads as: the ranges of its first section and the values
/// of its second. Nothing where it has another number of sections than
/// two, or a line that does not read.
pub open spec fn range_data_view(s: Seq<u8>) -> Option<(Seq<(int, int)>, Seq<int>)> {
    let sections = sections_from(s, 0);
    if sections.len() != 2 {
        None
    } else {
        match ranges_from(s, sections[0].0, sections[0].1) {
            None => None,
            Some(ranges) => match values_from(s, sections[1].0, sections[1].1) {
                None => None,
                Some(values) => Some((ranges, values)),
            },
        }
    }
}

/// What is said of a line that is no range.
pub open spec fn range_said(s: Seq<u8>, from: int, end: int) -> Seq<char> {
    let dash = next_at(s, from, end, 45);
    match reads_word(s, from, dash) {
        None => "Invalid range start in "@ + shown(s, from, end),
        Some(start) => if dash >= end {
            "Missing end of range"@
        } else {
            match reads_word(s, dash + 1, next_at(s, dash + 1, end, 45)) {
                None => "Invalid range end in "@ + shown(s, from, end),
                Some(last) => "Invalid range: start > end ("@ + decimal_text(start as nat) + "- "@ + decimal_text(
                    last as nat,
                ) + ")"@,
            }
        },
    }
}

/// What is said of the lines of `s[pos..to]` where one is no range: of the
/// first such line.
pub open spec fn ranges_said(s: Seq<u8>, pos: int, to: int) -> Seq<char>
    decreases to - pos,
{
    if pos >= to {
        Seq::empty()
    } else {
        let stop = line_stop(s, pos, to);
        if range_of(s, pos, stop.0) is None {
            range_said(s, pos, stop.0)
        } else if pos < stop.1 <= to {
            ranges_said(s, stop.1, to)
        } else {
            Seq::empty()
        }
    }
}

/// What is said of the lines of `s[pos..to]` where one is no value: of the
/// first such line.
pub open spec fn values_said(s: Seq<u8>, pos: int, to: int) -> Seq<char>
    decreases to - pos,
{
    if pos >= to {
        Seq::empty()
    } else {
        let stop = line_stop(s, pos, to);
        if value_of(s, pos, stop.0) is None {
            "Invalid value "@ + shown(s, pos, stop.0)
        } else if pos < stop.1 <= to {
            values_said(s, stop.1, to)
        } else {
            Seq::empty()
        }
    }
}

/// What is said of a text that does not read: that it has not two
/// sections, or what is said of its first line that does not read.
pub open spec fn range_data_said(s: Seq<u8>) -> Seq<char> {
    let sections = sections_from(s, 0);
    if sections.len() != 2 {
        "Input must have two sections separated by empty lines"@
    } else if ranges_from(s, sections[0].0, sections[0].1) is None {
        ranges_said(s, sections[0].0, sections[0].1)
    } else {
        values_said(s, sections[1].0, sections[1].1)
    }
}

/// The ranges as pairs of integers.
pub open spec fn ranges_view(v: Seq<(isize, isize)>) -> Seq<(int, int)> {
    Seq::new(v.len(), |i: int| (v[i].0 as int, v[i].1 as int))
}

/// The values as integers.
pub open spec fn values_view(v: Seq<isize>) -> Seq<int> {
    Seq::new(v.len(), |i: int| v[i] as int)
}

/// The sections as pairs of integers.
pub open spec fn spans_view(v: Seq<(usize, usize)>) -> Seq<(int, int)> {
    Seq::new(v.len(), |i: int| (v[i].0 as int, v[i].1 as int))
}

/// Finds the end of the section that starts at `from`: the next place
/// where two line feeds follow each other, or the end of the text.
pub fn section_end(s: &[u8], from: usize) -> (end: usize)
    requires
        from <= s.len(),
    ensures
        from <= end <= s.len(),
        end < s.len() ==> end + 1 < s.len() && s[end as int] == 10 && s[end + 1] == 10,
        end == next_double(s@, from as int),
{
    let len: usize = s.len();
    let mut i: usize = from;
    while i < len
        invariant
            from <= i <= len,
            len == s.len(),
            next_double(s@, from as int) == next_double(s@, i as int),
        decreases len - i,
    {
        if s[i] == 10 && i + 1 < len && s[i + 1] == 10 {
            return i;
        }
        i = i + 1;
    }
    len
}

/// Reads a number that fits the machine word.
pub fn parse_word(s: &[u8], from: usize, to: usize) -> (r: Option<isize>)
    requires
        from <= to <= s.len(),
    ensures
        match r {
            Some(v) => reads_word(s@, from as int, to as int) == Some(v as int),
            None => reads_word(s@, from as int, to as int) is None,
        },
{
    match parse_i64(s, from, to) {
        Some(v) => {
            if v < isize::MIN as i64 || v > isize::MAX as i64 {
                None
            } else {
                Some(v as isize)
            }
        },
        None => None,
    }
}

/// Builds the message `head` followed by the piece `s[from..to]`.
pub fn message_about(head: &str, s: &[u8], from: usize, to: usize) -> (msg: String)
    requires
        from <= to <= s.len(),
    ensures
        msg@ == head@ + shown(s@, from as int, to as int),
{
    let mut msg = String::from_str(head);
    let shown = piece_text(s, from, to);
    msg.append(shown.as_str());
    msg
}

/// The end of the line that starts at `from` within `s[..to]`, without a
/// carriage return before the line feed, and the start of the next line.
pub fn line_bounds(s: &[u8], from: usize, to: usize) -> (r: (usize, usize))
    requires
        from < to <= s.len(),
    ensures
        from <= r.0 <= to,
        from < r.1 <= to,
        (r.0 as int, r.1 as int) == line_stop(s@, from as int, to as int),
{
    let feed: usize = match find_byte(s, from, to, 10) {
        Some(i) => i,
        None => to,
    };
    let end: usize = if feed > from && feed < to && s[feed - 1] == 13 {
        feed - 1
    } else {
        feed
    };
    if feed == to {
        (end, to)
    } else {
        (end, feed + 1)
    }
}

/// Reads one line as a range.
pub fn parse_range(s: &[u8], pos: usize, end: usize) -> (res: Result<(isize, isize), String>)
    requires
        pos <= end <= s.len(),
    ensures
        match res {
            Ok(r) => range_of(s@, pos as int, end as int) == Some((r.0 as int, r.1 as int)) && r.0 <= r.1,
            Err(e) => range_of(s@, pos as int, end as int) is None && e@ == range_said(s@, pos as int, end as int),
        },
{
    let dash: usize = match find_byte(s, pos, end, 45) {
        Some(i) => i,
        None => end,
    };
    let start: isize = match parse_word(s, pos, dash) {
        Some(v) => v,
        None => {
            return Err(message_about("Invalid range start in ", s, pos, end));
        },
    };
    if dash >= end {
        return Err(String::from_str("Missing end of range"));
    }
    let stop: usize = match find_byte(s, dash + 1, end, 45) {
        Some(i) => i,
        None => end,
    };
    let last: isize = match parse_word(s, dash + 1, stop) {
        Some(v) => v,
        None => {
            return Err(message_about("Invalid range end in ", s, pos, end));
        },
    };
    if start > last {
        let mut msg = message_with_number("Invalid range: start > end (", start as u64, "- ");
        let tail = message_with_number("", last as u64, ")");
        msg.append(tail.as_str());
        proof {
            reveal_strlit("");
            assert(msg@ =~= "Invalid range: start > end ("@ + decimal_text(start as nat) + "- "@ + decimal_text(
                last as nat,
            ) + ")"@);
        }
        return Err(msg);
    }
    Ok((start, last))
}

/// Reads ranges and values: two sections separated by an empty line, the
/// first with one range `start-end` per line, the second with one value
/// per line.
pub fn parse_range_data(input: &str) -> (res: Result<RangeData, String>)
    ensures
        match res {
            Ok(data) => range_data_view(input.spec_bytes()) == Some(
                (ranges_view(data.ranges@), values_view(data.values@)),
            ) && forall|i: int| 0 <= i < data.ranges.len() ==> (#[trigger] data.ranges[i]).0 <= data.ranges[i].1,
            Err(e) => range_data_view(input.spec_bytes()) is None && e@ == range_data_said(input.spec_bytes()),
        },
{
    let s = input.as_bytes();
    let len: usize = s.len();
    let mut sections: Vec<(usize, usize)> = Vec::new();
    let mut from: usize = 0;
    let mut done: bool = false;
    proof {
        assert(spans_view(sections@) + sections_from(s@, 0) =~= sections_from(s@, 0));
    }
    while !done
        invariant
            from <= len,
            len == s.len(),
            forall|i: int| 0 <= i < sections.len() ==> (#[trigger] sections[i]).0 < sections[i].1 <= len,
            !done ==> sections_from(s@, 0) == spans_view(sections@) + sections_from(s@, from as int),
            done ==> sections_from(s@, 0) == spans_view(sections@),
        decreases len - from + (if done { 0int } else { 1int }),
    {
        let end: usize = section_end(s, from);
        let (a, b) = trim_range(s, from, end);
        let ghost before = spans_view(sections@);
        let ghost rest = if end < len {
            sections_from(s@, end as int + 2)
        } else {
            Seq::empty()
        };
        if a < b {
            sections.push((a, b));
            proof {
                assert(spans_view(sections@) =~= before + seq![(a as int, b as int)]);
                assert(before + (seq![(a as int, b as int)] + rest) =~= spans_view(sections@) + rest);
            }
        } else {
            proof {
                assert(before + (Seq::<(int, int)>::empty() + rest) =~= before + rest);
            }
        }
        if end >= len {
            done = true;
            proof {
                assert(spans_view(sections@) + rest =~= spans_view(sections@));
            }
        } else {
            from = end + 2;
        }
    }
    if sections.len() != 2 {
        return Err(String::from_str("Input must have two sections separated by empty lines"));
    }
    let (ra, rb) = sections[0];
    let (va, vb) = sections[1];
    proof {
        assert(sections_from(s@, 0)[0] == (ra as int, rb as int));
        assert(sections_from(s@, 0)[1] == (va as int, vb as int));
    }
    let mut ranges: Vec<(isize, isize)> = Vec::new();
    let mut pos: usize = ra;
    proof {
        assert(ranges_view(ranges@) =~= Seq::empty());
        match ranges_from(s@, ra as int, rb as int) {
            None => {},
            Some(all) => {
                assert(ranges_view(ranges@) + all =~= all);
            },
        }
    }
    while pos < rb
        invariant
            ra <= pos <= rb,
            rb <= len,
            len == s.len(),
            s@ == input.spec_bytes(),
            forall|i: int| 0 <= i < ranges.len() ==> (#[trigger] ranges[i]).0 <= ranges[i].1,
            sections_from(s@, 0).len() == 2,
            sections_from(s@, 0)[0] == (ra as int, rb as int),
            ranges_from(s@, ra as int, rb as int) == put_before(
                ranges_view(ranges@),
                ranges_from(s@, pos as int, rb as int),
            ),
            ranges_from(s@, ra as int, rb as int) is None ==> ranges_said(s@, ra as int, rb as int) == ranges_said(
                s@,
                pos as int,
                rb as int,
            ),
        decreases rb - pos,
    {
        let (end, next) = line_bounds(s, pos, rb);
        let ghost before = ranges_view(ranges@);
        match parse_range(s, pos, end) {
            Ok(r) => {
                ranges.push(r);
                proof {
                    let item = (r.0 as int, r.1 as int);
                    assert(ranges_view(ranges@) =~= before + seq![item]);
                    match ranges_from(s@, next as int, rb as int) {
                        None => {},
                        Some(rest) => {
                            assert(before + (seq![item] + rest) =~= ranges_view(ranges@) + rest);
                        },
                    }
                }
            },
            Err(e) => {
                return Err(e);
            },
        }
        pos = next;
    }
    proof {
        assert(ranges_view(ranges@) + Seq::<(int, int)>::empty() =~= ranges_view(ranges@));
    }
    let mut values: Vec<isize> = Vec::new();
    let mut at: usize = va;
    proof {
        assert(values_view(values@) =~= Seq::empty());
        match values_from(s@, va as int, vb as int) {
            None => {},
            Some(all) => {
                assert(values_view(values@) + all =~= all);
            },
        }
    }
    while at < vb
        invariant
            va <= at <= vb,
            vb <= len,
            len == s.len(),
            s@ == input.spec_bytes(),
            sections_from(s@, 0).len() == 2,
            sections_from(s@, 0)[0] == (ra as int, rb as int),
            sections_from(s@, 0)[1] == (va as int, vb as int),
            ranges_from(s@, ra as int, rb as int) == Some(ranges_view(ranges@)),
            values_from(s@, va as int, vb as int) == put_before(
                values_view(values@),
                values_from(s@, at as int, vb as int),
            ),
            values_from(s@, va as int, vb as int) is None ==> values_said(s@, va as int, vb as int) == values_said(
                s@,
                at as int,
                vb as int,
            ),
        decreases vb - at,
    {
        let (end, next) = line_bounds(s, at, vb);
        let (a, b) = trim_range(s, at, end);
        let ghost before = values_view(values@);
        match parse_word(s, a, b) {
            Some(v) => {
                values.push(v);
                proof {
                    assert(values_view(values@) =~= before + seq![v as int]);
                    match values_from(s@, next as int, vb as int) {
                        None => {},
                        Some(rest) => {
                            assert(before + (seq![v as int] + rest) =~= values_view(values@) + rest);
                        },
                    }
                }
            },
            None => {
                return Err(message_about("Invalid value ", s, at, end));
            },
        }
        at = next;
    }
    proof {
        assert(values_view(values@) + Seq::<int>::empty() =~= values_view(values@));
    }
    Ok(RangeData { ranges, values })
}

} // verus!
