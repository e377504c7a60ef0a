//! Columns of numbers with an operator under each: the sum over the
//! columns of what each operator makes of its numbers, the numbers being
//! read either along the lines or down the character columns.
use vstd::prelude::*;
use vstd::string::StringExecFns;
use vstd::string::StringSliceAdditionalSpecFns;
use crate::notation::{piece_text, shown};
use crate::text::{
    decimal_text, is_digit, is_digit_byte, is_space, is_space_byte, message_with_number, parse_i32,
};
use crate::words::{reads_i32, word_spans, words};

verus! {

/// The byte `+`.
pub const PLUS: u8 = 43;

/// The byte `*`.
pub const TIMES: u8 = 42;

/// Adds two numbers; `None` where the sum does not fit.
pub fn add_checked(a: i64, b: i64) -> (r: Option<i64>)
    ensures
        match r {
            Some(v) => v == a + b,
            None => a + b < -0x8000_0000_0000_0000 || a + b > 0x7FFF_FFFF_FFFF_FFFF,
        },
{
    let wide: i128 = a as i128 + b as i128;
    if wide < -0x8000_0000_0000_0000 || wide > 0x7FFF_FFFF_FFFF_FFFF {
        None
    } else {
        Some(wide as i64)
    }
}

/// Multiplies two numbers; `None` where the product does not fit.
pub fn mul_checked(a: i64, b: i64) -> (r: Option<i64>)
    ensures
        match r {
            Some(v) => v == a * b,
            None => a * b < -0x8000_0000_0000_0000 || a * b > 0x7FFF_FFFF_FFFF_FFFF,
        },
{
    proof {
        assert(-0x8000_0000_0000_0000 * 0x8000_0000_0000_0000 <= a * b <= 0x8000_0000_0000_0000
            * 0x8000_0000_0000_0000) by (nonlinear_arith)
            requires
                -0x8000_0000_0000_0000 <= a <= 0x7FFF_FFFF_FFFF_FFFF,
                -0x8000_0000_0000_0000 <= b <= 0x7FFF_FFFF_FFFF_FFFF,
        ;
    }
    let wide: i128 = (a as i128) * (b as i128);
    if wide < -0x8000_0000_0000_0000 || wide > 0x7FFF_FFFF_FFFF_FFFF {
        None
    } else {
        Some(wide as i64)
    }
}

/// The message for too few lines.
pub fn too_few_lines(count: usize) -> (msg: String)
    ensures
        msg@ == "Not enough lines: need at least 3, got "@ + decimal_text(count as nat),
{
    let msg = message_with_number("Not enough lines: need at least 3, got ", count as u64, "");
    proof {
        reveal_strlit("");
        assert(msg@ =~= "Not enough lines: need at least 3, got "@ + decimal_text(count as nat));
    }
    msg
}

/// The message for an operator that is neither `+` nor `*`.
pub fn invalid_operator(s: &[u8], at: usize) -> (msg: String)
    requires
        at < s.len(),
    ensures
        msg@ == "Invalid operator: "@ + shown(s@, at as int, at + 1),
{
    let mut msg = String::from_str("Invalid operator: ");
    let shown = piece_text(s, at, at + 1);
    msg.append(shown.as_str());
    msg
}

/// The bytes of line `i`.
pub open spec fn line_of(input: Seq<String>, i: int) -> Seq<u8> {
    vstd::utf8::encode_utf8(input[i]@)
}

/// The numbers as integers.
pub open spec fn as_ints(v: Seq<i32>) -> Seq<int> {
    Seq::new(v.len(), |i: int| v[i] as int)
}

/// The numbers that the words of a line read as; nothing where a word is
/// no number of 32 bits.
pub open spec fn numbers_view(line: Seq<u8>) -> Option<Seq<int>> {
    let ws = words(line, 0, line.len() as int);
    if forall|i: int| 0 <= i < ws.len() ==> reads_i32(line, #[trigger] ws[i]) is Some {
        Some(Seq::new(ws.len(), |i: int| reads_i32(line, ws[i])->0))
    } else {
        None
    }
}

/// The first byte of each word of a line.
pub open spec fn operator_bytes(line: Seq<u8>) -> Seq<u8> {
    let ws = words(line, 0, line.len() as int);
    Seq::new(ws.len(), |i: int| line[ws[i].0])
}

/// The number fits 64 bits.
pub open spec fn in_i64(v: int) -> bool {
    -0x8000_0000_0000_0000 <= v <= 0x7FFF_FFFF_FFFF_FFFF
}

/// What the first `k` numbers of column `c` make, multiplied from the
/// top down where `op` is `*`, added else.
pub open spec fn column_value(rows: Seq<Seq<int>>, c: int, op: u8, k: int) -> int
    decreases k,
{
    if k <= 1 {
        rows[0][c]
    } else if op == TIMES {
        column_value(rows, c, op, k - 1) * rows[k - 1][c]
    } else {
        column_value(rows, c, op, k - 1) + rows[k - 1][c]
    }
}

/// Column `c` can be worked without leaving 64 bits at any row.
pub open spec fn column_fits(rows: Seq<Seq<int>>, c: int, op: u8) -> bool {
    forall|k: int| 1 <= k <= rows.len() ==> in_i64(#[trigger] column_value(rows, c, op, k))
}

/// The sum of what the first `c` columns make.
pub open spec fn columns_total(rows: Seq<Seq<int>>, ops: Seq<u8>, c: int) -> int
    decreases c,
{
    if c <= 0 {
        0
    } else {
        columns_total(rows, ops, c - 1) + column_value(rows, c - 1, ops[c - 1], rows.len() as int)
    }
}

/// The numbers of all the lines but the last; nothing where one of them
/// holds a word that is no number.
pub open spec fn data_rows(input: Seq<String>) -> Option<Seq<Seq<int>>> {
    if forall|i: int| 0 <= i < input.len() - 1 ==> numbers_view(#[trigger] line_of(input, i)) is Some {
        Some(Seq::new((input.len() - 1) as nat, |i: int| numbers_view(line_of(input, i))->0))
    } else {
        None
    }
}

/// The rows have as many numbers each as the first, with a `+` or `*` for
/// each column, and neither a column nor the sum over the columns leaves
/// 64 bits on the way.
pub open spec fn sheet_ok(rows: Seq<Seq<int>>, ops: Seq<u8>) -> bool {
    &&& forall|r: int| 0 <= r < rows.len() ==> (#[trigger] rows[r]).len() == rows[0].len()
    &&& ops.len() == rows[0].len()
    &&& forall|c: int| 0 <= c < ops.len() ==> (#[trigger] ops[c]) == PLUS || ops[c] == TIMES
    &&& forall|c: int| 0 <= c < ops.len() ==> #[trigger] column_fits(rows, c, ops[c])
    &&& forall|c: int| 0 <= c <= ops.len() ==> in_i64(#[trigger] columns_total(rows, ops, c))
}

/// The answer where the numbers are read along the lines: the sum over
/// the columns of what each operator makes of its column. Nothing where
/// there are fewer than three lines or the sheet is not in order.
pub open spec fn worked_along(input: Seq<String>) -> Option<int> {
    if input.len() < 3 {
        None
    } else {
        match data_rows(input) {
            None => None,
            Some(rows) => {
                let ops = operator_bytes(line_of(input, input.len() - 1));
                if sheet_ok(rows, ops) {
                    Some(columns_total(rows, ops, ops.len() as int))
                } else {
                    None
                }
            },
        }
    }
}

/// The place among the words of a line, from word `i` on, of the first
/// that is no number of 32 bits; the number of words where each is one.
pub open spec fn first_unread(line: Seq<u8>, i: int) -> int
    decreases words(line, 0, line.len() as int).len() - i,
{
    let ws = words(line, 0, line.len() as int);
    if i < 0 || i >= ws.len() {
        ws.len() as int
    } else if reads_i32(line, ws[i]) is None {
        i
    } else {
        first_unread(line, i + 1)
    }
}

/// A word that is no number, before which every word from `i` on is one,
/// is the first such word.
pub proof fn lemma_first_unread(line: Seq<u8>, i: int, k: int)
    requires
        0 <= i <= k < words(line, 0, line.len() as int).len(),
        forall|j: int| i <= j < k ==> reads_i32(line, #[trigger] words(line, 0, line.len() as int)[j]) is Some,
        reads_i32(line, words(line, 0, line.len() as int)[k]) is None,
    ensures
        first_unread(line, i) == k,
    decreases k - i,
{
    if i < k {
        assert(reads_i32(line, words(line, 0, line.len() as int)[i]) is Some);
        lemma_first_unread(line, i + 1, k);
    }
}

/// What is said of a line with a word that is no number: of the first
/// such word.
pub open spec fn number_said(line: Seq<u8>) -> Seq<char> {
    let ws = words(line, 0, line.len() as int);
    let k = first_unread(line, 0);
    "Invalid number: "@ + shown(line, ws[k].0, ws[k].1)
}

/// The first line from line `i` on, the last line left out, that holds a
/// word that is no number.
pub open spec fn first_unread_line(input: Seq<String>, i: int) -> int
    decreases input.len() - i,
{
    if i < 0 || i >= input.len() - 1 {
        input.len() - 1
    } else if numbers_view(line_of(input, i)) is None {
        i
    } else {
        first_unread_line(input, i + 1)
    }
}

/// A line that does not read, before which every line from `i` on does,
/// is the first such line.
pub proof fn lemma_first_unread_line(input: Seq<String>, i: int, k: int)
    requires
        0 <= i <= k < input.len() - 1,
        forall|j: int| i <= j < k ==> numbers_view(#[trigger] line_of(input, j)) is Some,
        numbers_view(line_of(input, k)) is None,
    ensures
        first_unread_line(input, i) == k,
    decreases k - i,
{
    if i < k {
        assert(numbers_view(line_of(input, i)) is Some);
        lemma_first_unread_line(input, i + 1, k);
    }
}

/// The first row from row `r` on that has another number of entries than
/// the first row; the number of rows where there is none.
pub open spec fn first_uneven(rows: Seq<Seq<int>>, r: int) -> int
    decreases rows.len() - r,
{
    if r < 0 || r >= rows.len() {
        rows.len() as int
    } else if rows[r].len() != rows[0].len() {
        r
    } else {
        first_uneven(rows, r + 1)
    }
}

/// Where the rows from `r` up to `k` are as long as the first, the first
/// uneven row from `r` on is the first from `k` on.
pub proof fn lemma_first_uneven(rows: Seq<Seq<int>>, r: int, k: int)
    requires
        0 <= r <= k <= rows.len(),
        forall|j: int| r <= j < k ==> (#[trigger] rows[j]).len() == rows[0].len(),
    ensures
        first_uneven(rows, r) == first_uneven(rows, k),
    decreases k - r,
{
    if r < k {
        assert(rows[r].len() == rows[0].len());
        lemma_first_uneven(rows, r + 1, k);
    }
}

/// Column `c` cannot be worked: its operator is neither `+` nor `*`, or
/// the column or the sum up to it leaves 64 bits.
pub open spec fn column_bad(rows: Seq<Seq<int>>, ops: Seq<u8>, c: int) -> bool {
    !(ops[c] == PLUS || ops[c] == TIMES) || !column_fits(rows, c, ops[c]) || !in_i64(columns_total(rows, ops, c + 1))
}

/// The first column from column `c` on that cannot be worked; the number
/// of columns where there is none.
pub open spec fn first_bad_column(rows: Seq<Seq<int>>, ops: Seq<u8>, c: int) -> int
    decreases ops.len() - c,
{
    if c < 0 || c >= ops.len() {
        ops.len() as int
    } else if column_bad(rows, ops, c) {
        c
    } else {
        first_bad_column(rows, ops, c + 1)
    }
}

/// A column that cannot be worked, before which every column from `c` on
/// can, is the first such column.
pub proof fn lemma_first_bad_column(rows: Seq<Seq<int>>, ops: Seq<u8>, c: int, k: int)
    requires
        0 <= c <= k < ops.len(),
        forall|j: int| c <= j < k ==> !#[trigger] column_bad(rows, ops, j),
        column_bad(rows, ops, k),
    ensures
        first_bad_column(rows, ops, c) == k,
    decreases k - c,
{
    if c < k {
        assert(!column_bad(rows, ops, c));
        lemma_first_bad_column(rows, ops, c + 1, k);
    }
}

/// What is said of a sheet whose lines read, rows of numbers over a line
/// of operators, where it is not in order.
pub open spec fn sheet_said(rows: Seq<Seq<int>>, line: Seq<u8>) -> Seq<char> {
    let ops = operator_bytes(line);
    let places = words(line, 0, line.len() as int);
    let uneven = first_uneven(rows, 0);
    let bad = first_bad_column(rows, ops, 0);
    if uneven < rows.len() {
        "Inconsistent number of columns: expected "@ + decimal_text(rows[0].len()) + ", got "@ + decimal_text(
            rows[uneven].len(),
        )
    } else if ops.len() != rows[0].len() {
        "Number of operators ("@ + decimal_text(ops.len()) + ") doesn't match number of columns ("@ + decimal_text(
            rows[0].len(),
        ) + ")"@
    } else if !(ops[bad] == PLUS || ops[bad] == TIMES) {
        "Invalid operator: "@ + shown(line, places[bad].0, places[bad].0 + 1)
    } else {
        "Result does not fit 64 bits"@
    }
}

/// What is said where the numbers are read along the lines and there is
/// no answer: the message of the first fault met.
pub open spec fn along_said(input: Seq<String>) -> Seq<char> {
    if input.len() < 3 {
        "Not enough lines: need at least 3, got "@ + decimal_text(input.len())
    } else {
        match data_rows(input) {
            None => number_said(line_of(input, first_unread_line(input, 0))),
            Some(rows) => sheet_said(rows, line_of(input, input.len() - 1)),
        }
    }
}

/// Reads the numbers of one line, separated by white space.
pub fn read_numbers(line: &str) -> (res: Result<Vec<i32>, String>)
    ensures
        match res {
            Ok(v) => numbers_view(line.spec_bytes()) == Some(as_ints(v@)),
            Err(e) => numbers_view(line.spec_bytes()) is None && e@ == number_said(line.spec_bytes()),
        },
{
    let s = line.as_bytes();
    let spans = word_spans(s, 0, s.len());
    let ghost ws = words(s@, 0, s.len() as int);
    let mut numbers: Vec<i32> = Vec::new();
    let mut k: usize = 0;
    while k < spans.len()
        invariant
            k <= spans.len(),
            s@ == line.spec_bytes(),
            ws == words(s@, 0, s.len() as int),
            spans.len() == ws.len(),
            forall|i: int|
                0 <= i < spans.len() ==> (#[trigger] spans[i]).0 == ws[i].0 && spans[i].1 == ws[i].1 && spans[i].0
                    < spans[i].1 <= s.len(),
            numbers.len() == k,
            forall|i: int| 0 <= i < k ==> reads_i32(s@, ws[i]) == Some(#[trigger] numbers[i] as int),
        decreases spans.len() - k,
    {
        let (a, b) = spans[k];
        match parse_i32(s, a, b) {
            Some(v) => {
                numbers.push(v);
            },
            None => {
                proof {
                    assert(reads_i32(s@, ws[k as int]) is None);
                    assert forall|j: int| 0 <= j < k implies reads_i32(s@, #[trigger] ws[j]) is Some by {
                        assert(reads_i32(s@, ws[j]) == Some(numbers[j] as int));
                    }
                    lemma_first_unread(s@, 0, k as int);
                }
                let mut msg = String::from_str("Invalid number: ");
                let shown = piece_text(s, a, b);
                msg.append(shown.as_str());
                return Err(msg);
            },
        }
        k = k + 1;
    }
    proof {
        assert forall|i: int| 0 <= i < ws.len() implies reads_i32(s@, #[trigger] ws[i]) is Some by {
            assert(reads_i32(s@, ws[i]) == Some(numbers[i] as int));
        }
        assert(numbers_view(s@)->0 =~= as_ints(numbers@));
    }
    Ok(numbers)
}

/// Reads the operators of the last line: the first byte of each word,
/// with its place.
pub fn read_operators(line: &str) -> (ops: Vec<(usize, u8)>)
    ensures
        ops.len() == operator_bytes(line.spec_bytes()).len(),
        forall|i: int| 0 <= i < ops.len() ==> (#[trigger] ops[i]).1 == operator_bytes(line.spec_bytes())[i],
        forall|i: int| 0 <= i < ops.len() ==> (#[trigger] ops[i]).0 < line.spec_bytes().len(),
        forall|i: int|
            0 <= i < ops.len() ==> (#[trigger] ops[i]).0 == words(
                line.spec_bytes(),
                0,
                line.spec_bytes().len() as int,
            )[i].0,
{
    let s = line.as_bytes();
    let spans = word_spans(s, 0, s.len());
    let ghost ws = words(s@, 0, s.len() as int);
    let mut ops: Vec<(usize, u8)> = Vec::new();
    let mut k: usize = 0;
    while k < spans.len()
        invariant
            k <= spans.len(),
            s@ == line.spec_bytes(),
            ws == words(s@, 0, s.len() as int),
            spans.len() == ws.len(),
            forall|i: int|
                0 <= i < spans.len() ==> (#[trigger] spans[i]).0 == ws[i].0 && spans[i].1 == ws[i].1 && spans[i].0
                    < spans[i].1 <= s.len(),
            ops.len() == k,
            forall|i: int| 0 <= i < k ==> (#[trigger] ops[i]).0 == ws[i].0 && ops[i].1 == s@[ws[i].0] && ops[i].0 < s.len(),
        decreases spans.len() - k,
    {
        let (a, _b) = spans[k];
        ops.push((a, s[a]));
        k = k + 1;
    }
    ops
}

/// Works the problems whose numbers stand along the lines: column `c` of
/// the data lines, joined by operator `c` of the last line. Returns the
/// sum of the results; fails where there are fewer than three lines,
/// where the sheet is not in order, and where a result leaves 64 bits.
pub fn part1(input: &[String]) -> (res: Result<i64, String>)
    ensures
        match res {
            Ok(v) => worked_along(input@) == Some(v as int),
            Err(e) => worked_along(input@) is None && e@ == along_said(input@),
        },
{
    if input.len() < 3 {
        return Err(too_few_lines(input.len()));
    }
    let last: usize = input.len() - 1;
    let mut data: Vec<Vec<i32>> = Vec::new();
    let mut i: usize = 0;
    while i < last
        invariant
            i <= last < input.len(),
            last == input.len() - 1,
            input.len() >= 3,
            data.len() == i,
            forall|q: int| 0 <= q < i ==> numbers_view(line_of(input@, q)) == Some(as_ints(#[trigger] data[q]@)),
        decreases last - i,
    {
        match read_numbers(input[i].as_str()) {
            Ok(numbers) => {
                data.push(numbers);
            },
            Err(e) => {
                proof {
                    assert(numbers_view(line_of(input@, i as int)) is None);
                    assert forall|j: int| 0 <= j < i implies numbers_view(#[trigger] line_of(input@, j)) is Some by {
                        assert(numbers_view(line_of(input@, j)) == Some(as_ints(data[j]@)));
                    }
                    lemma_first_unread_line(input@, 0, i as int);
                }
                return Err(e);
            },
        }
        i = i + 1;
    }
    let ghost rows = data_rows(input@)->0;
    let ghost ops = operator_bytes(line_of(input@, last as int));
    let ghost said = along_said(input@);
    proof {
        assert(data_rows(input@) is Some ==> said == sheet_said(data_rows(input@)->0, line_of(input@, last as int)));
        assert forall|q: int| 0 <= q < input.len() - 1 implies numbers_view(#[trigger] line_of(input@, q)) is Some by {
            assert(numbers_view(line_of(input@, q)) == Some(as_ints(data[q]@)));
        }
        assert(data_rows(input@) is Some);
        assert(rows.len() == last);
        assert forall|q: int| 0 <= q < last implies #[trigger] rows[q] == as_ints(data[q]@) by {
            assert(numbers_view(line_of(input@, q)) == Some(as_ints(data[q]@)));
        }
    }
    let m: usize = data[0].len();
    let mut r: usize = 0;
    while r < data.len()
        invariant
            r <= data.len(),
            data.len() == last,
            last >= 2,
            rows.len() == last,
            m == rows[0].len(),
            forall|q: int| 0 <= q < last ==> #[trigger] rows[q] == as_ints(data[q]@),
            forall|q: int| 0 <= q < r ==> (#[trigger] data[q]).len() == m,
            said == sheet_said(rows, line_of(input@, last as int)),
            said == along_said(input@),
            worked_along(input@) == (if sheet_ok(rows, ops) {
                Some(columns_total(rows, ops, ops.len() as int))
            } else {
                None
            }),
        decreases data.len() - r,
    {
        if data[r].len() != m {
            let mut msg = message_with_number("Inconsistent number of columns: expected ", m as u64, ", got ");
            let tail = message_with_number("", data[r].len() as u64, "");
            msg.append(tail.as_str());
            proof {
                assert(rows[r as int].len() != rows[0].len());
                assert forall|j: int| 0 <= j < r implies (#[trigger] rows[j]).len() == rows[0].len() by {
                    assert(data[j].len() == m);
                }
                lemma_first_uneven(rows, 0, r as int);
                reveal_strlit("");
                assert(msg@ =~= "Inconsistent number of columns: expected "@ + decimal_text(m as nat) + ", got "@
                    + decimal_text(rows[r as int].len()));
            }
            return Err(msg);
        }
        r = r + 1;
    }
    proof {
        assert forall|j: int| 0 <= j < last implies (#[trigger] rows[j]).len() == rows[0].len() by {
            assert(data[j].len() == m);
        }
        lemma_first_uneven(rows, 0, last as int);
    }
    let operator_line = input[last].as_str();
    let operators = read_operators(operator_line);
    if operators.len() != m {
        let mut msg = message_with_number("Number of operators (", operators.len() as u64, ") doesn't match number of columns (");
        let tail = message_with_number("", m as u64, ")");
        msg.append(tail.as_str());
        proof {
            assert(msg@ =~= "Number of operators ("@ + decimal_text(ops.len()) + ") doesn't match number of columns ("@
                + decimal_text(m as nat) + ")"@) by {
                reveal_strlit("");
            }
        }
        return Err(msg);
    }
    let mut total: i64 = 0;
    let mut col_idx: usize = 0;
    while col_idx < m
        invariant
            col_idx <= m,
            operators.len() == m,
            ops.len() == m,
            data.len() == last,
            rows.len() == last,
            last >= 2,
            m == rows[0].len(),
            ops == operator_bytes(operator_line.spec_bytes()),
            forall|q: int| 0 <= q < last ==> #[trigger] rows[q] == as_ints(data[q]@),
            forall|q: int| 0 <= q < data.len() ==> (#[trigger] data[q]).len() == m,
            forall|q: int| 0 <= q < m ==> (#[trigger] operators[q]).1 == ops[q],
            forall|q: int| 0 <= q < operators.len() ==> (#[trigger] operators[q]).0 < operator_line.spec_bytes().len(),
            forall|c: int| 0 <= c < col_idx ==> (#[trigger] ops[c]) == PLUS || ops[c] == TIMES,
            forall|c: int| 0 <= c < col_idx ==> #[trigger] column_fits(rows, c, ops[c]),
            forall|c: int| 0 <= c <= col_idx ==> in_i64(#[trigger] columns_total(rows, ops, c)),
            forall|c: int| 0 <= c < col_idx ==> !#[trigger] column_bad(rows, ops, c),
            forall|q: int|
                0 <= q < m ==> (#[trigger] operators[q]).0 == words(
                    operator_line.spec_bytes(),
                    0,
                    operator_line.spec_bytes().len() as int,
                )[q].0,
            operator_line.spec_bytes() == line_of(input@, last as int),
            first_uneven(rows, 0) == rows.len(),
            said == sheet_said(rows, line_of(input@, last as int)),
            said == along_said(input@),
            total == columns_total(rows, ops, col_idx as int),
            worked_along(input@) == (if sheet_ok(rows, ops) {
                Some(columns_total(rows, ops, ops.len() as int))
            } else {
                None
            }),
        decreases m - col_idx,
    {
        let (place, operator) = operators[col_idx];
        let mut result: i64 = data[0][col_idx] as i64;
        let mut row: usize = 1;
        proof {
            assert(rows[0][col_idx as int] == data[0][col_idx as int]);
        }
        while row < data.len()
            invariant
                1 <= row <= data.len(),
                col_idx < m,
                data.len() == last,
                rows.len() == last,
                operator == ops[col_idx as int],
                forall|q: int| 0 <= q < last ==> #[trigger] rows[q] == as_ints(data[q]@),
                forall|q: int| 0 <= q < data.len() ==> (#[trigger] data[q]).len() == m,
                place < operator_line.spec_bytes().len(),
                result == column_value(rows, col_idx as int, operator, row as int),
                forall|k: int| 1 <= k <= row ==> in_i64(#[trigger] column_value(rows, col_idx as int, operator, k)),
                row > 1 ==> operator == PLUS || operator == TIMES,
                ops.len() == m,
                m == rows[0].len(),
                ops == operator_bytes(line_of(input@, last as int)),
                forall|c: int| 0 <= c < col_idx ==> !#[trigger] column_bad(rows, ops, c),
                place == words(operator_line.spec_bytes(), 0, operator_line.spec_bytes().len() as int)[col_idx as int].0,
                operator_line.spec_bytes() == line_of(input@, last as int),
                first_uneven(rows, 0) == rows.len(),
                said == sheet_said(rows, line_of(input@, last as int)),
                said == along_said(input@),
                worked_along(input@) == (if sheet_ok(rows, ops) {
                    Some(columns_total(rows, ops, ops.len() as int))
                } else {
                    None
                }),
            decreases data.len() - row,
        {
            let value: i64 = data[row][col_idx] as i64;
            proof {
                assert(rows[row as int][col_idx as int] == data[row as int][col_idx as int]);
            }
            let next: Option<i64> = if operator == PLUS {
                add_checked(result, value)
            } else if operator == TIMES {
                mul_checked(result, value)
            } else {
                proof {
                    assert(!(ops[col_idx as int] == PLUS || ops[col_idx as int] == TIMES));
                    assert(column_bad(rows, ops, col_idx as int));
                    lemma_first_bad_column(rows, ops, 0, col_idx as int);
                }
                return Err(invalid_operator(operator_line.as_bytes(), place));
            };
            match next {
                Some(v) => {
                    result = v;
                },
                None => {
                    proof {
                        assert(!in_i64(column_value(rows, col_idx as int, operator, row as int + 1)));
                        assert(!column_fits(rows, col_idx as int, ops[col_idx as int]));
                        assert(column_bad(rows, ops, col_idx as int));
                        lemma_first_bad_column(rows, ops, 0, col_idx as int);
                    }
                    return Err(String::from_str("Result does not fit 64 bits"));
                },
            }
            row = row + 1;
        }
        proof {
            assert(column_fits(rows, col_idx as int, ops[col_idx as int]));
        }
        match add_checked(total, result) {
            Some(v) => {
                total = v;
            },
            None => {
                proof {
                    assert(!in_i64(columns_total(rows, ops, col_idx as int + 1)));
                    assert(column_bad(rows, ops, col_idx as int));
                    lemma_first_bad_column(rows, ops, 0, col_idx as int);
                }
                return Err(String::from_str("Result does not fit 64 bits"));
            },
        }
        proof {
            assert(!column_bad(rows, ops, col_idx as int));
        }
        col_idx = col_idx + 1;
    }
    proof {
        assert(sheet_ok(rows, ops));
    }
    Ok(total)
}

/// The byte of a line at a column; a space beyond the end of the line.
pub open spec fn cell(line: Seq<u8>, col: int) -> u8 {
    if 0 <= col < line.len() {
        line[col]
    } else {
        32
    }
}

/// The number that the digits of one character column spell, read down
/// the first `rows` lines; zero where there is no digit.
pub open spec fn digits_down(input: Seq<String>, rows: int, col: int) -> int
    decreases rows,
{
    if rows <= 0 {
        0
    } else if is_digit(cell(line_of(input, rows - 1), col)) {
        digits_down(input, rows - 1, col) * 10 + (cell(line_of(input, rows - 1), col) - 48)
    } else {
        digits_down(input, rows - 1, col)
    }
}

/// The character column holds a digit in one of the first `rows` lines.
pub open spec fn any_digit_down(input: Seq<String>, rows: int, col: int) -> bool
    decreases rows,
{
    rows > 0 && (is_digit(cell(line_of(input, rows - 1), col)) || any_digit_down(input, rows - 1, col))
}

/// The number of a column grows with the lines read.
pub proof fn lemma_digits_down_grow(input: Seq<String>, a: int, b: int, col: int)
    requires
        a <= b,
    ensures
        0 <= digits_down(input, a, col) <= digits_down(input, b, col),
    decreases b,
{
    if b > 0 {
        if a < b {
            lemma_digits_down_grow(input, a, b - 1, col);
        } else {
            lemma_digits_down_grow(input, a - 1, b - 1, col);
        }
    }
}

/// A column without a digit spells zero.
pub proof fn lemma_no_digit(input: Seq<String>, rows: int, col: int)
    requires
        !any_digit_down(input, rows, col),
    ensures
        digits_down(input, rows, col) == 0,
    decreases rows,
{
    if rows > 0 {
        lemma_no_digit(input, rows - 1, col);
    }
}

/// The number of lines that hold the numbers, all but the last.
pub open spec fn data_count(input: Seq<String>) -> int {
    input.len() - 1
}

/// The last line, which holds the operators.
pub open spec fn operator_line(input: Seq<String>) -> Seq<u8> {
    line_of(input, input.len() - 1)
}

/// The length of the longest of the first `k` lines.
pub open spec fn widest(input: Seq<String>, k: int) -> int
    decreases k,
{
    if k <= 0 {
        0
    } else if line_of(input, k - 1).len() > widest(input, k - 1) {
        line_of(input, k - 1).len() as int
    } else {
        widest(input, k - 1)
    }
}

/// The places among the first `k` of a line that hold no white space, in
/// rising order.
pub open spec fn marks(line: Seq<u8>, k: int) -> Seq<int>
    decreases k,
{
    if k <= 0 {
        Seq::empty()
    } else if !is_space(line[k - 1]) {
        marks(line, k - 1).push(k - 1)
    } else {
        marks(line, k - 1)
    }
}

/// The places of the operators: every byte of the last line that is no
/// white space is one.
pub open spec fn operator_marks(input: Seq<String>) -> Seq<int> {
    marks(operator_line(input), operator_line(input).len() as int)
}

/// Each mark is a place before `k`, and marks rise.
pub proof fn lemma_marks(line: Seq<u8>, k: int, i: int, j: int)
    requires
        0 <= k <= line.len(),
        0 <= i <= j < marks(line, k).len(),
    ensures
        0 <= marks(line, k)[i] <= marks(line, k)[j] < k,
        i < j ==> marks(line, k)[i] < marks(line, k)[j],
    decreases k,
{
    if k > 0 {
        let before = marks(line, k - 1);
        if !is_space(line[k - 1]) {
            if j < before.len() {
                lemma_marks(line, k - 1, i, j);
            } else if i < before.len() {
                lemma_marks(line, k - 1, i, i);
            }
        } else {
            lemma_marks(line, k - 1, i, j);
        }
    }
}

/// The operator of problem `p`.
pub open spec fn problem_op(input: Seq<String>, p: int) -> u8 {
    operator_line(input)[operator_marks(input)[p]]
}

/// The column after the last of problem `p`: that of the next operator,
/// or the width of the sheet for the last problem.
pub open spec fn problem_end(input: Seq<String>, p: int) -> int {
    if p + 1 < operator_marks(input).len() {
        operator_marks(input)[p + 1]
    } else {
        widest(input, input.len() as int)
    }
}

/// What `op` makes of the numbers of the columns `c..to`, taken from the
/// right: their product where `op` is `*`, their sum else.
pub open spec fn fold_cols(input: Seq<String>, op: u8, c: int, to: int) -> int
    decreases to - c,
{
    if c >= to {
        if op == TIMES {
            1
        } else {
            0
        }
    } else if !any_digit_down(input, data_count(input), c) {
        fold_cols(input, op, c + 1, to)
    } else if op == TIMES {
        fold_cols(input, op, c + 1, to) * digits_down(input, data_count(input), c)
    } else {
        fold_cols(input, op, c + 1, to) + digits_down(input, data_count(input), c)
    }
}

/// One of the columns `c..to` holds a number.
pub open spec fn any_number(input: Seq<String>, c: int, to: int) -> bool
    decreases to - c,
{
    c < to && (any_digit_down(input, data_count(input), c) || any_number(input, c + 1, to))
}

/// The number of column `c` fits 64 bits, and so does what `op` makes of
/// the numbers from there to the right.
pub open spec fn col_fits(input: Seq<String>, op: u8, c: int, to: int) -> bool {
    digits_down(input, data_count(input), c) <= 0x7FFF_FFFF_FFFF_FFFF && in_i64(fold_cols(input, op, c, to))
}

/// Problem `p` can be worked without leaving 64 bits.
pub open spec fn problem_fits(input: Seq<String>, p: int) -> bool {
    forall|c: int|
        operator_marks(input)[p] <= c < problem_end(input, p) ==> #[trigger] col_fits(
            input,
            problem_op(input, p),
            c,
            problem_end(input, p),
        )
}

/// What problem `p` adds: what its operator makes of its numbers, nothing
/// where it has none.
pub open spec fn problem_value(input: Seq<String>, p: int) -> int {
    if any_number(input, operator_marks(input)[p], problem_end(input, p)) {
        fold_cols(input, problem_op(input, p), operator_marks(input)[p], problem_end(input, p))
    } else {
        0
    }
}

/// The sum of what the first `p` problems add.
pub open spec fn problems_total(input: Seq<String>, p: int) -> int
    decreases p,
{
    if p <= 0 {
        0
    } else {
        problems_total(input, p - 1) + problem_value(input, p - 1)
    }
}

/// There is an operator, each operator is `+` or `*`, and neither a
/// problem nor the sum over the problems leaves 64 bits on the way.
pub open spec fn down_ok(input: Seq<String>) -> bool {
    &&& operator_marks(input).len() > 0
    &&& forall|p: int|
        0 <= p < operator_marks(input).len() ==> #[trigger] problem_op(input, p) == PLUS || problem_op(input, p)
            == TIMES
    &&& forall|p: int| 0 <= p < operator_marks(input).len() ==> #[trigger] problem_fits(input, p)
    &&& forall|p: int| 0 <= p <= operator_marks(input).len() ==> in_i64(#[trigger] problems_total(input, p))
}

/// The answer where the numbers are read down the character columns.
/// Nothing where there are fewer than three lines or the sheet is not in
/// order.
pub open spec fn worked_down(input: Seq<String>) -> Option<int> {
    if input.len() < 3 || !down_ok(input) {
        None
    } else {
        Some(problems_total(input, operator_marks(input).len() as int))
    }
}

/// The first problem from problem `p` on whose operator is neither `+`
/// nor `*`; the number of problems where there is none.
pub open spec fn first_bad_mark(input: Seq<String>, p: int) -> int
    decreases operator_marks(input).len() - p,
{
    if p < 0 || p >= operator_marks(input).len() {
        operator_marks(input).len() as int
    } else if !(problem_op(input, p) == PLUS || problem_op(input, p) == TIMES) {
        p
    } else {
        first_bad_mark(input, p + 1)
    }
}

/// Where the operators from problem `p` up to `k` are `+` or `*`, the
/// first other operator from `p` on is the first from `k` on.
pub proof fn lemma_first_bad_mark(input: Seq<String>, p: int, k: int)
    requires
        0 <= p <= k <= operator_marks(input).len(),
        forall|q: int| p <= q < k ==> #[trigger] problem_op(input, q) == PLUS || problem_op(input, q) == TIMES,
    ensures
        first_bad_mark(input, p) == first_bad_mark(input, k),
    decreases k - p,
{
    if p < k {
        assert(problem_op(input, p) == PLUS || problem_op(input, p) == TIMES);
        lemma_first_bad_mark(input, p + 1, k);
    }
}

/// Problem `p` cannot be worked: it or the sum up to it leaves 64 bits.
pub open spec fn problem_bad(input: Seq<String>, p: int) -> bool {
    !problem_fits(input, p) || !in_i64(problems_total(input, p + 1))
}

/// The first problem from problem `p` on that cannot be worked; the
/// number of problems where there is none.
pub open spec fn first_bad_problem(input: Seq<String>, p: int) -> int
    decreases operator_marks(input).len() - p,
{
    if p < 0 || p >= operator_marks(input).len() {
        operator_marks(input).len() as int
    } else if problem_bad(input, p) {
        p
    } else {
        first_bad_problem(input, p + 1)
    }
}

/// A problem that cannot be worked, before which every problem from `p`
/// on can, is the first such problem.
pub proof fn lemma_first_bad_problem(input: Seq<String>, p: int, k: int)
    requires
        0 <= p <= k < operator_marks(input).len(),
        forall|q: int| p <= q < k ==> !#[trigger] problem_bad(input, q),
        problem_bad(input, k),
    ensures
        first_bad_problem(input, p) == k,
    decreases k - p,
{
    if p < k {
        assert(!problem_bad(input, p));
        lemma_first_bad_problem(input, p + 1, k);
    }
}

/// What is said of a problem that leaves 64 bits, its columns `hi..to`
/// having been worked: that the number of the first column met towards
/// the left is too large, or that a result does not fit.
pub open spec fn cols_said(input: Seq<String>, op: u8, lo: int, hi: int, to: int) -> Seq<char>
    decreases hi - lo,
{
    if hi <= lo {
        "Result does not fit 64 bits"@
    } else if digits_down(input, data_count(input), hi - 1) > 0x7FFF_FFFF_FFFF_FFFF {
        "Failed to parse number: too large"@
    } else if !in_i64(fold_cols(input, op, hi - 1, to)) {
        "Result does not fit 64 bits"@
    } else {
        cols_said(input, op, lo, hi - 1, to)
    }
}

/// What is said where the numbers are read down the columns and there
/// is no answer: the message of the first fault met.
pub open spec fn down_said(input: Seq<String>) -> Seq<char> {
    let marks = operator_marks(input);
    let other = first_bad_mark(input, 0);
    let bad = first_bad_problem(input, 0);
    if input.len() < 3 {
        "Not enough lines: need at least 3, got "@ + decimal_text(input.len())
    } else if marks.len() == 0 {
        "No operators found in operator row"@
    } else if other < marks.len() {
        "Invalid operator: "@ + shown(operator_line(input), marks[other], marks[other] + 1)
    } else if !problem_fits(input, bad) {
        cols_said(input, problem_op(input, bad), marks[bad], problem_end(input, bad), problem_end(input, bad))
    } else {
        "Result does not fit 64 bits"@
    }
}

/// The byte of a line at a column; a space beyond the end of the line.
pub fn byte_at(line: &str, col: usize) -> (b: u8)
    ensures
        b == cell(line.spec_bytes(), col as int),
{
    let s = line.as_bytes();
    if col < s.len() {
        s[col]
    } else {
        32
    }
}

/// Reads the number that the digits of one character column spell, from
/// the first line down to line `rows`; `None` where the column holds no
/// digit. Fails where the number does not fit 64 bits.
pub fn column_number(input: &[String], rows: usize, col: usize) -> (res: Result<Option<i64>, String>)
    requires
        rows <= input.len(),
    ensures
        match res {
            Ok(Some(v)) => any_digit_down(input@, rows as int, col as int) && v == digits_down(
                input@,
                rows as int,
                col as int,
            ),
            Ok(None) => !any_digit_down(input@, rows as int, col as int),
            Err(e) => digits_down(input@, rows as int, col as int) > 0x7FFF_FFFF_FFFF_FFFF && e@
                == "Failed to parse number: too large"@,
        },
{
    let mut any: bool = false;
    let mut acc: i64 = 0;
    let mut row: usize = 0;
    while row < rows
        invariant
            row <= rows <= input.len(),
            acc >= 0,
            acc == digits_down(input@, row as int, col as int),
            any == any_digit_down(input@, row as int, col as int),
        decreases rows - row,
    {
        let b: u8 = byte_at(input[row].as_str(), col);
        if is_digit_byte(b) {
            let d: i64 = (b - 48) as i64;
            if acc > (0x7FFF_FFFF_FFFF_FFFF - d) / 10 {
                proof {
                    lemma_digits_down_grow(input@, row as int + 1, rows as int, col as int);
                }
                return Err(String::from_str("Failed to parse number: too large"));
            }
            acc = acc * 10 + d;
            any = true;
        }
        row = row + 1;
    }
    if any {
        Ok(Some(acc))
    } else {
        Ok(None)
    }
}

/// Finds the operators of a line: every byte that is no white space, with
/// its place.
pub fn find_operators(line: &str) -> (ops: Vec<(usize, u8)>)
    ensures
        ops.len() == marks(line.spec_bytes(), line.spec_bytes().len() as int).len(),
        forall|i: int|
            0 <= i < ops.len() ==> (#[trigger] ops[i]).0 == marks(line.spec_bytes(), line.spec_bytes().len() as int)[i]
                && ops[i].0 < line.spec_bytes().len() && ops[i].1 == line.spec_bytes()[ops[i].0 as int],
{
    let s = line.as_bytes();
    let mut ops: Vec<(usize, u8)> = Vec::new();
    let mut k: usize = 0;
    while k < s.len()
        invariant
            k <= s.len(),
            s@ == line.spec_bytes(),
            ops.len() == marks(s@, k as int).len(),
            forall|i: int|
                0 <= i < ops.len() ==> (#[trigger] ops[i]).0 == marks(s@, k as int)[i] && ops[i].0 < k && ops[i].1
                    == s@[ops[i].0 as int],
        decreases s.len() - k,
    {
        if !is_space_byte(s[k]) {
            ops.push((k, s[k]));
        }
        k = k + 1;
    }
    ops
}

/// The length of the longest line.
pub fn longest(input: &[String]) -> (width: usize)
    ensures
        width == widest(input@, input.len() as int),
        forall|q: int| 0 <= q < input.len() ==> line_of(input@, q).len() <= width,
{
    let mut max_len: usize = 0;
    let mut i: usize = 0;
    while i < input.len()
        invariant
            i <= input.len(),
            max_len == widest(input@, i as int),
            forall|q: int| 0 <= q < i ==> line_of(input@, q).len() <= max_len,
        decreases input.len() - i,
    {
        let l: usize = input[i].as_str().as_bytes().len();
        if l > max_len {
            max_len = l;
        }
        i = i + 1;
    }
    max_len
}

/// Works the problems whose numbers stand in the character columns, read
/// from the top down: each operator of the last line opens a problem,
/// which runs to the column before the next operator and is worked from
/// the right. Returns the sum of the results; fails where there are fewer
/// than three lines, where the sheet is not in order, and where a number
/// or a result leaves 64 bits.
pub fn part2(input: &[String]) -> (res: Result<i64, String>)
    ensures
        match res {
            Ok(v) => worked_down(input@) == Some(v as int),
            Err(e) => worked_down(input@) is None && e@ == down_said(input@),
        },
{
    if input.len() < 3 {
        return Err(too_few_lines(input.len()));
    }
    let last: usize = input.len() - 1;
    let max_len: usize = longest(input);
    let line = input[last].as_str();
    let operator_positions = find_operators(line);
    let ghost ms = operator_marks(input@);
    proof {
        assert(line.spec_bytes() == operator_line(input@));
    }
    if operator_positions.len() == 0 {
        return Err(String::from_str("No operators found in operator row"));
    }
    let mut k: usize = 0;
    while k < operator_positions.len()
        invariant
            k <= operator_positions.len(),
            last == input.len() - 1,
            line.spec_bytes() == operator_line(input@),
            ms == operator_marks(input@),
            operator_positions.len() == ms.len(),
            forall|q: int|
                0 <= q < operator_positions.len() ==> (#[trigger] operator_positions[q]).0 == ms[q]
                    && operator_positions[q].0 < line.spec_bytes().len() && operator_positions[q].1
                    == line.spec_bytes()[operator_positions[q].0 as int],
            forall|q: int| 0 <= q < k ==> #[trigger] problem_op(input@, q) == PLUS || problem_op(input@, q) == TIMES,
            input.len() >= 3,
            ms.len() > 0,
        decreases operator_positions.len() - k,
    {
        let (place, op) = operator_positions[k];
        if op != PLUS && op != TIMES {
            proof {
                assert(!(problem_op(input@, k as int) == PLUS || problem_op(input@, k as int) == TIMES));
                lemma_first_bad_mark(input@, 0, k as int);
            }
            return Err(invalid_operator(line.as_bytes(), place));
        }
        proof {
            assert(problem_op(input@, k as int) == op);
        }
        k = k + 1;
    }
    proof {
        lemma_first_bad_mark(input@, 0, ms.len() as int);
    }
    let mut total: i64 = 0;
    let mut problem_idx: usize = 0;
    while problem_idx < operator_positions.len()
        invariant
            problem_idx <= operator_positions.len(),
            first_bad_mark(input@, 0) == ms.len(),
            forall|q: int| 0 <= q < problem_idx ==> !#[trigger] problem_bad(input@, q),
            last == input.len() - 1,
            input.len() >= 3,
            max_len == widest(input@, input.len() as int),
            line.spec_bytes() == operator_line(input@),
            line.spec_bytes().len() <= max_len,
            ms == operator_marks(input@),
            operator_positions.len() == ms.len(),
            ms.len() > 0,
            forall|q: int|
                0 <= q < operator_positions.len() ==> (#[trigger] operator_positions[q]).0 == ms[q]
                    && operator_positions[q].0 < line.spec_bytes().len() && operator_positions[q].1
                    == line.spec_bytes()[operator_positions[q].0 as int],
            forall|q: int|
                0 <= q < ms.len() ==> #[trigger] problem_op(input@, q) == PLUS || problem_op(input@, q) == TIMES,
            forall|q: int| 0 <= q < problem_idx ==> #[trigger] problem_fits(input@, q),
            forall|q: int| 0 <= q <= problem_idx ==> in_i64(#[trigger] problems_total(input@, q)),
            total == problems_total(input@, problem_idx as int),
        decreases operator_positions.len() - problem_idx,
    {
        let (start_col, operator) = operator_positions[problem_idx];
        proof {
            if problem_idx + 1 < operator_positions.len() {
                lemma_marks(
                    operator_line(input@),
                    operator_line(input@).len() as int,
                    problem_idx as int,
                    problem_idx as int + 1,
                );
            }
            assert(problem_op(input@, problem_idx as int) == operator);
        }
        let end_col: usize = if problem_idx + 1 < operator_positions.len() {
            operator_positions[problem_idx + 1].0 - 1
        } else {
            max_len - 1
        };
        let ghost end = problem_end(input@, problem_idx as int);
        let mut any: bool = false;
        let mut result: i64 = if operator == TIMES {
            1
        } else {
            0
        };
        let mut col: usize = end_col + 1;
        while col > start_col
            invariant
                start_col <= col <= end_col + 1,
                end == end_col + 1,
                last == input.len() - 1,
                input.len() >= 3,
                operator == PLUS || operator == TIMES,
                problem_idx < ms.len(),
                ms == operator_marks(input@),
                start_col == ms[problem_idx as int],
                end == problem_end(input@, problem_idx as int),
                operator == problem_op(input@, problem_idx as int),
                result == fold_cols(input@, operator, col as int, end),
                any == any_number(input@, col as int, end),
                forall|c: int| col <= c < end ==> #[trigger] col_fits(input@, operator, c, end),
                first_bad_mark(input@, 0) == ms.len(),
                ms.len() > 0,
                forall|q: int| 0 <= q < problem_idx ==> !#[trigger] problem_bad(input@, q),
                cols_said(input@, operator, start_col as int, end, end) == cols_said(
                    input@,
                    operator,
                    start_col as int,
                    col as int,
                    end,
                ),
            decreases col,
        {
            col = col - 1;
            match column_number(input, last, col) {
                Err(e) => {
                    proof {
                        assert(!col_fits(input@, operator, col as int, end));
                        assert(!problem_fits(input@, problem_idx as int));
                        assert(problem_bad(input@, problem_idx as int));
                        lemma_first_bad_problem(input@, 0, problem_idx as int);
                    }
                    return Err(e);
                },
                Ok(None) => {},
                Ok(Some(num)) => {
                    let next: Option<i64> = if operator == TIMES {
                        mul_checked(result, num)
                    } else {
                        add_checked(result, num)
                    };
                    match next {
                        Some(v) => {
                            result = v;
                        },
                        None => {
                            proof {
                                assert(!col_fits(input@, operator, col as int, end));
                                assert(!problem_fits(input@, problem_idx as int));
                                assert(problem_bad(input@, problem_idx as int));
                                lemma_first_bad_problem(input@, 0, problem_idx as int);
                            }
                            return Err(String::from_str("Result does not fit 64 bits"));
                        },
                    }
                    any = true;
                },
            }
            proof {
                if !any_digit_down(input@, last as int, col as int) {
                    lemma_no_digit(input@, last as int, col as int);
                }
                assert(col_fits(input@, operator, col as int, end));
            }
        }
        proof {
            assert(problem_fits(input@, problem_idx as int));
            assert(problem_value(input@, problem_idx as int) == (if any {
                result as int
            } else {
                0
            }));
        }
        if any {
            match add_checked(total, result) {
                Some(v) => {
                    total = v;
                },
                None => {
                    proof {
                        assert(!in_i64(problems_total(input@, problem_idx as int + 1)));
                        assert(problem_bad(input@, problem_idx as int));
                        lemma_first_bad_problem(input@, 0, problem_idx as int);
                    }
                    return Err(String::from_str("Result does not fit 64 bits"));
                },
            }
        }
        proof {
            assert(!problem_bad(input@, problem_idx as int));
        }
        problem_idx = problem_idx + 1;
    }
    proof {
        assert(down_ok(input@));
    }
    Ok(total)
}

} // verus!
