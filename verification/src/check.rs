//! Validation of a candidate board, given as ASCII text, against a header.

use vstd::prelude::*;

use crate::visibility::{collect_col, collect_row, col_seq, col_seq_rev, header_of, row_seq, row_seq_rev, visible};

pub use crate::visibility::count_viewed;

verus! {

/// A kind of [`BoardError`].
#[derive(Debug)]
pub enum BoardErrorKind {
    /// The number is invalid: not decimal digits, or outside `1..=size`.
    InvalidNumber,
    /// A row does not hold exactly `size` numbers.
    ColumnCount { expected: u8, given: u8 },
    /// The board does not hold exactly `size` rows.
    RowCount { expected: u8, given: u8 },
    /// A character that is not a digit, a space or a line feed.
    UnexpectedCharacter(u8),
    /// Wrong view count looking down a column.
    TopToBottom { expected: u8, given: u8 },
    /// Wrong view count looking up a column.
    BottomToTop { expected: u8, given: u8 },
    /// Wrong view count looking along a row from the left.
    LeftToRight { expected: u8, given: u8 },
    /// Wrong view count looking along a row from the right.
    RightToLeft { expected: u8, given: u8 },
    /// The same height twice on a row or column.
    Doubles,
}

/// An error which might occur when checking a board.
#[derive(Debug)]
pub struct BoardError {
    /// The kind of the error.
    pub kind: BoardErrorKind,
    /// The byte spans of the offending input.
    pub spans: Vec<Span>,
}

/// A byte range of the board text.
#[derive(Debug, Clone, Copy, PartialEq, Eq, Structural)]
pub struct Span {
    /// Offset of the first byte.
    pub start: usize,
    /// Offset one past the last byte.
    pub end: usize,
}

/// A parsed board cell: its height and where it was written.
#[derive(Debug, Clone, Copy, PartialEq, Eq, Structural)]
pub struct BoardCell {
    /// The height of the cell.
    pub value: u8,
    /// Where the number stands in the input.
    pub span: Span,
}

/// Value of the decimal digits `s[i..]` appended to the value `acc`, or
/// `None` if a non-digit appears or the value leaves `u8`.
pub open spec fn parse_digits(s: Seq<u8>, i: int, acc: int) -> Option<u8>
    decreases s.len() - i when 0 <= i <= s.len()
{
    if i >= s.len() {
        Some(acc as u8)
    } else if !(48 <= s[i] <= 57) {
        None
    } else if acc * 10 + (s[i] - 48) > 255 {
        None
    } else {
        parse_digits(s, i + 1, acc * 10 + (s[i] - 48))
    }
}

/// Value of a run of decimal digits, if it fits a `u8`.
pub open spec fn spec_parse(s: Seq<u8>) -> Option<u8> {
    parse_digits(s, 0, 0)
}

/// Parses a run of bytes as a decimal number.
///
/// Returns `None` when a byte is not a digit or the value does not fit in
/// eight bits; an empty run parses as `0`.
pub fn parse(number: &[u8]) -> (r: Option<u8>)
    ensures
        r == spec_parse(number@),
{
    let mut result: u8 = 0;
    let n = number.len();
    let mut i: usize = 0;
    while i < n
        invariant
            0 <= i <= n,
            n == number@.len(),
            spec_parse(number@) == parse_digits(number@, i as int, result as int),
        decreases n - i,
    {
        let b = number[i];
        if b < 48 || b > 57 {
            return None;
        }
        let d = b - 48;
        if result > 25 || (result == 25 && d > 5) {
            return None;
        }
        result = result * 10 + d;
        i = i + 1;
    }
    Some(result)
}

} // verus!

verus! {

/// State of the board-text scanner between two bytes.
pub ghost struct ScanState {
    /// Cells parsed so far.
    pub cells: Seq<BoardCell>,
    /// Whether a number is currently being read.
    pub in_number: bool,
    /// Where the current number began.
    pub n_start: int,
    /// Where the current row began.
    pub l_start: int,
    /// Numbers completed on the current row.
    pub numbers_on_line: int,
    /// Rows completed.
    pub lines: int,
}

/// Outcome of scanning a prefix of the board text.
pub ghost enum ScanOutcome {
    /// Still scanning.
    Going(ScanState),
    /// A diagnostic was raised; later bytes change nothing.
    Failed(BoardErrorKind, Seq<Span>),
}

/// The scanner before the first byte.
pub open spec fn scan_init() -> ScanState {
    ScanState {
        cells: Seq::empty(),
        in_number: false,
        n_start: 0,
        l_start: 0,
        numbers_on_line: 0,
        lines: 0,
    }
}

/// Closes the number `s[st.n_start .. i]`: it must be a decimal value in
/// `1..=size`, and then becomes one more cell of the current row.
pub open spec fn finalize_token(st: ScanState, s: Seq<u8>, i: int, size: u8) -> ScanOutcome {
    let sp = Span { start: st.n_start as usize, end: i as usize };
    match spec_parse(s.subrange(st.n_start, i)) {
        Option::None => ScanOutcome::Failed(BoardErrorKind::InvalidNumber, seq![sp]),
        Option::Some(v) => if v == 0 || v > size {
            ScanOutcome::Failed(BoardErrorKind::InvalidNumber, seq![sp])
        } else {
            ScanOutcome::Going(
                ScanState {
                    cells: st.cells.push(BoardCell { value: v, span: sp }),
                    in_number: false,
                    numbers_on_line: st.numbers_on_line + 1,
                    ..st
                },
            )
        },
    }
}

/// Handles byte `s[i]` outside a number: blank, row end, or the first digit
/// of the next number.
pub open spec fn scan_sep(st: ScanState, s: Seq<u8>, i: int, size: u8) -> ScanOutcome {
    let b = s[i];
    if b == 32 {
        ScanOutcome::Going(st)
    } else if b == 10 {
        if st.numbers_on_line != size {
            ScanOutcome::Failed(
                BoardErrorKind::ColumnCount { expected: size, given: st.numbers_on_line as u8 },
                seq![(Span { start: st.l_start as usize, end: i as usize })],
            )
        } else {
            ScanOutcome::Going(
                ScanState { numbers_on_line: 0, lines: st.lines + 1, l_start: i + 1, ..st },
            )
        }
    } else if 48 <= b <= 57 {
        ScanOutcome::Going(ScanState { in_number: true, n_start: i, ..st })
    } else {
        ScanOutcome::Failed(
            BoardErrorKind::UnexpectedCharacter(b),
            seq![(Span { start: i as usize, end: (i + 1) as usize })],
        )
    }
}

/// Scans byte `s[i]`.
pub open spec fn scan_step(o: ScanOutcome, s: Seq<u8>, i: int, size: u8) -> ScanOutcome {
    match o {
        ScanOutcome::Failed(k, sp) => ScanOutcome::Failed(k, sp),
        ScanOutcome::Going(st) => {
            if st.in_number {
                if 48 <= s[i] <= 57 {
                    ScanOutcome::Going(st)
                } else {
                    match finalize_token(st, s, i, size) {
                        ScanOutcome::Failed(k, sp) => ScanOutcome::Failed(k, sp),
                        ScanOutcome::Going(st2) => scan_sep(st2, s, i, size),
                    }
                }
            } else {
                scan_sep(st, s, i, size)
            }
        },
    }
}

/// Scans the first `i` bytes of the board text.
pub open spec fn scan_run(s: Seq<u8>, i: int, size: u8) -> ScanOutcome
    decreases i,
{
    if i <= 0 {
        ScanOutcome::Going(scan_init())
    } else {
        scan_step(scan_run(s, i - 1, size), s, i - 1, size)
    }
}

/// Asks for exactly `size` completed rows.
pub open spec fn scan_check_rows(st: ScanState, size: u8) -> ScanOutcome {
    if st.lines != size {
        ScanOutcome::Failed(
            BoardErrorKind::RowCount { expected: size, given: st.lines as u8 },
            seq![(Span { start: 0, end: 0 })],
        )
    } else {
        ScanOutcome::Going(st)
    }
}

/// The complete scan of a board text: every byte, then the final number (a
/// last row without a line feed still counts), then the row count.
pub open spec fn scan_result(s: Seq<u8>, size: u8) -> ScanOutcome {
    match scan_run(s, s.len() as int, size) {
        ScanOutcome::Failed(k, sp) => ScanOutcome::Failed(k, sp),
        ScanOutcome::Going(st) => {
            let o2 = if st.in_number {
                finalize_token(st, s, s.len() as int, size)
            } else {
                ScanOutcome::Going(st)
            };
            match o2 {
                ScanOutcome::Failed(k, sp) => ScanOutcome::Failed(k, sp),
                ScanOutcome::Going(st2) => {
                    if st2.numbers_on_line != 0 {
                        if st2.numbers_on_line != size {
                            ScanOutcome::Failed(
                                BoardErrorKind::ColumnCount {
                                    expected: size,
                                    given: st2.numbers_on_line as u8,
                                },
                                seq![
                                    (Span { start: st2.l_start as usize, end: s.len() as usize }),
                                ],
                            )
                        } else {
                            scan_check_rows(
                                ScanState { numbers_on_line: 0, lines: st2.lines + 1, ..st2 },
                                size,
                            )
                        }
                    } else {
                        scan_check_rows(st2, size)
                    }
                },
            }
        },
    }
}

/// A failed scan stays failed whatever comes later.
pub proof fn lemma_scan_failed_stable(s: Seq<u8>, i: int, j: int, size: u8)
    requires
        0 <= i <= j,
        scan_run(s, i, size) is Failed,
    ensures
        scan_run(s, j, size) == scan_run(s, i, size),
    decreases j - i,
{
    if i < j {
        lemma_scan_failed_stable(s, i, j - 1, size);
    }
}

} // verus!

verus! {

/// Parses the ASCII board text into cells.
///
/// Rows are separated by line feeds; within a row, cells are blank-separated
/// decimal numbers in `1..=size`.  Every row must hold exactly `size`
/// numbers and the text exactly `size` rows, where a final row lacking its
/// line feed still counts.  Diagnostics carry byte spans of the offending
/// input.
#[verifier::loop_isolation(false)]
#[verifier::rlimit(60)]
pub fn parse_board(board: &[u8], size: u8) -> (r: Result<Vec<BoardCell>, BoardError>)
    ensures
        match r {
            Ok(cells) => {
                &&& scan_result(board@, size) matches ScanOutcome::Going(st) && cells@ == st.cells
                &&& cells@.len() == (size as int) * (size as int)
                &&& forall|k: int|
                    0 <= k < cells@.len() ==> 1 <= (#[trigger] cells@[k]).value <= size
                &&& forall|k: int|
                    0 <= k < cells@.len() ==> (#[trigger] cells@[k]).span.start
                        <= cells@[k].span.end <= board@.len()
            },
            Err(e) => scan_result(board@, size) matches ScanOutcome::Failed(k, sp) && e.kind == k
                && e.spans@ == sp,
        },
{
    let n = board.len();
    let mut cells: Vec<BoardCell> = Vec::new();
    let mut in_number = false;
    let mut n_start: usize = 0;
    let mut l_start: usize = 0;
    let mut numbers_on_line: usize = 0;
    let mut lines: usize = 0;
    let mut i: usize = 0;
    while i < n
        invariant
            0 <= i <= n,
            n == board@.len(),
            scan_run(board@, i as int, size) == ScanOutcome::Going(
                ScanState {
                    cells: cells@,
                    in_number,
                    n_start: n_start as int,
                    l_start: l_start as int,
                    numbers_on_line: numbers_on_line as int,
                    lines: lines as int,
                },
            ),
            in_number ==> n_start < i,
            l_start <= i,
            lines + numbers_on_line <= i,
            in_number ==> lines + numbers_on_line < i,
            cells@.len() == (lines as int) * (size as int) + numbers_on_line,
            forall|k: int| 0 <= k < cells@.len() ==> 1 <= (#[trigger] cells@[k]).value <= size,
            forall|k: int|
                0 <= k < cells@.len() ==> (#[trigger] cells@[k]).span.start <= cells@[k].span.end
                    <= i,
        decreases n - i,
    {
        let ghost st0 = ScanState {
            cells: cells@,
            in_number,
            n_start: n_start as int,
            l_start: l_start as int,
            numbers_on_line: numbers_on_line as int,
            lines: lines as int,
        };
        let b = board[i];
        if in_number {
            if b >= 48 && b <= 57 {
                // the number grows
            } else {
                let tok = vstd::slice::slice_subrange(board, n_start, i);
                let parsed = parse(tok);
                let bad = match parsed {
                    Option::None => true,
                    Option::Some(v) => v == 0 || v > size,
                };
                if bad {
                    proof {
                        lemma_scan_failed_stable(board@, i + 1, n as int, size);
                    }
                    return Err(
                        BoardError {
                            kind: BoardErrorKind::InvalidNumber,
                            spans: vec![(Span { start: n_start, end: i })],
                        },
                    );
                }
                let v = parsed.unwrap();
                cells.push(BoardCell { value: v, span: Span { start: n_start, end: i } });
                numbers_on_line = numbers_on_line + 1;
                in_number = false;
            }
        }
        if !in_number {
            if b == 32 {
                // blank
            } else if b == 10 {
                if numbers_on_line != size as usize {
                    proof {
                        lemma_scan_failed_stable(board@, i + 1, n as int, size);
                    }
                    return Err(
                        BoardError {
                            kind: BoardErrorKind::ColumnCount {
                                expected: size,
                                given: #[verifier::truncate] (numbers_on_line as u8),
                            },
                            spans: vec![(Span { start: l_start, end: i })],
                        },
                    );
                }
                proof {
                    assert((lines + 1) * (size as int) == (lines as int) * (size as int) + (
                    size as int)) by (nonlinear_arith);
                }
                lines = lines + 1;
                numbers_on_line = 0;
                l_start = i + 1;
            } else if b >= 48 && b <= 57 {
                n_start = i;
                in_number = true;
            } else {
                proof {
                    lemma_scan_failed_stable(board@, i + 1, n as int, size);
                }
                return Err(
                    BoardError {
                        kind: BoardErrorKind::UnexpectedCharacter(b),
                        spans: vec![(Span { start: i, end: i + 1 })],
                    },
                );
            }
        }
        i = i + 1;
        proof {
            assert(scan_run(board@, i as int, size) == scan_step(
                ScanOutcome::Going(st0),
                board@,
                i - 1,
                size,
            ));
        }
    }

    if in_number {
        let tok = vstd::slice::slice_subrange(board, n_start, n);
        let parsed = parse(tok);
        let bad = match parsed {
            Option::None => true,
            Option::Some(v) => v == 0 || v > size,
        };
        if bad {
            return Err(
                BoardError {
                    kind: BoardErrorKind::InvalidNumber,
                    spans: vec![(Span { start: n_start, end: n })],
                },
            );
        }
        let v = parsed.unwrap();
        cells.push(BoardCell { value: v, span: Span { start: n_start, end: n } });
        numbers_on_line = numbers_on_line + 1;
        in_number = false;
    }
    if numbers_on_line != 0 {
        if numbers_on_line != size as usize {
            return Err(
                BoardError {
                    kind: BoardErrorKind::ColumnCount {
                        expected: size,
                        given: #[verifier::truncate] (numbers_on_line as u8),
                    },
                    spans: vec![(Span { start: l_start, end: n })],
                },
            );
        }
        proof {
            assert((lines + 1) * (size as int) == (lines as int) * (size as int) + (
            size as int)) by (nonlinear_arith);
        }
        lines = lines + 1;
        numbers_on_line = 0;
    }
    if lines != size as usize {
        return Err(
            BoardError {
                kind: BoardErrorKind::RowCount {
                    expected: size,
                    given: #[verifier::truncate] (lines as u8),
                },
                spans: vec![(Span { start: 0, end: 0 })],
            },
        );
    }
    proof {
        let s2 = board@;
        let stf = ScanState {
            cells: cells@,
            in_number,
            n_start: n_start as int,
            l_start: l_start as int,
            numbers_on_line: numbers_on_line as int,
            lines: lines as int,
        };
        assert(scan_result(s2, size) == ScanOutcome::Going(stf));
        assert((size as int) * (size as int) == (lines as int) * (size as int));
    }
    Ok(cells)
}

} // verus!

verus! {

/// The heights of a sequence of parsed cells.
pub open spec fn cell_values(cells: Seq<BoardCell>) -> Seq<u8> {
    cells.map_values(|c: BoardCell| c.value)
}

/// No height appears twice on any row.
pub open spec fn rows_distinct(b: Seq<u8>, n: nat) -> bool {
    forall|x1: int, x2: int, y: int|
        #![trigger b[x1 + y * n], b[x2 + y * n]]
        0 <= x1 < x2 < n && 0 <= y < n ==> b[x1 + y * n] != b[x2 + y * n]
}

/// No height appears twice on any column.
pub open spec fn cols_distinct(b: Seq<u8>, n: nat) -> bool {
    forall|x: int, y1: int, y2: int|
        #![trigger b[x + y1 * n], b[x + y2 * n]]
        0 <= x < n && 0 <= y1 < y2 < n ==> b[x + y1 * n] != b[x + y2 * n]
}

/// The four bands of the derived header of `vals` agree with `h` for all
/// lines below `i`.
pub open spec fn bands_match_below(vals: Seq<u8>, h: Seq<u8>, n: nat, i: int) -> bool {
    &&& forall|m: int| 0 <= m < i ==> #[trigger] h[m] == header_of(vals, n)[m]
    &&& forall|m: int| 0 <= m < i ==> #[trigger] h[n + m] == header_of(vals, n)[n + m]
    &&& forall|m: int| 0 <= m < i ==> #[trigger] h[2 * n + m] == header_of(vals, n)[2 * n + m]
    &&& forall|m: int| 0 <= m < i ==> #[trigger] h[3 * n + m] == header_of(vals, n)[3 * n + m]
}

/// No duplicate test strictly before the pair `(i, j)` of line `k` in the
/// scan's order (rows and columns checked together, line by line, the row
/// pair before the column pair) finds anything.
pub open spec fn no_dup_before(vals: Seq<u8>, n: nat, k: int, i: int, j: int) -> bool {
    &&& forall|k2: int, i2: int, j2: int|
        #![trigger vals[i2 + k2 * n], vals[j2 + k2 * n]]
        0 <= k2 < n && 0 <= i2 < j2 < n && (k2 < k || (k2 == k && (i2 < i || (i2 == i && j2
            < j)))) ==> vals[i2 + k2 * n] != vals[j2 + k2 * n]
    &&& forall|k2: int, i2: int, j2: int|
        #![trigger vals[k2 + i2 * n], vals[k2 + j2 * n]]
        0 <= k2 < n && 0 <= i2 < j2 < n && (k2 < k || (k2 == k && (i2 < i || (i2 == i && j2
            < j)))) ==> vals[k2 + i2 * n] != vals[k2 + j2 * n]
}

/// Checks whether the ASCII board `board` is a solution of `header`.
///
/// Succeeds iff the text parses as a `size`x`size` board of heights in
/// `1..=size`, no row or column repeats a height, and the view counts of the
/// board equal the header on all four edges.
#[verifier::loop_isolation(false)]
#[verifier::rlimit(100)]
pub fn check(header: &[u8], size: usize, board: &[u8]) -> (r: Result<(), BoardError>)
    requires
        size <= 255,
        header@.len() == 4 * size,
    ensures
        match r {
            Ok(()) => scan_result(board@, size as u8) matches ScanOutcome::Going(st)
                && rows_distinct(cell_values(st.cells), size as nat) && cols_distinct(
                cell_values(st.cells),
                size as nat,
            ) && header_of(cell_values(st.cells), size as nat) == header@,
            Err(e) => match scan_result(board@, size as u8) {
                ScanOutcome::Failed(k, sp) => e.kind == k && e.spans@ == sp,
                ScanOutcome::Going(st) => match e.kind {
                    BoardErrorKind::Doubles => exists|k: int, i: int, j: int|
                        #![trigger cell_values(st.cells)[i + k * (size as nat)], cell_values(st.cells)[j + k * (size as nat)]]
                        {
                            let vals = cell_values(st.cells);
                            let nn = size as nat;
                            &&& 0 <= k < nn
                            &&& 0 <= i < j < nn
                            &&& no_dup_before(vals, nn, k, i, j)
                            &&& ((vals[i + k * nn] == vals[j + k * nn] && e.spans@ == seq![
                                st.cells[i + k * nn].span,
                                st.cells[j + k * nn].span,
                            ]) || (vals[i + k * nn] != vals[j + k * nn] && vals[k + i * nn]
                                == vals[k + j * nn] && e.spans@ == seq![
                                st.cells[k + i * nn].span,
                                st.cells[k + j * nn].span,
                            ]))
                        },
                    BoardErrorKind::TopToBottom { expected, given } => {
                        let vals = cell_values(st.cells);
                        let nn = size as nat;
                        &&& rows_distinct(vals, nn)
                        &&& cols_distinct(vals, nn)
                        &&& exists|i: int|
                            #![trigger col_seq(vals, nn, i)]
                            {
                                &&& 0 <= i < nn
                                &&& expected == header@[i]
                                &&& given as nat == visible(col_seq(vals, nn, i))
                                &&& expected != given
                                &&& bands_match_below(vals, header@, nn, i)
                                &&& e.spans@.len() == nn
                                &&& forall|q: int|
                                    0 <= q < nn ==> (#[trigger] e.spans@[q]) == st.cells[q * nn
                                        + i].span
                            }
                    },
                    BoardErrorKind::BottomToTop { expected, given } => {
                        let vals = cell_values(st.cells);
                        let nn = size as nat;
                        &&& rows_distinct(vals, nn)
                        &&& cols_distinct(vals, nn)
                        &&& exists|i: int|
                            #![trigger col_seq_rev(vals, nn, i)]
                            {
                                &&& 0 <= i < nn
                                &&& expected == header@[nn + i]
                                &&& given as nat == visible(col_seq_rev(vals, nn, i))
                                &&& expected != given
                                &&& bands_match_below(vals, header@, nn, i)
                                &&& header@[i] == visible(col_seq(vals, nn, i)) as u8
                                &&& e.spans@.len() == nn
                                &&& forall|q: int|
                                    0 <= q < nn ==> (#[trigger] e.spans@[q]) == st.cells[q * nn
                                        + i].span
                            }
                    },
                    BoardErrorKind::LeftToRight { expected, given } => {
                        let vals = cell_values(st.cells);
                        let nn = size as nat;
                        &&& rows_distinct(vals, nn)
                        &&& cols_distinct(vals, nn)
                        &&& exists|i: int|
                            #![trigger row_seq(vals, nn, i)]
                            {
                                &&& 0 <= i < nn
                                &&& expected == header@[2 * nn + i]
                                &&& given as nat == visible(row_seq(vals, nn, i))
                                &&& expected != given
                                &&& bands_match_below(vals, header@, nn, i)
                                &&& header@[i] == visible(col_seq(vals, nn, i)) as u8
                                &&& header@[nn + i] == visible(col_seq_rev(vals, nn, i)) as u8
                                &&& e.spans@ == seq![
                                    st.cells[i * nn].span,
                                    st.cells[i * nn + nn - 1].span,
                                ]
                            }
                    },
                    BoardErrorKind::RightToLeft { expected, given } => {
                        let vals = cell_values(st.cells);
                        let nn = size as nat;
                        &&& rows_distinct(vals, nn)
                        &&& cols_distinct(vals, nn)
                        &&& exists|i: int|
                            #![trigger row_seq_rev(vals, nn, i)]
                            {
                                &&& 0 <= i < nn
                                &&& expected == header@[3 * nn + i]
                                &&& given as nat == visible(row_seq_rev(vals, nn, i))
                                &&& expected != given
                                &&& bands_match_below(vals, header@, nn, i)
                                &&& header@[i] == visible(col_seq(vals, nn, i)) as u8
                                &&& header@[nn + i] == visible(col_seq_rev(vals, nn, i)) as u8
                                &&& header@[2 * nn + i] == visible(row_seq(vals, nn, i)) as u8
                                &&& e.spans@ == seq![
                                    st.cells[i * nn].span,
                                    st.cells[i * nn + nn - 1].span,
                                ]
                            }
                    },
                    _ => false,
                },
            },
        },
{
    let cells = match parse_board(board, size as u8) {
        Ok(c) => c,
        Err(e) => {
            return Err(e);
        },
    };
    let n = size;
    let ghost nn = size as nat;

    let mut vals: Vec<u8> = Vec::new();
    let mut t: usize = 0;
    while t < cells.len()
        invariant
            0 <= t <= cells@.len(),
            vals@.len() == t,
            forall|k: int| 0 <= k < t ==> vals@[k] == (#[trigger] cells@[k]).value,
        decreases cells@.len() - t,
    {
        vals.push(cells[t].value);
        t = t + 1;
    }
    proof {
        assert(vals@ =~= cell_values(cells@));
        assert(vals@.len() == nn * nn);
    }

    let mut k: usize = 0;
    while k < n
        invariant
            0 <= k <= n,
            vals@.len() == nn * nn,
            vals@ == cell_values(cells@),
            cells@.len() == nn * nn,
            forall|x1: int, x2: int, y: int|
                #![trigger vals@[x1 + y * nn], vals@[x2 + y * nn]]
                0 <= x1 < x2 < nn && 0 <= y < k ==> vals@[x1 + y * nn] != vals@[x2 + y * nn],
            forall|x: int, y1: int, y2: int|
                #![trigger vals@[x + y1 * nn], vals@[x + y2 * nn]]
                0 <= x < k && 0 <= y1 < y2 < nn ==> vals@[x + y1 * nn] != vals@[x + y2 * nn],
        decreases n - k,
    {
        let mut i: usize = 0;
        while i < n
            invariant
                0 <= i <= n,
                0 <= k < n,
                vals@.len() == nn * nn,
                vals@ == cell_values(cells@),
                cells@.len() == nn * nn,
                forall|x1: int, x2: int, y: int|
                    #![trigger vals@[x1 + y * nn], vals@[x2 + y * nn]]
                    0 <= x1 < x2 < nn && 0 <= y < k ==> vals@[x1 + y * nn] != vals@[x2 + y * nn],
                forall|x: int, y1: int, y2: int|
                    #![trigger vals@[x + y1 * nn], vals@[x + y2 * nn]]
                    0 <= x < k && 0 <= y1 < y2 < nn ==> vals@[x + y1 * nn] != vals@[x + y2 * nn],
                forall|x1: int, x2: int|
                    #![trigger vals@[x1 + k * nn], vals@[x2 + k * nn]]
                    0 <= x1 < i && x1 < x2 < nn ==> vals@[x1 + k * nn] != vals@[x2 + k * nn],
                forall|y1: int, y2: int|
                    #![trigger vals@[k + y1 * nn], vals@[k + y2 * nn]]
                    0 <= y1 < i && y1 < y2 < nn ==> vals@[k + y1 * nn] != vals@[k + y2 * nn],
            decreases n - i,
        {
            let mut j: usize = i + 1;
            while j < n
                invariant
                    i < j <= n,
                    0 <= i < n,
                    0 <= k < n,
                    vals@.len() == nn * nn,
                    vals@ == cell_values(cells@),
                    cells@.len() == nn * nn,
                    forall|x2: int|
                        i < x2 < j ==> vals@[i + k * nn] != #[trigger] vals@[x2 + k * nn],
                    forall|y2: int|
                        i < y2 < j ==> vals@[k + i * nn] != #[trigger] vals@[k + y2 * nn],
                decreases n - j,
            {
                proof {
                    crate::visibility::lemma_index_bound(nn, k as int, i as int);
                    crate::visibility::lemma_index_bound(nn, k as int, j as int);
                    crate::visibility::lemma_index_bound(nn, i as int, k as int);
                    crate::visibility::lemma_index_bound(nn, j as int, k as int);
                }
                if vals[k * n + i] == vals[k * n + j] {
                    proof {
                        assert(vals@[i as int + (k as int) * nn] == vals@[j as int + (k as int)
                            * nn]);
                        assert(!rows_distinct(vals@, nn));
                    }
                    return Err(
                        BoardError {
                            kind: BoardErrorKind::Doubles,
                            spans: vec![cells[k * n + i].span, cells[k * n + j].span],
                        },
                    );
                }
                if vals[i * n + k] == vals[j * n + k] {
                    proof {
                        assert(vals@[k as int + (i as int) * nn] == vals@[k as int + (j as int)
                            * nn]);
                        assert(!cols_distinct(vals@, nn));
                    }
                    return Err(
                        BoardError {
                            kind: BoardErrorKind::Doubles,
                            spans: vec![cells[i * n + k].span, cells[j * n + k].span],
                        },
                    );
                }
                j = j + 1;
            }
            i = i + 1;
        }
        k = k + 1;
    }

    let mut i: usize = 0;
    while i < n
        invariant
            0 <= i <= n,
            vals@.len() == nn * nn,
            vals@ == cell_values(cells@),
            cells@.len() == nn * nn,
            forall|k2: int| 0 <= k2 < cells@.len() ==> (#[trigger] cells@[k2]).value <= size as u8,
            rows_distinct(vals@, nn),
            cols_distinct(vals@, nn),
            header@.len() == 4 * nn,
            forall|m: int| 0 <= m < i ==> #[trigger] header@[m] == header_of(vals@, nn)[m],
            forall|m: int| 0 <= m < i ==> #[trigger] header@[nn + m] == header_of(vals@, nn)[nn
                + m],
            forall|m: int| 0 <= m < i ==> #[trigger] header@[2 * nn + m] == header_of(vals@, nn)[2
                * nn + m],
            forall|m: int| 0 <= m < i ==> #[trigger] header@[3 * nn + m] == header_of(vals@, nn)[3
                * nn + m],
        decreases n - i,
    {
        let line = collect_col(vals.as_slice(), n, i, false);
        proof {
            assert forall|q: int| 0 <= q < line@.len() implies line@[q] <= size as u8 by {
                crate::visibility::lemma_index_bound(nn, q, i as int);
            }
        }
        let from_top = count_viewed(line.as_slice(), size as u8);
        if from_top != header[i] {
            let spans = collect_col_spans(&cells, n, i);
            return Err(
                BoardError {
                    kind: BoardErrorKind::TopToBottom { expected: header[i], given: from_top },
                    spans,
                },
            );
        }

        let line = collect_col(vals.as_slice(), n, i, true);
        proof {
            assert forall|q: int| 0 <= q < line@.len() implies line@[q] <= size as u8 by {
                crate::visibility::lemma_index_bound(nn, nn - 1 - q, i as int);
            }
        }
        let from_bottom = count_viewed(line.as_slice(), size as u8);
        if from_bottom != header[n + i] {
            let spans = collect_col_spans(&cells, n, i);
            return Err(
                BoardError {
                    kind: BoardErrorKind::BottomToTop {
                        expected: header[n + i],
                        given: from_bottom,
                    },
                    spans,
                },
            );
        }

        let line = collect_row(vals.as_slice(), n, i, false);
        proof {
            assert forall|q: int| 0 <= q < line@.len() implies line@[q] <= size as u8 by {
                crate::visibility::lemma_index_bound(nn, i as int, q);
            }
        }
        let from_left = count_viewed(line.as_slice(), size as u8);
        if from_left != header[2 * n + i] {
            proof {
                crate::visibility::lemma_index_bound(nn, i as int, 0);
                crate::visibility::lemma_index_bound(nn, i as int, nn as int - 1);
            }
            return Err(
                BoardError {
                    kind: BoardErrorKind::LeftToRight {
                        expected: header[2 * n + i],
                        given: from_left,
                    },
                    spans: vec![cells[i * n].span, cells[i * n + n - 1].span],
                },
            );
        }

        let line = collect_row(vals.as_slice(), n, i, true);
        proof {
            assert forall|q: int| 0 <= q < line@.len() implies line@[q] <= size as u8 by {
                crate::visibility::lemma_index_bound(nn, i as int, nn - 1 - q);
            }
        }
        let from_right = count_viewed(line.as_slice(), size as u8);
        if from_right != header[3 * n + i] {
            proof {
                crate::visibility::lemma_index_bound(nn, i as int, 0);
                crate::visibility::lemma_index_bound(nn, i as int, nn as int - 1);
            }
            return Err(
                BoardError {
                    kind: BoardErrorKind::RightToLeft {
                        expected: header[3 * n + i],
                        given: from_right,
                    },
                    spans: vec![cells[i * n].span, cells[i * n + n - 1].span],
                },
            );
        }
        i = i + 1;
    }
    proof {
        assert forall|m: int| 0 <= m < 4 * nn implies header@[m] == header_of(vals@, nn)[m] by {
            if m < nn {
                assert(header@[m] == header_of(vals@, nn)[m]);
            } else if m < 2 * nn {
                let m2 = m - nn;
                assert(header@[nn + m2] == header_of(vals@, nn)[nn + m2]);
            } else if m < 3 * nn {
                let m2 = m - 2 * nn;
                assert(header@[2 * nn + m2] == header_of(vals@, nn)[2 * nn + m2]);
            } else {
                let m2 = m - 3 * nn;
                assert(header@[3 * nn + m2] == header_of(vals@, nn)[3 * nn + m2]);
            }
        }
        assert(header@ =~= header_of(vals@, nn));
    }
    Ok(())
}

/// The spans of the cells of column `x`, top to bottom.
fn collect_col_spans(cells: &Vec<BoardCell>, n: usize, x: usize) -> (r: Vec<Span>)
    requires
        cells@.len() == n * n,
        x < n,
    ensures
        r@.len() == n,
        forall|q: int| 0 <= q < n ==> (#[trigger] r@[q]) == cells@[q * n + x].span,
{
    let total = cells.len();
    proof {
        assert(total == n * n);
    }
    let mut r: Vec<Span> = Vec::new();
    let mut y: usize = 0;
    while y < n
        invariant
            0 <= y <= n,
            cells@.len() == n * n,
            n * n <= usize::MAX,
            x < n,
            r@.len() == y,
            forall|q: int| 0 <= q < y ==> (#[trigger] r@[q]) == cells@[q * n + x].span,
        decreases n - y,
    {
        proof {
            crate::visibility::lemma_index_bound(n as nat, y as int, x as int);
        }
        r.push(cells[y * n + x].span);
        y = y + 1;
    }
    r
}

} // verus!
