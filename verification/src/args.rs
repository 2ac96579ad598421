//! The command surface of the tool and the header text format.

use vstd::prelude::*;
use vstd::string::StringSliceAdditionalSpecFns;

verus! {

/// What the generate and solve commands print.
#[derive(Debug, Clone, Copy)]
pub enum OutputFormat {
    /// Only print the solution.
    Solution,
    /// Only print the header.
    Header,
    /// Only print the header, on one single line.
    HeaderLine,
    /// Print both the header and the solution.
    Both,
}

/// A possible command for the tool.
pub enum Command {
    /// Generate a random completed board and its header.
    Generate {
        /// The selected output formats.
        output: Vec<OutputFormat>,
        /// The seed that should be used to generate the board.
        seed: Option<u64>,
        /// The size of the board.
        size: u8,
    },
    /// Solve a header.
    Solve {
        /// The header that will be solved.
        header: Header,
        /// Whether the process should be animated.
        animate: bool,
        /// The selected output format.
        output: OutputFormat,
    },
    /// Check a board, read separately, against a header.
    Check {
        /// The header that the board will be verified against.
        header: Header,
    },
}

/// The parsed command line.
pub struct Args {
    /// The selected subcommand.
    pub command: Command,
}

/// An error that might occur whilst parsing a [`Header`].
#[derive(Debug, Clone, Copy, PartialEq, Eq, Hash, Structural)]
pub enum ParseHeaderError {
    /// A view is not a decimal integer.
    InvalidInteger,
    /// The number of views is not a multiple of four.
    InvalidViewCount,
    /// More views than a 255-sized board could have.
    TooManyViews,
    /// A view exceeds the size of the board, or does not fit eight bits.
    ViewTooLarge,
    /// A view is zero.
    ViewZero,
}

impl ParseHeaderError {
    /// A human-readable description of the error.
    pub fn message(&self) -> &'static str {
        match self {
            ParseHeaderError::InvalidInteger => "invalid integer found in header",
            ParseHeaderError::InvalidViewCount => "invalid number of views (must be a multiple of 4)",
            ParseHeaderError::TooManyViews => "it's not possible to solve a size larger than 255",
            ParseHeaderError::ViewTooLarge => "views can't exceed the size of the board",
            ParseHeaderError::ViewZero => "views can't be 0",
        }
    }
}

/// A header: `4 * size` clues as one flat band-ordered vector.
#[derive(Clone, Debug)]
pub struct Header(pub Vec<u8>);

/// An ASCII whitespace byte, as the header format separates its views.
pub open spec fn is_ws(b: u8) -> bool {
    b == 32 || b == 9 || b == 10 || b == 13 || b == 12
}

/// Value of the decimal digits `t[i..]` appended to `acc`, telling a
/// non-digit from a value that leaves eight bits.
pub open spec fn view_digits(t: Seq<u8>, i: int, acc: int) -> Result<u8, ParseHeaderError>
    decreases t.len() - i when 0 <= i <= t.len()
{
    if i >= t.len() {
        Ok(acc as u8)
    } else if !(48 <= t[i] <= 57) {
        Err(ParseHeaderError::InvalidInteger)
    } else if acc * 10 + (t[i] - 48) > 255 {
        Err(ParseHeaderError::ViewTooLarge)
    } else {
        view_digits(t, i + 1, acc * 10 + (t[i] - 48))
    }
}

/// Value of one whitespace-separated header token: an optional leading plus
/// sign, then at least one decimal digit.
pub open spec fn view_token(t: Seq<u8>) -> Result<u8, ParseHeaderError> {
    if t.len() == 0 {
        Err(ParseHeaderError::InvalidInteger)
    } else if t[0] == 43 {
        if t.len() == 1 {
            Err(ParseHeaderError::InvalidInteger)
        } else {
            view_digits(t, 1, 0)
        }
    } else {
        view_digits(t, 0, 0)
    }
}

/// State of the header scanner between two bytes.
pub ghost struct TokState {
    /// Views parsed so far.
    pub views: Seq<u8>,
    /// Whether a token is currently open.
    pub in_tok: bool,
    /// Where the open token began.
    pub t_start: int,
}

/// Outcome of scanning a prefix of the header text.
pub ghost enum TokOutcome {
    /// Still scanning.
    Going(TokState),
    /// A diagnostic was raised.
    Failed(ParseHeaderError),
}

/// The scanner before the first byte.
pub open spec fn tok_init() -> TokState {
    TokState { views: Seq::empty(), in_tok: false, t_start: 0 }
}

/// Closes the token `s[st.t_start .. i]`: it must be a non-zero view.
pub open spec fn tok_finalize(st: TokState, s: Seq<u8>, i: int) -> TokOutcome {
    match view_token(s.subrange(st.t_start, i)) {
        Err(e) => TokOutcome::Failed(e),
        Ok(v) => if v == 0 {
            TokOutcome::Failed(ParseHeaderError::ViewZero)
        } else {
            TokOutcome::Going(TokState { views: st.views.push(v), in_tok: false, ..st })
        },
    }
}

/// Scans byte `s[i]`.
pub open spec fn tok_step(o: TokOutcome, s: Seq<u8>, i: int) -> TokOutcome {
    match o {
        TokOutcome::Failed(e) => TokOutcome::Failed(e),
        TokOutcome::Going(st) => {
            if st.in_tok {
                if is_ws(s[i]) {
                    tok_finalize(st, s, i)
                } else {
                    TokOutcome::Going(st)
                }
            } else {
                if is_ws(s[i]) {
                    TokOutcome::Going(st)
                } else {
                    TokOutcome::Going(TokState { in_tok: true, t_start: i, ..st })
                }
            }
        },
    }
}

/// Scans the first `i` bytes of the header text.
pub open spec fn tok_run(s: Seq<u8>, i: int) -> TokOutcome
    decreases i,
{
    if i <= 0 {
        TokOutcome::Going(tok_init())
    } else {
        tok_step(tok_run(s, i - 1), s, i - 1)
    }
}

/// Every view fits the board size derived from the view count.
pub open spec fn all_views_fit(vs: Seq<u8>) -> bool {
    forall|k: int| 0 <= k < vs.len() ==> #[trigger] vs[k] <= vs.len() / 4
}

/// The complete parse of a header text: every view, then the shape checks -
/// a positive multiple of four of them, a size of at most 255, and no view
/// beyond the size.
pub open spec fn header_result(s: Seq<u8>) -> Result<Seq<u8>, ParseHeaderError> {
    match tok_run(s, s.len() as int) {
        TokOutcome::Failed(e) => Err(e),
        TokOutcome::Going(st) => {
            let o2 = if st.in_tok {
                tok_finalize(st, s, s.len() as int)
            } else {
                TokOutcome::Going(st)
            };
            match o2 {
                TokOutcome::Failed(e) => Err(e),
                TokOutcome::Going(st2) => {
                    let vs = st2.views;
                    if vs.len() % 4 != 0 {
                        Err(ParseHeaderError::InvalidViewCount)
                    } else if vs.len() > 1020 {
                        Err(ParseHeaderError::TooManyViews)
                    } else if !all_views_fit(vs) {
                        Err(ParseHeaderError::ViewTooLarge)
                    } else {
                        Ok(vs)
                    }
                },
            }
        },
    }
}

/// A failed header scan stays failed whatever comes later.
pub proof fn lemma_tok_failed_stable(s: Seq<u8>, i: int, j: int)
    requires
        0 <= i <= j,
        tok_run(s, i) is Failed,
    ensures
        tok_run(s, j) == tok_run(s, i),
    decreases j - i,
{
    if i < j {
        lemma_tok_failed_stable(s, i, j - 1);
    }
}

/// Parses a run of bytes as one header view.
fn parse_view(t: &[u8]) -> (r: Result<u8, ParseHeaderError>)
    ensures
        r == view_token(t@),
{
    let n = t.len();
    if n == 0 {
        return Err(ParseHeaderError::InvalidInteger);
    }
    let mut i: usize = 0;
    if t[0] == 43 {
        if n == 1 {
            return Err(ParseHeaderError::InvalidInteger);
        }
        i = 1;
    }
    let mut acc: u8 = 0;
    while i < n
        invariant
            0 <= i <= n,
            n == t@.len(),
            view_token(t@) == view_digits(t@, i as int, acc as int),
        decreases n - i,
    {
        let b = t[i];
        if b < 48 || b > 57 {
            return Err(ParseHeaderError::InvalidInteger);
        }
        let d = b - 48;
        if acc > 25 || (acc == 25 && d > 5) {
            return Err(ParseHeaderError::ViewTooLarge);
        }
        acc = acc * 10 + d;
        i = i + 1;
    }
    Ok(acc)
}

impl Header {
    /// Parses a header line: whitespace-separated decimal views, a positive
    /// multiple of four of them, each in `1..=size` where `size` is a
    /// quarter of their count.
    #[verifier::loop_isolation(false)]
    pub fn from_str(s: &str) -> (r: Result<Header, ParseHeaderError>)
        ensures
            match r {
                Ok(h) => {
                    &&& header_result(s.spec_bytes()) == Ok::<Seq<u8>, ParseHeaderError>(h.0@)
                    &&& h.0@.len() % 4 == 0
                    &&& h.0@.len() <= 1020
                    &&& forall|k: int|
                        0 <= k < h.0@.len() ==> 1 <= #[trigger] h.0@[k] <= h.0@.len() / 4
                },
                Err(e) => header_result(s.spec_bytes()) == Err::<Seq<u8>, ParseHeaderError>(e),
            },
    {
        let bytes = s.as_bytes();
        let n = bytes.len();
        let mut views: Vec<u8> = Vec::new();
        let mut in_tok = false;
        let mut t_start: usize = 0;
        let mut i: usize = 0;
        while i < n
            invariant
                0 <= i <= n,
                n == bytes@.len(),
                bytes@ == s.spec_bytes(),
                tok_run(bytes@, i as int) == TokOutcome::Going(
                    TokState { views: views@, in_tok, t_start: t_start as int },
                ),
                in_tok ==> t_start < i,
                forall|k: int| 0 <= k < views@.len() ==> 1 <= #[trigger] views@[k],
                views@.len() <= i,
            decreases n - i,
        {
            let ghost st0 = TokState { views: views@, in_tok, t_start: t_start as int };
            let b = bytes[i];
            let ws = b == 32 || b == 9 || b == 10 || b == 13 || b == 12;
            if in_tok {
                if ws {
                    let tok = vstd::slice::slice_subrange(bytes, t_start, i);
                    match parse_view(tok) {
                        Err(e) => {
                            proof {
                                lemma_tok_failed_stable(bytes@, i + 1, n as int);
                            }
                            return Err(e);
                        },
                        Ok(v) => {
                            if v == 0 {
                                proof {
                                    lemma_tok_failed_stable(bytes@, i + 1, n as int);
                                }
                                return Err(ParseHeaderError::ViewZero);
                            }
                            views.push(v);
                            in_tok = false;
                        },
                    }
                }
            } else {
                if !ws {
                    t_start = i;
                    in_tok = true;
                }
            }
            i = i + 1;
            proof {
                assert(tok_run(bytes@, i as int) == tok_step(
                    TokOutcome::Going(st0),
                    bytes@,
                    i - 1,
                ));
            }
        }

        if in_tok {
            let tok = vstd::slice::slice_subrange(bytes, t_start, n);
            match parse_view(tok) {
                Err(e) => {
                    return Err(e);
                },
                Ok(v) => {
                    if v == 0 {
                        return Err(ParseHeaderError::ViewZero);
                    }
                    views.push(v);
                    in_tok = false;
                },
            }
        }

        if views.len() % 4 != 0 {
            return Err(ParseHeaderError::InvalidViewCount);
        }
        if views.len() > 1020 {
            return Err(ParseHeaderError::TooManyViews);
        }
        let ghost hr = header_result(s.spec_bytes());
        proof {
            let sb = s.spec_bytes();
            let ro = tok_run(sb, sb.len() as int);
            assert(sb == bytes@);
            assert(ro is Going);
            let sta = ro->Going_0;
            if sta.in_tok {
                assert(tok_finalize(sta, sb, n as int) is Going);
                assert(tok_finalize(sta, sb, n as int)->Going_0.views == views@);
            } else {
                assert(sta.views == views@);
            }
            let vs2 = if sta.in_tok {
                tok_finalize(sta, sb, n as int)->Going_0.views
            } else {
                sta.views
            };
            assert(vs2 == views@);
            if !all_views_fit(views@) {
                let m0 = choose|m: int| 0 <= m < views@.len() && #[trigger] views@[m] > views@.len()
                    / 4;
                assert(vs2[m0] > vs2.len() / 4);
                assert(!all_views_fit(vs2));
                assert(hr == Err::<Seq<u8>, ParseHeaderError>(ParseHeaderError::ViewTooLarge));
            } else {
                assert forall|m: int| 0 <= m < vs2.len() implies #[trigger] vs2[m] <= vs2.len()
                    / 4 by {
                    assert(vs2[m] == views@[m]);
                }
                assert(all_views_fit(vs2));
                assert(hr == Ok::<Seq<u8>, ParseHeaderError>(views@));
            }
        }
        let size = (views.len() / 4) as u8;
        let mut k: usize = 0;
        while k < views.len()
            invariant
                0 <= k <= views@.len(),
                views@.len() <= 1020,
                size as int == views@.len() / 4,
                hr == header_result(s.spec_bytes()),
                hr == (if !all_views_fit(views@) {
                    Err::<Seq<u8>, ParseHeaderError>(ParseHeaderError::ViewTooLarge)
                } else {
                    Ok::<Seq<u8>, ParseHeaderError>(views@)
                }),
                forall|m: int| 0 <= m < k ==> #[trigger] views@[m] <= views@.len() / 4,
            decreases views@.len() - k,
        {
            if views[k] > size {
                proof {
                    assert(views@[k as int] > views@.len() / 4);
                    assert(!all_views_fit(views@));
                }
                return Err(ParseHeaderError::ViewTooLarge);
            }
            k = k + 1;
        }
        proof {
            assert(all_views_fit(views@));
        }
        Ok(Header(views))
    }
}

} // verus!
