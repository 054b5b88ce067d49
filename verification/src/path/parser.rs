//! The parser for path strings: an identifier followed by any number of
//! `.key` and `[index]` postfixes, with whitespace allowed only around the
//! integer inside brackets, and the whole input consumed. Errors carry the
//! offending position and render like a caret diagnostic.

use vstd::prelude::*;

use super::Expression;
use super::PathSeg;

verus! {

/// The characters an identifier is made of.
pub open spec fn is_ident_char(c: char) -> bool {
    ('a' <= c && c <= 'z') || ('A' <= c && c <= 'Z') || ('0' <= c && c <= '9') || c == '_' || c
        == '-'
}

/// A decimal digit.
pub open spec fn is_digit(c: char) -> bool {
    '0' <= c && c <= '9'
}

/// The end of the run of identifier characters that starts at `pos`.
pub open spec fn ident_end(s: Seq<char>, pos: int) -> int
    decreases s.len() - pos,
{
    if 0 <= pos < s.len() && is_ident_char(s[pos]) {
        ident_end(s, pos + 1)
    } else {
        pos
    }
}

/// The end of the run of spaces that starts at `pos`.
pub open spec fn space_end(s: Seq<char>, pos: int) -> int
    decreases s.len() - pos,
{
    if 0 <= pos < s.len() && s[pos] == ' ' {
        space_end(s, pos + 1)
    } else {
        pos
    }
}

/// The end of the run of digits that starts at `pos`.
pub open spec fn digit_end(s: Seq<char>, pos: int) -> int
    decreases s.len() - pos,
{
    if 0 <= pos < s.len() && is_digit(s[pos]) {
        digit_end(s, pos + 1)
    } else {
        pos
    }
}

/// Scans stop where they start or later, and inside the string.
pub proof fn lemma_ident_end(s: Seq<char>, p: int)
    ensures
        ident_end(s, p) >= p,
        0 <= p <= s.len() ==> ident_end(s, p) <= s.len(),
    decreases s.len() - p,
{
    if 0 <= p < s.len() && is_ident_char(s[p]) {
        lemma_ident_end(s, p + 1);
    }
}

/// The same for space runs.
pub proof fn lemma_space_end(s: Seq<char>, p: int)
    ensures
        space_end(s, p) >= p,
        0 <= p <= s.len() ==> space_end(s, p) <= s.len(),
    decreases s.len() - p,
{
    if 0 <= p < s.len() && s[p] == ' ' {
        lemma_space_end(s, p + 1);
    }
}

/// The same for digit runs.
pub proof fn lemma_digit_end(s: Seq<char>, p: int)
    ensures
        digit_end(s, p) >= p,
        0 <= p <= s.len() ==> digit_end(s, p) <= s.len(),
    decreases s.len() - p,
{
    if 0 <= p < s.len() && is_digit(s[p]) {
        lemma_digit_end(s, p + 1);
    }
}

/// The number the digits between `a` and `b` spell.
pub open spec fn digits_val(s: Seq<char>, a: int, b: int) -> int
    decreases b - a,
{
    if a >= b {
        0
    } else {
        digits_val(s, a, b - 1) * 10 + (s[b - 1] as int - '0' as int)
    }
}

/// What went wrong during a parse.
#[derive(Debug, PartialEq, Eq)]
pub enum ParseErrorKind {
    /// An identifier was required and is missing or malformed.
    InvalidIdentifier,
    /// The brackets hold no integer, or one too large for an index.
    ExpectedInteger,
    /// The closing bracket of a subscript is missing.
    ExpectedClosingBracket,
    /// A character that can start no postfix.
    InvalidPostfix,
}

/// A failed parse as specifications see it: the offending position and what
/// was expected there.
pub struct SpecParseError {
    pub off: int,
    pub kind: ParseErrorKind,
}

/// The parse of the postfix chain from `pos` on, with `acc` the steps read
/// so far.
pub open spec fn spec_postfixes(s: Seq<char>, pos: int, acc: Seq<PathSeg>) -> Result<
    Seq<PathSeg>,
    SpecParseError,
>
    decreases s.len() - pos,
        via spec_postfixes_dec
{
    if pos >= s.len() || pos < 0 {
        Ok(acc)
    } else if s[pos] == '.' {
        let e = ident_end(s, pos + 1);
        if e == pos + 1 {
            Err(SpecParseError { off: pos + 1, kind: ParseErrorKind::InvalidIdentifier })
        } else {
            spec_postfixes(s, e, acc.push(PathSeg::Key(s.subrange(pos + 1, e))))
        }
    } else if s[pos] == '[' {
        let ds0 = space_end(s, pos + 1);
        let neg = ds0 < s.len() && s[ds0] == '-';
        let ds = if neg {
            ds0 + 1
        } else {
            ds0
        };
        let de = digit_end(s, ds);
        if de == ds {
            Err(SpecParseError { off: ds, kind: ParseErrorKind::ExpectedInteger })
        } else {
            let mag = digits_val(s, ds, de);
            let val = if neg {
                -mag
            } else {
                mag
            };
            if val < i32::MIN || val > i32::MAX {
                Err(SpecParseError { off: ds0, kind: ParseErrorKind::ExpectedInteger })
            } else {
                let sp2 = space_end(s, de);
                if sp2 >= s.len() || s[sp2] != ']' {
                    Err(SpecParseError { off: sp2, kind: ParseErrorKind::ExpectedClosingBracket })
                } else {
                    spec_postfixes(s, sp2 + 1, acc.push(PathSeg::Index(val)))
                }
            }
        }
    } else {
        Err(SpecParseError { off: pos + 1, kind: ParseErrorKind::InvalidPostfix })
    }
}

#[via_fn]
proof fn spec_postfixes_dec(s: Seq<char>, pos: int, acc: Seq<PathSeg>) {
    if 0 <= pos < s.len() {
        lemma_ident_end(s, pos + 1);
        lemma_space_end(s, pos + 1);
        let ds0 = space_end(s, pos + 1);
        lemma_digit_end(s, ds0);
        lemma_digit_end(s, ds0 + 1);
        lemma_space_end(s, digit_end(s, ds0));
        lemma_space_end(s, digit_end(s, ds0 + 1));
    }
}

/// The parse of a whole path string: an identifier, then postfixes, with
/// the entire input consumed.
pub open spec fn spec_parse(s: Seq<char>) -> Result<Seq<PathSeg>, SpecParseError> {
    let e0 = ident_end(s, 0);
    if e0 == 0 {
        Err(SpecParseError { off: 0, kind: ParseErrorKind::InvalidIdentifier })
    } else {
        spec_postfixes(s, e0, seq![PathSeg::Key(s.subrange(0, e0))])
    }
}

/// A successful parse keeps every step read so far, so a whole path always
/// has at least its root identifier.
pub proof fn lemma_spec_postfixes_len(s: Seq<char>, pos: int, acc: Seq<PathSeg>)
    ensures
        spec_postfixes(s, pos, acc) matches Ok(gs) ==> gs.len() >= acc.len(),
    decreases s.len() - pos,
{
    if pos >= s.len() || pos < 0 {
    } else if s[pos] == '.' {
        let e = ident_end(s, pos + 1);
        if e != pos + 1 {
            lemma_ident_end(s, pos + 1);
            lemma_spec_postfixes_len(s, e, acc.push(PathSeg::Key(s.subrange(pos + 1, e))));
        }
    } else if s[pos] == '[' {
        let ds0 = space_end(s, pos + 1);
        let neg = ds0 < s.len() && s[ds0] == '-';
        let ds = if neg {
            ds0 + 1
        } else {
            ds0
        };
        let de = digit_end(s, ds);
        if de != ds {
            let mag = digits_val(s, ds, de);
            let val = if neg {
                -mag
            } else {
                mag
            };
            if i32::MIN <= val <= i32::MAX {
                let sp2 = space_end(s, de);
                if sp2 < s.len() && s[sp2] == ']' {
                    lemma_space_end(s, pos + 1);
                    lemma_digit_end(s, ds);
                    lemma_digit_end(s, ds0 + 1);
                    lemma_space_end(s, de);
                    lemma_spec_postfixes_len(s, sp2 + 1, acc.push(PathSeg::Index(val)));
                }
            }
        }
    }
}

/// A whole parse yields at least one step.
pub proof fn lemma_spec_parse_len(s: Seq<char>)
    ensures
        spec_parse(s) matches Ok(gs) ==> gs.len() >= 1,
{
    let e0 = ident_end(s, 0);
    if e0 != 0 {
        lemma_spec_postfixes_len(s, e0, seq![PathSeg::Key(s.subrange(0, e0))]);
    }
}

/// A parse failure: the input, the offending position, and what was
/// expected there.
#[derive(Debug, PartialEq, Eq)]
pub struct ParseError {
    pub input: String,
    pub offset: usize,
    pub kind: ParseErrorKind,
}

/// The message lines each failure kind renders as.
pub open spec fn spec_message(kind: ParseErrorKind) -> Seq<char> {
    match kind {
        ParseErrorKind::InvalidIdentifier => "invalid identifier\nexpected ASCII alphanumeric, `_`, `-`"@,
        ParseErrorKind::ExpectedInteger => "invalid subscript\nexpected integer"@,
        ParseErrorKind::ExpectedClosingBracket => "invalid subscript\nexpected `]`"@,
        ParseErrorKind::InvalidPostfix => "invalid postfix\nexpected `[`, `.`"@,
    }
}

/// The rendering of a failure: the input, a caret line pointing at the
/// offending position, and the message.
pub open spec fn spec_render(input: Seq<char>, off: int, kind: ParseErrorKind) -> Seq<char> {
    input + seq!['\n'] + Seq::new(off as nat, |i: int| ' ') + seq!['^', '\n'] + spec_message(kind)
}

impl ParseError {
    /// Builds a failure record.
    pub fn new(input: String, offset: usize, kind: ParseErrorKind) -> (r: ParseError)
        ensures
            r.input == input,
            r.offset == offset,
            r.kind == kind,
    {
        ParseError { input, offset, kind }
    }

    /// Renders the failure as a caret diagnostic.
    pub fn render(&self) -> (r: String)
        ensures
            r@ == spec_render(self.input@, self.offset as int, self.kind),
    {
        let mut out = String::new();
        out.append(self.input.as_str());
        out.append("\n");
        let mut i: usize = 0;
        let ghost base = self.input@ + seq!['\n'];
        proof {
            reveal_strlit("\n");
            assert(out@ =~= base + Seq::new(0nat, |j: int| ' '));
        }
        while i < self.offset
            invariant
                i <= self.offset,
                out@ =~= base + Seq::new(i as nat, |j: int| ' '),
            decreases self.offset - i,
        {
            out.append(" ");
            i += 1;
            proof {
                reveal_strlit(" ");
                assert(out@ =~= base + Seq::new(i as nat, |j: int| ' '));
            }
        }
        out.append("^\n");
        match self.kind {
            ParseErrorKind::InvalidIdentifier => {
                out.append("invalid identifier\nexpected ASCII alphanumeric, `_`, `-`");
            },
            ParseErrorKind::ExpectedInteger => {
                out.append("invalid subscript\nexpected integer");
            },
            ParseErrorKind::ExpectedClosingBracket => {
                out.append("invalid subscript\nexpected `]`");
            },
            ParseErrorKind::InvalidPostfix => {
                out.append("invalid postfix\nexpected `[`, `.`");
            },
        }
        proof {
            reveal_strlit("\n");
            reveal_strlit("^\n");
            assert(out@ =~= spec_render(self.input@, self.offset as int, self.kind));
        }
        out
    }
}

/// The characters of a string, as a vector.
pub(crate) fn str_chars(s: &str) -> (r: Vec<char>)
    ensures
        r@ == s@,
{
    let n = s.unicode_len();
    let mut v: Vec<char> = Vec::new();
    let mut i: usize = 0;
    while i < n
        invariant
            i <= n,
            n == s@.len(),
            v@ =~= s@.subrange(0, i as int),
        decreases n - i,
    {
        let ch = s.get_char(i);
        v.push(ch);
        i += 1;
        proof {
            assert(v@ =~= s@.subrange(0, i as int));
        }
    }
    proof {
        assert(v@ =~= s@);
    }
    v
}

/// Scans past the identifier characters that start at `pos`.
fn scan_ident(c: &Vec<char>, pos: usize) -> (r: usize)
    requires
        pos <= c@.len(),
    ensures
        r == ident_end(c@, pos as int),
        pos <= r <= c@.len(),
    decreases c@.len() - pos,
{
    proof {
        lemma_ident_end(c@, pos as int);
    }
    if pos < c.len() {
        let ch = c[pos];
        if ('a' <= ch && ch <= 'z') || ('A' <= ch && ch <= 'Z') || ('0' <= ch && ch <= '9') || ch
            == '_' || ch == '-' {
            return scan_ident(c, pos + 1);
        }
    }
    pos
}

/// Scans past the spaces that start at `pos`.
fn scan_space(c: &Vec<char>, pos: usize) -> (r: usize)
    requires
        pos <= c@.len(),
    ensures
        r == space_end(c@, pos as int),
        pos <= r <= c@.len(),
    decreases c@.len() - pos,
{
    proof {
        lemma_space_end(c@, pos as int);
    }
    if pos < c.len() {
        let ch = c[pos];
        if ch == ' ' {
            return scan_space(c, pos + 1);
        }
    }
    pos
}

/// Scans past the digits that start at `pos`.
pub(crate) fn scan_digit(c: &Vec<char>, pos: usize) -> (r: usize)
    requires
        pos <= c@.len(),
    ensures
        r == digit_end(c@, pos as int),
        pos <= r <= c@.len(),
    decreases c@.len() - pos,
{
    proof {
        lemma_digit_end(c@, pos as int);
    }
    if pos < c.len() {
        let ch = c[pos];
        if '0' <= ch && ch <= '9' {
            return scan_digit(c, pos + 1);
        }
    }
    pos
}

/// The value the digits spell never shrinks as more digits are read.
proof fn lemma_digits_val_bounds(s: Seq<char>, a: int, b: int)
    requires
        a <= b <= s.len(),
        forall|x: int| a <= x < b ==> is_digit(s[x]),
    ensures
        digits_val(s, a, b) >= 0,
        forall|m: int| a <= m <= b ==> digits_val(s, a, b) >= #[trigger] digits_val(s, a, m) >= 0,
    decreases b - a,
{
    if a < b {
        lemma_digits_val_bounds(s, a, b - 1);
        assert(is_digit(s[b - 1]));
        assert(s[b - 1] as int - '0' as int >= 0);
    }
}

/// Reads the digits between `ds` and `de` as an index, negated when `neg`,
/// refusing numbers that do not fit the index type.
fn parse_index(c: &Vec<char>, ds: usize, de: usize, neg: bool) -> (r: Option<i32>)
    requires
        ds < de <= c@.len(),
        forall|x: int| ds <= x < de ==> is_digit(c@[x]),
    ensures
        ({
            let mag = digits_val(c@, ds as int, de as int);
            let val = if neg {
                -mag
            } else {
                mag
            };
            if i32::MIN <= val <= i32::MAX {
                r matches Some(v) && v as int == val
            } else {
                r is None
            }
        }),
{
    proof {
        lemma_digits_val_bounds(c@, ds as int, de as int);
    }
    let mut acc: i64 = 0;
    let mut over = false;
    let mut j: usize = ds;
    while j < de
        invariant
            ds <= j <= de,
            de <= c@.len(),
            forall|x: int| ds <= x < de ==> is_digit(c@[x]),
            !over ==> acc == digits_val(c@, ds as int, j as int) && 0 <= acc <= 0x8000_0000i64,
            over ==> digits_val(c@, ds as int, j as int) > 0x8000_0000i64,
        decreases de - j,
    {
        proof {
            lemma_digits_val_bounds(c@, ds as int, j as int);
            lemma_digits_val_bounds(c@, ds as int, j as int + 1);
        }
        let d = (c[j] as u32) - ('0' as u32);
        if !over {
            acc = acc * 10 + (d as i64);
            if acc > 0x8000_0000i64 {
                over = true;
            }
        }
        j += 1;
    }
    proof {
        lemma_digits_val_bounds(c@, ds as int, de as int);
    }
    if over {
        None
    } else if neg {
        Some((-acc) as i32)
    } else if acc <= 0x7fff_ffffi64 {
        Some(acc as i32)
    } else {
        None
    }
}

/// Parses a path string into an expression. Success happens exactly on the
/// strings the grammar admits, and the parsed expression's steps are the
/// parse that `spec_parse` describes; a failure carries the offending
/// position and kind that `spec_parse` assigns to the input.
pub fn from_str(s: &str) -> (r: Result<Expression, ParseError>)
    ensures
        spec_parse(s@) matches Ok(gs) ==> (r matches Ok(e) && e.segs() == gs),
        spec_parse(s@) matches Err(se) ==> (r matches Err(pe) && pe.input@ == s@ && pe.offset
            as int == se.off && pe.kind == se.kind),
{
    let c = str_chars(s);
    let n = c.len();
    let e0 = scan_ident(&c, 0);
    if e0 == 0 {
        return Err(ParseError::new(s.to_owned(), 0, ParseErrorKind::InvalidIdentifier));
    }
    let first = s.substring_char(0, e0).to_owned();
    let mut expr = Expression::Identifier(first);
    let mut pos = e0;
    proof {
        assert(expr.segs() =~= seq![PathSeg::Key(s@.subrange(0, e0 as int))]);
    }
    while pos < n
        invariant
            c@ == s@,
            n == c@.len(),
            pos <= n,
            spec_parse(s@) == spec_postfixes(s@, pos as int, expr.segs()),
        decreases n - pos,
    {
        let ghost acc0 = expr.segs();
        let ch = c[pos];
        if ch == '.' {
            let e = scan_ident(&c, pos + 1);
            if e == pos + 1 {
                return Err(
                    ParseError::new(s.to_owned(), pos + 1, ParseErrorKind::InvalidIdentifier),
                );
            }
            let key = s.substring_char(pos + 1, e).to_owned();
            let prev = expr;
            expr = Expression::Child(Box::new(prev), key);
            proof {
                assert(expr.segs() =~= acc0.push(PathSeg::Key(s@.subrange(pos + 1, e as int))));
            }
            pos = e;
        } else if ch == '[' {
            let ds0 = scan_space(&c, pos + 1);
            let neg = ds0 < n && c[ds0] == '-';
            let ds = if neg {
                ds0 + 1
            } else {
                ds0
            };
            proof {
                lemma_digit_end(c@, ds as int);
            }
            let de = scan_digit(&c, ds);
            if de == ds {
                return Err(ParseError::new(s.to_owned(), ds, ParseErrorKind::ExpectedInteger));
            }
            proof {
                assert forall|x: int| ds <= x < de implies is_digit(c@[x]) by {
                    lemma_digit_run(c@, ds as int, de as int, x);
                }
            }
            match parse_index(&c, ds, de, neg) {
                None => {
                    return Err(
                        ParseError::new(s.to_owned(), ds0, ParseErrorKind::ExpectedInteger),
                    );
                },
                Some(v) => {
                    let sp2 = scan_space(&c, de);
                    if sp2 >= n {
                        return Err(
                            ParseError::new(
                                s.to_owned(),
                                sp2,
                                ParseErrorKind::ExpectedClosingBracket,
                            ),
                        );
                    }
                    if c[sp2] != ']' {
                        return Err(
                            ParseError::new(
                                s.to_owned(),
                                sp2,
                                ParseErrorKind::ExpectedClosingBracket,
                            ),
                        );
                    }
                    let prev = expr;
                    expr = Expression::Subscript(Box::new(prev), v);
                    proof {
                        assert(expr.segs() =~= acc0.push(PathSeg::Index(v as int)));
                    }
                    pos = sp2 + 1;
                },
            }
        } else {
            return Err(ParseError::new(s.to_owned(), pos + 1, ParseErrorKind::InvalidPostfix));
        }
    }
    Ok(expr)
}

/// Every position inside a digit run scanned by `digit_end` holds a digit.
proof fn lemma_digit_run(s: Seq<char>, a: int, b: int, x: int)
    requires
        0 <= a <= s.len(),
        b == digit_end(s, a),
        a <= x < b,
    ensures
        is_digit(s[x]),
    decreases x - a,
{
    lemma_digit_end(s, a);
    if x > a {
        lemma_digit_run(s, a + 1, b, x);
    }
}

} // verus!
