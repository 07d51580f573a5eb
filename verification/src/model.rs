//! The mathematical model of the grammar.
//!
//! Every executable parser's contract says that it returns exactly what the
//! corresponding specification function here returns.  A position is a
//! character offset into the whole input; each function takes the input and
//! the offset at which its token starts, and on success returns the parsed
//! view together with the offset of the first unconsumed character.  On
//! failure the input is not consumed: the caller goes on from its own
//! offset, which is what makes the ordered alternation of
//! [`spec_parse_value`] sound.

use vstd::prelude::*;

use crate::error::ErrorKind;
use crate::error::ParseError;
use crate::value::FloatLitView;
use crate::value::NumView;
use crate::value::ValueView;
use crate::value::insert_pair;

verus! {

// ---------------------------------------------------------------------------
// Characters and scanning
// ---------------------------------------------------------------------------

/// The whitespace characters tolerated around separators.
pub open spec fn is_ws_char(c: char) -> bool {
    c == ' ' || c == '\t' || c == '\n' || c == '\r'
}

/// Decimal digits.
pub open spec fn is_digit_char(c: char) -> bool {
    '0' as int <= c as int && c as int <= '9' as int
}

/// The numeric value of a decimal digit.
pub open spec fn digit_val(c: char) -> int {
    c as int - '0' as int
}

/// The first offset at or after `pos` whose character does not satisfy `f`,
/// or the end of the input if every remaining character satisfies `f`.
pub open spec fn scan_while(s: Seq<char>, pos: int, f: spec_fn(char) -> bool) -> int
    decreases s.len() - pos,
{
    if 0 <= pos < s.len() && f(s[pos]) {
        scan_while(s, pos + 1, f)
    } else {
        pos
    }
}

/// Scanning never moves backwards and never runs past the end.
pub proof fn lemma_scan_while_bounds(s: Seq<char>, pos: int, f: spec_fn(char) -> bool)
    ensures
        pos <= scan_while(s, pos, f),
        pos <= s.len() ==> scan_while(s, pos, f) <= s.len(),
        pos >= s.len() ==> scan_while(s, pos, f) == pos,
    decreases s.len() - pos,
{
    if 0 <= pos < s.len() && f(s[pos]) {
        lemma_scan_while_bounds(s, pos + 1, f);
    }
}

/// Every character the scan passed satisfies `f`, and the scan stops either
/// at the end or at a character that does not satisfy `f`.
pub proof fn lemma_scan_while_chars(s: Seq<char>, pos: int, f: spec_fn(char) -> bool)
    requires
        0 <= pos <= s.len(),
    ensures
        forall|j: int| pos <= j < scan_while(s, pos, f) ==> f(s[j]),
        scan_while(s, pos, f) < s.len() ==> !f(s[scan_while(s, pos, f)]),
    decreases s.len() - pos,
{
    lemma_scan_while_bounds(s, pos, f);
    if 0 <= pos < s.len() && f(s[pos]) {
        lemma_scan_while_chars(s, pos + 1, f);
    }
}

/// The scan result is the unique boundary: if everything in `[pos, i)`
/// satisfies `f` and `i` is the end or fails `f`, then the scan stops at `i`.
pub proof fn lemma_scan_while_fixes(s: Seq<char>, pos: int, f: spec_fn(char) -> bool, i: int)
    requires
        0 <= pos <= i <= s.len(),
        forall|j: int| pos <= j < i ==> f(s[j]),
        i == s.len() || !f(s[i]),
    ensures
        scan_while(s, pos, f) == i,
    decreases i - pos,
{
    if pos < i {
        lemma_scan_while_fixes(s, pos + 1, f, i);
    }
}

/// The offset of the first non-whitespace character at or after `pos`.
pub open spec fn skip_ws(s: Seq<char>, pos: int) -> int {
    scan_while(s, pos, |c: char| is_ws_char(c))
}

/// The offset just past the run of decimal digits starting at `pos`.
pub open spec fn digits_end(s: Seq<char>, pos: int) -> int {
    scan_while(s, pos, |c: char| is_digit_char(c))
}

/// The offset of the first `"` at or after `pos`, or the end of the input.
pub open spec fn quote_end(s: Seq<char>, pos: int) -> int {
    scan_while(s, pos, |c: char| c != '"')
}

// ---------------------------------------------------------------------------
// Literals and errors
// ---------------------------------------------------------------------------

/// The characters of `null`.
pub open spec fn lit_null() -> Seq<char> {
    seq!['n', 'u', 'l', 'l']
}

/// The characters of `true`.
pub open spec fn lit_true() -> Seq<char> {
    seq!['t', 'r', 'u', 'e']
}

/// The characters of `false`.
pub open spec fn lit_false() -> Seq<char> {
    seq!['f', 'a', 'l', 's', 'e']
}

/// The literal `lit` stands at offset `pos` of `s`.
pub open spec fn lit_at(s: Seq<char>, pos: int, lit: Seq<char>) -> bool {
    0 <= pos && pos + lit.len() <= s.len() && s.subrange(pos, pos + lit.len() as int) == lit
}

/// The error for a failed expectation at `pos`: the end of the input was
/// reached, or the text there is not what was expected.
pub open spec fn expect_err(s: Seq<char>, pos: int) -> ParseError {
    ParseError {
        pos: pos as usize,
        kind: if pos >= s.len() {
            ErrorKind::UnexpectedEnd
        } else {
            ErrorKind::LiteralMismatch
        },
    }
}

// ---------------------------------------------------------------------------
// Primitive parsers
// ---------------------------------------------------------------------------

/// `null`: succeeds exactly when the next four characters are `null`.
pub open spec fn spec_parse_null(s: Seq<char>, pos: int) -> Result<int, ParseError> {
    if lit_at(s, pos, lit_null()) {
        Ok(pos + 4)
    } else {
        Err(expect_err(s, pos))
    }
}

/// `true` or `false`, tried in that order.
pub open spec fn spec_parse_bool(s: Seq<char>, pos: int) -> Result<(bool, int), ParseError> {
    if lit_at(s, pos, lit_true()) {
        Ok((true, pos + 4))
    } else if lit_at(s, pos, lit_false()) {
        Ok((false, pos + 5))
    } else {
        Err(expect_err(s, pos))
    }
}

/// The numeric value of a run of decimal digits, most significant first.
pub open spec fn digits_val(ds: Seq<char>) -> int
    decreases ds.len(),
{
    if ds.len() == 0 {
        0
    } else {
        10 * digits_val(ds.drop_last()) + digit_val(ds.last())
    }
}

/// A numeric literal: an optional `-`, one or more digits, and optionally a
/// `.` followed by one or more digits.  Without a fractional part the digits
/// must name a value at most `i64::MAX`, and the result is that value with
/// the sign applied; with one, the literal is kept verbatim as a decimal.
pub open spec fn spec_parse_number(s: Seq<char>, pos: int) -> Result<(NumView, int), ParseError> {
    let neg = 0 <= pos < s.len() && s[pos] == '-';
    let p = if neg {
        pos + 1
    } else {
        pos
    };
    let de = digits_end(s, p);
    if de == p {
        Err(expect_err(s, p))
    } else {
        let ints = s.subrange(p, de);
        if de < s.len() && s[de] == '.' {
            let fe = digits_end(s, de + 1);
            if fe == de + 1 {
                Err(expect_err(s, de + 1))
            } else {
                Ok(
                    (
                        NumView::Float(
                            FloatLitView {
                                neg,
                                int_part: ints,
                                frac_part: s.subrange(de + 1, fe),
                            },
                        ),
                        fe,
                    ),
                )
            }
        } else {
            let n = digits_val(ints);
            if n > i64::MAX as int {
                Err(ParseError { pos: p as usize, kind: ErrorKind::LiteralMismatch })
            } else {
                Ok(
                    (
                        NumView::Int(
                            (if neg {
                                -n
                            } else {
                                n
                            }) as i64,
                        ),
                        de,
                    ),
                )
            }
        }
    }
}

/// A string literal: `"`, a run of zero or more characters up to but not
/// including the next `"`, and the closing `"`.  No escape interpretation:
/// a backslash is an ordinary character and every `"` closes the literal.
pub open spec fn spec_parse_string(s: Seq<char>, pos: int) -> Result<(Seq<char>, int), ParseError> {
    if !(0 <= pos < s.len()) || s[pos] != '"' {
        Err(expect_err(s, pos))
    } else {
        let q = quote_end(s, pos + 1);
        if q >= s.len() {
            Err(ParseError { pos: pos as usize, kind: ErrorKind::UnexpectedEnd })
        } else {
            Ok((s.subrange(pos + 1, q), q + 1))
        }
    }
}

/// A separator with optional whitespace on both sides.
pub open spec fn spec_sep_with_space(s: Seq<char>, pos: int, sep: char) -> Result<
    int,
    ParseError,
> {
    let t = skip_ws(s, pos);
    if t < s.len() && s[t] == sep {
        Ok(skip_ws(s, t + 1))
    } else {
        Err(expect_err(s, t))
    }
}

// ---------------------------------------------------------------------------
// Progress of the primitive parsers
// ---------------------------------------------------------------------------

/// A successful separator strictly advances and stays in bounds.
pub proof fn lemma_sep_progress(s: Seq<char>, pos: int, sep: char)
    ensures
        spec_sep_with_space(s, pos, sep) matches Ok(p) ==> pos < p <= s.len(),
{
    lemma_scan_while_bounds(s, pos, |c: char| is_ws_char(c));
    let t = skip_ws(s, pos);
    if t < s.len() && s[t] == sep {
        lemma_scan_while_bounds(s, t + 1, |c: char| is_ws_char(c));
    }
}

/// A successful string literal strictly advances and stays in bounds.
pub proof fn lemma_string_progress(s: Seq<char>, pos: int)
    ensures
        spec_parse_string(s, pos) matches Ok((t, p)) ==> pos + 2 <= p <= s.len(),
{
    if 0 <= pos < s.len() && s[pos] == '"' {
        lemma_scan_while_bounds(s, pos + 1, |c: char| c != '"');
    }
}

/// A successful numeric literal strictly advances and stays in bounds.
pub proof fn lemma_number_progress(s: Seq<char>, pos: int)
    ensures
        spec_parse_number(s, pos) matches Ok((n, p)) ==> pos < p <= s.len(),
{
    let neg = 0 <= pos < s.len() && s[pos] == '-';
    let p = if neg {
        pos + 1
    } else {
        pos
    };
    lemma_scan_while_bounds(s, p, |c: char| is_digit_char(c));
    let de = digits_end(s, p);
    if de != p {
        lemma_scan_while_bounds(s, de + 1, |c: char| is_digit_char(c));
    }
}

// ---------------------------------------------------------------------------
// Composite parsers and the dispatcher
// ---------------------------------------------------------------------------

/// Closing an array: the `]` separator, with any separator failure reported
/// as a structural mismatch (the array was not closed).
pub open spec fn spec_close_array(s: Seq<char>, pos: int, es: Seq<ValueView>) -> Result<
    (Seq<ValueView>, int),
    ParseError,
> {
    match spec_sep_with_space(s, pos, ']') {
        Ok(p) => Ok((es, p)),
        Err(e) => Err(ParseError { pos: e.pos, kind: ErrorKind::StructuralMismatch }),
    }
}

/// Closing an object, as for arrays.
pub open spec fn spec_close_object(
    s: Seq<char>,
    pos: int,
    ps: Seq<(Seq<char>, ValueView)>,
) -> Result<(Seq<(Seq<char>, ValueView)>, int), ParseError> {
    match spec_sep_with_space(s, pos, '}') {
        Ok(p) => Ok((ps, p)),
        Err(e) => Err(ParseError { pos: e.pos, kind: ErrorKind::StructuralMismatch }),
    }
}

/// The value dispatcher: each alternative is tried in a fixed order and the
/// first success wins.  A failed alternative consumes nothing, so the next
/// one starts at the same offset.  When every alternative fails, the error
/// of the final fallback (the object parser) is reported.
pub open spec fn spec_parse_value(s: Seq<char>, pos: int) -> Result<(ValueView, int), ParseError>
    decreases s.len() - pos, 2int,
{
    match spec_parse_null(s, pos) {
        Ok(p) => Ok((ValueView::Null, p)),
        Err(_) => match spec_parse_bool(s, pos) {
            Ok((b, p)) => Ok((ValueView::Bool(b), p)),
            Err(_) => match spec_parse_number(s, pos) {
                Ok((n, p)) => Ok((ValueView::Number(n), p)),
                Err(_) => match spec_parse_string(s, pos) {
                    Ok((t, p)) => Ok((ValueView::Str(t), p)),
                    Err(_) => match spec_parse_array(s, pos) {
                        Ok((es, p)) => Ok((ValueView::Array(es), p)),
                        Err(_) => match spec_parse_object(s, pos) {
                            Ok((ps, p)) => Ok((ValueView::Object(ps), p)),
                            Err(e) => Err(e),
                        },
                    },
                },
            },
        },
    }
}

/// An array: `[`, zero or more values separated by commas, `]`, each
/// separator with optional whitespace around it.
pub open spec fn spec_parse_array(s: Seq<char>, pos: int) -> Result<
    (Seq<ValueView>, int),
    ParseError,
>
    decreases s.len() - pos, 1int,
{
    match spec_sep_with_space(s, pos, '[') {
        Err(e) => Err(e),
        Ok(p0) => {
            proof {
                lemma_sep_progress(s, pos, '[');
            }
            match spec_parse_value(s, p0) {
                Err(_) => spec_close_array(s, p0, Seq::empty()),
                Ok((v, p1)) => if pos < p1 <= s.len() {
                    spec_array_rest(s, p1, seq![v])
                } else {
                    spec_close_array(s, p1, seq![v])
                },
            }
        },
    }
}

/// The elements still to come after offset `pos`, appended to `acc`, and
/// then the closing `]`.
pub open spec fn spec_array_rest(s: Seq<char>, pos: int, acc: Seq<ValueView>) -> Result<
    (Seq<ValueView>, int),
    ParseError,
>
    decreases s.len() - pos, 2int,
{
    let (es, q) = spec_more_elems(s, pos, acc);
    spec_close_array(s, q, es)
}

/// The tail of an array: as long as a comma follows, a further value is
/// parsed and appended; a comma not followed by a value is not consumed.
pub open spec fn spec_more_elems(s: Seq<char>, pos: int, acc: Seq<ValueView>) -> (
    Seq<ValueView>,
    int,
)
    decreases s.len() - pos, 1int,
{
    match spec_sep_with_space(s, pos, ',') {
        Err(_) => (acc, pos),
        Ok(u) => {
            proof {
                lemma_sep_progress(s, pos, ',');
            }
            match spec_parse_value(s, u) {
                Err(_) => (acc, pos),
                Ok((v, p)) => if pos < p <= s.len() {
                    spec_more_elems(s, p, acc.push(v))
                } else {
                    (acc.push(v), p)
                },
            }
        },
    }
}

/// One `key: value` pair: a string literal, a `:` separator, and a value.
pub open spec fn spec_parse_pair(s: Seq<char>, pos: int) -> Result<
    ((Seq<char>, ValueView), int),
    ParseError,
>
    decreases s.len() - pos, 1int,
{
    match spec_parse_string(s, pos) {
        Err(e) => Err(e),
        Ok((k, kp)) => match spec_sep_with_space(s, kp, ':') {
            Err(e) => Err(e),
            Ok(w) => {
                proof {
                    lemma_string_progress(s, pos);
                    lemma_sep_progress(s, kp, ':');
                }
                match spec_parse_value(s, w) {
                    Err(e) => Err(e),
                    Ok((v, p)) => Ok(((k, v), p)),
                }
            },
        },
    }
}

/// The tail of an object: as long as a comma follows, a further pair is
/// parsed and inserted (last write wins); a comma not followed by a pair is
/// not consumed.
pub open spec fn spec_more_pairs(
    s: Seq<char>,
    pos: int,
    acc: Seq<(Seq<char>, ValueView)>,
) -> (Seq<(Seq<char>, ValueView)>, int)
    decreases s.len() - pos, 1int,
{
    match spec_sep_with_space(s, pos, ',') {
        Err(_) => (acc, pos),
        Ok(u) => {
            proof {
                lemma_sep_progress(s, pos, ',');
            }
            match spec_parse_pair(s, u) {
                Err(_) => (acc, pos),
                Ok(((k, v), p)) => if pos < p <= s.len() {
                    spec_more_pairs(s, p, insert_pair(acc, k, v))
                } else {
                    (insert_pair(acc, k, v), p)
                },
            }
        },
    }
}

/// An object: `{`, one or more `key: value` pairs separated by commas, `}`.
/// An object with no pairs is a structural mismatch; a later pair whose key
/// is already present overwrites that key's value.
pub open spec fn spec_parse_object(s: Seq<char>, pos: int) -> Result<
    (Seq<(Seq<char>, ValueView)>, int),
    ParseError,
>
    decreases s.len() - pos, 1int,
{
    match spec_sep_with_space(s, pos, '{') {
        Err(e) => Err(e),
        Ok(p0) => {
            proof {
                lemma_sep_progress(s, pos, '{');
            }
            match spec_parse_pair(s, p0) {
                Err(e) => Err(ParseError { pos: e.pos, kind: ErrorKind::StructuralMismatch }),
                Ok(((k, v), p1)) => if pos < p1 <= s.len() {
                    spec_object_rest(s, p1, insert_pair(Seq::empty(), k, v))
                } else {
                    spec_close_object(s, p1, insert_pair(Seq::empty(), k, v))
                },
            }
        },
    }
}

/// The pairs still to come after offset `pos`, inserted into `acc`, and
/// then the closing `}`.
pub open spec fn spec_object_rest(
    s: Seq<char>,
    pos: int,
    acc: Seq<(Seq<char>, ValueView)>,
) -> Result<(Seq<(Seq<char>, ValueView)>, int), ParseError>
    decreases s.len() - pos, 2int,
{
    let (ps, q) = spec_more_pairs(s, pos, acc);
    spec_close_object(s, q, ps)
}

// ---------------------------------------------------------------------------
// Digit runs
// ---------------------------------------------------------------------------

/// A run of digits names a non-negative value.
pub proof fn lemma_digits_val_nonneg(ds: Seq<char>)
    requires
        forall|j: int| 0 <= j < ds.len() ==> is_digit_char(ds[j]),
    ensures
        digits_val(ds) >= 0,
    decreases ds.len(),
{
    if ds.len() > 0 {
        lemma_digits_val_nonneg(ds.drop_last());
    }
}

/// Taking one more digit multiplies the value by ten and adds that digit.
pub proof fn lemma_digits_val_extend(s: Seq<char>, p: int, i: int)
    requires
        0 <= p <= i < s.len(),
    ensures
        digits_val(s.subrange(p, i + 1)) == 10 * digits_val(s.subrange(p, i)) + digit_val(s[i]),
{
    assert(s.subrange(p, i + 1).drop_last() =~= s.subrange(p, i));
    assert(s.subrange(p, i + 1).last() == s[i]);
}

/// A longer digit run names at least as large a value.
pub proof fn lemma_digits_val_grows(s: Seq<char>, p: int, i: int, j: int)
    requires
        0 <= p <= i <= j <= s.len(),
        forall|k: int| p <= k < j ==> is_digit_char(s[k]),
    ensures
        digits_val(s.subrange(p, i)) <= digits_val(s.subrange(p, j)),
    decreases j - i,
{
    if i < j {
        lemma_digits_val_grows(s, p, i, j - 1);
        lemma_digits_val_extend(s, p, j - 1);
        lemma_digits_val_nonneg(s.subrange(p, j - 1));
    }
}

// ---------------------------------------------------------------------------
// Progress of the composite parsers
// ---------------------------------------------------------------------------

/// A successful value strictly advances and stays in bounds.
pub proof fn lemma_value_progress(s: Seq<char>, pos: int)
    requires
        0 <= pos <= s.len(),
    ensures
        spec_parse_value(s, pos) matches Ok((v, p)) ==> pos < p <= s.len(),
    decreases s.len() - pos, 2int,
{
    lemma_number_progress(s, pos);
    lemma_string_progress(s, pos);
    lemma_array_progress(s, pos);
    lemma_object_progress(s, pos);
}

/// A successful array strictly advances and stays in bounds.
pub proof fn lemma_array_progress(s: Seq<char>, pos: int)
    requires
        0 <= pos <= s.len(),
    ensures
        spec_parse_array(s, pos) matches Ok((es, p)) ==> pos < p <= s.len(),
    decreases s.len() - pos, 1int,
{
    lemma_sep_progress(s, pos, '[');
    if let Ok(p0) = spec_sep_with_space(s, pos, '[') {
        lemma_value_progress(s, p0);
        lemma_sep_progress(s, p0, ']');
        if let Ok((v, p1)) = spec_parse_value(s, p0) {
            lemma_more_elems_progress(s, p1, seq![v]);
            let (es, q) = spec_more_elems(s, p1, seq![v]);
            lemma_sep_progress(s, q, ']');
        }
    }
}

/// The array tail never moves backwards and stays in bounds.
pub proof fn lemma_more_elems_progress(s: Seq<char>, pos: int, acc: Seq<ValueView>)
    requires
        0 <= pos <= s.len(),
    ensures
        pos <= spec_more_elems(s, pos, acc).1 <= s.len(),
    decreases s.len() - pos, 1int,
{
    lemma_sep_progress(s, pos, ',');
    if let Ok(u) = spec_sep_with_space(s, pos, ',') {
        lemma_value_progress(s, u);
        if let Ok((v, p)) = spec_parse_value(s, u) {
            if pos < p <= s.len() {
                lemma_more_elems_progress(s, p, acc.push(v));
            }
        }
    }
}

/// A successful pair strictly advances and stays in bounds.
pub proof fn lemma_pair_progress(s: Seq<char>, pos: int)
    requires
        0 <= pos <= s.len(),
    ensures
        spec_parse_pair(s, pos) matches Ok((kv, p)) ==> pos < p <= s.len(),
    decreases s.len() - pos, 1int,
{
    lemma_string_progress(s, pos);
    if let Ok((k, kp)) = spec_parse_string(s, pos) {
        lemma_sep_progress(s, kp, ':');
        if let Ok(w) = spec_sep_with_space(s, kp, ':') {
            lemma_value_progress(s, w);
        }
    }
}

/// The object tail never moves backwards and stays in bounds.
pub proof fn lemma_more_pairs_progress(s: Seq<char>, pos: int, acc: Seq<(Seq<char>, ValueView)>)
    requires
        0 <= pos <= s.len(),
    ensures
        pos <= spec_more_pairs(s, pos, acc).1 <= s.len(),
    decreases s.len() - pos, 1int,
{
    lemma_sep_progress(s, pos, ',');
    if let Ok(u) = spec_sep_with_space(s, pos, ',') {
        lemma_pair_progress(s, u);
        if let Ok(((k, v), p)) = spec_parse_pair(s, u) {
            if pos < p <= s.len() {
                lemma_more_pairs_progress(s, p, insert_pair(acc, k, v));
            }
        }
    }
}

/// A successful object strictly advances and stays in bounds.
pub proof fn lemma_object_progress(s: Seq<char>, pos: int)
    requires
        0 <= pos <= s.len(),
    ensures
        spec_parse_object(s, pos) matches Ok((ps, p)) ==> pos < p <= s.len(),
    decreases s.len() - pos, 1int,
{
    lemma_sep_progress(s, pos, '{');
    if let Ok(p0) = spec_sep_with_space(s, pos, '{') {
        lemma_pair_progress(s, p0);
        if let Ok(((k, v), p1)) = spec_parse_pair(s, p0) {
            lemma_more_pairs_progress(s, p1, insert_pair(Seq::empty(), k, v));
            let (ps, q) = spec_more_pairs(s, p1, insert_pair(Seq::empty(), k, v));
            lemma_sep_progress(s, q, '}');
        }
    }
}

} // verus!
