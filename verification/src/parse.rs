//! The executable parsers.
//!
//! A [`Cursor`] is a position-tracked view over the input text.  A parser
//! takes the cursor by value and, on success, returns the cursor advanced
//! past what it consumed; on failure it returns a [`ParseError`] and the
//! caller's cursor stands unchanged, which is what the ordered alternation
//! in [`parse_value`] relies on.  Every contract says that the function
//! returns exactly what the corresponding specification function of
//! [`crate::model`] returns.

use vstd::prelude::*;
use vstd::string::StrSliceExecFns;

use crate::error::ErrorKind;
use crate::error::ParseError;
use crate::model::digit_val;
use crate::model::digits_end;
use crate::model::digits_val;
use crate::model::expect_err;
use crate::model::is_digit_char;
use crate::model::is_ws_char;
use crate::model::lit_at;
use crate::model::lit_false;
use crate::model::lit_null;
use crate::model::lit_true;
use crate::model::skip_ws;
use crate::model::spec_parse_bool;
use crate::model::spec_parse_null;
use crate::model::spec_parse_number;
use crate::model::spec_parse_string;
use crate::model::spec_sep_with_space;
use crate::model::lemma_digits_val_extend;
use crate::model::lemma_digits_val_grows;
use crate::model::lemma_scan_while_fixes;
use crate::model::lemma_pair_progress;
use crate::model::lemma_sep_progress;
use crate::model::lemma_string_progress;
use crate::model::lemma_value_progress;
use crate::model::spec_array_rest;
use crate::model::spec_close_array;
use crate::model::spec_close_object;
use crate::model::spec_object_rest;
use crate::model::spec_parse_array;
use crate::model::spec_parse_object;
use crate::model::spec_parse_pair;
use crate::model::spec_parse_value;
use crate::value::FloatLit;
use crate::value::Num;
use crate::value::Value;
use crate::value::ValueView;
use crate::value::insert_pair;
use crate::value::keys_unique;
use crate::value::lemma_insert_pair_unique;
use crate::value::lemma_pair_views_of;
use crate::value::lemma_pair_views_of_push;
use crate::value::lemma_views_of_push;
use crate::value::pair_views_of;
use crate::value::value_view;
use crate::value::views_of;

verus! {

/// The cursor: the input text together with the offset, in characters, of
/// the first unconsumed character.  Advancing past consumed text is the
/// only mutation in the parser; the text itself is only ever re-sliced,
/// and owned text is materialised only for string values and object keys.
#[derive(Debug, Clone, Copy)]
pub struct Cursor<'a> {
    text: &'a str,
    pos: usize,
}

impl<'a> Cursor<'a> {
    /// The whole input text.
    pub closed spec fn input(self) -> Seq<char> {
        self.text@
    }

    /// The offset of the first unconsumed character.
    pub closed spec fn position(self) -> int {
        self.pos as int
    }

    /// The offset never runs past the end of the input.
    pub open spec fn wf(self) -> bool {
        0 <= self.position() <= self.input().len()
    }

    /// A fresh cursor over the whole of `text`.
    pub fn new(text: &'a str) -> (c: Cursor<'a>)
        ensures
            c.input() == text@,
            c.position() == 0,
            c.wf(),
    {
        Cursor { text, pos: 0 }
    }

    /// The current offset.
    pub fn offset(&self) -> (n: usize)
        ensures
            n == self.position(),
    {
        self.pos
    }

    /// Whether the whole input has been consumed.
    pub fn at_end(&self) -> (b: bool)
        requires
            self.wf(),
        ensures
            b == (self.position() == self.input().len()),
    {
        self.pos == self.text.unicode_len()
    }
}

/// Whitespace tolerated around separators.
fn is_ws(ch: char) -> (b: bool)
    ensures
        b == is_ws_char(ch),
{
    ch == ' ' || ch == '\t' || ch == '\n' || ch == '\r'
}

/// Decimal digits.
fn is_digit(ch: char) -> (b: bool)
    ensures
        b == is_digit_char(ch),
{
    '0' <= ch && ch <= '9'
}

/// The failed-expectation error at the cursor's position.
fn make_expect_err(c: Cursor<'_>) -> (e: ParseError)
    requires
        c.wf(),
    ensures
        e == expect_err(c.input(), c.position()),
{
    let len = c.text.unicode_len();
    ParseError {
        pos: c.pos,
        kind: if c.pos >= len {
            ErrorKind::UnexpectedEnd
        } else {
            ErrorKind::LiteralMismatch
        },
    }
}

/// Advance the cursor past the run of whitespace at its position.
fn skip_whitespace<'a>(c: Cursor<'a>) -> (r: Cursor<'a>)
    requires
        c.wf(),
    ensures
        r.input() == c.input(),
        r.position() == skip_ws(c.input(), c.position()),
        r.wf(),
{
    let ghost s = c.input();
    let len = c.text.unicode_len();
    let mut i = c.pos;
    while i < len && is_ws(c.text.get_char(i))
        invariant
            c.pos <= i <= len,
            len == s.len(),
            c.text@ == s,
            forall|j: int| c.pos <= j < i ==> is_ws_char(s[j]),
        decreases len - i,
    {
        i = i + 1;
    }
    proof {
        lemma_scan_while_fixes(s, c.pos as int, |ch: char| is_ws_char(ch), i as int);
    }
    Cursor { text: c.text, pos: i }
}

/// Consume exactly the characters of `lit`, or fail without consuming.
fn expect_lit<'a>(c: Cursor<'a>, lit: &str) -> (r: Result<Cursor<'a>, ParseError>)
    requires
        c.wf(),
    ensures
        lit_at(c.input(), c.position(), lit@) ==> (r matches Ok(c2) && c2.input() == c.input()
            && c2.position() == c.position() + lit@.len() && c2.wf()),
        !lit_at(c.input(), c.position(), lit@) ==> (r matches Err(e) && e == expect_err(
            c.input(),
            c.position(),
        )),
{
    let ghost s = c.input();
    let len = c.text.unicode_len();
    let n = lit.unicode_len();
    if n > len - c.pos {
        return Err(make_expect_err(c));
    }
    let mut j: usize = 0;
    while j < n
        invariant
            0 <= j <= n,
            c.pos + n <= len,
            len == s.len(),
            c.text@ == s,
            n == lit@.len(),
            c.wf(),
            forall|jj: int| 0 <= jj < j ==> s[c.pos + jj] == lit@[jj],
        decreases n - j,
    {
        if c.text.get_char(c.pos + j) != lit.get_char(j) {
            proof {
                assert(s.subrange(c.position(), c.position() + lit@.len() as int)[j as int]
                    != lit@[j as int]);
            }
            return Err(make_expect_err(c));
        }
        j = j + 1;
    }
    proof {
        assert(s.subrange(c.position(), c.position() + lit@.len() as int) =~= lit@);
    }
    Ok(Cursor { text: c.text, pos: c.pos + n })
}

/// Parse the literal `null`.  Relied upon by the dispatcher: on failure the
/// caller's cursor is unchanged.
pub fn parse_null<'a>(c: Cursor<'a>) -> (r: Result<Cursor<'a>, ParseError>)
    requires
        c.wf(),
    ensures
        (match spec_parse_null(c.input(), c.position()) {
            Ok(p) => r matches Ok(c2) && c2.input() == c.input() && c2.position() == p
                && c2.wf(),
            Err(e) => r matches Err(e2) && e2 == e,
        }),
{
    proof {
        reveal_strlit("null");
        assert("null"@ =~= lit_null());
    }
    expect_lit(c, "null")
}

/// Parse `true` or `false`.
pub fn parse_bool<'a>(c: Cursor<'a>) -> (r: Result<(bool, Cursor<'a>), ParseError>)
    requires
        c.wf(),
    ensures
        (match spec_parse_bool(c.input(), c.position()) {
            Ok((b, p)) => r matches Ok((b2, c2)) && b2 == b && c2.input() == c.input()
                && c2.position() == p && c2.wf(),
            Err(e) => r matches Err(e2) && e2 == e,
        }),
{
    proof {
        reveal_strlit("true");
        reveal_strlit("false");
        assert("true"@ =~= lit_true());
        assert("false"@ =~= lit_false());
    }
    match expect_lit(c, "true") {
        Ok(c2) => Ok((true, c2)),
        Err(_) => match expect_lit(c, "false") {
            Ok(c2) => Ok((false, c2)),
            Err(e) => Err(e),
        },
    }
}

/// Parse a string literal: `"`, a run of characters up to the next `"`,
/// and that closing `"`.  The run is returned verbatim as owned text; no
/// escape sequences are interpreted.
pub fn parse_string<'a>(c: Cursor<'a>) -> (r: Result<(String, Cursor<'a>), ParseError>)
    requires
        c.wf(),
    ensures
        (match spec_parse_string(c.input(), c.position()) {
            Ok((t, p)) => r matches Ok((t2, c2)) && t2@ == t && c2.input() == c.input()
                && c2.position() == p && c2.wf(),
            Err(e) => r matches Err(e2) && e2 == e,
        }),
{
    let ghost s = c.input();
    let len = c.text.unicode_len();
    if c.pos >= len || c.text.get_char(c.pos) != '"' {
        return Err(make_expect_err(c));
    }
    let mut i = c.pos + 1;
    while i < len && c.text.get_char(i) != '"'
        invariant
            c.pos + 1 <= i <= len,
            len == s.len(),
            c.text@ == s,
            forall|j: int| c.pos + 1 <= j < i ==> s[j] != '"',
        decreases len - i,
    {
        i = i + 1;
    }
    proof {
        lemma_scan_while_fixes(s, c.pos + 1 as int, |ch: char| ch != '"', i as int);
    }
    if i >= len {
        return Err(ParseError { pos: c.pos, kind: ErrorKind::UnexpectedEnd });
    }
    let content = c.text.substring_char(c.pos + 1, i).to_owned();
    Ok((content, Cursor { text: c.text, pos: i + 1 }))
}

/// Parse a numeric literal: an optional `-`, one or more digits, and
/// optionally a `.` followed by one or more digits.  Without a fractional
/// part the digits are reinterpreted as a signed 64-bit integer with the
/// sign applied (failing when they name a value beyond `i64::MAX`); with
/// one, the literal is kept verbatim as a [`FloatLit`].
pub fn parse_number<'a>(c: Cursor<'a>) -> (r: Result<(Num, Cursor<'a>), ParseError>)
    requires
        c.wf(),
    ensures
        (match spec_parse_number(c.input(), c.position()) {
            Ok((n, p)) => r matches Ok((n2, c2)) && n2@ == n && c2.input() == c.input()
                && c2.position() == p && c2.wf(),
            Err(e) => r matches Err(e2) && e2 == e,
        }),
{
    let ghost s = c.input();
    let len = c.text.unicode_len();
    let neg = c.pos < len && c.text.get_char(c.pos) == '-';
    let p = if neg {
        c.pos + 1
    } else {
        c.pos
    };
    let mut i = p;
    while i < len && is_digit(c.text.get_char(i))
        invariant
            p <= i <= len,
            len == s.len(),
            c.text@ == s,
            forall|j: int| p <= j < i ==> is_digit_char(s[j]),
        decreases len - i,
    {
        i = i + 1;
    }
    proof {
        lemma_scan_while_fixes(s, p as int, |ch: char| is_digit_char(ch), i as int);
    }
    if i == p {
        return Err(make_expect_err(Cursor { text: c.text, pos: p }));
    }
    if i < len && c.text.get_char(i) == '.' {
        let fs = i + 1;
        let mut k = fs;
        while k < len && is_digit(c.text.get_char(k))
            invariant
                fs <= k <= len,
                len == s.len(),
                c.text@ == s,
                forall|j: int| fs <= j < k ==> is_digit_char(s[j]),
            decreases len - k,
        {
            k = k + 1;
        }
        proof {
            lemma_scan_while_fixes(s, fs as int, |ch: char| is_digit_char(ch), k as int);
        }
        if k == fs {
            return Err(make_expect_err(Cursor { text: c.text, pos: fs }));
        }
        let int_part = c.text.substring_char(p, i).to_owned();
        let frac_part = c.text.substring_char(fs, k).to_owned();
        Ok((Num::Float(FloatLit { neg, int_part, frac_part }), Cursor { text: c.text, pos: k }))
    } else {
        let mut acc: u64 = 0;
        let mut j = p;
        proof {
            assert(s.subrange(p as int, p as int) =~= Seq::<char>::empty());
        }
        while j < i
            invariant
                p <= j <= i <= len,
                p < i,
                len == s.len(),
                c.text@ == s,
                c.wf(),
                neg == (0 <= c.position() < s.len() && s[c.position()] == '-'),
                p == if neg {
                    c.position() + 1
                } else {
                    c.position()
                },
                i as int == digits_end(s, p as int),
                !(i < len && s[i as int] == '.'),
                forall|jj: int| p <= jj < i ==> is_digit_char(s[jj]),
                acc == digits_val(s.subrange(p as int, j as int)),
                acc <= i64::MAX as u64,
            decreases i - j,
        {
            let ch = c.text.get_char(j);
            let d: u64 = (ch as u32 - 48) as u64;
            proof {
                assert(is_digit_char(s[j as int]));
                assert(0 <= d <= 9 && d == digit_val(s[j as int]));
                vstd::arithmetic::div_mod::lemma_fundamental_div_mod(
                    (i64::MAX as u64 - d) as int,
                    10,
                );
                vstd::arithmetic::div_mod::lemma_mod_bound((i64::MAX as u64 - d) as int, 10);
                lemma_digits_val_extend(s, p as int, j as int);
            }
            if acc > (9223372036854775807u64 - d) / 10 {
                proof {
                    let m = i64::MAX as int;
                    let dd = d as int;
                    let a = acc as int;
                    assert(m - dd == 10 * ((m - dd) / 10) + (m - dd) % 10);
                    assert(10 * a + dd > m);
                    assert(digits_val(s.subrange(p as int, j as int + 1)) == 10 * a + dd);
                    lemma_digits_val_grows(s, p as int, j as int + 1, i as int);
                    assert(digits_val(s.subrange(p as int, i as int)) > m);
                }
                return Err(ParseError { pos: p, kind: ErrorKind::LiteralMismatch });
            }
            acc = acc * 10 + d;
            j = j + 1;
        }
        proof {
            assert(s.subrange(p as int, j as int) =~= s.subrange(p as int, i as int));
        }
        let v: i64 = if neg {
            -(acc as i64)
        } else {
            acc as i64
        };
        Ok((Num::Int(v), Cursor { text: c.text, pos: i }))
    }
}

/// A separator with optional whitespace on both sides, as the grammar
/// tolerates around `[`, `]`, `{`, `}`, `,` and `:`.
pub fn sep_with_space<'a>(c: Cursor<'a>, sep: char) -> (r: Result<Cursor<'a>, ParseError>)
    requires
        c.wf(),
    ensures
        (match spec_sep_with_space(c.input(), c.position(), sep) {
            Ok(p) => r matches Ok(c2) && c2.input() == c.input() && c2.position() == p
                && c2.wf(),
            Err(e) => r matches Err(e2) && e2 == e,
        }),
{
    let c1 = skip_whitespace(c);
    let len = c1.text.unicode_len();
    if c1.pos < len && c1.text.get_char(c1.pos) == sep {
        Ok(skip_whitespace(Cursor { text: c1.text, pos: c1.pos + 1 }))
    } else {
        Err(make_expect_err(c1))
    }
}

/// Close an array: the `]` separator, with a failure reported as a
/// structural mismatch at the position where `]` was expected.
fn close_array<'a>(vs: Vec<Value>, c: Cursor<'a>) -> (r: Result<
    (Vec<Value>, Cursor<'a>),
    ParseError,
>)
    requires
        c.wf(),
    ensures
        (match spec_close_array(c.input(), c.position(), views_of(vs@)) {
            Ok((es, p)) => r matches Ok((vs2, c2)) && views_of(vs2@) == es && c2.input()
                == c.input() && c2.position() == p && c2.wf(),
            Err(e) => r matches Err(e2) && e2 == e,
        }),
{
    match sep_with_space(c, ']') {
        Ok(c2) => Ok((vs, c2)),
        Err(e) => Err(ParseError { pos: e.pos, kind: ErrorKind::StructuralMismatch }),
    }
}

/// Close an object, as for arrays.
fn close_object<'a>(ps: Vec<(String, Value)>, c: Cursor<'a>) -> (r: Result<
    (Vec<(String, Value)>, Cursor<'a>),
    ParseError,
>)
    requires
        c.wf(),
    ensures
        (match spec_close_object(c.input(), c.position(), pair_views_of(ps@)) {
            Ok((es, p)) => r matches Ok((ps2, c2)) && pair_views_of(ps2@) == es && c2.input()
                == c.input() && c2.position() == p && c2.wf(),
            Err(e) => r matches Err(e2) && e2 == e,
        }),
{
    match sep_with_space(c, '}') {
        Ok(c2) => Ok((ps, c2)),
        Err(e) => Err(ParseError { pos: e.pos, kind: ErrorKind::StructuralMismatch }),
    }
}

/// The index of the pair holding `k`, if any.
fn find_key(ps: &Vec<(String, Value)>, k: &String) -> (r: Option<usize>)
    ensures
        (match r {
            Some(i) => i < ps@.len() && ps@[i as int].0@ == k@,
            None => forall|j: int| 0 <= j < ps@.len() ==> ps@[j].0@ != k@,
        }),
{
    let n = ps.len();
    let mut idx: usize = 0;
    while idx < n
        invariant
            0 <= idx <= n,
            n == ps@.len(),
            forall|j: int| 0 <= j < idx ==> ps@[j].0@ != k@,
        decreases n - idx,
    {
        if ps[idx].0 == *k {
            return Some(idx);
        }
        idx = idx + 1;
    }
    None
}

/// Standard mapping insertion: a pair whose key is already present
/// overwrites that key's value in place, any other pair is appended.
fn insert_object_pair(ps: &mut Vec<(String, Value)>, k: String, v: Value)
    requires
        keys_unique(pair_views_of(old(ps)@)),
    ensures
        pair_views_of(final(ps)@) == insert_pair(pair_views_of(old(ps)@), k@, value_view(v)),
        keys_unique(pair_views_of(final(ps)@)),
{
    let ghost m = pair_views_of(ps@);
    proof {
        lemma_pair_views_of(ps@);
        lemma_insert_pair_unique(m, k@, value_view(v));
    }
    match find_key(ps, &k) {
        Some(i) => {
            proof {
                assert(m[i as int].0 == k@);
            }
            ps.remove(i);
            ps.insert(i, (k, v));
            proof {
                lemma_pair_views_of(ps@);
                assert(exists|j: int| 0 <= j < m.len() && m[j].0 == k@);
                let ci = choose|j: int| 0 <= j < m.len() && m[j].0 == k@;
                if ci != i as int {
                    assert(m[ci].0 != m[i as int].0);
                }
                assert(pair_views_of(ps@) =~= m.update(i as int, (k@, value_view(v))));
            }
        },
        None => {
            ps.push((k, v));
            proof {
                assert(forall|j: int| 0 <= j < m.len() ==> m[j].0 != k@);
                lemma_pair_views_of_push(old(ps)@, (k, v));
            }
        },
    }
}

/// The value dispatcher: try `null`, the booleans, a number, a string, an
/// array and an object, in that order, returning the first success.  A
/// failed alternative leaves the cursor untouched, so the next one starts
/// at the same position; when every alternative fails, the error of the
/// final fallback is returned.
pub fn parse_value<'a>(c: Cursor<'a>) -> (r: Result<(Value, Cursor<'a>), ParseError>)
    requires
        c.wf(),
    ensures
        (match spec_parse_value(c.input(), c.position()) {
            Ok((mv, p)) => r matches Ok((v, c2)) && v@ == mv && c2.input() == c.input()
                && c2.position() == p && c2.wf(),
            Err(e) => r matches Err(e2) && e2 == e,
        }),
    decreases c.input().len() - c.position(), 2int,
{
    match parse_null(c) {
        Ok(c2) => return Ok((Value::Null, c2)),
        Err(_) => {},
    }
    match parse_bool(c) {
        Ok((b, c2)) => return Ok((Value::Bool(b), c2)),
        Err(_) => {},
    }
    match parse_number(c) {
        Ok((n, c2)) => return Ok((Value::Number(n), c2)),
        Err(_) => {},
    }
    match parse_string(c) {
        Ok((t, c2)) => return Ok((Value::String(t), c2)),
        Err(_) => {},
    }
    match parse_array(c) {
        Ok((vs, c2)) => return Ok((Value::Array(vs), c2)),
        Err(_) => {},
    }
    match parse_object(c) {
        Ok((ps, c2)) => Ok((Value::Object(ps), c2)),
        Err(e) => Err(e),
    }
}

/// Parse an array: `[`, zero or more values separated by commas, `]`.
/// Trailing commas are not permitted: a comma not followed by a value is
/// left unconsumed, so the closing `]` is expected right after it.
pub fn parse_array<'a>(c: Cursor<'a>) -> (r: Result<(Vec<Value>, Cursor<'a>), ParseError>)
    requires
        c.wf(),
    ensures
        (match spec_parse_array(c.input(), c.position()) {
            Ok((es, p)) => r matches Ok((vs, c2)) && views_of(vs@) == es && c2.input()
                == c.input() && c2.position() == p && c2.wf(),
            Err(e) => r matches Err(e2) && e2 == e,
        }),
    decreases c.input().len() - c.position(), 1int,
{
    let ghost s = c.input();
    let ghost pos0 = c.position();
    let c0 = match sep_with_space(c, '[') {
        Err(e) => {
            return Err(e);
        },
        Ok(x) => x,
    };
    proof {
        lemma_sep_progress(s, pos0, '[');
    }
    let mut vs: Vec<Value> = Vec::new();
    let mut cur: Cursor<'a>;
    match parse_value(c0) {
        Err(_) => {
            return close_array(vs, c0);
        },
        Ok((v, c1)) => {
            proof {
                lemma_value_progress(s, c0.position());
                lemma_views_of_push(vs@, v);
            }
            vs.push(v);
            cur = c1;
        },
    }
    loop
        invariant
            cur.wf(),
            cur.input() == s,
            s == c.input(),
            pos0 == c.position(),
            0 <= pos0 < cur.position(),
            spec_parse_array(s, pos0) == spec_array_rest(s, cur.position(), views_of(vs@)),
        decreases s.len() - cur.position(),
    {
        let ghost q = cur.position();
        let ghost acc = views_of(vs@);
        match sep_with_space(cur, ',') {
            Err(_) => {
                return close_array(vs, cur);
            },
            Ok(cc) => {
                proof {
                    lemma_sep_progress(s, q, ',');
                }
                match parse_value(cc) {
                    Err(_) => {
                        return close_array(vs, cur);
                    },
                    Ok((v2, c2)) => {
                        proof {
                            lemma_sep_progress(s, q, ',');
                            lemma_value_progress(s, cc.position());
                            lemma_views_of_push(vs@, v2);
                        }
                        vs.push(v2);
                        cur = c2;
                    },
                }
            },
        }
    }
}

/// One `key: value` pair of an object.
fn parse_pair<'a>(c: Cursor<'a>) -> (r: Result<((String, Value), Cursor<'a>), ParseError>)
    requires
        c.wf(),
    ensures
        (match spec_parse_pair(c.input(), c.position()) {
            Ok(((k, v), p)) => r matches Ok((kv, c2)) && kv.0@ == k && kv.1@ == v && c2.input()
                == c.input() && c2.position() == p && c2.wf(),
            Err(e) => r matches Err(e2) && e2 == e,
        }),
    decreases c.input().len() - c.position(), 1int,
{
    let ghost s = c.input();
    let ghost pos0 = c.position();
    let (key, ck) = match parse_string(c) {
        Err(e) => {
            return Err(e);
        },
        Ok(x) => x,
    };
    let cw = match sep_with_space(ck, ':') {
        Err(e) => {
            return Err(e);
        },
        Ok(x) => x,
    };
    proof {
        lemma_string_progress(s, pos0);
        lemma_sep_progress(s, ck.position(), ':');
    }
    match parse_value(cw) {
        Err(e) => Err(e),
        Ok((v, c2)) => Ok(((key, v), c2)),
    }
}

/// Parse an object: `{`, one or more `key: value` pairs separated by
/// commas, `}`.  An empty object is rejected as a structural mismatch, and
/// a later pair with an already-present key overwrites that key's value.
pub fn parse_object<'a>(c: Cursor<'a>) -> (r: Result<
    (Vec<(String, Value)>, Cursor<'a>),
    ParseError,
>)
    requires
        c.wf(),
    ensures
        (match spec_parse_object(c.input(), c.position()) {
            Ok((es, p)) => r matches Ok((ps, c2)) && pair_views_of(ps@) == es && c2.input()
                == c.input() && c2.position() == p && c2.wf(),
            Err(e) => r matches Err(e2) && e2 == e,
        }),
    decreases c.input().len() - c.position(), 1int,
{
    let ghost s = c.input();
    let ghost pos0 = c.position();
    let c0 = match sep_with_space(c, '{') {
        Err(e) => {
            return Err(e);
        },
        Ok(x) => x,
    };
    proof {
        lemma_sep_progress(s, pos0, '{');
    }
    let mut ps: Vec<(String, Value)> = Vec::new();
    let mut cur: Cursor<'a>;
    match parse_pair(c0) {
        Err(e) => {
            return Err(ParseError { pos: e.pos, kind: ErrorKind::StructuralMismatch });
        },
        Ok(((k, v), c1)) => {
            proof {
                lemma_pair_progress(s, c0.position());
                lemma_pair_views_of_push(ps@, (k, v));
                assert(pair_views_of(Seq::<(String, Value)>::empty())
                    =~= Seq::<(Seq<char>, ValueView)>::empty());
            }
            ps.push((k, v));
            cur = c1;
        },
    }
    loop
        invariant
            cur.wf(),
            cur.input() == s,
            s == c.input(),
            pos0 == c.position(),
            0 <= pos0 < cur.position(),
            keys_unique(pair_views_of(ps@)),
            spec_parse_object(s, pos0) == spec_object_rest(s, cur.position(), pair_views_of(ps@)),
        decreases s.len() - cur.position(),
    {
        let ghost q = cur.position();
        match sep_with_space(cur, ',') {
            Err(_) => {
                return close_object(ps, cur);
            },
            Ok(cc) => {
                proof {
                    lemma_sep_progress(s, q, ',');
                }
                match parse_pair(cc) {
                    Err(_) => {
                        return close_object(ps, cur);
                    },
                    Ok(((k2, v2), c2)) => {
                        proof {
                            lemma_sep_progress(s, q, ',');
                            lemma_pair_progress(s, cc.position());
                        }
                        insert_object_pair(&mut ps, k2, v2);
                        cur = c2;
                    },
                }
            },
        }
    }
}

/// Parse a value from the front of `input`.  A value followed by trailing
/// text still parses: only what the grammar consumes is examined, as the
/// literal parsers match whole tokens and every composite is closed by its
/// own delimiter.
pub fn parse_json(input: &str) -> (r: Result<Value, ParseError>)
    ensures
        (match spec_parse_value(input@, 0) {
            Ok((mv, p)) => r matches Ok(v) && v@ == mv,
            Err(e) => r matches Err(e2) && e2 == e,
        }),
{
    match parse_value(Cursor::new(input)) {
        Ok((v, _)) => Ok(v),
        Err(e) => Err(e),
    }
}

} // verus!
