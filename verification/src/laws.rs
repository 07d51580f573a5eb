//! The round-trip law.
//!
//! Every well-formed value, rendered in its canonical form by
//! [`crate::ser::ser_value`], parses back to itself with the whole text
//! consumed: [`lemma_parse_round_trip`].  Since the canonical rendering is
//! constructible by the grammar, this shows in one statement that the
//! parser accepts such inputs and that parse and rendering agree on the
//! tree.  The proof walks the value; the generalised statement
//! [`lemma_parse_ser_value`] parses at any offset of a larger text, as
//! happens for the elements of arrays and the values of objects, provided
//! the rendering is followed by a delimiter or the end of the input.

use vstd::prelude::*;

use crate::error::ParseError;
use crate::model::digits_end;
use crate::model::digits_val;
use crate::model::expect_err;
use crate::model::is_digit_char;
use crate::model::is_ws_char;
use crate::model::lemma_scan_while_fixes;
use crate::model::lemma_sep_progress;
use crate::model::lit_at;
use crate::model::lit_false;
use crate::model::lit_null;
use crate::model::lit_true;
use crate::model::skip_ws;
use crate::model::spec_close_array;
use crate::model::spec_more_elems;
use crate::model::spec_more_pairs;
use crate::model::spec_parse_array;
use crate::model::spec_parse_bool;
use crate::model::spec_parse_null;
use crate::model::spec_parse_number;
use crate::model::spec_parse_object;
use crate::model::spec_parse_pair;
use crate::model::spec_parse_string;
use crate::model::spec_parse_value;
use crate::model::spec_sep_with_space;
use crate::ser::lemma_dec_digits;
use crate::ser::dec_digits;
use crate::ser::ser_elems;
use crate::ser::ser_elems_tail;
use crate::ser::ser_float;
use crate::ser::ser_num;
use crate::ser::ser_pair;
use crate::ser::ser_pairs;
use crate::ser::ser_pairs_tail;
use crate::ser::ser_value;
use crate::ser::wf_key;
use crate::ser::wf_value;
use crate::value::NumView;
use crate::value::ValueView;
use crate::value::insert_pair;
use crate::value::keys_unique;

verus! {

/// The text `w` stands at offset `pos` of `s`.
pub open spec fn window(s: Seq<char>, pos: int, w: Seq<char>) -> bool {
    0 <= pos && pos + w.len() <= s.len() && s.subrange(pos, pos + w.len()) == w
}

/// What may follow a rendered value: a separator closing or continuing the
/// enclosing composite, or the end of the input.
pub open spec fn delim_after(s: Seq<char>, q: int) -> bool {
    q == s.len() || s[q] == ',' || s[q] == ']' || s[q] == '}'
}

/// A window fixes the characters under it.
proof fn lemma_window_index(s: Seq<char>, pos: int, w: Seq<char>)
    requires
        window(s, pos, w),
    ensures
        forall|i: int| 0 <= i < w.len() ==> s[pos + i] == w[i],
{
    assert forall|i: int| 0 <= i < w.len() implies s[pos + i] == w[i] by {
        assert(s.subrange(pos, pos + w.len())[i] == s[pos + i]);
    }
}

/// Conversely, pointwise agreement makes a window.
proof fn lemma_window_intro(s: Seq<char>, pos: int, w: Seq<char>)
    requires
        0 <= pos,
        pos + w.len() <= s.len(),
        forall|i: int| 0 <= i < w.len() ==> s[pos + i] == w[i],
    ensures
        window(s, pos, w),
{
    assert(s.subrange(pos, pos + w.len()) =~= w);
}

/// A window over a concatenation splits into two windows.
proof fn lemma_window_concat(s: Seq<char>, pos: int, a: Seq<char>, b: Seq<char>)
    requires
        window(s, pos, a + b),
    ensures
        window(s, pos, a),
        window(s, pos + a.len(), b),
{
    lemma_window_index(s, pos, a + b);
    assert forall|i: int| 0 <= i < a.len() implies s[pos + i] == a[i] by {
        assert((a + b)[i] == a[i]);
    }
    assert forall|i: int| 0 <= i < b.len() implies s[pos + a.len() + i] == b[i] by {
        assert((a + b)[a.len() + i] == b[i]);
    }
    lemma_window_intro(s, pos, a);
    lemma_window_intro(s, pos + a.len(), b);
}

/// One character under a window.
proof fn lemma_window_char(s: Seq<char>, pos: int, w: Seq<char>, i: int)
    requires
        window(s, pos, w),
        0 <= i < w.len(),
    ensures
        s[pos + i] == w[i],
{
    assert(s.subrange(pos, pos + w.len())[i] == s[pos + i]);
}

/// A window over a digit run puts digits under it.
proof fn lemma_window_digits(s: Seq<char>, pos: int, w: Seq<char>)
    requires
        window(s, pos, w),
        forall|j: int| 0 <= j < w.len() ==> is_digit_char(w[j]),
    ensures
        forall|j: int| pos <= j < pos + w.len() ==> is_digit_char(s[j]),
{
    assert forall|j: int| pos <= j < pos + w.len() implies is_digit_char(s[j]) by {
        lemma_window_char(s, pos, w, j - pos);
        assert(is_digit_char(w[j - pos]));
    }
}

/// Scanning stops immediately at a position that fails the test.
proof fn lemma_skip_ws_at(s: Seq<char>, q: int)
    requires
        0 <= q <= s.len(),
        q == s.len() || !is_ws_char(s[q]),
    ensures
        skip_ws(s, q) == q,
{
    lemma_scan_while_fixes(s, q, |c: char| is_ws_char(c), q);
}

/// A digit scan stops immediately at a non-digit.
proof fn lemma_digits_end_at(s: Seq<char>, q: int)
    requires
        0 <= q <= s.len(),
        q == s.len() || !is_digit_char(s[q]),
    ensures
        digits_end(s, q) == q,
{
    lemma_scan_while_fixes(s, q, |c: char| is_digit_char(c), q);
}

/// A digit scan over a rendered digit run stops exactly at its end.
proof fn lemma_digits_end_run(s: Seq<char>, q: int, e: int)
    requires
        0 <= q <= e <= s.len(),
        forall|j: int| q <= j < e ==> is_digit_char(s[j]),
        e == s.len() || !is_digit_char(s[e]),
    ensures
        digits_end(s, q) == e,
{
    lemma_scan_while_fixes(s, q, |c: char| is_digit_char(c), e);
}

/// A separator with no whitespace around it succeeds and consumes one
/// character.
proof fn lemma_sep_at(s: Seq<char>, q: int, sep: char)
    requires
        0 <= q < s.len(),
        s[q] == sep,
        !is_ws_char(sep),
        q + 1 == s.len() || !is_ws_char(s[q + 1]),
    ensures
        spec_sep_with_space(s, q, sep) == Ok::<int, ParseError>(q + 1),
{
    lemma_skip_ws_at(s, q);
    lemma_skip_ws_at(s, q + 1);
}

/// A separator fails at a non-whitespace position holding something else.
proof fn lemma_sep_fail_at(s: Seq<char>, q: int, sep: char)
    requires
        0 <= q <= s.len(),
        q == s.len() || (!is_ws_char(s[q]) && s[q] != sep),
    ensures
        spec_sep_with_space(s, q, sep) == Err::<int, ParseError>(expect_err(s, q)),
{
    lemma_skip_ws_at(s, q);
}

/// A matched literal begins with its first character.
proof fn lemma_lit_at_first(s: Seq<char>, pos: int, lit: Seq<char>)
    requires
        lit_at(s, pos, lit),
        lit.len() > 0,
    ensures
        s[pos] == lit[0],
{
    assert(s.subrange(pos, pos + lit.len())[0] == s[pos]);
}

/// Every alternative of the dispatcher fails at a closing or separating
/// delimiter, so a value parse there fails.
proof fn lemma_value_fails_at_delim(s: Seq<char>, q: int)
    requires
        0 <= q < s.len(),
        s[q] == ',' || s[q] == ']' || s[q] == '}' || s[q] == ':',
    ensures
        spec_parse_value(s, q) is Err,
{
    if lit_at(s, q, lit_null()) {
        lemma_lit_at_first(s, q, lit_null());
    }
    if lit_at(s, q, lit_true()) {
        lemma_lit_at_first(s, q, lit_true());
    }
    if lit_at(s, q, lit_false()) {
        lemma_lit_at_first(s, q, lit_false());
    }
    lemma_digits_end_at(s, q);
    lemma_skip_ws_at(s, q);
}

/// The first character of a canonical rendering: the start of a keyword,
/// a sign or digit, a quote, or an opening bracket or brace.  In
/// particular it is not whitespace and not a delimiter.
proof fn lemma_ser_first(v: ValueView)
    requires
        wf_value(v),
    ensures
        ser_value(v).len() > 0,
        ({
            let c0 = ser_value(v)[0];
            (c0 == 'n' || c0 == 't' || c0 == 'f' || c0 == '-' || is_digit_char(c0) || c0 == '"'
                || c0 == '[' || c0 == '{') && !is_ws_char(c0) && c0 != ',' && c0 != ']' && c0
                != '}' && c0 != ':'
        }),
{
    match v {
        ValueView::Number(n) => {
            match n {
                NumView::Int(i) => {
                    if i > 0 {
                        lemma_dec_digits(i as int);
                    } else if i < 0 {
                        lemma_dec_digits(-(i as int));
                        assert(ser_value(v)[0] == '-');
                    }
                },
                NumView::Float(f) => {
                    if !f.neg {
                        assert(ser_float(f)[0] == f.int_part[0]);
                    }
                },
            }
        },
        _ => {},
    }
}

/// A canonical numeric rendering parses back to its number, given a
/// delimiter or the end of the input after it.
proof fn lemma_parse_ser_number(s: Seq<char>, pos: int, n: NumView)
    requires
        wf_value(ValueView::Number(n)),
        window(s, pos, ser_num(n)),
        delim_after(s, pos + ser_num(n).len()),
    ensures
        spec_parse_number(s, pos) == Ok::<(NumView, int), ParseError>(
            (n, pos + ser_num(n).len()),
        ),
{
    let w = ser_num(n);
    let ll = w.len() as int;
    match n {
        NumView::Int(i) => {
            let i = i as int;
            if i == 0 {
                lemma_window_char(s, pos, w, 0);
                assert(s[pos] == '0');
                lemma_window_digits(s, pos, w);
                lemma_digits_end_run(s, pos, pos + 1);
                assert(s.subrange(pos, pos + 1) =~= seq!['0']);
                assert(digits_val(seq!['0']) == 0) by {
                    assert(seq!['0'].drop_last() =~= Seq::<char>::empty());
                    assert(digits_val(Seq::<char>::empty()) == 0);
                }
            } else if i > 0 {
                lemma_dec_digits(i);
                lemma_window_char(s, pos, w, 0);
                lemma_window_digits(s, pos, w);
                lemma_digits_end_run(s, pos, pos + ll);
                assert(s.subrange(pos, pos + dec_digits(i).len()) == dec_digits(i));
            } else {
                lemma_dec_digits(-i);
                lemma_window_concat(s, pos, seq!['-'], dec_digits(-i));
                lemma_window_char(s, pos, seq!['-'], 0);
                assert(s[pos] == '-');
                lemma_window_digits(s, pos + 1, dec_digits(-i));
                lemma_digits_end_run(s, pos + 1, pos + ll);
                assert(s.subrange(pos + 1, pos + 1 + dec_digits(-i).len()) == dec_digits(-i));
            }
        },
        NumView::Float(f) => {
            let sign = if f.neg {
                seq!['-']
            } else {
                Seq::<char>::empty()
            };
            let sl = sign.len() as int;
            let il = f.int_part.len() as int;
            let fl = f.frac_part.len() as int;
            lemma_window_concat(s, pos, sign + f.int_part + seq!['.'], f.frac_part);
            lemma_window_concat(s, pos, sign + f.int_part, seq!['.']);
            lemma_window_concat(s, pos, sign, f.int_part);
            let p = pos + sl;
            if f.neg {
                lemma_window_char(s, pos, sign, 0);
                assert(s[pos] == '-');
            } else {
                lemma_window_char(s, p, f.int_part, 0);
                assert(s[pos] == f.int_part[0]);
                assert(is_digit_char(s[pos]));
            }
            lemma_window_char(s, p + il, seq!['.'], 0);
            assert(s[p + il] == '.');
            lemma_window_digits(s, p, f.int_part);
            lemma_digits_end_run(s, p, p + il);
            lemma_window_digits(s, p + il + 1, f.frac_part);
            lemma_digits_end_run(s, p + il + 1, p + il + 1 + fl);
            assert(s.subrange(p, p + f.int_part.len()) == f.int_part);
            assert(s.subrange(p + il + 1, p + il + 1 + f.frac_part.len()) == f.frac_part);
        },
    }
}

/// Which alternatives of the dispatcher fail, read off the first character.
proof fn lemma_alternatives_fail(s: Seq<char>, pos: int, c0: char)
    requires
        0 <= pos < s.len(),
        s[pos] == c0,
    ensures
        c0 != 'n' ==> spec_parse_null(s, pos) is Err,
        (c0 != 't' && c0 != 'f') ==> spec_parse_bool(s, pos) is Err,
        (c0 != '-' && !is_digit_char(c0)) ==> spec_parse_number(s, pos) is Err,
        c0 != '"' ==> spec_parse_string(s, pos) is Err,
        (!is_ws_char(c0) && c0 != '[') ==> spec_parse_array(s, pos) is Err,
        (!is_ws_char(c0) && c0 != '{') ==> spec_parse_object(s, pos) is Err,
{
    if lit_at(s, pos, lit_null()) {
        lemma_lit_at_first(s, pos, lit_null());
    }
    if lit_at(s, pos, lit_true()) {
        lemma_lit_at_first(s, pos, lit_true());
    }
    if lit_at(s, pos, lit_false()) {
        lemma_lit_at_first(s, pos, lit_false());
    }
    if c0 != '-' && !is_digit_char(c0) {
        lemma_digits_end_at(s, pos);
    }
    if !is_ws_char(c0) {
        lemma_skip_ws_at(s, pos);
    }
}

/// A rendered pair begins with the key's opening quote.
proof fn lemma_ser_pair_first(kv: (Seq<char>, ValueView))
    ensures
        ser_pair(kv).len() > 0,
        ser_pair(kv)[0] == '"',
{
    assert((seq!['"'] + kv.0)[0] == '"');
    assert((seq!['"'] + kv.0 + seq!['"', ':'])[0] == '"');
}

/// The generalised round trip: a canonical rendering standing anywhere in a
/// larger text, followed by a delimiter or the end of the input, parses as
/// a value to exactly the rendered value, consuming exactly the rendering.
#[verifier::spinoff_prover]
#[verifier::rlimit(100)]
pub proof fn lemma_parse_ser_value(s: Seq<char>, pos: int, v: ValueView)
    requires
        wf_value(v),
        window(s, pos, ser_value(v)),
        delim_after(s, pos + ser_value(v).len()),
    ensures
        spec_parse_value(s, pos) == Ok::<(ValueView, int), ParseError>(
            (v, pos + ser_value(v).len()),
        ),
    decreases v,
{
    let w = ser_value(v);
    let ll = w.len() as int;
    lemma_ser_first(v);
    lemma_window_char(s, pos, w, 0);
    let c0 = w[0];
    lemma_alternatives_fail(s, pos, c0);
    let goal = Ok::<(ValueView, int), ParseError>((v, pos + ll));
    match v {
        ValueView::Null => {
            assert(lit_at(s, pos, lit_null()));
            assert(spec_parse_value(s, pos) == goal);
        },
        ValueView::Bool(b) => {
            if b {
                assert(lit_at(s, pos, lit_true()));
            } else {
                if lit_at(s, pos, lit_true()) {
                    lemma_lit_at_first(s, pos, lit_true());
                }
                assert(lit_at(s, pos, lit_false()));
            }
            assert(spec_parse_value(s, pos) == goal);
        },
        ValueView::Number(n) => {
            lemma_parse_ser_number(s, pos, n);
            assert(spec_parse_value(s, pos) == goal);
        },
        ValueView::Str(t) => {
            let tl = t.len() as int;
            lemma_window_concat(s, pos, seq!['"'] + t, seq!['"']);
            lemma_window_concat(s, pos, seq!['"'], t);
            lemma_window_char(s, pos + 1 + tl, seq!['"'], 0);
            assert forall|j: int| pos + 1 <= j < pos + 1 + tl implies s[j] != '"' by {
                lemma_window_char(s, pos + 1, t, j - (pos + 1));
            }
            lemma_scan_while_fixes(s, pos + 1, |c: char| c != '"', pos + 1 + tl);
            assert(s.subrange(pos + 1, pos + 1 + t.len()) == t);
            assert(spec_parse_value(s, pos) == goal);
        },
        ValueView::Array(es) => {
            let el = ser_elems(es).len() as int;
            assert(c0 == '[') by {
                assert((seq!['['] + ser_elems(es))[0] == '[');
                assert(((seq!['['] + ser_elems(es)) + seq![']'])[0] == '[');
            }
            lemma_window_concat(s, pos, seq!['['] + ser_elems(es), seq![']']);
            lemma_window_concat(s, pos, seq!['['], ser_elems(es));
            lemma_window_char(s, pos + 1 + el, seq![']'], 0);
            assert(s[pos + 1 + el] == ']');
            if es.len() == 0 {
                lemma_sep_at(s, pos, '[');
                lemma_value_fails_at_delim(s, pos + 1);
                lemma_sep_at(s, pos + 1, ']');
                assert(es =~= Seq::<ValueView>::empty());
                assert(spec_close_array(s, pos + 1, Seq::empty())
                    == Ok::<(Seq<ValueView>, int), ParseError>((Seq::empty(), pos + 2)));
            } else {
                let e0 = es[0];
                assert(wf_value(e0));
                let sl0 = ser_value(e0).len() as int;
                lemma_window_concat(s, pos + 1, ser_value(e0), ser_elems_tail(es.drop_first()));
                lemma_ser_first(e0);
                lemma_window_char(s, pos + 1, ser_value(e0), 0);
                lemma_sep_at(s, pos, '[');
                let m = pos + 1 + sl0;
                if es.len() == 1 {
                    assert(ser_elems_tail(es.drop_first()).len() == 0);
                    assert(m == pos + 1 + el);
                } else {
                    lemma_ser_pair_or_elem_tail_first_elem(es.drop_first());
                    lemma_window_char(s, m, ser_elems_tail(es.drop_first()), 0);
                }
                lemma_parse_ser_value(s, pos + 1, e0);
                assert forall|j: int| 0 <= j < es.drop_first().len() implies wf_value(
                    es.drop_first()[j],
                ) by {
                    assert(es.drop_first()[j] == es[j + 1]);
                }
                lemma_parse_ser_elems_tail(s, m, es.drop_first(), seq![e0]);
                assert(seq![e0] + es.drop_first() =~= es);
                assert(spec_more_elems(s, m, seq![e0]) == (es, pos + 1 + el));
                lemma_sep_at(s, pos + 1 + el, ']');
                assert(spec_close_array(s, pos + 1 + el, es)
                    == Ok::<(Seq<ValueView>, int), ParseError>((es, pos + ll)));
            }
            assert(spec_parse_array(s, pos) == Ok::<(Seq<ValueView>, int), ParseError>(
                (es, pos + ll),
            ));
            assert(spec_parse_value(s, pos) == goal);
        },
        ValueView::Object(ps) => {
            let pl = ser_pairs(ps).len() as int;
            lemma_window_concat(s, pos, seq!['{'] + ser_pairs(ps), seq!['}']);
            lemma_window_concat(s, pos, seq!['{'], ser_pairs(ps));
            lemma_window_char(s, pos + 1 + pl, seq!['}'], 0);
            assert(s[pos + 1 + pl] == '}');
            let p0 = ps[0];
            assert(wf_key(p0.0) && wf_value(p0.1));
            let sp0 = ser_pair(p0).len() as int;
            lemma_window_concat(s, pos + 1, ser_pair(p0), ser_pairs_tail(ps.drop_first()));
            lemma_ser_pair_first(p0);
            lemma_window_char(s, pos + 1, ser_pair(p0), 0);
            lemma_sep_at(s, pos, '{');
            let m = pos + 1 + sp0;
            if ps.len() == 1 {
                assert(ser_pairs_tail(ps.drop_first()).len() == 0);
                assert(m == pos + 1 + pl);
            } else {
                lemma_ser_pairs_tail_first(ps.drop_first());
                lemma_window_char(s, m, ser_pairs_tail(ps.drop_first()), 0);
            }
            lemma_parse_ser_pair(s, pos + 1, p0);
            let acc0 = insert_pair(Seq::empty(), p0.0, p0.1);
            assert((p0.0, p0.1) == p0);
            assert(acc0 =~= seq![p0]);
            assert forall|j: int| 0 <= j < ps.drop_first().len() implies wf_key(
                ps.drop_first()[j].0,
            ) && wf_value(ps.drop_first()[j].1) by {
                assert(ps.drop_first()[j] == ps[j + 1]);
            }
            assert(seq![p0] + ps.drop_first() =~= ps);
            lemma_parse_ser_pairs_tail(s, m, ps.drop_first(), seq![p0]);
            lemma_sep_at(s, pos + 1 + pl, '}');
            assert(spec_parse_value(s, pos) == goal);
        },
    }
}

/// A non-empty rendered element tail begins with its comma.
proof fn lemma_ser_pair_or_elem_tail_first_elem(rest: Seq<ValueView>)
    requires
        rest.len() > 0,
    ensures
        ser_elems_tail(rest).len() > 0,
        ser_elems_tail(rest)[0] == ',',
{
    assert((seq![','] + ser_value(rest[0]))[0] == ',');
    assert((seq![','] + ser_value(rest[0]) + ser_elems_tail(rest.drop_first()))[0] == ',');
}

/// A non-empty rendered pair tail begins with its comma.
proof fn lemma_ser_pairs_tail_first(rest: Seq<(Seq<char>, ValueView)>)
    requires
        rest.len() > 0,
    ensures
        ser_pairs_tail(rest).len() > 0,
        ser_pairs_tail(rest)[0] == ',',
{
    assert((seq![','] + ser_pair(rest[0]))[0] == ',');
    assert((seq![','] + ser_pair(rest[0]) + ser_pairs_tail(rest.drop_first()))[0] == ',');
}

/// The rendered tail of an array, standing before the closing delimiter,
/// is consumed by [`spec_more_elems`], which appends exactly its elements.
proof fn lemma_parse_ser_elems_tail(
    s: Seq<char>,
    pos: int,
    rest: Seq<ValueView>,
    acc: Seq<ValueView>,
)
    requires
        forall|j: int| 0 <= j < rest.len() ==> wf_value(rest[j]),
        window(s, pos, ser_elems_tail(rest)),
        pos + ser_elems_tail(rest).len() < s.len(),
        s[pos + ser_elems_tail(rest).len()] == ']' || s[pos + ser_elems_tail(rest).len()] == '}',
    ensures
        spec_more_elems(s, pos, acc) == (acc + rest, pos + ser_elems_tail(rest).len() as int),
    decreases rest,
{
    let tt = ser_elems_tail(rest).len() as int;
    if rest.len() == 0 {
        lemma_sep_fail_at(s, pos, ',');
        assert(acc + rest =~= acc);
    } else {
        let r0 = rest[0];
        assert(wf_value(r0));
        lemma_window_concat(s, pos, seq![','] + ser_value(r0), ser_elems_tail(rest.drop_first()));
        lemma_window_concat(s, pos, seq![','], ser_value(r0));
        lemma_window_char(s, pos, seq![','], 0);
        lemma_ser_first(r0);
        lemma_window_char(s, pos + 1, ser_value(r0), 0);
        lemma_sep_at(s, pos, ',');
        let m = pos + 1 + ser_value(r0).len();
        if rest.len() == 1 {
            assert(ser_elems_tail(rest.drop_first()).len() == 0);
            assert(m == pos + tt);
        } else {
            lemma_ser_pair_or_elem_tail_first_elem(rest.drop_first());
            lemma_window_char(s, m, ser_elems_tail(rest.drop_first()), 0);
        }
        lemma_parse_ser_value(s, pos + 1, r0);
        assert forall|j: int| 0 <= j < rest.drop_first().len() implies wf_value(
            rest.drop_first()[j],
        ) by {
            assert(rest.drop_first()[j] == rest[j + 1]);
        }
        lemma_parse_ser_elems_tail(s, m, rest.drop_first(), acc.push(r0));
        assert(acc.push(r0) + rest.drop_first() =~= acc + rest);
    }
}

/// A rendered pair standing anywhere, followed by a delimiter, parses as a
/// pair to exactly the rendered key and value.
proof fn lemma_parse_ser_pair(s: Seq<char>, pos: int, kv: (Seq<char>, ValueView))
    requires
        wf_key(kv.0),
        wf_value(kv.1),
        window(s, pos, ser_pair(kv)),
        delim_after(s, pos + ser_pair(kv).len()),
    ensures
        spec_parse_pair(s, pos) == Ok::<((Seq<char>, ValueView), int), ParseError>(
            (kv, pos + ser_pair(kv).len()),
        ),
    decreases kv,
{
    let k = kv.0;
    let kl = k.len() as int;
    lemma_window_concat(s, pos, seq!['"'] + k + seq!['"', ':'], ser_value(kv.1));
    lemma_window_concat(s, pos, seq!['"'] + k, seq!['"', ':']);
    lemma_window_concat(s, pos, seq!['"'], k);
    lemma_window_char(s, pos, seq!['"'], 0);
    lemma_window_char(s, pos + 1 + kl, seq!['"', ':'], 0);
    lemma_window_char(s, pos + 1 + kl, seq!['"', ':'], 1);
    assert(s[pos + 1 + kl] == '"');
    assert(s[pos + 2 + kl] == ':');
    assert forall|j: int| pos + 1 <= j < pos + 1 + kl implies s[j] != '"' by {
        lemma_window_char(s, pos + 1, k, j - (pos + 1));
    }
    lemma_scan_while_fixes(s, pos + 1, |c: char| c != '"', pos + 1 + kl);
    assert(s.subrange(pos + 1, pos + 1 + k.len()) == k);
    lemma_ser_first(kv.1);
    lemma_window_char(s, pos + 3 + kl, ser_value(kv.1), 0);
    lemma_sep_at(s, pos + 2 + kl, ':');
    lemma_parse_ser_value(s, pos + 3 + kl, kv.1);
    assert((kv.0, kv.1) == kv);
}

/// The rendered tail of an object, standing before the closing brace, is
/// consumed by [`spec_more_pairs`]; with pairwise distinct keys every
/// insertion appends, so exactly the rendered pairs are added.
proof fn lemma_parse_ser_pairs_tail(
    s: Seq<char>,
    pos: int,
    rest: Seq<(Seq<char>, ValueView)>,
    acc: Seq<(Seq<char>, ValueView)>,
)
    requires
        forall|j: int| 0 <= j < rest.len() ==> wf_key(rest[j].0) && wf_value(rest[j].1),
        keys_unique(acc + rest),
        window(s, pos, ser_pairs_tail(rest)),
        pos + ser_pairs_tail(rest).len() < s.len(),
        s[pos + ser_pairs_tail(rest).len()] == '}',
    ensures
        spec_more_pairs(s, pos, acc) == (acc + rest, pos + ser_pairs_tail(rest).len() as int),
    decreases rest,
{
    let tt = ser_pairs_tail(rest).len() as int;
    if rest.len() == 0 {
        lemma_sep_fail_at(s, pos, ',');
        assert(acc + rest =~= acc);
    } else {
        let r0 = rest[0];
        assert(wf_key(r0.0) && wf_value(r0.1));
        lemma_window_concat(s, pos, seq![','] + ser_pair(r0), ser_pairs_tail(rest.drop_first()));
        lemma_window_concat(s, pos, seq![','], ser_pair(r0));
        lemma_window_char(s, pos, seq![','], 0);
        lemma_ser_pair_first(r0);
        lemma_window_char(s, pos + 1, ser_pair(r0), 0);
        lemma_sep_at(s, pos, ',');
        let m = pos + 1 + ser_pair(r0).len();
        if rest.len() == 1 {
            assert(ser_pairs_tail(rest.drop_first()).len() == 0);
            assert(m == pos + tt);
        } else {
            lemma_ser_pairs_tail_first(rest.drop_first());
            lemma_window_char(s, m, ser_pairs_tail(rest.drop_first()), 0);
        }
        lemma_parse_ser_pair(s, pos + 1, r0);
        assert forall|i: int| 0 <= i < acc.len() implies acc[i].0 != r0.0 by {
            assert((acc + rest)[i] == acc[i]);
            assert((acc + rest)[acc.len() as int] == r0);
        }
        assert(insert_pair(acc, r0.0, r0.1) == acc.push((r0.0, r0.1)));
        assert((r0.0, r0.1) == r0);
        assert forall|j: int| 0 <= j < rest.drop_first().len() implies wf_key(
            rest.drop_first()[j].0,
        ) && wf_value(rest.drop_first()[j].1) by {
            assert(rest.drop_first()[j] == rest[j + 1]);
        }
        assert(acc.push(r0) + rest.drop_first() =~= acc + rest);
        lemma_parse_ser_pairs_tail(s, m, rest.drop_first(), acc.push(r0));
    }
}

/// The pair sequences an object parse can build: pairwise distinct keys,
/// keys free of quotes, and well-formed values.
pub open spec fn wf_pairs(ps: Seq<(Seq<char>, ValueView)>) -> bool {
    keys_unique(ps) && (forall|j: int|
        0 <= j < ps.len() ==> wf_key(ps[j].0) && wf_value(ps[j].1))
}

/// Insertion preserves the well-formedness of a pair sequence and never
/// shrinks it.
proof fn lemma_insert_pair_wf(ps: Seq<(Seq<char>, ValueView)>, k: Seq<char>, v: ValueView)
    requires
        wf_pairs(ps),
        wf_key(k),
        wf_value(v),
    ensures
        wf_pairs(insert_pair(ps, k, v)),
        insert_pair(ps, k, v).len() >= ps.len(),
{
    crate::value::lemma_insert_pair_unique(ps, k, v);
}

/// The whole run of digits at an offset.
proof fn lemma_digit_run_chars(s: Seq<char>, pos: int)
    requires
        0 <= pos <= s.len(),
    ensures
        pos <= digits_end(s, pos) <= s.len(),
        forall|j: int| pos <= j < digits_end(s, pos) ==> is_digit_char(s[j]),
{
    crate::model::lemma_scan_while_bounds(s, pos, |c: char| is_digit_char(c));
    crate::model::lemma_scan_while_chars(s, pos, |c: char| is_digit_char(c));
}

/// A parsed number is one the grammar can produce.
proof fn lemma_parse_number_wf(s: Seq<char>, pos: int)
    requires
        0 <= pos <= s.len(),
    ensures
        spec_parse_number(s, pos) matches Ok((n, p)) ==> wf_value(ValueView::Number(n)),
{
    let neg = 0 <= pos < s.len() && s[pos] == '-';
    let p = if neg {
        pos + 1
    } else {
        pos
    };
    lemma_digit_run_chars(s, p);
    let de = digits_end(s, p);
    if de != p {
        let ints = s.subrange(p, de);
        assert forall|j: int| 0 <= j < ints.len() implies is_digit_char(ints[j]) by {
            assert(ints[j] == s[p + j]);
        }
        if de < s.len() && s[de] == '.' {
            lemma_digit_run_chars(s, de + 1);
            let fe = digits_end(s, de + 1);
            if fe != de + 1 {
                let frac = s.subrange(de + 1, fe);
                assert forall|j: int| 0 <= j < frac.len() implies is_digit_char(frac[j]) by {
                    assert(frac[j] == s[de + 1 + j]);
                }
            }
        } else {
            crate::model::lemma_digits_val_nonneg(ints);
        }
    }
}

/// A parsed string is one the grammar can produce: it holds no quote.
proof fn lemma_parse_string_wf(s: Seq<char>, pos: int)
    requires
        0 <= pos <= s.len(),
    ensures
        spec_parse_string(s, pos) matches Ok((t, p)) ==> wf_key(t),
{
    if 0 <= pos < s.len() && s[pos] == '"' {
        crate::model::lemma_scan_while_bounds(s, pos + 1, |c: char| c != '"');
        crate::model::lemma_scan_while_chars(s, pos + 1, |c: char| c != '"');
        let q = crate::model::quote_end(s, pos + 1);
        if q < s.len() {
            let t = s.subrange(pos + 1, q);
            assert forall|j: int| 0 <= j < t.len() implies t[j] != '"' by {
                assert(t[j] == s[pos + 1 + j]);
            }
        }
    }
}

/// A parsed value is one the grammar can produce.
pub proof fn lemma_parse_value_wf(s: Seq<char>, pos: int)
    requires
        0 <= pos <= s.len(),
    ensures
        spec_parse_value(s, pos) matches Ok((v, p)) ==> wf_value(v),
    decreases s.len() - pos, 2int,
{
    lemma_parse_number_wf(s, pos);
    lemma_parse_string_wf(s, pos);
    lemma_parse_array_wf(s, pos);
    lemma_parse_object_wf(s, pos);
}

/// Every element of a parsed array is one the grammar can produce.
proof fn lemma_parse_array_wf(s: Seq<char>, pos: int)
    requires
        0 <= pos <= s.len(),
    ensures
        spec_parse_array(s, pos) matches Ok((es, p)) ==> forall|j: int|
            0 <= j < es.len() ==> wf_value(es[j]),
    decreases s.len() - pos, 1int,
{
    lemma_sep_progress(s, pos, '[');
    if let Ok(p0) = spec_sep_with_space(s, pos, '[') {
        lemma_parse_value_wf(s, p0);
        crate::model::lemma_value_progress(s, p0);
        if let Ok((v, p1)) = spec_parse_value(s, p0) {
            assert forall|j: int| 0 <= j < seq![v].len() implies wf_value(seq![v][j]) by {
                assert(seq![v][j] == v);
            }
            if pos < p1 <= s.len() {
                lemma_more_elems_wf(s, p1, seq![v]);
                let r = spec_more_elems(s, p1, seq![v]);
                assert(forall|j: int| 0 <= j < r.0.len() ==> wf_value(r.0[j]));
                assert(spec_parse_array(s, pos) == spec_close_array(s, r.1, r.0));
            }
        }
    }
}

/// The array tail keeps every accumulated element well-formed.
proof fn lemma_more_elems_wf(s: Seq<char>, pos: int, acc: Seq<ValueView>)
    requires
        0 <= pos <= s.len(),
        forall|j: int| 0 <= j < acc.len() ==> wf_value(acc[j]),
    ensures
        ({
            let (es, q) = spec_more_elems(s, pos, acc);
            forall|j: int| 0 <= j < es.len() ==> wf_value(es[j])
        }),
    decreases s.len() - pos, 1int,
{
    lemma_sep_progress(s, pos, ',');
    match spec_sep_with_space(s, pos, ',') {
        Err(_) => {
            assert(spec_more_elems(s, pos, acc) == (acc, pos));
        },
        Ok(u) => {
            lemma_parse_value_wf(s, u);
            crate::model::lemma_value_progress(s, u);
            match spec_parse_value(s, u) {
                Err(_) => {
                    assert(spec_more_elems(s, pos, acc) == (acc, pos));
                },
                Ok((v, p)) => {
                    assert(wf_value(v));
                    assert forall|j: int| 0 <= j < acc.push(v).len() implies wf_value(
                        acc.push(v)[j],
                    ) by {
                        if j < acc.len() {
                            assert(acc.push(v)[j] == acc[j]);
                        } else {
                            assert(acc.push(v)[j] == v);
                        }
                    }
                    if pos < p <= s.len() {
                        lemma_more_elems_wf(s, p, acc.push(v));
                        assert(spec_more_elems(s, pos, acc) == spec_more_elems(
                            s,
                            p,
                            acc.push(v),
                        ));
                    } else {
                        assert(spec_more_elems(s, pos, acc) == (acc.push(v), p));
                    }
                },
            }
        },
    }
}

/// A parsed pair has a quote-free key and a well-formed value.
proof fn lemma_parse_pair_wf(s: Seq<char>, pos: int)
    requires
        0 <= pos <= s.len(),
    ensures
        spec_parse_pair(s, pos) matches Ok(((k, v), p)) ==> wf_key(k) && wf_value(v),
    decreases s.len() - pos, 1int,
{
    lemma_parse_string_wf(s, pos);
    crate::model::lemma_string_progress(s, pos);
    if let Ok((k, kp)) = spec_parse_string(s, pos) {
        lemma_sep_progress(s, kp, ':');
        if let Ok(w) = spec_sep_with_space(s, kp, ':') {
            lemma_parse_value_wf(s, w);
        }
    }
}

/// The object tail keeps the accumulated pairs well-formed and never
/// shrinks them.
proof fn lemma_more_pairs_wf(s: Seq<char>, pos: int, acc: Seq<(Seq<char>, ValueView)>)
    requires
        0 <= pos <= s.len(),
        wf_pairs(acc),
    ensures
        ({
            let (ps, q) = spec_more_pairs(s, pos, acc);
            wf_pairs(ps) && ps.len() >= acc.len()
        }),
    decreases s.len() - pos, 1int,
{
    lemma_sep_progress(s, pos, ',');
    if let Ok(u) = spec_sep_with_space(s, pos, ',') {
        lemma_parse_pair_wf(s, u);
        crate::model::lemma_pair_progress(s, u);
        if let Ok(((k, v), p)) = spec_parse_pair(s, u) {
            if pos < p <= s.len() {
                lemma_insert_pair_wf(acc, k, v);
                lemma_more_pairs_wf(s, p, insert_pair(acc, k, v));
            }
        }
    }
}

/// A parsed object is one the grammar can produce: at least one pair, keys
/// pairwise distinct and quote-free, values well-formed.
proof fn lemma_parse_object_wf(s: Seq<char>, pos: int)
    requires
        0 <= pos <= s.len(),
    ensures
        spec_parse_object(s, pos) matches Ok((ps, p)) ==> ps.len() >= 1 && wf_pairs(ps),
    decreases s.len() - pos, 1int,
{
    lemma_sep_progress(s, pos, '{');
    if let Ok(p0) = spec_sep_with_space(s, pos, '{') {
        lemma_parse_pair_wf(s, p0);
        crate::model::lemma_pair_progress(s, p0);
        if let Ok(((k, v), p1)) = spec_parse_pair(s, p0) {
            let acc0 = insert_pair(Seq::empty(), k, v);
            assert(wf_pairs(Seq::<(Seq<char>, ValueView)>::empty()));
            lemma_insert_pair_wf(Seq::empty(), k, v);
            assert(acc0.len() >= 1);
            if pos < p1 <= s.len() {
                lemma_more_pairs_wf(s, p1, acc0);
            }
        }
    }
}

/// The round-trip law: every value the grammar can produce, rendered in its
/// canonical form, parses back to an equal value tree with the whole text
/// consumed.
pub proof fn lemma_parse_round_trip(v: ValueView)
    requires
        wf_value(v),
    ensures
        spec_parse_value(ser_value(v), 0) == Ok::<(ValueView, int), ParseError>(
            (v, ser_value(v).len() as int),
        ),
{
    let s = ser_value(v);
    assert(s.subrange(0, s.len() as int) =~= s);
    lemma_parse_ser_value(s, 0, v);
}

/// Whatever a parse returns re-serializes and re-parses to an equal tree:
/// the parse result is always a value the grammar can produce, and such a
/// value survives the round trip.
pub proof fn lemma_reserialize_round_trip(s: Seq<char>)
    ensures
        spec_parse_value(s, 0) matches Ok((v, p)) ==> spec_parse_value(ser_value(v), 0)
            == Ok::<(ValueView, int), ParseError>((v, ser_value(v).len() as int)),
{
    if s.len() >= 0 {
        lemma_parse_value_wf(s, 0);
        if let Ok((v, p)) = spec_parse_value(s, 0) {
            lemma_parse_round_trip(v);
        }
    }
}

} // verus!
