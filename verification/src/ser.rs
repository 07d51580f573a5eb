//! The canonical rendering of a value, as a specification.
//!
//! Each well-formed value has one canonical text: no whitespace, elements
//! and pairs separated by single commas, keys and strings quoted.  This is
//! the companion serializer that [`crate::laws`] parses back: every text it
//! produces is constructible by the grammar, and parsing it returns the
//! value it was rendered from.

use vstd::prelude::*;

use crate::model::digit_val;
use crate::model::digits_val;
use crate::model::is_digit_char;
use crate::model::lit_false;
use crate::model::lit_null;
use crate::model::lit_true;
use crate::value::FloatLitView;
use crate::value::NumView;
use crate::value::ValueView;
use crate::value::keys_unique;

verus! {

/// The digit character for a value between zero and nine.
pub open spec fn digit_of(d: int) -> char {
    if d == 0 {
        '0'
    } else if d == 1 {
        '1'
    } else if d == 2 {
        '2'
    } else if d == 3 {
        '3'
    } else if d == 4 {
        '4'
    } else if d == 5 {
        '5'
    } else if d == 6 {
        '6'
    } else if d == 7 {
        '7'
    } else if d == 8 {
        '8'
    } else {
        '9'
    }
}

/// The decimal digits of `n`, most significant first; empty when `n` is not
/// positive.
pub open spec fn dec_digits(n: int) -> Seq<char>
    decreases n,
{
    if n <= 0 {
        Seq::empty()
    } else {
        dec_digits(n / 10).push(digit_of(n % 10))
    }
}

/// The digits of a positive number form a non-empty digit run that names it.
pub proof fn lemma_dec_digits(n: int)
    requires
        n >= 0,
    ensures
        forall|j: int| 0 <= j < dec_digits(n).len() ==> is_digit_char(dec_digits(n)[j]),
        digits_val(dec_digits(n)) == n,
        n > 0 ==> dec_digits(n).len() > 0,
    decreases n,
{
    if n > 0 {
        vstd::arithmetic::div_mod::lemma_fundamental_div_mod(n, 10);
        vstd::arithmetic::div_mod::lemma_mod_bound(n, 10);
        lemma_dec_digits(n / 10);
        let ds = dec_digits(n);
        assert(ds.drop_last() =~= dec_digits(n / 10));
        assert(digit_val(ds.last()) == n % 10);
    }
}

/// The canonical rendering of an integer.
pub open spec fn ser_int(i: int) -> Seq<char> {
    if i < 0 {
        seq!['-'] + dec_digits(-i)
    } else if i == 0 {
        seq!['0']
    } else {
        dec_digits(i)
    }
}

/// The canonical rendering of a decimal literal.
pub open spec fn ser_float(f: FloatLitView) -> Seq<char> {
    (if f.neg {
        seq!['-']
    } else {
        Seq::<char>::empty()
    }) + f.int_part + seq!['.'] + f.frac_part
}

/// The canonical rendering of a numeric literal.
pub open spec fn ser_num(n: NumView) -> Seq<char> {
    match n {
        NumView::Int(i) => ser_int(i as int),
        NumView::Float(f) => ser_float(f),
    }
}

/// The canonical rendering of a value.
pub open spec fn ser_value(v: ValueView) -> Seq<char>
    decreases v,
{
    match v {
        ValueView::Null => lit_null(),
        ValueView::Bool(b) => if b {
            lit_true()
        } else {
            lit_false()
        },
        ValueView::Number(n) => ser_num(n),
        ValueView::Str(t) => seq!['"'] + t + seq!['"'],
        ValueView::Array(es) => seq!['['] + ser_elems(es) + seq![']'],
        ValueView::Object(ps) => seq!['{'] + ser_pairs(ps) + seq!['}'],
    }
}

/// The elements of an array, comma-separated.
pub open spec fn ser_elems(es: Seq<ValueView>) -> Seq<char>
    decreases es,
{
    if es.len() == 0 {
        Seq::empty()
    } else {
        ser_value(es[0]) + ser_elems_tail(es.drop_first())
    }
}

/// The later elements of an array, each preceded by a comma.
pub open spec fn ser_elems_tail(es: Seq<ValueView>) -> Seq<char>
    decreases es,
{
    if es.len() == 0 {
        Seq::empty()
    } else {
        seq![','] + ser_value(es[0]) + ser_elems_tail(es.drop_first())
    }
}

/// One `key: value` pair: the quoted key, a colon, and the value.
pub open spec fn ser_pair(kv: (Seq<char>, ValueView)) -> Seq<char>
    decreases kv,
{
    seq!['"'] + kv.0 + seq!['"', ':'] + ser_value(kv.1)
}

/// The pairs of an object, comma-separated.
pub open spec fn ser_pairs(ps: Seq<(Seq<char>, ValueView)>) -> Seq<char>
    decreases ps,
{
    if ps.len() == 0 {
        Seq::empty()
    } else {
        ser_pair(ps[0]) + ser_pairs_tail(ps.drop_first())
    }
}

/// The later pairs of an object, each preceded by a comma.
pub open spec fn ser_pairs_tail(ps: Seq<(Seq<char>, ValueView)>) -> Seq<char>
    decreases ps,
{
    if ps.len() == 0 {
        Seq::empty()
    } else {
        seq![','] + ser_pair(ps[0]) + ser_pairs_tail(ps.drop_first())
    }
}

/// The values the grammar can produce.  Integer literals can name any
/// signed 64-bit value except the very smallest (the grammar reads the
/// magnitude first, which must itself fit); decimal literals have at least
/// one digit on each side of the point; a string never holds a `"`, since
/// the first `"` would close the literal; and an object holds at least one
/// pair, with pairwise distinct keys since a repeated key collapses.
pub open spec fn wf_value(v: ValueView) -> bool
    decreases v,
{
    match v {
        ValueView::Null => true,
        ValueView::Bool(_) => true,
        ValueView::Number(NumView::Int(i)) => i > i64::MIN,
        ValueView::Number(NumView::Float(f)) => f.int_part.len() > 0 && f.frac_part.len() > 0
            && (forall|j: int| 0 <= j < f.int_part.len() ==> is_digit_char(f.int_part[j]))
            && (forall|j: int| 0 <= j < f.frac_part.len() ==> is_digit_char(f.frac_part[j])),
        ValueView::Str(t) => forall|j: int| 0 <= j < t.len() ==> t[j] != '"',
        ValueView::Array(es) => forall|j: int| 0 <= j < es.len() ==> wf_value(es[j]),
        ValueView::Object(ps) => ps.len() >= 1 && keys_unique(ps) && (forall|j: int|
            0 <= j < ps.len() ==> wf_key(ps[j].0)) && (forall|j: int|
            0 <= j < ps.len() ==> wf_value(ps[j].1)),
    }
}

/// A key the grammar can produce: free of `"`.
pub open spec fn wf_key(k: Seq<char>) -> bool {
    forall|j: int| 0 <= j < k.len() ==> k[j] != '"'
}

} // verus!
