//! The tagged-union result of a successful parse, and its mathematical view.
//!
//! A `Value` tree is immutable after construction and entirely tree-shaped:
//! each container exclusively owns its children.  Contracts never speak of
//! the executable tree directly; they speak of its view, in which text is a
//! `Seq<char>` and containers are `Seq`s.

use vstd::prelude::*;

verus! {

/// A decimal literal with a fractional part, kept exactly as written:
/// an optional leading minus, the digits of the integer part, and the
/// digits of the fractional part.  The presence of a `.` in the source is
/// the sole discriminator between integers and decimals, so the literal is
/// preserved verbatim; rendering it as a 64-bit float is left to callers
/// outside the verified core.
#[derive(Debug, PartialEq)]
pub struct FloatLit {
    pub neg: bool,
    pub int_part: String,
    pub frac_part: String,
}

/// A numeric literal: an integer when the source had no `.`, a decimal
/// literal when it did.
#[derive(Debug, PartialEq)]
pub enum Num {
    Int(i64),
    Float(FloatLit),
}

/// The result of a successful parse.  Objects keep their pairs in first
/// insertion order with unique keys; a later pair with an already-present
/// key overwrites that key's value (last write wins).
#[derive(Debug, PartialEq)]
pub enum Value {
    Null,
    Bool(bool),
    Number(Num),
    String(String),
    Array(Vec<Value>),
    Object(Vec<(String, Value)>),
}

/// The view of a [`FloatLit`]: the same three components over `Seq<char>`.
pub struct FloatLitView {
    pub neg: bool,
    pub int_part: Seq<char>,
    pub frac_part: Seq<char>,
}

/// The view of a [`Num`].
pub enum NumView {
    Int(i64),
    Float(FloatLitView),
}

/// The view of a [`Value`].
pub enum ValueView {
    Null,
    Bool(bool),
    Number(NumView),
    Str(Seq<char>),
    Array(Seq<ValueView>),
    Object(Seq<(Seq<char>, ValueView)>),
}

impl View for FloatLit {
    type V = FloatLitView;

    open spec fn view(&self) -> FloatLitView {
        FloatLitView { neg: self.neg, int_part: self.int_part@, frac_part: self.frac_part@ }
    }
}

impl View for Num {
    type V = NumView;

    open spec fn view(&self) -> NumView {
        match self {
            Num::Int(i) => NumView::Int(*i),
            Num::Float(f) => NumView::Float(f@),
        }
    }
}

/// The mathematical value that a [`Value`] tree stands for.
pub open spec fn value_view(v: Value) -> ValueView
    decreases v,
{
    match v {
        Value::Null => ValueView::Null,
        Value::Bool(b) => ValueView::Bool(b),
        Value::Number(n) => ValueView::Number(n@),
        Value::String(s) => ValueView::Str(s@),
        Value::Array(vs) => ValueView::Array(views_of(vs@)),
        Value::Object(ps) => ValueView::Object(pair_views_of(ps@)),
    }
}

/// The views of the elements of a sequence of values.
pub open spec fn views_of(s: Seq<Value>) -> Seq<ValueView>
    decreases s,
{
    if s.len() == 0 {
        Seq::empty()
    } else {
        views_of(s.drop_last()).push(value_view(s.last()))
    }
}

/// The views of the pairs of an object's backing vector.
pub open spec fn pair_views_of(s: Seq<(String, Value)>) -> Seq<(Seq<char>, ValueView)>
    decreases s,
{
    if s.len() == 0 {
        Seq::empty()
    } else {
        pair_views_of(s.drop_last()).push((s.last().0@, value_view(s.last().1)))
    }
}

impl View for Value {
    type V = ValueView;

    open spec fn view(&self) -> ValueView {
        value_view(*self)
    }
}

/// [`pair_views_of`] maps the pair views pointwise.
pub proof fn lemma_pair_views_of(s: Seq<(String, Value)>)
    ensures
        pair_views_of(s).len() == s.len(),
        forall|i: int|
            0 <= i < s.len() ==> pair_views_of(s)[i] == (s[i].0@, value_view(s[i].1)),
    decreases s.len(),
{
    if s.len() > 0 {
        lemma_pair_views_of(s.drop_last());
    }
}

/// Appending a value appends its view.
pub proof fn lemma_views_of_push(s: Seq<Value>, v: Value)
    ensures
        views_of(s.push(v)) == views_of(s).push(value_view(v)),
{
    assert(s.push(v).drop_last() =~= s);
}

/// Appending a pair appends its view.
pub proof fn lemma_pair_views_of_push(s: Seq<(String, Value)>, kv: (String, Value))
    ensures
        pair_views_of(s.push(kv)) == pair_views_of(s).push((kv.0@, value_view(kv.1))),
{
    assert(s.push(kv).drop_last() =~= s);
}

/// The keys of an object view's pair sequence are pairwise distinct.
pub open spec fn keys_unique(ps: Seq<(Seq<char>, ValueView)>) -> bool {
    forall|i: int, j: int| 0 <= i < j < ps.len() ==> ps[i].0 != ps[j].0
}

/// Standard mapping insertion over a pair sequence: when the key is already
/// present its value is replaced in place, otherwise the pair is appended.
pub open spec fn insert_pair(
    ps: Seq<(Seq<char>, ValueView)>,
    key: Seq<char>,
    v: ValueView,
) -> Seq<(Seq<char>, ValueView)> {
    if exists|i: int| 0 <= i < ps.len() && ps[i].0 == key {
        let i = choose|i: int| 0 <= i < ps.len() && ps[i].0 == key;
        ps.update(i, (key, v))
    } else {
        ps.push((key, v))
    }
}

/// Insertion preserves key uniqueness.
pub proof fn lemma_insert_pair_unique(
    ps: Seq<(Seq<char>, ValueView)>,
    key: Seq<char>,
    v: ValueView,
)
    requires
        keys_unique(ps),
    ensures
        keys_unique(insert_pair(ps, key, v)),
{
}

} // verus!
