//! The universal literal/parameter value of the configuration language, and
//! the errors a parse can end in.
//!
//! A number literal is kept exactly, as a signed decimal
//! `(-1)^neg * mantissa * 10^exp`, so that values survive a render/parse
//! round trip unchanged.

use vstd::prelude::*;

verus! {

broadcast use vstd::std_specs::vec::group_vec_axioms;

/// A decimal number in canonical form: the mantissa never ends in a zero
/// digit unless it is zero, and zero itself is `{ neg: false, mantissa: 0, exp: 0 }`.
#[derive(Debug, Clone, Copy, PartialEq, Eq, Structural)]
pub struct Num {
    pub neg: bool,
    pub mantissa: u64,
    pub exp: i32,
}

impl Num {
    /// Canonical form: no trailing zero digit in the mantissa, and a single
    /// representation of zero.
    pub open spec fn wf(self) -> bool {
        &&& (self.mantissa == 0 ==> !self.neg && self.exp == 0)
        &&& (self.mantissa != 0 ==> self.mantissa % 10 != 0)
    }
}

/// The universal parameter/literal value: string, boolean, ordered list,
/// key-unique mapping, or decimal number. A `Hash` keeps its entries in
/// insertion order with unique keys; a duplicate key written later in the
/// source overwrites the earlier entry.
#[derive(Debug, PartialEq)]
pub enum Value {
    Str(Vec<char>),
    Boolean(bool),
    List(Vec<Value>),
    Hash(Vec<(Vec<char>, Value)>),
    Number(Num),
}

/// The mathematical model of a `Value`.
pub enum SpecValue {
    Str(Seq<char>),
    Boolean(bool),
    List(Seq<SpecValue>),
    Hash(Seq<(Seq<char>, SpecValue)>),
    Number(Num),
}

/// The model of a sequence of values, element by element.
pub open spec fn view_values(l: Seq<Value>) -> Seq<SpecValue>
    decreases l,
{
    if l.len() == 0 {
        Seq::empty()
    } else {
        seq![l[0]@] + view_values(l.drop_first())
    }
}

/// The model of a sequence of hash entries, element by element.
pub open spec fn view_entries(h: Seq<(Vec<char>, Value)>) -> Seq<(Seq<char>, SpecValue)>
    decreases h,
{
    if h.len() == 0 {
        Seq::empty()
    } else {
        seq![(h[0].0@, h[0].1@)] + view_entries(h.drop_first())
    }
}

impl View for Value {
    type V = SpecValue;

    open spec fn view(&self) -> SpecValue
        decreases self,
    {
        match self {
            Value::Str(s) => SpecValue::Str(s@),
            Value::Boolean(b) => SpecValue::Boolean(*b),
            Value::List(l) => SpecValue::List(view_values(l@)),
            Value::Hash(h) => SpecValue::Hash(view_entries(h@)),
            Value::Number(n) => SpecValue::Number(*n),
        }
    }
}

/// `view_values` agrees with pointwise indexing.
pub proof fn lemma_view_values_index(l: Seq<Value>)
    ensures
        view_values(l).len() == l.len(),
        forall|i: int| 0 <= i < l.len() ==> view_values(l)[i] == l[i]@,
    decreases l.len(),
{
    if l.len() > 0 {
        lemma_view_values_index(l.drop_first());
        assert(view_values(l) == seq![l[0]@] + view_values(l.drop_first()));
        assert(view_values(l).len() == l.len());
        assert forall|i: int| 0 <= i < l.len() implies view_values(l)[i] == l[i]@ by {
            if i > 0 {
                assert(view_values(l)[i] == view_values(l.drop_first())[i - 1]);
                assert(l.drop_first()[i - 1] == l[i]);
            }
        }
    } else {
        assert(view_values(l) == Seq::<SpecValue>::empty());
    }
}

/// `view_entries` agrees with pointwise indexing.
pub proof fn lemma_view_entries_index(h: Seq<(Vec<char>, Value)>)
    ensures
        view_entries(h).len() == h.len(),
        forall|i: int| 0 <= i < h.len() ==> view_entries(h)[i] == (h[i].0@, h[i].1@),
    decreases h.len(),
{
    if h.len() > 0 {
        lemma_view_entries_index(h.drop_first());
        assert(view_entries(h) == seq![(h[0].0@, h[0].1@)] + view_entries(h.drop_first()));
        assert(view_entries(h).len() == h.len());
        assert forall|i: int| 0 <= i < h.len() implies view_entries(h)[i] == (h[i].0@, h[i].1@) by {
            if i > 0 {
                assert(view_entries(h)[i] == view_entries(h.drop_first())[i - 1]);
                assert(h.drop_first()[i - 1] == h[i]);
            }
        }
    }
}

impl Clone for Value {
    /// A deep copy that is provably equal to the original, so that cloned
    /// values can stand in contracts.
    #[verifier::loop_isolation(false)]
    fn clone(&self) -> (r: Self)
        ensures
            r@ == self@,
        decreases self,
    {
        match self {
            Value::Str(s) => Value::Str(s.clone()),
            Value::Boolean(b) => Value::Boolean(*b),
            Value::List(l) => {
                let mut out: Vec<Value> = Vec::new();
                let mut k: usize = 0;
                while k < l.len()
                    invariant
                        k <= l.len(),
                        out@.len() == k as int,
                        forall|j: int| 0 <= j < k ==> out@[j]@ == l@[j]@,
                    decreases l.len() - k,
                {
                    proof {
                        assert(decreases_to!(*self => l@[k as int]));
                    }
                    out.push(l[k].clone());
                    k = k + 1;
                }
                proof {
                    lemma_view_values_index(out@);
                    lemma_view_values_index(l@);
                    assert(view_values(out@) =~= view_values(l@));
                }
                Value::List(out)
            },
            Value::Hash(h) => {
                let mut out: Vec<(Vec<char>, Value)> = Vec::new();
                let mut k: usize = 0;
                while k < h.len()
                    invariant
                        k <= h.len(),
                        out@.len() == k as int,
                        forall|j: int| 0 <= j < k ==> out@[j].0@ == h@[j].0@ && out@[j].1@ == h@[j].1@,
                    decreases h.len() - k,
                {
                    proof {
                        assert(decreases_to!(*self => h@[k as int].1));
                    }
                    out.push((h[k].0.clone(), h[k].1.clone()));
                    k = k + 1;
                }
                proof {
                    lemma_view_entries_index(out@);
                    lemma_view_entries_index(h@);
                    assert(view_entries(out@) =~= view_entries(h@));
                }
                Value::Hash(out)
            },
            Value::Number(n) => Value::Number(*n),
        }
    }
}

/// What a failed parse reports: a grammar mismatch at a position, an
/// unsupported escape at a position, a plugin name the registry does not
/// know, or an unbalanced parenthesis in a condition expression.
#[derive(Debug, PartialEq, Clone)]
pub enum ParseError {
    Syntax { pos: usize },
    InvalidEscape { pos: usize },
    UnknownPlugin(Vec<char>),
    MismatchedParenthesis,
}

/// The model of a `ParseError`.
pub enum SpecParseError {
    Syntax { pos: int },
    InvalidEscape { pos: int },
    UnknownPlugin(Seq<char>),
    MismatchedParenthesis,
}

impl View for ParseError {
    type V = SpecParseError;

    open spec fn view(&self) -> SpecParseError {
        match self {
            ParseError::Syntax { pos } => SpecParseError::Syntax { pos: *pos as int },
            ParseError::InvalidEscape { pos } => SpecParseError::InvalidEscape { pos: *pos as int },
            ParseError::UnknownPlugin(n) => SpecParseError::UnknownPlugin(n@),
            ParseError::MismatchedParenthesis => SpecParseError::MismatchedParenthesis,
        }
    }
}


/// Viewing commutes with appending one value.
pub proof fn lemma_view_values_push(l: Seq<Value>, v: Value)
    ensures
        view_values(l.push(v)) == view_values(l).push(v@),
{
    lemma_view_values_index(l);
    lemma_view_values_index(l.push(v));
    assert(view_values(l.push(v)) =~= view_values(l).push(v@));
}

} // verus!
