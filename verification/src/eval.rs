//! The expression engine: tokenizes a conditional-guard string into
//! literals, field-path variables, operators and parentheses, and compiles
//! the infix token sequence to postfix form with the shunting-yard
//! algorithm.

use vstd::prelude::*;
use crate::types::{ParseError, SpecParseError, Value, SpecValue};
use crate::parsers::{
    Parsed, SpecParsed, res_ok, skip_ge, spec_ident_end, spec_value, sp, snake_case, value,
};

verus! {

/// A binary operator of a condition expression: six comparisons and the two
/// boolean combinators.
#[derive(Debug, Clone, Copy, PartialEq, Eq, Structural)]
pub enum Operator {
    Eq,
    Ne,
    Gt,
    Lt,
    Gte,
    Lte,
    And,
    Or,
}

/// Operator priority: every comparison outranks the boolean combinators.
pub open spec fn spec_prio(t: Operator) -> u8 {
    match t {
        Operator::Eq => 1,
        Operator::Ne => 1,
        Operator::Gt => 1,
        Operator::Lt => 1,
        Operator::Gte => 1,
        Operator::Lte => 1,
        _ => 0,
    }
}

/// The priority of an operator: comparisons bind tighter than `AND`/`OR`.
pub fn prio(t: &Operator) -> (r: u8)
    ensures
        r == spec_prio(*t),
{
    match t {
        Operator::Eq => 1,
        Operator::Ne => 1,
        Operator::Gt => 1,
        Operator::Lt => 1,
        Operator::Gte => 1,
        Operator::Lte => 1,
        Operator::And => 0,
        Operator::Or => 0,
    }
}

impl PartialOrd for Operator {
    /// Operators order by priority alone; equal-priority operators compare
    /// as equal in rank.
    fn partial_cmp(&self, other: &Operator) -> (r: Option<core::cmp::Ordering>) {
        let a = prio(self);
        let b = prio(other);
        if a < b {
            Some(core::cmp::Ordering::Less)
        } else if a == b {
            Some(core::cmp::Ordering::Equal)
        } else {
            Some(core::cmp::Ordering::Greater)
        }
    }
}

impl vstd::std_specs::cmp::PartialOrdSpecImpl for Operator {
    open spec fn obeys_partial_cmp_spec() -> bool {
        true
    }

    open spec fn partial_cmp_spec(&self, other: &Operator) -> Option<core::cmp::Ordering> {
        if spec_prio(*self) < spec_prio(*other) {
            Some(core::cmp::Ordering::Less)
        } else if spec_prio(*self) == spec_prio(*other) {
            Some(core::cmp::Ordering::Equal)
        } else {
            Some(core::cmp::Ordering::Greater)
        }
    }
}

/// A token of a condition expression.
#[derive(Debug, PartialEq)]
pub enum Token {
    Value(Value),
    Variable(Vec<Vec<char>>),
    Operator(Operator),
    RPar,
    LPar,
}

impl View for Operator {
    type V = Operator;

    open spec fn view(&self) -> Operator {
        *self
    }
}

/// The mathematical model of a `Token`.
pub enum SpecToken {
    Value(SpecValue),
    Variable(Seq<Seq<char>>),
    Operator(Operator),
    RPar,
    LPar,
}

impl View for Token {
    type V = SpecToken;

    open spec fn view(&self) -> SpecToken {
        match self {
            Token::Value(v) => SpecToken::Value(v@),
            Token::Variable(ks) => SpecToken::Variable(Seq::new(ks@.len(), |t: int| ks@[t]@)),
            Token::Operator(o) => SpecToken::Operator(*o),
            Token::RPar => SpecToken::RPar,
            Token::LPar => SpecToken::LPar,
        }
    }
}

impl Clone for Token {
    /// A deep copy provably equal to the original.
    #[verifier::loop_isolation(false)]
    fn clone(&self) -> (r: Self)
        ensures
            r@ == self@,
    {
        match self {
            Token::Value(v) => Token::Value(v.clone()),
            Token::Variable(ks) => {
                let mut out: Vec<Vec<char>> = Vec::new();
                let mut k: usize = 0;
                while k < ks.len()
                    invariant
                        k <= ks.len(),
                        out@.len() == k as int,
                        forall|t: int| 0 <= t < k ==> out@[t]@ == ks@[t]@,
                    decreases ks.len() - k,
                {
                    out.push(ks[k].clone());
                    k = k + 1;
                }
                proof {
                    assert(Seq::new(out@.len(), |t: int| out@[t]@) =~= Seq::new(
                        ks@.len(),
                        |t: int| ks@[t]@,
                    ));
                }
                Token::Variable(out)
            },
            Token::Operator(o) => Token::Operator(*o),
            Token::RPar => Token::RPar,
            Token::LPar => Token::LPar,
        }
    }
}

/// The model of a token sequence, element by element.
pub open spec fn view_tokens(l: Seq<Token>) -> Seq<SpecToken>
    decreases l,
{
    if l.len() == 0 {
        Seq::empty()
    } else {
        seq![l[0]@] + view_tokens(l.drop_first())
    }
}

/// `view_tokens` agrees with pointwise indexing.
pub proof fn lemma_view_tokens_index(l: Seq<Token>)
    ensures
        view_tokens(l).len() == l.len(),
        forall|i: int| 0 <= i < l.len() ==> view_tokens(l)[i] == l[i]@,
    decreases l.len(),
{
    if l.len() > 0 {
        lemma_view_tokens_index(l.drop_first());
        assert(view_tokens(l) == seq![l[0]@] + view_tokens(l.drop_first()));
        assert forall|i: int| 0 <= i < l.len() implies view_tokens(l)[i] == l[i]@ by {
            if i > 0 {
                assert(view_tokens(l)[i] == view_tokens(l.drop_first())[i - 1]);
                assert(l.drop_first()[i - 1] == l[i]);
            }
        }
    }
}

/// Viewing commutes with appending one token.
pub proof fn lemma_view_tokens_push(l: Seq<Token>, t: Token)
    ensures
        view_tokens(l.push(t)) == view_tokens(l).push(t@),
{
    lemma_view_tokens_index(l);
    lemma_view_tokens_index(l.push(t));
    assert(view_tokens(l.push(t)) =~= view_tokens(l).push(t@));
}

/// An operator written at `i`, longest spelling first.
pub open spec fn spec_operator(s: Seq<char>, i: int) -> SpecParsed<Operator> {
    if i + 2 <= s.len() && s[i] == '=' && s[i + 1] == '=' {
        SpecParsed::Found(Operator::Eq, i + 2)
    } else if i + 2 <= s.len() && s[i] == '!' && s[i + 1] == '=' {
        SpecParsed::Found(Operator::Ne, i + 2)
    } else if i + 2 <= s.len() && s[i] == '>' && s[i + 1] == '=' {
        SpecParsed::Found(Operator::Gte, i + 2)
    } else if i + 2 <= s.len() && s[i] == '<' && s[i + 1] == '=' {
        SpecParsed::Found(Operator::Lte, i + 2)
    } else if i + 1 <= s.len() && s[i] == '>' {
        SpecParsed::Found(Operator::Gt, i + 1)
    } else if i + 1 <= s.len() && s[i] == '<' {
        SpecParsed::Found(Operator::Lt, i + 1)
    } else if i + 3 <= s.len() && s[i] == 'A' && s[i + 1] == 'N' && s[i + 2] == 'D' {
        SpecParsed::Found(Operator::And, i + 3)
    } else if i + 2 <= s.len() && s[i] == 'O' && s[i + 1] == 'R' {
        SpecParsed::Found(Operator::Or, i + 2)
    } else {
        SpecParsed::NoMatch
    }
}

/// Recognizes an operator, longest spelling first.
pub fn operator(input: &[char], i: usize) -> (r: Parsed<Operator>)
    requires
        i <= input@.len(),
    ensures
        r matches Parsed::Found(o, j) ==> spec_operator(input@, i as int) == SpecParsed::Found(o, j as int),
        r is NoMatch ==> spec_operator(input@, i as int) is NoMatch,
        !(r is Fail),
        r matches Parsed::Found(_, j) ==> i < j <= input@.len(),
{
    let n = input.len();
    if n - i >= 2 && input[i] == '=' && input[i + 1] == '=' {
        Parsed::Found(Operator::Eq, i + 2)
    } else if n - i >= 2 && input[i] == '!' && input[i + 1] == '=' {
        Parsed::Found(Operator::Ne, i + 2)
    } else if n - i >= 2 && input[i] == '>' && input[i + 1] == '=' {
        Parsed::Found(Operator::Gte, i + 2)
    } else if n - i >= 2 && input[i] == '<' && input[i + 1] == '=' {
        Parsed::Found(Operator::Lte, i + 2)
    } else if n - i >= 1 && input[i] == '>' {
        Parsed::Found(Operator::Gt, i + 1)
    } else if n - i >= 1 && input[i] == '<' {
        Parsed::Found(Operator::Lt, i + 1)
    } else if n - i >= 3 && input[i] == 'A' && input[i + 1] == 'N' && input[i + 2] == 'D' {
        Parsed::Found(Operator::And, i + 3)
    } else if n - i >= 2 && input[i] == 'O' && input[i + 1] == 'R' {
        Parsed::Found(Operator::Or, i + 2)
    } else {
        Parsed::NoMatch
    }
}

/// Field-path keys `[seg]` written one after another at `i`; the segments
/// collected so far are in `acc`. A segment is a `snake_case` identifier.
/// Stops before the first malformed key.
pub open spec fn spec_var_keys(s: Seq<char>, i: int, acc: Seq<Seq<char>>) -> SpecParsed<
    Seq<Seq<char>>,
>
    decreases s.len() - i,
{
    if 0 <= i && i < s.len() && s[i] == '[' && i + 1 < s.len() && crate::parsers::is_ident_start(
        s[i + 1],
    ) && {
        let e = spec_ident_end(s, i + 2);
        e >= i + 2 && e < s.len() && s[e] == ']'
    } {
        let e = spec_ident_end(s, i + 2);
        spec_var_keys(s, e + 1, acc.push(s.subrange(i + 1, e)))
    } else {
        if acc.len() == 0 {
            SpecParsed::NoMatch
        } else {
            SpecParsed::Found(acc, i)
        }
    }
}

/// Recognizes a field-path variable: one or more `[segment]` keys.
#[verifier::loop_isolation(false)]
pub fn variable(input: &[char], i: usize) -> (r: Parsed<Vec<Vec<char>>>)
    requires
        i <= input@.len(),
    ensures
        r matches Parsed::Found(ks, j) ==> spec_var_keys(input@, i as int, Seq::empty())
            == SpecParsed::Found(Seq::new(ks@.len(), |t: int| ks@[t]@), j as int) && i < j
            <= input@.len(),
        r is NoMatch ==> spec_var_keys(input@, i as int, Seq::empty())
            == SpecParsed::<Seq<Seq<char>>>::NoMatch,
        !(r is Fail),
{
    let ghost s0 = input@;
    let mut acc: Vec<Vec<char>> = Vec::new();
    let mut cur: usize = i;
    proof {
        assert(Seq::new(acc@.len(), |t: int| acc@[t]@) =~= Seq::<Seq<char>>::empty());
    }
    loop
        invariant
            i <= cur <= input@.len(),
            acc@.len() == 0 ==> cur == i,
            acc@.len() > 0 ==> cur > i,
            spec_var_keys(s0, i as int, Seq::empty()) == spec_var_keys(
                s0,
                cur as int,
                Seq::new(acc@.len(), |t: int| acc@[t]@),
            ),
        decreases input@.len() - cur,
    {
        let ghost accv = Seq::new(acc@.len(), |t: int| acc@[t]@);
        let mut matched: bool = false;
        if cur < input.len() && input[cur] == '[' {
            match snake_case(input, cur + 1) {
                Parsed::Found(name, e) => {
                    if e < input.len() && input[e] == ']' {
                        proof {
                            assert(crate::parsers::is_ident_start(s0[cur + 1]));
                            assert(spec_ident_end(s0, cur + 2) == e as int);
                            assert(name@ == s0.subrange(cur + 1, e as int));
                            assert(accv.push(name@) =~= Seq::new(
                                acc@.push(name).len(),
                                |t: int| acc@.push(name)[t]@,
                            ));
                        }
                        acc.push(name);
                        cur = e + 1;
                        matched = true;
                    }
                },
                _ => {},
            }
        }
        if !matched {
            if acc.len() == 0 {
                return Parsed::NoMatch;
            }
            return Parsed::Found(acc, cur);
        }
    }
}


/// A token: a literal value, an operator, a parenthesis or a field-path
/// variable, after whitespace and comments. A text beginning with `[` is
/// read as a list when it parses as one, else as a field path, as in the
/// source grammar where value alternatives are tried first.
pub open spec fn spec_token(s: Seq<char>, i: int) -> SpecParsed<SpecToken> {
    let j = skip_ge(s, i);
    if j >= s.len() {
        SpecParsed::NoMatch
    } else if s[j] == '[' {
        match spec_value(s, j) {
            SpecParsed::Found(v, p) => SpecParsed::Found(SpecToken::Value(v), p),
            SpecParsed::Fail(e) => match spec_var_keys(s, j, Seq::empty()) {
                SpecParsed::Found(ks, p) => SpecParsed::Found(SpecToken::Variable(ks), p),
                _ => SpecParsed::Fail(e),
            },
            SpecParsed::NoMatch => match spec_var_keys(s, j, Seq::empty()) {
                SpecParsed::Found(ks, p) => SpecParsed::Found(SpecToken::Variable(ks), p),
                _ => SpecParsed::NoMatch,
            },
        }
    } else {
        match spec_value(s, j) {
            SpecParsed::Found(v, p) => SpecParsed::Found(SpecToken::Value(v), p),
            SpecParsed::Fail(e) => SpecParsed::Fail(e),
            SpecParsed::NoMatch => match spec_operator(s, j) {
                SpecParsed::Found(o, p) => SpecParsed::Found(SpecToken::Operator(o), p),
                _ => {
                    if s[j] == '(' {
                        SpecParsed::Found(SpecToken::LPar, j + 1)
                    } else if s[j] == ')' {
                        SpecParsed::Found(SpecToken::RPar, j + 1)
                    } else {
                        SpecParsed::NoMatch
                    }
                },
            },
        }
    }
}

/// Recognizes one token.
pub fn token(input: &[char], i: usize) -> (r: Parsed<Token>)
    requires
        i <= input@.len(),
    ensures
        res_ok(r, spec_token(input@, i as int)),
        r matches Parsed::Found(_, j) ==> i < j <= input@.len(),
{
    let j = sp(input, i);
    if j >= input.len() {
        return Parsed::NoMatch;
    }
    if input[j] == '[' {
        match value(input, j) {
            Parsed::Found(v, p) => Parsed::Found(Token::Value(v), p),
            Parsed::Fail(e) => match variable(input, j) {
                Parsed::Found(ks, p) => Parsed::Found(Token::Variable(ks), p),
                _ => Parsed::Fail(e),
            },
            Parsed::NoMatch => match variable(input, j) {
                Parsed::Found(ks, p) => Parsed::Found(Token::Variable(ks), p),
                _ => Parsed::NoMatch,
            },
        }
    } else {
        match value(input, j) {
            Parsed::Found(v, p) => Parsed::Found(Token::Value(v), p),
            Parsed::Fail(e) => Parsed::Fail(e),
            Parsed::NoMatch => match operator(input, j) {
                Parsed::Found(o, p) => Parsed::Found(Token::Operator(o), p),
                _ => {
                    if input[j] == '(' {
                        Parsed::Found(Token::LPar, j + 1)
                    } else if input[j] == ')' {
                        Parsed::Found(Token::RPar, j + 1)
                    } else {
                        Parsed::NoMatch
                    }
                },
            },
        }
    }
}

/// The token sequence of a whole guard text: tokens in order until the end
/// of the text; text that is no token is a syntax error.
pub open spec fn spec_tokenize(s: Seq<char>, i: int, acc: Seq<SpecToken>) -> Result<
    Seq<SpecToken>,
    SpecParseError,
>
    decreases s.len() - i,
{
    match spec_token(s, i) {
        SpecParsed::Fail(e) => Err(e),
        SpecParsed::NoMatch => {
            let j = skip_ge(s, i);
            if j >= s.len() {
                Ok(acc)
            } else {
                Err(SpecParseError::Syntax { pos: j })
            }
        },
        SpecParsed::Found(t, p) => {
            let p2 = if p > i && p <= s.len() {
                p
            } else {
                i + 1
            };
            spec_tokenize(s, p2, acc.push(t))
        },
    }
}

/// Splits a whole guard text into tokens.
#[verifier::loop_isolation(false)]
pub fn tokenize(input: &[char]) -> (r: Result<Vec<Token>, ParseError>)
    ensures
        r matches Ok(ts) ==> spec_tokenize(input@, 0, Seq::empty()) == Ok::<_, SpecParseError>(
            view_tokens(ts@),
        ),
        r matches Err(e) ==> spec_tokenize(input@, 0, Seq::empty()) == Err::<Seq<SpecToken>, _>(
            e@,
        ),
{
    let mut acc: Vec<Token> = Vec::new();
    let mut cur: usize = 0;
    proof {
        assert(view_tokens(acc@) =~= Seq::<SpecToken>::empty());
    }
    loop
        invariant
            cur <= input@.len(),
            spec_tokenize(input@, 0, Seq::empty()) == spec_tokenize(
                input@,
                cur as int,
                view_tokens(acc@),
            ),
        decreases input@.len() - cur,
    {
        match token(input, cur) {
            Parsed::Fail(e) => {
                return Err(e);
            },
            Parsed::NoMatch => {
                let j = sp(input, cur);
                if j >= input.len() {
                    return Ok(acc);
                }
                return Err(ParseError::Syntax { pos: j });
            },
            Parsed::Found(t, p) => {
                proof {
                    lemma_view_tokens_push(acc@, t);
                }
                acc.push(t);
                cur = p;
            },
        }
    }
}

/// Pops stacked operators whose priority is at least that of the incoming
/// operator.
pub open spec fn spec_pop_ops(out: Seq<SpecToken>, st: Seq<SpecToken>, o: Operator) -> (
    Seq<SpecToken>,
    Seq<SpecToken>,
)
    decreases st.len(),
{
    if st.len() == 0 {
        (out, st)
    } else {
        match st.last() {
            SpecToken::Operator(t) => {
                if spec_prio(t) >= spec_prio(o) {
                    spec_pop_ops(out.push(st.last()), st.drop_last(), o)
                } else {
                    (out, st)
                }
            },
            _ => (out, st),
        }
    }
}

/// Pops stack entries to the output until an opening parenthesis, which is
/// discarded; `None` when the stack empties without one.
pub open spec fn spec_pop_until_lpar(out: Seq<SpecToken>, st: Seq<SpecToken>) -> Option<
    (Seq<SpecToken>, Seq<SpecToken>),
>
    decreases st.len(),
{
    if st.len() == 0 {
        None
    } else if st.last() is LPar {
        Some((out, st.drop_last()))
    } else {
        spec_pop_until_lpar(out.push(st.last()), st.drop_last())
    }
}

/// Empties the stack into the output after all tokens are read; a leftover
/// parenthesis is a mismatch.
pub open spec fn spec_drain(out: Seq<SpecToken>, st: Seq<SpecToken>) -> Result<
    Seq<SpecToken>,
    SpecParseError,
>
    decreases st.len(),
{
    if st.len() == 0 {
        Ok(out)
    } else if st.last() is LPar || st.last() is RPar {
        Err(SpecParseError::MismatchedParenthesis)
    } else {
        spec_drain(out.push(st.last()), st.drop_last())
    }
}

/// The shunting-yard algorithm over the tokens from `i` on, with the
/// output and operator stack built so far.
pub open spec fn spec_sy(
    toks: Seq<SpecToken>,
    i: int,
    out: Seq<SpecToken>,
    st: Seq<SpecToken>,
) -> Result<Seq<SpecToken>, SpecParseError>
    decreases toks.len() - i,
{
    if i < 0 || i >= toks.len() {
        spec_drain(out, st)
    } else {
        match toks[i] {
            SpecToken::Value(v) => spec_sy(toks, i + 1, out.push(toks[i]), st),
            SpecToken::Variable(ks) => spec_sy(toks, i + 1, out.push(toks[i]), st),
            SpecToken::Operator(o) => {
                let popped = spec_pop_ops(out, st, o);
                spec_sy(toks, i + 1, popped.0, popped.1.push(SpecToken::Operator(o)))
            },
            SpecToken::LPar => spec_sy(toks, i + 1, out, st.push(SpecToken::LPar)),
            SpecToken::RPar => {
                match spec_pop_until_lpar(out, st) {
                    None => Err(SpecParseError::MismatchedParenthesis),
                    Some(p) => spec_sy(toks, i + 1, p.0, p.1),
                }
            },
        }
    }
}

/// The postfix compilation of an infix token sequence.
pub open spec fn spec_to_postfix(toks: Seq<SpecToken>) -> Result<Seq<SpecToken>, SpecParseError> {
    spec_sy(toks, 0, Seq::empty(), Seq::empty())
}


/// Pops stacked operators of equal or higher priority into the output.
#[verifier::loop_isolation(false)]
fn pop_ops(output: &mut Vec<Token>, stack: &mut Vec<Token>, o: Operator)
    ensures
        (view_tokens(final(output)@), view_tokens(final(stack)@)) == spec_pop_ops(
            view_tokens(old(output)@),
            view_tokens(old(stack)@),
            o,
        ),
{
    let ghost out0 = view_tokens(old(output)@);
    let ghost st0 = view_tokens(old(stack)@);
    loop
        invariant
            spec_pop_ops(out0, st0, o) == spec_pop_ops(
                view_tokens(output@),
                view_tokens(stack@),
                o,
            ),
        decreases stack@.len(),
    {
        proof {
            lemma_view_tokens_index(stack@);
        }
        let mut do_pop: bool = false;
        if stack.len() > 0 {
            match &stack[stack.len() - 1] {
                Token::Operator(tt) => {
                    do_pop = prio(tt) >= prio(&o);
                },
                _ => {},
            }
        }
        if !do_pop {
            return;
        }
        proof {
            lemma_view_tokens_pop(stack@);
        }
        match stack.pop() {
            Some(x) => {
                proof {
                    lemma_view_tokens_push(output@, x);
                }
                output.push(x);
            },
            None => {},
        }
    }
}

/// Pops stack entries into the output until an opening parenthesis, which
/// is discarded; `false` when the stack empties without one.
#[verifier::loop_isolation(false)]
fn pop_until_lpar(output: &mut Vec<Token>, stack: &mut Vec<Token>) -> (ok: bool)
    ensures
        ok ==> spec_pop_until_lpar(view_tokens(old(output)@), view_tokens(old(stack)@)) == Some(
            (view_tokens(final(output)@), view_tokens(final(stack)@)),
        ),
        !ok ==> spec_pop_until_lpar(view_tokens(old(output)@), view_tokens(old(stack)@))
            is None,
{
    let ghost out0 = view_tokens(old(output)@);
    let ghost st0 = view_tokens(old(stack)@);
    loop
        invariant
            spec_pop_until_lpar(out0, st0) == spec_pop_until_lpar(
                view_tokens(output@),
                view_tokens(stack@),
            ),
        decreases stack@.len(),
    {
        proof {
            lemma_view_tokens_index(stack@);
            if stack@.len() > 0 {
                lemma_view_tokens_pop(stack@);
            }
        }
        if stack.len() == 0 {
            return false;
        }
        match stack.pop() {
            Some(x) => {
                match x {
                    Token::LPar => {
                        return true;
                    },
                    _ => {
                        proof {
                            lemma_view_tokens_push(output@, x);
                        }
                        output.push(x);
                    },
                }
            },
            None => {},
        }
    }
}

/// Empties the stack into the output; a leftover parenthesis is an error.
#[verifier::loop_isolation(false)]
fn drain_stack(output: &mut Vec<Token>, stack: &mut Vec<Token>) -> (ok: bool)
    ensures
        ok ==> spec_drain(view_tokens(old(output)@), view_tokens(old(stack)@)) == Ok::<
            _,
            SpecParseError,
        >(view_tokens(final(output)@)),
        !ok ==> spec_drain(view_tokens(old(output)@), view_tokens(old(stack)@)) == Err::<
            Seq<SpecToken>,
            _,
        >(SpecParseError::MismatchedParenthesis),
{
    let ghost out0 = view_tokens(old(output)@);
    let ghost st0 = view_tokens(old(stack)@);
    loop
        invariant
            spec_drain(out0, st0) == spec_drain(view_tokens(output@), view_tokens(stack@)),
        decreases stack@.len(),
    {
        proof {
            lemma_view_tokens_index(stack@);
            if stack@.len() > 0 {
                lemma_view_tokens_pop(stack@);
            }
        }
        if stack.len() == 0 {
            return true;
        }
        match stack.pop() {
            Some(x) => {
                match x {
                    Token::LPar => {
                        return false;
                    },
                    Token::RPar => {
                        return false;
                    },
                    _ => {
                        proof {
                            lemma_view_tokens_push(output@, x);
                        }
                        output.push(x);
                    },
                }
            },
            None => {},
        }
    }
}

/// Compiles an infix token sequence to postfix form: operands pass through
/// in order, each operator follows its operands, operators of equal or
/// higher priority leave the stack first, and an unbalanced parenthesis is
/// a `MismatchedParenthesis` error.
#[verifier::loop_isolation(false)]
pub fn to_postfix(tokens: &Vec<Token>) -> (r: Result<Vec<Token>, ParseError>)
    ensures
        r matches Ok(out) ==> spec_to_postfix(view_tokens(tokens@)) == Ok::<_, SpecParseError>(
            view_tokens(out@),
        ),
        r matches Err(e) ==> spec_to_postfix(view_tokens(tokens@)) == Err::<Seq<SpecToken>, _>(
            e@,
        ),
{
    let ghost toks = view_tokens(tokens@);
    proof {
        lemma_view_tokens_index(tokens@);
        assert(view_tokens(Seq::<Token>::empty()) =~= Seq::<SpecToken>::empty());
    }
    let mut output: Vec<Token> = Vec::new();
    let mut stack: Vec<Token> = Vec::new();
    let mut k: usize = 0;
    proof {
        assert(view_tokens(output@) =~= Seq::<SpecToken>::empty());
        assert(view_tokens(stack@) =~= Seq::<SpecToken>::empty());
    }
    while k < tokens.len()
        invariant
            k <= tokens@.len(),
            spec_to_postfix(toks) == spec_sy(
                toks,
                k as int,
                view_tokens(output@),
                view_tokens(stack@),
            ),
        decreases tokens@.len() - k,
    {
        let t = &tokens[k];
        proof {
            assert(toks[k as int] == t@);
        }
        match t {
            Token::Value(_) => {
                let c = t.clone();
                proof {
                    lemma_view_tokens_push(output@, c);
                }
                output.push(c);
            },
            Token::Variable(_) => {
                let c = t.clone();
                proof {
                    lemma_view_tokens_push(output@, c);
                }
                output.push(c);
            },
            Token::Operator(op) => {
                let o = *op;
                pop_ops(&mut output, &mut stack, o);
                proof {
                    lemma_view_tokens_push(stack@, Token::Operator(o));
                }
                stack.push(Token::Operator(o));
            },
            Token::LPar => {
                proof {
                    lemma_view_tokens_push(stack@, Token::LPar);
                }
                stack.push(Token::LPar);
            },
            Token::RPar => {
                let ok = pop_until_lpar(&mut output, &mut stack);
                if !ok {
                    return Err(ParseError::MismatchedParenthesis);
                }
            },
        }
        k = k + 1;
    }
    let ok = drain_stack(&mut output, &mut stack);
    if !ok {
        return Err(ParseError::MismatchedParenthesis);
    }
    Ok(output)
}

/// Viewing commutes with removing the last token.
pub proof fn lemma_view_tokens_pop(l: Seq<Token>)
    requires
        l.len() > 0,
    ensures
        view_tokens(l.drop_last()) == view_tokens(l).drop_last(),
        view_tokens(l).last() == l.last()@,
        view_tokens(l).len() == l.len(),
{
    lemma_view_tokens_index(l);
    lemma_view_tokens_index(l.drop_last());
    assert(view_tokens(l.drop_last()) =~= view_tokens(l).drop_last());
}


/// Parenthesis depth of the tokens from `i` on, starting from depth `d`;
/// `None` when a `)` arrives with no `(` open.
pub open spec fn paren_depth(toks: Seq<SpecToken>, i: int, d: int) -> Option<int>
    decreases toks.len() - i,
{
    if i < 0 || i >= toks.len() {
        Some(d)
    } else {
        match toks[i] {
            SpecToken::LPar => paren_depth(toks, i + 1, d + 1),
            SpecToken::RPar => {
                if d <= 0 {
                    None
                } else {
                    paren_depth(toks, i + 1, d - 1)
                }
            },
            _ => paren_depth(toks, i + 1, d),
        }
    }
}

/// Balanced parentheses: no `)` before its `(`, and none left open.
pub open spec fn parens_balanced(toks: Seq<SpecToken>) -> bool {
    paren_depth(toks, 0, 0) == Some(0int)
}

/// Number of `(` entries in a stack.
pub open spec fn lpar_count(st: Seq<SpecToken>) -> int
    decreases st.len(),
{
    if st.len() == 0 {
        0
    } else {
        lpar_count(st.drop_last()) + if st.last() is LPar {
            1int
        } else {
            0int
        }
    }
}

/// The operator stack never holds a closing parenthesis.
pub open spec fn no_rpar(st: Seq<SpecToken>) -> bool {
    forall|t: int| 0 <= t < st.len() ==> !(st[t] is RPar)
}

/// Popping operators moves no parenthesis: the `(` count and the absence
/// of `)` survive, and nothing but operators reaches the output.
proof fn lemma_pop_ops_parens(out: Seq<SpecToken>, st: Seq<SpecToken>, o: Operator)
    requires
        no_rpar(st),
    ensures
        lpar_count(spec_pop_ops(out, st, o).1) == lpar_count(st),
        no_rpar(spec_pop_ops(out, st, o).1),
    decreases st.len(),
{
    if st.len() > 0 {
        match st.last() {
            SpecToken::Operator(t) => {
                if spec_prio(t) >= spec_prio(o) {
                    assert(no_rpar(st.drop_last()));
                    lemma_pop_ops_parens(out.push(st.last()), st.drop_last(), o);
                }
            },
            _ => {},
        }
    }
}

/// Popping to a `(`: it exists exactly when the count is positive, and the
/// remaining stack has one `(` fewer.
proof fn lemma_pop_until_parens(out: Seq<SpecToken>, st: Seq<SpecToken>)
    requires
        no_rpar(st),
    ensures
        (spec_pop_until_lpar(out, st) is Some) <==> lpar_count(st) > 0,
        spec_pop_until_lpar(out, st) matches Some(p) ==> lpar_count(p.1) == lpar_count(st) - 1
            && no_rpar(p.1),
    decreases st.len(),
{
    if st.len() > 0 {
        if st.last() is LPar {
            assert(lpar_count(st) == lpar_count(st.drop_last()) + 1);
            lemma_lpar_count_nonneg(st.drop_last());
            assert(no_rpar(st.drop_last()));
        } else {
            assert(no_rpar(st.drop_last()));
            lemma_pop_until_parens(out.push(st.last()), st.drop_last());
        }
    }
}

/// The `(` count is never negative.
proof fn lemma_lpar_count_nonneg(st: Seq<SpecToken>)
    ensures
        lpar_count(st) >= 0,
    decreases st.len(),
{
    if st.len() > 0 {
        lemma_lpar_count_nonneg(st.drop_last());
    }
}

/// Draining fails exactly when a `(` is left on the stack.
proof fn lemma_drain_parens(out: Seq<SpecToken>, st: Seq<SpecToken>)
    requires
        no_rpar(st),
    ensures
        (spec_drain(out, st) is Err) <==> lpar_count(st) > 0,
        spec_drain(out, st) is Err ==> spec_drain(out, st) == Err::<Seq<SpecToken>, _>(
            SpecParseError::MismatchedParenthesis,
        ),
    decreases st.len(),
{
    if st.len() > 0 {
        if st.last() is LPar {
            lemma_lpar_count_nonneg(st.drop_last());
        } else {
            assert(no_rpar(st.drop_last()));
            lemma_drain_parens(out.push(st.last()), st.drop_last());
        }
    }
}

/// The run of the algorithm fails exactly when the remaining tokens
/// unbalance the parentheses still open on the stack, and then only with
/// `MismatchedParenthesis`.
proof fn lemma_sy_parens(toks: Seq<SpecToken>, i: int, out: Seq<SpecToken>, st: Seq<SpecToken>)
    requires
        no_rpar(st),
    ensures
        (spec_sy(toks, i, out, st) is Err) <==> paren_depth(toks, i, lpar_count(st)) != Some(
            0int,
        ),
        spec_sy(toks, i, out, st) is Err ==> spec_sy(toks, i, out, st) == Err::<
            Seq<SpecToken>,
            _,
        >(SpecParseError::MismatchedParenthesis),
    decreases toks.len() - i,
{
    lemma_lpar_count_nonneg(st);
    if i < 0 || i >= toks.len() {
        lemma_drain_parens(out, st);
    } else {
        match toks[i] {
            SpecToken::Value(_) => {
                lemma_sy_parens(toks, i + 1, out.push(toks[i]), st);
            },
            SpecToken::Variable(_) => {
                lemma_sy_parens(toks, i + 1, out.push(toks[i]), st);
            },
            SpecToken::Operator(o) => {
                lemma_pop_ops_parens(out, st, o);
                let popped = spec_pop_ops(out, st, o);
                let st2 = popped.1.push(SpecToken::Operator(o));
                assert(st2.drop_last() =~= popped.1);
                assert(lpar_count(st2) == lpar_count(popped.1));
                assert(no_rpar(st2)) by {
                    assert(forall|t: int| 0 <= t < popped.1.len() ==> st2[t] == popped.1[t]);
                }
                lemma_sy_parens(toks, i + 1, popped.0, st2);
            },
            SpecToken::LPar => {
                let st2 = st.push(SpecToken::LPar);
                assert(st2.drop_last() =~= st);
                assert(lpar_count(st2) == lpar_count(st) + 1);
                assert(no_rpar(st2)) by {
                    assert(forall|t: int| 0 <= t < st.len() ==> st2[t] == st[t]);
                }
                lemma_sy_parens(toks, i + 1, out, st2);
            },
            SpecToken::RPar => {
                lemma_pop_until_parens(out, st);
                match spec_pop_until_lpar(out, st) {
                    None => {
                        assert(lpar_count(st) <= 0);
                    },
                    Some(p) => {
                        lemma_sy_parens(toks, i + 1, p.0, p.1);
                    },
                }
            },
        }
    }
}

/// Parenthesis mismatch: compiling an expression fails, and fails with
/// `MismatchedParenthesis` and nothing else, exactly when its parentheses
/// are unbalanced — an unmatched `)` or a leftover `(`. Tokens of a
/// balanced expression are never silently dropped into a failure.
pub proof fn lemma_mismatched_parenthesis(toks: Seq<SpecToken>)
    ensures
        (spec_to_postfix(toks) is Err) <==> !parens_balanced(toks),
        spec_to_postfix(toks) is Err ==> spec_to_postfix(toks) == Err::<Seq<SpecToken>, _>(
            SpecParseError::MismatchedParenthesis,
        ),
{
    let e = Seq::<SpecToken>::empty();
    assert(no_rpar(e));
    assert(lpar_count(e) == 0);
    lemma_sy_parens(toks, 0, e, e);
}


/// Whether a token is an operand: a literal value or a field-path
/// variable.
pub open spec fn is_operand(t: SpecToken) -> bool {
    t is Value || t is Variable
}

/// Precedence, first half: every comparison operator strictly outranks
/// `AND` and `OR`.
pub proof fn lemma_comparison_outranks_boolean(c: Operator, b: Operator)
    requires
        !(c is And),
        !(c is Or),
        b is And || b is Or,
    ensures
        spec_prio(c) > spec_prio(b),
{
}

/// Precedence, second half: in `a o1 b o2 c`, the first operator compiles
/// ahead of the second exactly when its priority is at least as high — so
/// comparisons bind before `AND`/`OR`, and operators of one tier take
/// effect left to right.
pub proof fn lemma_left_to_right(a: SpecToken, b: SpecToken, c: SpecToken, o1: Operator, o2: Operator)
    requires
        is_operand(a),
        is_operand(b),
        is_operand(c),
    ensures
        spec_prio(o1) >= spec_prio(o2) ==> spec_to_postfix(
            seq![a, SpecToken::Operator(o1), b, SpecToken::Operator(o2), c],
        ) == Ok::<_, SpecParseError>(
            seq![a, b, SpecToken::Operator(o1), c, SpecToken::Operator(o2)],
        ),
        spec_prio(o1) < spec_prio(o2) ==> spec_to_postfix(
            seq![a, SpecToken::Operator(o1), b, SpecToken::Operator(o2), c],
        ) == Ok::<_, SpecParseError>(
            seq![a, b, c, SpecToken::Operator(o2), SpecToken::Operator(o1)],
        ),
{
    let toks = seq![a, SpecToken::Operator(o1), b, SpecToken::Operator(o2), c];
    let e = Seq::<SpecToken>::empty();
    assert(spec_to_postfix(toks) == spec_sy(toks, 0, e, e));
    assert(spec_sy(toks, 0, e, e) == spec_sy(toks, 1, e.push(a), e));
    let st1 = e.push(SpecToken::Operator(o1));
    assert(spec_pop_ops(e.push(a), e, o1) == (e.push(a), e));
    assert(spec_sy(toks, 1, e.push(a), e) == spec_sy(toks, 2, e.push(a), st1));
    assert(spec_sy(toks, 2, e.push(a), st1) == spec_sy(toks, 3, e.push(a).push(b), st1));
    assert(st1.last() == SpecToken::Operator(o1));
    assert(st1.drop_last() =~= e);
    if spec_prio(o1) >= spec_prio(o2) {
        assert(spec_pop_ops(e.push(a).push(b), st1, o2) == spec_pop_ops(
            e.push(a).push(b).push(st1.last()),
            st1.drop_last(),
            o2,
        ));
        assert(e.push(a).push(b).push(st1.last()) == e.push(a).push(b).push(
            SpecToken::Operator(o1),
        ));
        assert(spec_pop_ops(e.push(a).push(b).push(SpecToken::Operator(o1)), e, o2) == (
            e.push(a).push(b).push(SpecToken::Operator(o1)),
            e,
        ));
        assert(spec_pop_ops(e.push(a).push(b), st1, o2) == (
            e.push(a).push(b).push(SpecToken::Operator(o1)),
            e,
        ));
        let out3 = e.push(a).push(b).push(SpecToken::Operator(o1));
        let st2 = e.push(SpecToken::Operator(o2));
        assert(spec_sy(toks, 3, e.push(a).push(b), st1) == spec_sy(toks, 4, out3, st2));
        let out4 = out3.push(c);
        assert(spec_sy(toks, 4, out3, st2) == spec_sy(toks, 5, out4, st2));
        assert(st2.last() == SpecToken::Operator(o2));
        assert(st2.drop_last() =~= e);
        assert(spec_drain(out4, st2) == spec_drain(out4.push(SpecToken::Operator(o2)), e));
        assert(spec_drain(out4.push(SpecToken::Operator(o2)), e) == Ok::<_, SpecParseError>(
            out4.push(SpecToken::Operator(o2)),
        ));
        assert(out4.push(SpecToken::Operator(o2)) =~= seq![
            a,
            b,
            SpecToken::Operator(o1),
            c,
            SpecToken::Operator(o2),
        ]);
    } else {
        assert(spec_pop_ops(e.push(a).push(b), st1, o2) == (e.push(a).push(b), st1));
        let st2 = st1.push(SpecToken::Operator(o2));
        assert(spec_sy(toks, 3, e.push(a).push(b), st1) == spec_sy(
            toks,
            4,
            e.push(a).push(b),
            st2,
        ));
        let out4 = e.push(a).push(b).push(c);
        assert(spec_sy(toks, 4, e.push(a).push(b), st2) == spec_sy(toks, 5, out4, st2));
        assert(st2.last() == SpecToken::Operator(o2));
        assert(st2.drop_last() =~= st1);
        let out5 = out4.push(SpecToken::Operator(o2));
        assert(spec_drain(out4, st2) == spec_drain(out5, st1));
        let out6 = out5.push(SpecToken::Operator(o1));
        assert(spec_drain(out5, st1) == spec_drain(out6, e));
        assert(spec_drain(out6, e) == Ok::<_, SpecParseError>(out6));
        assert(out6 =~= seq![a, b, c, SpecToken::Operator(o2), SpecToken::Operator(o1)]);
    }
}


/// Well-formed infix token text from `i` on, read left to right: `after`
/// says whether an operand has just been completed, `depth` counts open
/// parentheses. Operands and binary operators alternate; a parenthesized
/// group stands where an operand stands.
pub open spec fn infix_ok_from(toks: Seq<SpecToken>, i: int, after: bool, depth: int) -> bool
    decreases toks.len() - i,
{
    if i < 0 || i >= toks.len() {
        after && depth == 0
    } else {
        match toks[i] {
            SpecToken::Value(_) => !after && infix_ok_from(toks, i + 1, true, depth),
            SpecToken::Variable(_) => !after && infix_ok_from(toks, i + 1, true, depth),
            SpecToken::Operator(_) => after && infix_ok_from(toks, i + 1, false, depth),
            SpecToken::LPar => !after && infix_ok_from(toks, i + 1, false, depth + 1),
            SpecToken::RPar => after && depth > 0 && infix_ok_from(toks, i + 1, true, depth - 1),
        }
    }
}

/// A well-formed infix expression: empty, or accepted by the alternation
/// automaton with balanced parentheses.
pub open spec fn wf_infix(toks: Seq<SpecToken>) -> bool {
    toks.len() == 0 || infix_ok_from(toks, 0, false, 0)
}

/// Stack height of a binary-operator stack machine consuming the postfix
/// sequence from `i` on, starting at height `d`; `None` on underflow or on
/// a parenthesis, which a postfix sequence must not hold.
pub open spec fn rpn_from(out: Seq<SpecToken>, i: int, d: int) -> Option<int>
    decreases out.len() - i,
{
    if i < 0 || i >= out.len() {
        Some(d)
    } else {
        match out[i] {
            SpecToken::Value(_) => rpn_from(out, i + 1, d + 1),
            SpecToken::Variable(_) => rpn_from(out, i + 1, d + 1),
            SpecToken::Operator(_) => {
                if d >= 2 {
                    rpn_from(out, i + 1, d - 1)
                } else {
                    None
                }
            },
            _ => None,
        }
    }
}

/// A postfix sequence a stack machine can consume left to right without
/// underflow, each operator finding its two operands.
pub open spec fn rpn_valid(out: Seq<SpecToken>) -> bool {
    out.len() == 0 || (rpn_from(out, 0, 0) matches Some(d) && d >= 1)
}

/// How appending one token changes the machine's run.
proof fn lemma_rpn_push(out: Seq<SpecToken>, i: int, d: int, t: SpecToken)
    requires
        0 <= i <= out.len(),
    ensures
        rpn_from(out.push(t), i, d) == (match rpn_from(out, i, d) {
            Some(d2) => {
                if is_operand(t) {
                    Some(d2 + 1)
                } else if t is Operator && d2 >= 2 {
                    Some(d2 - 1)
                } else {
                    None::<int>
                }
            },
            None => None::<int>,
        }),
    decreases out.len() - i,
{
    let p = out.push(t);
    if i == out.len() {
        assert(p[i] == t);
    } else {
        assert(p[i] == out[i]);
        match out[i] {
            SpecToken::Value(_) => {
                lemma_rpn_push(out, i + 1, d + 1, t);
            },
            SpecToken::Variable(_) => {
                lemma_rpn_push(out, i + 1, d + 1, t);
            },
            SpecToken::Operator(_) => {
                if d >= 2 {
                    lemma_rpn_push(out, i + 1, d - 1, t);
                }
            },
            _ => {},
        }
    }
}

/// Number of operators in a stack.
pub open spec fn op_count(st: Seq<SpecToken>) -> int
    decreases st.len(),
{
    if st.len() == 0 {
        0
    } else {
        op_count(st.drop_last()) + if st.last() is Operator {
            1int
        } else {
            0int
        }
    }
}

/// The operator stack holds only operators and opening parentheses.
pub open spec fn only_ops_lpars(st: Seq<SpecToken>) -> bool {
    forall|t: int| 0 <= t < st.len() ==> st[t] is Operator || st[t] is LPar
}

proof fn lemma_op_count_nonneg(st: Seq<SpecToken>)
    ensures
        op_count(st) >= 0,
    decreases st.len(),
{
    if st.len() > 0 {
        lemma_op_count_nonneg(st.drop_last());
    }
}

/// Popping operators keeps the machine's run defined: each emitted
/// operator finds two operands.
proof fn lemma_pop_ops_wf(out: Seq<SpecToken>, st: Seq<SpecToken>, o: Operator)
    requires
        only_ops_lpars(st),
        rpn_from(out, 0, 0) == Some(op_count(st) + 1),
    ensures
        ({
            let r = spec_pop_ops(out, st, o);
            &&& only_ops_lpars(r.1)
            &&& lpar_count(r.1) == lpar_count(st)
            &&& rpn_from(r.0, 0, 0) == Some(op_count(r.1) + 1)
        }),
    decreases st.len(),
{
    lemma_op_count_nonneg(st);
    if st.len() > 0 {
        match st.last() {
            SpecToken::Operator(t) => {
                if spec_prio(t) >= spec_prio(o) {
                    lemma_op_count_nonneg(st.drop_last());
                    lemma_rpn_push(out, 0, 0, st.last());
                    assert(only_ops_lpars(st.drop_last()));
                    lemma_pop_ops_wf(out.push(st.last()), st.drop_last(), o);
                }
            },
            _ => {},
        }
    }
}

/// Popping to the opening parenthesis keeps the machine's run defined and
/// closes one group.
proof fn lemma_pop_until_wf(out: Seq<SpecToken>, st: Seq<SpecToken>)
    requires
        only_ops_lpars(st),
        lpar_count(st) > 0,
        rpn_from(out, 0, 0) == Some(op_count(st) + 1),
    ensures
        ({
            let r = spec_pop_until_lpar(out, st);
            &&& r matches Some(p)
            &&& only_ops_lpars(r->Some_0.1)
            &&& lpar_count(r->Some_0.1) == lpar_count(st) - 1
            &&& rpn_from(r->Some_0.0, 0, 0) == Some(op_count(r->Some_0.1) + 1)
        }),
    decreases st.len(),
{
    lemma_lpar_count_nonneg(st);
    if st.len() > 0 {
        if st.last() is LPar {
        } else {
            assert(st.last() is Operator);
            lemma_op_count_nonneg(st.drop_last());
            lemma_rpn_push(out, 0, 0, st.last());
            assert(only_ops_lpars(st.drop_last()));
            lemma_lpar_count_nonneg(st.drop_last());
            assert(lpar_count(st) == lpar_count(st.drop_last()));
            lemma_pop_until_wf(out.push(st.last()), st.drop_last());
        }
    }
}

/// Draining a parenthesis-free stack ends the run at height one.
proof fn lemma_drain_wf(out: Seq<SpecToken>, st: Seq<SpecToken>)
    requires
        only_ops_lpars(st),
        lpar_count(st) == 0,
        rpn_from(out, 0, 0) == Some(op_count(st) + 1),
    ensures
        spec_drain(out, st) matches Ok(res) && rpn_from(res, 0, 0) == Some(1int),
    decreases st.len(),
{
    if st.len() > 0 {
        if st.last() is LPar {
            lemma_lpar_count_nonneg(st.drop_last());
            assert(false);
        } else {
            assert(st.last() is Operator);
            lemma_op_count_nonneg(st.drop_last());
            lemma_rpn_push(out, 0, 0, st.last());
            assert(only_ops_lpars(st.drop_last()));
            lemma_lpar_count_nonneg(st.drop_last());
            assert(lpar_count(st) == lpar_count(st.drop_last()));
            lemma_drain_wf(out.push(st.last()), st.drop_last());
        }
    }
}

/// Along a well-formed infix expression, the algorithm maintains: the
/// output so far runs without underflow to height `operators on the stack,
/// plus one after a completed operand`, and the stack's open parentheses
/// match the expression's depth.
proof fn lemma_sy_wf(
    toks: Seq<SpecToken>,
    i: int,
    out: Seq<SpecToken>,
    st: Seq<SpecToken>,
    after: bool,
    depth: int,
)
    requires
        0 <= i,
        infix_ok_from(toks, i, after, depth),
        only_ops_lpars(st),
        lpar_count(st) == depth,
        rpn_from(out, 0, 0) == Some(
            op_count(st) + if after {
                1int
            } else {
                0int
            },
        ),
    ensures
        spec_sy(toks, i, out, st) matches Ok(res) && rpn_from(res, 0, 0) == Some(1int),
    decreases toks.len() - i,
{
    lemma_op_count_nonneg(st);
    if i >= toks.len() {
        lemma_drain_wf(out, st);
    } else {
        match toks[i] {
            SpecToken::Value(_) => {
                lemma_rpn_push(out, 0, 0, toks[i]);
                lemma_sy_wf(toks, i + 1, out.push(toks[i]), st, true, depth);
            },
            SpecToken::Variable(_) => {
                lemma_rpn_push(out, 0, 0, toks[i]);
                lemma_sy_wf(toks, i + 1, out.push(toks[i]), st, true, depth);
            },
            SpecToken::Operator(o) => {
                lemma_pop_ops_wf(out, st, o);
                lemma_pop_ops_parens(out, st, o);
                let r = spec_pop_ops(out, st, o);
                let st2 = r.1.push(SpecToken::Operator(o));
                assert(st2.drop_last() =~= r.1);
                assert(op_count(st2) == op_count(r.1) + 1);
                assert(lpar_count(st2) == lpar_count(r.1));
                assert(only_ops_lpars(st2)) by {
                    assert(forall|t: int| 0 <= t < r.1.len() ==> st2[t] == r.1[t]);
                }
                lemma_sy_wf(toks, i + 1, r.0, st2, false, depth);
            },
            SpecToken::LPar => {
                let st2 = st.push(SpecToken::LPar);
                assert(st2.drop_last() =~= st);
                assert(op_count(st2) == op_count(st));
                assert(lpar_count(st2) == lpar_count(st) + 1);
                assert(only_ops_lpars(st2)) by {
                    assert(forall|t: int| 0 <= t < st.len() ==> st2[t] == st[t]);
                }
                lemma_sy_wf(toks, i + 1, out, st2, false, depth + 1);
            },
            SpecToken::RPar => {
                lemma_pop_until_wf(out, st);
                let p = spec_pop_until_lpar(out, st)->Some_0;
                lemma_sy_wf(toks, i + 1, p.0, p.1, true, depth - 1);
            },
        }
    }
}

/// Postfix validity: compiling any well-formed infix expression succeeds,
/// and the postfix sequence is consumable left to right by a binary-
/// operator stack machine without underflow; a nonempty expression leaves
/// exactly one result on the machine's stack.
pub proof fn lemma_postfix_valid(toks: Seq<SpecToken>)
    requires
        wf_infix(toks),
    ensures
        spec_to_postfix(toks) matches Ok(out) && rpn_valid(out),
        toks.len() > 0 ==> rpn_from(spec_to_postfix(toks)->Ok_0, 0, 0) == Some(1int),
{
    let e = Seq::<SpecToken>::empty();
    if toks.len() == 0 {
        assert(spec_sy(toks, 0, e, e) == spec_drain(e, e));
        assert(spec_drain(e, e) == Ok::<_, SpecParseError>(e));
    } else {
        assert(only_ops_lpars(e));
        assert(lpar_count(e) == 0);
        assert(op_count(e) == 0);
        assert(rpn_from(e, 0, 0) == Some(0int));
        lemma_sy_wf(toks, 0, e, e, false, 0);
    }
}

} // verus!




