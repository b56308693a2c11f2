//! The literal parser: recognizes the `Value` grammar from text, skipping
//! whitespace and `#` line comments before every token.
//!
//! Every executable parser returns exactly what its specification-level
//! counterpart (`spec_*`) describes; the specification functions are the
//! reference grammar, written as recursive functions over a `Seq<char>`
//! and a start position.

use vstd::prelude::*;
use crate::types::{ParseError, SpecParseError, Value, SpecValue, Num};

verus! {

/// A parser outcome: a parsed item together with the position just past it,
/// a soft mismatch (another alternative may apply), or a fatal error that
/// aborts the whole parse.
#[derive(Debug)]
pub enum Parsed<T> {
    Found(T, usize),
    NoMatch,
    Fail(ParseError),
}

/// The specification-level mirror of `Parsed`.
pub enum SpecParsed<T> {
    Found(T, int),
    NoMatch,
    Fail(SpecParseError),
}

/// The executable outcome `r` denotes the specified outcome `sr`.
pub open spec fn res_ok<T: View>(r: Parsed<T>, sr: SpecParsed<T::V>) -> bool {
    match r {
        Parsed::Found(v, j) => sr == SpecParsed::<T::V>::Found(v@, j as int),
        Parsed::NoMatch => sr == SpecParsed::<T::V>::NoMatch,
        Parsed::Fail(e) => sr == SpecParsed::<T::V>::Fail(e@),
    }
}

pub open spec fn is_space(c: char) -> bool {
    c == ' ' || c == '\t' || c == '\r' || c == '\n'
}

/// Characters an identifier may begin with: ASCII letters and underscore.
pub open spec fn is_ident_start(c: char) -> bool {
    c == '_' || ('a' <= c && c <= 'z') || ('A' <= c && c <= 'Z')
}

/// Characters an identifier may continue with: ASCII letters, digits and
/// underscore. Digits may not begin an identifier, but plugin names such as
/// those in common configs carry them after the first character.
pub open spec fn is_ident_char(c: char) -> bool {
    c == '_' || ('a' <= c && c <= 'z') || ('A' <= c && c <= 'Z') || ('0' <= c && c <= '9')
}

pub open spec fn is_digit(c: char) -> bool {
    '0' <= c && c <= '9'
}

/// Position after the run of plain whitespace starting at `i`.
pub open spec fn spec_ws_end(s: Seq<char>, i: int) -> int
    decreases s.len() - i,
{
    if 0 <= i < s.len() && is_space(s[i]) {
        spec_ws_end(s, i + 1)
    } else {
        i
    }
}

/// Position after all whitespace and `#` line comments starting at `i`.
pub open spec fn spec_skip(s: Seq<char>, i: int) -> int
    decreases s.len() - i, 1int,
{
    if i < 0 || i >= s.len() {
        i
    } else if is_space(s[i]) {
        spec_skip(s, i + 1)
    } else if s[i] == '#' {
        spec_skip_comment(s, i + 1)
    } else {
        i
    }
}

/// Position after the rest of a line comment (and whatever follows it).
pub open spec fn spec_skip_comment(s: Seq<char>, i: int) -> int
    decreases s.len() - i, 0int,
{
    if i < 0 || i >= s.len() {
        i
    } else if s[i] == '\n' {
        spec_skip(s, i + 1)
    } else {
        spec_skip_comment(s, i + 1)
    }
}

/// Skipping never moves backwards and never leaves the text.
proof fn lemma_skip_bounds(s: Seq<char>, i: int)
    requires
        0 <= i <= s.len(),
    ensures
        i <= spec_skip(s, i) <= s.len(),
    decreases s.len() - i, 1int,
{
    if i < s.len() {
        if is_space(s[i]) {
            lemma_skip_bounds(s, i + 1);
        } else if s[i] == '#' {
            lemma_skip_comment_bounds(s, i + 1);
        }
    }
}

proof fn lemma_skip_comment_bounds(s: Seq<char>, i: int)
    requires
        0 <= i <= s.len(),
    ensures
        i <= spec_skip_comment(s, i) <= s.len(),
    decreases s.len() - i, 0int,
{
    if i < s.len() {
        if s[i] == '\n' {
            lemma_skip_bounds(s, i + 1);
        } else {
            lemma_skip_comment_bounds(s, i + 1);
        }
    }
}

/// Like `spec_skip`, clamped so that it visibly never moves backwards; used
/// by the recursive grammar definitions, where the clamp keeps termination
/// obvious. On positions inside the text the clamp changes nothing.
pub open spec fn skip_ge(s: Seq<char>, i: int) -> int {
    if spec_skip(s, i) < i {
        i
    } else {
        spec_skip(s, i)
    }
}

/// Consumes the run of plain whitespace at `i`.
pub fn s(input: &[char], i: usize) -> (r: usize)
    requires
        i <= input@.len(),
    ensures
        r as int == spec_ws_end(input@, i as int),
        i <= r <= input@.len(),
{
    let mut j: usize = i;
    loop
        invariant
            i <= j <= input@.len(),
            spec_ws_end(input@, i as int) == spec_ws_end(input@, j as int),
        ensures
            i <= j <= input@.len(),
            j as int == spec_ws_end(input@, i as int),
        decreases input@.len() - j,
    {
        if j >= input.len() {
            break;
        }
        let c = input[j];
        if c == ' ' || c == '\t' || c == '\r' || c == '\n' {
            j = j + 1;
        } else {
            break;
        }
    }
    j
}

/// Consumes whitespace and `#` line comments at `i`.
pub fn sp(input: &[char], i: usize) -> (r: usize)
    requires
        i <= input@.len(),
    ensures
        r as int == spec_skip(input@, i as int),
        i <= r <= input@.len(),
{
    let mut j: usize = i;
    let mut in_comment: bool = false;
    loop
        invariant
            i <= j <= input@.len(),
            !in_comment ==> spec_skip(input@, i as int) == spec_skip(input@, j as int),
            in_comment ==> spec_skip(input@, i as int) == spec_skip_comment(input@, j as int),
        ensures
            i <= j <= input@.len(),
            j as int == spec_skip(input@, i as int),
        decreases input@.len() - j, if in_comment { 0int } else { 1int },
    {
        if j >= input.len() {
            proof {
                lemma_skip_bounds(input@, i as int);
            }
            break;
        }
        let c = input[j];
        if in_comment {
            if c == '\n' {
                in_comment = false;
            }
            j = j + 1;
        } else if c == ' ' || c == '\t' || c == '\r' || c == '\n' {
            j = j + 1;
        } else if c == '#' {
            in_comment = true;
            j = j + 1;
        } else {
            break;
        }
    }
    proof {
        lemma_skip_bounds(input@, i as int);
    }
    j
}

/// End of the identifier-character run starting at `i`.
pub open spec fn spec_ident_end(s: Seq<char>, i: int) -> int
    decreases s.len() - i,
{
    if 0 <= i < s.len() && is_ident_char(s[i]) {
        spec_ident_end(s, i + 1)
    } else {
        i
    }
}

proof fn lemma_ident_end_bounds(s: Seq<char>, i: int)
    requires
        0 <= i <= s.len(),
    ensures
        i <= spec_ident_end(s, i) <= s.len(),
    decreases s.len() - i,
{
    if i < s.len() && is_ident_char(s[i]) {
        lemma_ident_end_bounds(s, i + 1);
    }
}

/// A `snake_case` identifier: an ASCII letter or underscore, then any run
/// of letters, digits and underscores.
pub open spec fn spec_snake_case(s: Seq<char>, i: int) -> SpecParsed<Seq<char>> {
    if 0 <= i && i < s.len() && is_ident_start(s[i]) {
        let e = spec_ident_end(s, i + 1);
        SpecParsed::Found(s.subrange(i, e), e)
    } else {
        SpecParsed::NoMatch
    }
}

/// Recognizes a `snake_case` identifier: a letter or underscore, then
/// letters, digits and underscores.
pub fn snake_case(input: &[char], i: usize) -> (r: Parsed<Vec<char>>)
    requires
        i <= input@.len(),
    ensures
        res_ok(r, spec_snake_case(input@, i as int)),
        r matches Parsed::Found(_, j) ==> i < j <= input@.len(),
{
    if i >= input.len() {
        return Parsed::NoMatch;
    }
    let c0 = input[i];
    if !(c0 == '_' || ('a' <= c0 && c0 <= 'z') || ('A' <= c0 && c0 <= 'Z')) {
        return Parsed::NoMatch;
    }
    let mut e: usize = i + 1;
    loop
        invariant
            i + 1 <= e <= input@.len(),
            spec_ident_end(input@, i as int + 1) == spec_ident_end(input@, e as int),
            forall|k: int| i + 1 <= k < e ==> is_ident_char(input@[k]),
        ensures
            i + 1 <= e <= input@.len(),
            e as int == spec_ident_end(input@, i as int + 1),
        decreases input@.len() - e,
    {
        if e >= input.len() {
            break;
        }
        let c = input[e];
        if c == '_' || ('a' <= c && c <= 'z') || ('A' <= c && c <= 'Z') || ('0' <= c && c <= '9') {
            e = e + 1;
        } else {
            break;
        }
    }
    proof {
        lemma_ident_end_bounds(input@, e as int);
    }
    let mut name: Vec<char> = Vec::new();
    let mut k: usize = i;
    while k < e
        invariant
            i <= k <= e <= input@.len(),
            name@ == input@.subrange(i as int, k as int),
        decreases e - k,
    {
        name.push(input[k]);
        proof {
            assert(name@ =~= input@.subrange(i as int, k + 1));
        }
        k = k + 1;
    }
    Parsed::Found(name, e)
}


/// What the escape `\\c` inside a string literal stands for: control
/// characters are decoded, and a fixed set of pattern-prone characters is
/// re-emitted behind a literal backslash for safe downstream use as pattern
/// text. An unsupported escape is `None`.
pub open spec fn esc_expand(c: char) -> Option<Seq<char>> {
    if c == 'r' {
        Some(seq!['\r'])
    } else if c == 'n' {
        Some(seq!['\n'])
    } else if c == 't' {
        Some(seq!['\t'])
    } else if c == '\\' {
        Some(seq!['\\'])
    } else if c == '"' {
        Some(seq!['"'])
    } else if c == '\'' {
        Some(seq!['\''])
    } else if c == '%' || c == '.' || c == 's' || c == 'd' || c == ':' || c == '(' || c == ')' {
        Some(seq!['\\', c])
    } else {
        None
    }
}

/// Prefixes `p` to the characters of a successful outcome.
pub open spec fn prepend_chars(p: Seq<char>, r: SpecParsed<Seq<char>>) -> SpecParsed<Seq<char>> {
    match r {
        SpecParsed::Found(t, j) => SpecParsed::Found(p + t, j),
        other => other,
    }
}

/// Prefixing twice is prefixing the concatenation.
proof fn lemma_prepend_assoc(u: Seq<char>, v: Seq<char>, r: SpecParsed<Seq<char>>)
    ensures
        prepend_chars(u, prepend_chars(v, r)) == prepend_chars(u + v, r),
{
    match r {
        SpecParsed::Found(t, j) => {
            assert(u + (v + t) =~= (u + v) + t);
        },
        _ => {},
    }
}

/// The interior of a string literal, from just after the opening quote:
/// decoded characters up to the closing quote. Running off the end of the
/// text or hitting a raw control character is a syntax error; an unsupported
/// escape is an `InvalidEscape` error.
pub open spec fn spec_string_body(s: Seq<char>, i: int) -> SpecParsed<Seq<char>>
    decreases s.len() - i,
{
    if i < 0 || i >= s.len() {
        SpecParsed::Fail(SpecParseError::Syntax { pos: i })
    } else if s[i] == '"' {
        SpecParsed::Found(Seq::empty(), i + 1)
    } else if s[i] == '\\' {
        if i + 1 >= s.len() {
            SpecParsed::Fail(SpecParseError::Syntax { pos: i + 1 })
        } else {
            match esc_expand(s[i + 1]) {
                Some(t) => prepend_chars(t, spec_string_body(s, i + 2)),
                None => SpecParsed::Fail(SpecParseError::InvalidEscape { pos: i + 1 }),
            }
        }
    } else if s[i] == '\t' || s[i] == '\r' || s[i] == '\n' {
        SpecParsed::Fail(SpecParseError::Syntax { pos: i })
    } else {
        prepend_chars(seq![s[i]], spec_string_body(s, i + 1))
    }
}

/// A string literal: a quote, escaped or plain characters, a closing quote.
pub open spec fn spec_string(s: Seq<char>, i: int) -> SpecParsed<Seq<char>> {
    if 0 <= i < s.len() && s[i] == '"' {
        spec_string_body(s, i + 1)
    } else {
        SpecParsed::NoMatch
    }
}

/// A successful string body ends past where it starts, inside the text.
proof fn lemma_string_body_bounds(s: Seq<char>, i: int)
    requires
        0 <= i <= s.len(),
    ensures
        spec_string_body(s, i) matches SpecParsed::Found(t, j) ==> i < j <= s.len(),
    decreases s.len() - i,
{
    if i < s.len() {
        if s[i] == '"' {
        } else if s[i] == '\\' {
            if i + 2 <= s.len() {
                lemma_string_body_bounds(s, i + 2);
            }
        } else {
            lemma_string_body_bounds(s, i + 1);
        }
    }
}

/// Recognizes a string literal, decoding its escapes.
#[verifier::loop_isolation(false)]
pub fn string(input: &[char], i: usize) -> (r: Parsed<Vec<char>>)
    requires
        i <= input@.len(),
    ensures
        res_ok(r, spec_string(input@, i as int)),
        r matches Parsed::Found(_, j) ==> i < j <= input@.len(),
{
    proof {
        if i < input@.len() && input@[i as int] == '"' {
            lemma_string_body_bounds(input@, i as int + 1);
        }
    }
    if i >= input.len() || input[i] != '"' {
        return Parsed::NoMatch;
    }
    let mut acc: Vec<char> = Vec::new();
    let mut j: usize = i + 1;
    loop
        invariant
            i + 1 <= j <= input@.len(),
            spec_string_body(input@, i as int + 1) == prepend_chars(
                acc@,
                spec_string_body(input@, j as int),
            ),
        decreases input@.len() - j,
    {
        if j >= input.len() {
            return Parsed::Fail(ParseError::Syntax { pos: j });
        }
        let c = input[j];
        if c == '"' {
            proof {
                assert(acc@ + Seq::<char>::empty() =~= acc@);
            }
            return Parsed::Found(acc, j + 1);
        } else if c == '\\' {
            if j + 1 >= input.len() {
                return Parsed::Fail(ParseError::Syntax { pos: j + 1 });
            }
            let e = input[j + 1];
            let ghost pre = acc@;
            if e == 'r' {
                acc.push('\r');
            } else if e == 'n' {
                acc.push('\n');
            } else if e == 't' {
                acc.push('\t');
            } else if e == '\\' {
                acc.push('\\');
            } else if e == '"' {
                acc.push('"');
            } else if e == '\'' {
                acc.push('\'');
            } else if e == '%' || e == '.' || e == 's' || e == 'd' || e == ':' || e == '(' || e == ')' {
                acc.push('\\');
                acc.push(e);
            } else {
                return Parsed::Fail(ParseError::InvalidEscape { pos: j + 1 });
            }
            proof {
                let t = esc_expand(input@[j as int + 1])->Some_0;
                assert(acc@ =~= pre + t);
                lemma_prepend_assoc(pre, t, spec_string_body(input@, j as int + 2));
            }
            j = j + 2;
        } else if c == '\t' || c == '\r' || c == '\n' {
            return Parsed::Fail(ParseError::Syntax { pos: j });
        } else {
            let ghost pre = acc@;
            acc.push(c);
            proof {
                assert(acc@ =~= pre + seq![c]);
                lemma_prepend_assoc(pre, seq![c], spec_string_body(input@, j as int + 1));
            }
            j = j + 1;
        }
    }
}


pub open spec fn digit_val(c: char) -> int {
    c as u32 - '0' as u32
}

/// End of the digit run starting at `i`.
pub open spec fn spec_digits_end(s: Seq<char>, i: int) -> int
    decreases s.len() - i,
{
    if 0 <= i < s.len() && is_digit(s[i]) {
        spec_digits_end(s, i + 1)
    } else {
        i
    }
}

proof fn lemma_digits_end_bounds(s: Seq<char>, i: int)
    requires
        0 <= i <= s.len(),
    ensures
        i <= spec_digits_end(s, i) <= s.len(),
        forall|k: int| i <= k < spec_digits_end(s, i) ==> is_digit(s[k]),
    decreases s.len() - i,
{
    if i < s.len() && is_digit(s[i]) {
        lemma_digits_end_bounds(s, i + 1);
    }
}

/// The numeric value of a digit string, most significant digit first.
pub open spec fn digits_val(ds: Seq<char>) -> int
    decreases ds.len(),
{
    if ds.len() == 0 {
        0
    } else {
        digits_val(ds.drop_last()) * 10 + digit_val(ds.last())
    }
}

/// The digit string without its leading zeros.
pub open spec fn strip_zeros(ds: Seq<char>) -> Seq<char>
    decreases ds.len(),
{
    if ds.len() > 0 && ds[0] == '0' {
        strip_zeros(ds.drop_first())
    } else {
        ds
    }
}

pub open spec fn pow10(n: nat) -> int
    decreases n,
{
    if n == 0 {
        1
    } else {
        10 * pow10((n - 1) as nat)
    }
}

/// A digit string's value is nonnegative and below `10^len`.
proof fn lemma_digits_val_bound(ds: Seq<char>)
    requires
        forall|k: int| 0 <= k < ds.len() ==> is_digit(ds[k]),
    ensures
        0 <= digits_val(ds) < pow10(ds.len()),
    decreases ds.len(),
{
    if ds.len() > 0 {
        lemma_digits_val_bound(ds.drop_last());
    }
}

proof fn lemma_pow10_increases(a: nat, b: nat)
    requires
        a <= b,
    ensures
        1 <= pow10(a) <= pow10(b),
    decreases b,
{
    lemma_pow10_pos(a);
    if a < b {
        lemma_pow10_increases(a, (b - 1) as nat);
    }
}

proof fn lemma_pow10_pos(n: nat)
    ensures
        pow10(n) >= 1,
    decreases n,
{
    if n > 0 {
        lemma_pow10_pos((n - 1) as nat);
    }
}

/// The canonical form of a mantissa/exponent pair: factors of ten move from
/// the mantissa into the exponent, and zero maps to `(0, 0)`.
pub open spec fn spec_norm(m: int, e: int) -> (int, int)
    decreases m,
{
    if m <= 0 {
        (0, 0)
    } else if m % 10 == 0 {
        spec_norm(m / 10, e + 1)
    } else {
        (m, e)
    }
}

/// The largest mantissa a number literal may carry: eighteen significant
/// digits.
pub open spec fn max_mantissa() -> int {
    999_999_999_999_999_999
}

/// The largest exponent magnitude a number literal may carry.
pub open spec fn max_exp() -> int {
    999_999_999
}

/// A number literal: optional sign, digits with an optional fraction (at
/// least one digit in the two together), and an optional `e`/`E` exponent
/// with its own optional sign. The value is kept exactly in canonical
/// decimal form. A literal with more than eighteen significant digits, more
/// than nine exponent digits, or a canonical exponent beyond the bound is a
/// syntax error.
pub open spec fn spec_number(s: Seq<char>, i: int) -> SpecParsed<crate::types::SpecValue> {
    if i < 0 || i >= s.len() {
        SpecParsed::NoMatch
    } else {
        let neg = s[i] == '-';
        let p = if s[i] == '-' || s[i] == '+' {
            i + 1
        } else {
            i
        };
        let e1 = spec_digits_end(s, p);
        let di = s.subrange(p, e1);
        let pe = if e1 < s.len() && s[e1] == '.' {
            spec_digits_end(s, e1 + 1)
        } else {
            e1
        };
        let fr = if e1 < s.len() && s[e1] == '.' {
            s.subrange(e1 + 1, pe)
        } else {
            Seq::empty()
        };
        if di.len() + fr.len() == 0 {
            SpecParsed::NoMatch
        } else {
            let q2 = if pe < s.len() && (s[pe] == 'e' || s[pe] == 'E') {
                if pe + 1 < s.len() && (s[pe + 1] == '+' || s[pe + 1] == '-') {
                    pe + 2
                } else {
                    pe + 1
                }
            } else {
                pe
            };
            let e3 = spec_digits_end(s, q2);
            let has_exp = pe < s.len() && (s[pe] == 'e' || s[pe] == 'E') && e3 > q2;
            let esign_neg = has_exp && q2 == pe + 2 && s[pe + 1] == '-';
            let ed = if has_exp {
                s.subrange(q2, e3)
            } else {
                Seq::empty()
            };
            let pend = if has_exp {
                e3
            } else {
                pe
            };
            let sig = strip_zeros(di + fr);
            if sig.len() > 18 {
                SpecParsed::Fail(SpecParseError::Syntax { pos: i })
            } else if ed.len() > 9 {
                SpecParsed::Fail(SpecParseError::Syntax { pos: i })
            } else {
                let ev = digits_val(ed);
                let e0 = (if esign_neg {
                    -ev
                } else {
                    ev
                }) - fr.len();
                let mn = spec_norm(digits_val(sig), e0).0;
                let en = spec_norm(digits_val(sig), e0).1;
                if en < -max_exp() || en > max_exp() {
                    SpecParsed::Fail(SpecParseError::Syntax { pos: i })
                } else {
                    SpecParsed::Found(
                        crate::types::SpecValue::Number(
                            crate::types::Num {
                                neg: mn != 0 && neg,
                                mantissa: mn as u64,
                                exp: en as i32,
                            },
                        ),
                        pend,
                    )
                }
            }
        }
    }
}

/// Consumes the digit run at `i`.
pub fn digits_end(input: &[char], i: usize) -> (r: usize)
    requires
        i <= input@.len(),
    ensures
        r as int == spec_digits_end(input@, i as int),
        i <= r <= input@.len(),
        forall|k: int| i <= k < r ==> is_digit(input@[k]),
{
    let mut j: usize = i;
    loop
        invariant
            i <= j <= input@.len(),
            spec_digits_end(input@, i as int) == spec_digits_end(input@, j as int),
            forall|k: int| i <= k < j ==> is_digit(input@[k]),
        ensures
            i <= j <= input@.len(),
            j as int == spec_digits_end(input@, i as int),
            forall|k: int| i <= k < j ==> is_digit(input@[k]),
        decreases input@.len() - j,
    {
        if j >= input.len() {
            break;
        }
        let c = input[j];
        if '0' <= c && c <= '9' {
            j = j + 1;
        } else {
            break;
        }
    }
    j
}


/// Copies `input[a..b]`.
pub(crate) fn copy_range(input: &[char], a: usize, b: usize) -> (out: Vec<char>)
    requires
        a <= b <= input@.len(),
    ensures
        out@ == input@.subrange(a as int, b as int),
{
    let mut out: Vec<char> = Vec::new();
    let mut k: usize = a;
    while k < b
        invariant
            a <= k <= b <= input@.len(),
            out@ == input@.subrange(a as int, k as int),
        decreases b - k,
    {
        out.push(input[k]);
        proof {
            assert(out@ =~= input@.subrange(a as int, k + 1));
        }
        k = k + 1;
    }
    proof {
        assert(out@ =~= input@.subrange(a as int, b as int));
    }
    out
}

/// Index of the first digit that is not a leading zero.
#[verifier::loop_isolation(false)]
fn strip_pos(v: &Vec<char>) -> (z: usize)
    ensures
        z <= v@.len(),
        strip_zeros(v@) == v@.subrange(z as int, v@.len() as int),
{
    proof {
        assert(v@.subrange(0, v@.len() as int) =~= v@);
    }
    let mut z: usize = 0;
    while z < v.len() && v[z] == '0'
        invariant
            0 <= z <= v@.len(),
            strip_zeros(v@) == strip_zeros(v@.subrange(z as int, v@.len() as int)),
        decreases v@.len() - z,
    {
        proof {
            assert(v@.subrange(z as int, v@.len() as int).drop_first() =~= v@.subrange(
                z + 1,
                v@.len() as int,
            ));
        }
        z = z + 1;
    }
    z
}

/// The value of a short digit string.
#[verifier::loop_isolation(false)]
fn digits_value(v: &Vec<char>, z: usize) -> (m: u64)
    requires
        z <= v@.len(),
        v@.len() - z <= 18,
        forall|t: int| z <= t < v@.len() ==> is_digit(v@[t]),
    ensures
        m as int == digits_val(v@.subrange(z as int, v@.len() as int)),
        (m as int) < pow10((v@.len() - z) as nat),
{
    let ghost sig = v@.subrange(z as int, v@.len() as int);
    let mut m: u64 = 0;
    let mut k: usize = z;
    proof {
        assert(sig.subrange(0, 0) =~= Seq::<char>::empty());
        lemma_pow10_pos(0);
    }
    while k < v.len()
        invariant
            z <= k <= v@.len(),
            m as int == digits_val(sig.subrange(0, k - z)),
            (m as int) < pow10((k - z) as nat),
        decreases v@.len() - k,
    {
        let d = v[k] as u32 - '0' as u32;
        proof {
            let pre = sig.subrange(0, k - z);
            let post = sig.subrange(0, k - z + 1);
            assert(post.drop_last() =~= pre);
            assert(post.last() == v@[k as int]);
            lemma_pow10_increases((k - z + 1) as nat, 18);
            assert(pow10(18) == 1_000_000_000_000_000_000) by {
                reveal_with_fuel(pow10, 19);
            }
        }
        m = m * 10 + (d as u64);
        k = k + 1;
    }
    proof {
        assert(sig.subrange(0, sig.len() as int) =~= sig);
    }
    m
}

/// Moves factors of ten from the mantissa to the exponent until the pair is
/// canonical.
#[verifier::loop_isolation(false)]
fn normalize(m: u64, e: i128) -> (out: (u64, i128))
    requires
        (m as int) < pow10(18),
        -100_000_000_000_000_000_000 <= e as int <= 100_000_000_000_000_000_000,
    ensures
        (out.0 as int, out.1 as int) == spec_norm(m as int, e as int),
        e as int <= out.1 as int <= e as int + 18 || out.1 == 0,
{
    let mut m_cur: u64 = m;
    let mut e_cur: i128 = e;
    proof {
        lemma_pow10_pos(0);
        assert(pow10(0) == 1);
        assert((e_cur as int - e as int) as nat == 0);
        assert(m_cur as int * pow10((e_cur as int - e as int) as nat) == m as int) by (nonlinear_arith)
            requires
                m_cur == m,
                pow10((e_cur as int - e as int) as nat) == 1,
        ;
    }
    while m_cur != 0 && m_cur % 10 == 0
        invariant
            0 <= m_cur <= m,
            e as int <= e_cur as int <= e as int + 18,
            m_cur as int * pow10((e_cur as int - e as int) as nat) == m as int,
        decreases m_cur,
    {
        proof {
            let sh = (e_cur as int - e as int) as nat;
            lemma_pow10_pos(sh);
            assert(pow10(sh + 1) == 10 * pow10(sh));
            assert(m as int >= pow10(sh + 1)) by (nonlinear_arith)
                requires
                    m_cur as int >= 10,
                    m_cur as int * pow10(sh) == m as int,
                    pow10(sh + 1) == 10 * pow10(sh),
                    pow10(sh) >= 1,
            ;
            if sh + 1 > 18 {
                lemma_pow10_increases(18, sh + 1);
                assert(false);
            }
            assert(m_cur as int / 10 * pow10(sh + 1) == m_cur as int * pow10(sh)) by {
                assert(m_cur as int / 10 * 10 == m_cur as int);
                assert(m_cur as int / 10 * (10 * pow10(sh)) == (m_cur as int / 10 * 10) * pow10(
                    sh,
                )) by (nonlinear_arith);
            }
        }
        m_cur = m_cur / 10;
        e_cur = e_cur + 1;
    }
    if m_cur == 0 {
        proof {
            assert(m == 0);
        }
        (0, 0)
    } else {
        proof {
            lemma_norm_fixed(m as int, e as int, m_cur as int, e_cur as int);
        }
        (m_cur, e_cur)
    }
}

/// Recognizes a number literal and returns its exact decimal value.
#[verifier::loop_isolation(false)]
#[verifier::rlimit(100)]
pub fn number(input: &[char], i: usize) -> (r: Parsed<Value>)
    requires
        i <= input@.len(),
    ensures
        res_ok(r, spec_number(input@, i as int)),
        r matches Parsed::Found(_, j) ==> i < j <= input@.len(),
{
    let ghost sq = input@;
    if i >= input.len() {
        return Parsed::NoMatch;
    }
    let c0 = input[i];
    let neg = c0 == '-';
    let p = if c0 == '-' || c0 == '+' {
        i + 1
    } else {
        i
    };
    let e1 = digits_end(input, p);
    let has_frac = e1 < input.len() && input[e1] == '.';
    let pe = if has_frac {
        digits_end(input, e1 + 1)
    } else {
        e1
    };
    let ghost di = sq.subrange(p as int, e1 as int);
    let ghost fr = if has_frac {
        sq.subrange(e1 + 1, pe as int)
    } else {
        Seq::<char>::empty()
    };
    let di_len = e1 - p;
    let fr_len = if has_frac {
        pe - (e1 + 1)
    } else {
        0
    };
    proof {
        assert(di.len() == di_len && fr.len() == fr_len);
    }
    if di_len == 0 && fr_len == 0 {
        return Parsed::NoMatch;
    }
    let has_e = pe < input.len() && (input[pe] == 'e' || input[pe] == 'E');
    let q2 = if has_e {
        if pe + 1 < input.len() && (input[pe + 1] == '+' || input[pe + 1] == '-') {
            pe + 2
        } else {
            pe + 1
        }
    } else {
        pe
    };
    let e3 = digits_end(input, q2);
    let has_exp = has_e && e3 > q2;
    let esign_neg = has_exp && q2 == pe + 2 && input[pe + 1] == '-';
    let pend = if has_exp {
        e3
    } else {
        pe
    };
    let ed_len = if has_exp {
        e3 - q2
    } else {
        0
    };
    let ghost ed = if has_exp {
        sq.subrange(q2 as int, e3 as int)
    } else {
        Seq::<char>::empty()
    };
    proof {
        assert(ed.len() == ed_len);
    }

    // the significant digits: integer digits, fraction digits, leading
    // zeros stripped
    let mut digs: Vec<char> = copy_range(input, p, e1);
    if has_frac {
        let mut frv: Vec<char> = copy_range(input, e1 + 1, pe);
        digs.append(&mut frv);
    }
    proof {
        assert(digs@ =~= di + fr);
        assert(forall|t: int| 0 <= t < digs@.len() ==> is_digit(digs@[t]));
    }
    let z = strip_pos(&digs);
    let ghost sig = strip_zeros(di + fr);
    proof {
        assert(sig =~= digs@.subrange(z as int, digs@.len() as int));
        assert(forall|t: int| 0 <= t < sig.len() ==> is_digit(sig[t]));
    }
    let sig_len = digs.len() - z;
    if sig_len > 18 {
        return Parsed::Fail(ParseError::Syntax { pos: i });
    }
    if ed_len > 9 {
        return Parsed::Fail(ParseError::Syntax { pos: i });
    }

    let m = digits_value(&digs, z);
    proof {
        assert(m as int == digits_val(sig));
    }

    let edv: Vec<char> = if has_exp {
        copy_range(input, q2, e3)
    } else {
        Vec::new()
    };
    proof {
        assert(edv@ =~= ed);
        if has_exp {
            lemma_digits_end_bounds(sq, q2 as int);
        }
        assert(forall|t: int| 0 <= t < edv@.len() ==> is_digit(edv@[t]));
    }
    let ev = digits_value(&edv, 0);
    proof {
        assert(edv@.subrange(0, edv@.len() as int) =~= edv@);
        assert(ev as int == digits_val(ed));
        lemma_pow10_increases(ed.len(), 9);
        assert(pow10(9) == 1_000_000_000) by {
            reveal_with_fuel(pow10, 10);
        }
    }

    let ghost e0 = (if esign_neg {
        -digits_val(ed)
    } else {
        digits_val(ed)
    }) - fr.len();
    let mut e_raw: i128 = if esign_neg {
        -(ev as i128)
    } else {
        ev as i128
    };
    e_raw = e_raw - (fr_len as i128);
    proof {
        assert(e_raw as int == e0);
        assert(pow10(18) == 1_000_000_000_000_000_000) by {
            reveal_with_fuel(pow10, 19);
        }
        lemma_pow10_increases(sig.len(), 18);
        lemma_digits_val_bound(sig);
    }
    let nm = normalize(m, e_raw);
    let m_cur = nm.0;
    let e_cur = nm.1;
    if e_cur < -999_999_999 || e_cur > 999_999_999 {
        return Parsed::Fail(ParseError::Syntax { pos: i });
    }
    let num = Num { neg: m_cur != 0 && neg, mantissa: m_cur, exp: e_cur as i32 };
    proof {
        assert(i < pend <= input@.len());
    }
    Parsed::Found(Value::Number(num), pend)
}


/// Repeatedly shifting factors of ten out of a nonzero mantissa reaches the
/// canonical pair.
proof fn lemma_norm_fixed(m0: int, e0: int, m: int, e: int)
    requires
        m > 0,
        m % 10 != 0,
        e0 <= e,
        m * pow10((e - e0) as nat) == m0,
    ensures
        spec_norm(m0, e0) == (m, e),
    decreases e - e0,
{
    if e == e0 {
        lemma_pow10_pos(0);
        assert(m0 == m);
    } else {
        let sh = (e - e0) as nat;
        assert(pow10(sh) == 10 * pow10((sh - 1) as nat));
        lemma_pow10_pos((sh - 1) as nat);
        assert(m0 == (m * pow10((sh - 1) as nat)) * 10) by (nonlinear_arith)
            requires
                m * pow10(sh) == m0,
                pow10(sh) == 10 * pow10((sh - 1) as nat),
        ;
        assert(m0 % 10 == 0);
        assert(m0 / 10 == m * pow10((sh - 1) as nat));
        assert(m0 > 0) by (nonlinear_arith)
            requires
                m > 0,
                pow10(sh) >= 1,
                m * pow10(sh) == m0,
        ;
        lemma_norm_fixed(m0 / 10, e0 + 1, m, e);
    }
}


/// `true` written at `i`.
pub open spec fn lit_true(s: Seq<char>, i: int) -> bool {
    &&& i + 4 <= s.len()
    &&& s[i] == 't'
    &&& s[i + 1] == 'r'
    &&& s[i + 2] == 'u'
    &&& s[i + 3] == 'e'
}

/// `false` written at `i`.
pub open spec fn lit_false(s: Seq<char>, i: int) -> bool {
    &&& i + 5 <= s.len()
    &&& s[i] == 'f'
    &&& s[i + 1] == 'a'
    &&& s[i + 2] == 'l'
    &&& s[i + 3] == 's'
    &&& s[i + 4] == 'e'
}

/// A boolean literal: the word `true` or `false`.
pub open spec fn spec_boolean(s: Seq<char>, i: int) -> SpecParsed<bool> {
    if lit_true(s, i) {
        SpecParsed::Found(true, i + 4)
    } else if lit_false(s, i) {
        SpecParsed::Found(false, i + 5)
    } else {
        SpecParsed::NoMatch
    }
}

/// Inserts `(k, v)` into an ordered key-unique entry sequence: an existing
/// key keeps its place and takes the new value (last write wins), a new key
/// goes to the end.
pub open spec fn upsert(
    m: Seq<(Seq<char>, SpecValue)>,
    k: Seq<char>,
    v: SpecValue,
) -> Seq<(Seq<char>, SpecValue)>
    decreases m.len(),
{
    if m.len() == 0 {
        seq![(k, v)]
    } else if m[0].0 == k {
        seq![(k, v)] + m.drop_first()
    } else {
        seq![m[0]] + upsert(m.drop_first(), k, v)
    }
}

/// A value: a string, list, hash, boolean or number literal, after
/// whitespace and comments. The first meaningful character decides which.
pub open spec fn spec_value(s: Seq<char>, i: int) -> SpecParsed<SpecValue>
    decreases s.len() - i, 2int,
{
    let j = skip_ge(s, i);
    if j >= s.len() {
        SpecParsed::NoMatch
    } else if s[j] == '"' {
        match spec_string(s, j) {
            SpecParsed::Found(t, p) => SpecParsed::Found(SpecValue::Str(t), p),
            SpecParsed::NoMatch => SpecParsed::NoMatch,
            SpecParsed::Fail(e) => SpecParsed::Fail(e),
        }
    } else if s[j] == '[' {
        match spec_list_elems(s, j + 1, Seq::empty()) {
            SpecParsed::Found(vs, p) => SpecParsed::Found(SpecValue::List(vs), p),
            SpecParsed::NoMatch => SpecParsed::NoMatch,
            SpecParsed::Fail(e) => SpecParsed::Fail(e),
        }
    } else if s[j] == '{' {
        match spec_hash_entries(s, j + 1, Seq::empty()) {
            SpecParsed::Found(es, p) => SpecParsed::Found(SpecValue::Hash(es), p),
            SpecParsed::NoMatch => SpecParsed::NoMatch,
            SpecParsed::Fail(e) => SpecParsed::Fail(e),
        }
    } else if lit_true(s, j) || lit_false(s, j) {
        match spec_boolean(s, j) {
            SpecParsed::Found(b, p) => SpecParsed::Found(SpecValue::Boolean(b), p),
            _ => SpecParsed::NoMatch,
        }
    } else {
        spec_number(s, j)
    }
}

/// The elements of a list, from just after `[` or a separating comma:
/// either a closing `]` right away (only for `acc` empty, an empty list),
/// or a value followed by `,` and more elements or by the closing `]`.
pub open spec fn spec_list_elems(
    s: Seq<char>,
    i: int,
    acc: Seq<SpecValue>,
) -> SpecParsed<Seq<SpecValue>>
    decreases s.len() - i, 3int,
{
    let j0 = skip_ge(s, i);
    if acc.len() == 0 && j0 < s.len() && s[j0] == ']' {
        SpecParsed::Found(acc, j0 + 1)
    } else {
        match spec_value(s, i) {
            SpecParsed::Fail(e) => SpecParsed::Fail(e),
            SpecParsed::NoMatch => SpecParsed::Fail(SpecParseError::Syntax { pos: j0 }),
            SpecParsed::Found(v, jr) => {
                let j = if jr > i {
                    jr
                } else {
                    i + 1
                };
                let j1 = skip_ge(s, j);
                if j1 < s.len() && s[j1] == ',' {
                    spec_list_elems(s, j1 + 1, acc.push(v))
                } else if j1 < s.len() && s[j1] == ']' {
                    SpecParsed::Found(acc.push(v), j1 + 1)
                } else {
                    SpecParsed::Fail(SpecParseError::Syntax { pos: j1 })
                }
            },
        }
    }
}

/// The entries of a hash, from just after `{` or a previous entry: string
/// keys, `=>`, values, until the closing `}`. A repeated key keeps its
/// place and takes the last value.
pub open spec fn spec_hash_entries(
    s: Seq<char>,
    i: int,
    acc: Seq<(Seq<char>, SpecValue)>,
) -> SpecParsed<Seq<(Seq<char>, SpecValue)>>
    decreases s.len() - i, 3int,
{
    let j = skip_ge(s, i);
    if j >= s.len() {
        SpecParsed::Fail(SpecParseError::Syntax { pos: j })
    } else if s[j] == '}' {
        SpecParsed::Found(acc, j + 1)
    } else {
        match spec_string(s, j) {
            SpecParsed::Fail(e) => SpecParsed::Fail(e),
            SpecParsed::NoMatch => SpecParsed::Fail(SpecParseError::Syntax { pos: j }),
            SpecParsed::Found(k, pr) => {
                let p = if pr > j {
                    pr
                } else {
                    j + 1
                };
                let p2 = skip_ge(s, p);
                if !(p2 + 2 <= s.len() && s[p2] == '=' && s[p2 + 1] == '>') {
                    SpecParsed::Fail(SpecParseError::Syntax { pos: p2 })
                } else {
                    match spec_value(s, p2 + 2) {
                        SpecParsed::Fail(e) => SpecParsed::Fail(e),
                        SpecParsed::NoMatch => SpecParsed::Fail(
                            SpecParseError::Syntax { pos: skip_ge(s, p2 + 2) },
                        ),
                        SpecParsed::Found(v, qr) => {
                            let q = if qr > i && qr <= s.len() {
                                qr
                            } else {
                                i + 1
                            };
                            spec_hash_entries(s, q, upsert(acc, k, v))
                        },
                    }
                }
            },
        }
    }
}

/// A list literal: `[`, comma-separated values, `]`.
pub open spec fn spec_list(s: Seq<char>, i: int) -> SpecParsed<Seq<SpecValue>> {
    if 0 <= i < s.len() && s[i] == '[' {
        spec_list_elems(s, i + 1, Seq::empty())
    } else {
        SpecParsed::NoMatch
    }
}

/// A hash literal: `{`, string keys bound with `=>` to values, `}`.
pub open spec fn spec_hash(s: Seq<char>, i: int) -> SpecParsed<Seq<(Seq<char>, SpecValue)>> {
    if 0 <= i < s.len() && s[i] == '{' {
        spec_hash_entries(s, i + 1, Seq::empty())
    } else {
        SpecParsed::NoMatch
    }
}


/// Recognizes a boolean literal.
pub fn boolean(input: &[char], i: usize) -> (r: Parsed<bool>)
    requires
        i <= input@.len(),
    ensures
        res_ok(r, spec_boolean(input@, i as int)),
        r matches Parsed::Found(_, j) ==> i < j <= input@.len(),
{
    if input.len() - i >= 4 && input[i] == 't' && input[i + 1] == 'r' && input[i + 2] == 'u'
        && input[i + 3] == 'e' {
        Parsed::Found(true, i + 4)
    } else if input.len() - i >= 5 && input[i] == 'f' && input[i + 1] == 'a' && input[i + 2] == 'l'
        && input[i + 3] == 's' && input[i + 4] == 'e' {
        Parsed::Found(false, i + 5)
    } else {
        Parsed::NoMatch
    }
}

/// Character-for-character equality of two character vectors.
#[verifier::loop_isolation(false)]
fn eq_chars(a: &Vec<char>, b: &Vec<char>) -> (r: bool)
    ensures
        r == (a@ == b@),
{
    if a.len() != b.len() {
        return false;
    }
    let mut k: usize = 0;
    while k < a.len()
        invariant
            0 <= k <= a@.len(),
            a@.len() == b@.len(),
            forall|t: int| 0 <= t < k ==> a@[t] == b@[t],
        decreases a@.len() - k,
    {
        if a[k] != b[k] {
            return false;
        }
        k = k + 1;
    }
    proof {
        assert(a@ =~= b@);
    }
    true
}

/// An `upsert` that hits an existing key updates it in place.
proof fn lemma_upsert_update(m: Seq<(Seq<char>, SpecValue)>, k: Seq<char>, v: SpecValue, idx: int)
    requires
        0 <= idx < m.len(),
        m[idx].0 == k,
        forall|t: int| 0 <= t < idx ==> m[t].0 != k,
    ensures
        upsert(m, k, v) == m.update(idx, (k, v)),
    decreases idx,
{
    if idx == 0 {
        assert(seq![(k, v)] + m.drop_first() =~= m.update(0, (k, v)));
    } else {
        assert(m.drop_first()[idx - 1].0 == k);
        lemma_upsert_update(m.drop_first(), k, v, idx - 1);
        assert(seq![m[0]] + m.drop_first().update(idx - 1, (k, v)) =~= m.update(idx, (k, v)));
    }
}

/// An `upsert` of a fresh key appends it.
proof fn lemma_upsert_append(m: Seq<(Seq<char>, SpecValue)>, k: Seq<char>, v: SpecValue)
    requires
        forall|t: int| 0 <= t < m.len() ==> m[t].0 != k,
    ensures
        upsert(m, k, v) == m.push((k, v)),
    decreases m.len(),
{
    if m.len() == 0 {
        assert(seq![(k, v)] =~= m.push((k, v)));
    } else {
        lemma_upsert_append(m.drop_first(), k, v);
        assert(seq![m[0]] + m.drop_first().push((k, v)) =~= m.push((k, v)));
    }
}

/// Inserts an entry into an ordered key-unique entry list: an existing key
/// keeps its place and takes the new value, a new key goes to the end.
#[verifier::loop_isolation(false)]
pub fn insert_entry(h: &mut Vec<(Vec<char>, Value)>, k: Vec<char>, v: Value)
    ensures
        crate::types::view_entries(final(h)@) == upsert(
            crate::types::view_entries(old(h)@),
            k@,
            v@,
        ),
{
    let ghost m = crate::types::view_entries(old(h)@);
    proof {
        crate::types::lemma_view_entries_index(old(h)@);
    }
    let mut idx: usize = 0;
    while idx < h.len()
        invariant
            0 <= idx <= h@.len(),
            h@ == old(h)@,
            forall|t: int| 0 <= t < idx ==> m[t].0 != k@,
        decreases h@.len() - idx,
    {
        if eq_chars(&h[idx].0, &k) {
            let old_v = &h[idx];
            h[idx] = (k, v);
            proof {
                crate::types::lemma_view_entries_index(h@);
                assert(crate::types::view_entries(h@) =~= m.update(idx as int, (k@, v@)));
                lemma_upsert_update(m, k@, v@, idx as int);
            }
            return;
        }
        idx = idx + 1;
    }
    h.push((k, v));
    proof {
        crate::types::lemma_view_entries_index(h@);
        crate::types::lemma_view_entries_index(old(h)@);
        assert(crate::types::view_entries(h@) =~= m.push((k@, v@)));
        lemma_upsert_append(m, k@, v@);
    }
}

/// Recognizes a value: string, list, hash, boolean or number, after
/// whitespace and comments.
#[verifier::loop_isolation(false)]
pub fn value(input: &[char], i: usize) -> (r: Parsed<Value>)
    requires
        i <= input@.len(),
    ensures
        res_ok(r, spec_value(input@, i as int)),
        r matches Parsed::Found(_, j) ==> i < j <= input@.len(),
    decreases input@.len() - i, 2int,
{
    let j = sp(input, i);
    proof {
        assert(skip_ge(input@, i as int) == j as int);
    }
    if j >= input.len() {
        return Parsed::NoMatch;
    }
    let c = input[j];
    if c == '"' {
        match string(input, j) {
            Parsed::Found(t, p) => Parsed::Found(Value::Str(t), p),
            Parsed::NoMatch => Parsed::NoMatch,
            Parsed::Fail(e) => Parsed::Fail(e),
        }
    } else if c == '[' {
        match list_elems(input, j + 1) {
            Parsed::Found(vs, p) => Parsed::Found(Value::List(vs), p),
            Parsed::NoMatch => Parsed::NoMatch,
            Parsed::Fail(e) => Parsed::Fail(e),
        }
    } else if c == '{' {
        match hash_entries(input, j + 1) {
            Parsed::Found(es, p) => Parsed::Found(Value::Hash(es), p),
            Parsed::NoMatch => Parsed::NoMatch,
            Parsed::Fail(e) => Parsed::Fail(e),
        }
    } else if (input.len() - j >= 4 && input[j] == 't' && input[j + 1] == 'r' && input[j + 2]
        == 'u' && input[j + 3] == 'e') || (input.len() - j >= 5 && input[j] == 'f' && input[j + 1]
        == 'a' && input[j + 2] == 'l' && input[j + 3] == 's' && input[j + 4] == 'e') {
        match boolean(input, j) {
            Parsed::Found(b, p) => Parsed::Found(Value::Boolean(b), p),
            _ => Parsed::NoMatch,
        }
    } else {
        number(input, j)
    }
}

/// Parses list elements from just after `[`, through the closing `]`.
#[verifier::loop_isolation(false)]
fn list_elems(input: &[char], i: usize) -> (r: Parsed<Vec<Value>>)
    requires
        i <= input@.len(),
    ensures
        r matches Parsed::Found(v, j) ==> spec_list_elems(input@, i as int, Seq::empty())
            == SpecParsed::Found(crate::types::view_values(v@), j as int) && i < j <= input@.len(),
        r matches Parsed::Fail(e) ==> spec_list_elems(input@, i as int, Seq::empty())
            == SpecParsed::<Seq<SpecValue>>::Fail(e@),
        !(r is NoMatch),
    decreases input@.len() - i, 3int,
{
    let ghost s0 = input@;
    let mut acc: Vec<Value> = Vec::new();
    let mut cur: usize = i;
    proof {
        crate::types::lemma_view_values_index(acc@);
        assert(crate::types::view_values(acc@) =~= Seq::<SpecValue>::empty());
    }
    loop
        invariant
            i <= cur <= input@.len(),
            acc@.len() == 0 ==> cur == i,
            spec_list_elems(s0, i as int, Seq::empty()) == spec_list_elems(
                s0,
                cur as int,
                crate::types::view_values(acc@),
            ),
        decreases input@.len() - cur,
    {
        let ghost accv = crate::types::view_values(acc@);
        proof {
            crate::types::lemma_view_values_index(acc@);
        }
        let j0 = sp(input, cur);
        if acc.len() == 0 && j0 < input.len() && input[j0] == ']' {
            return Parsed::Found(acc, j0 + 1);
        }
        match value(input, cur) {
            Parsed::Fail(e) => {
                return Parsed::Fail(e);
            },
            Parsed::NoMatch => {
                return Parsed::Fail(ParseError::Syntax { pos: j0 });
            },
            Parsed::Found(v, jr) => {
                let j1 = sp(input, jr);
                if j1 < input.len() && input[j1] == ',' {
                    proof {
                        crate::types::lemma_view_values_push(acc@, v);
                    }
                    acc.push(v);
                    cur = j1 + 1;
                } else if j1 < input.len() && input[j1] == ']' {
                    proof {
                        crate::types::lemma_view_values_push(acc@, v);
                    }
                    acc.push(v);
                    return Parsed::Found(acc, j1 + 1);
                } else {
                    return Parsed::Fail(ParseError::Syntax { pos: j1 });
                }
            },
        }
    }
}

/// Parses hash entries from just after `{`, through the closing `}`.
#[verifier::loop_isolation(false)]
fn hash_entries(input: &[char], i: usize) -> (r: Parsed<Vec<(Vec<char>, Value)>>)
    requires
        i <= input@.len(),
    ensures
        r matches Parsed::Found(h, j) ==> spec_hash_entries(input@, i as int, Seq::empty())
            == SpecParsed::Found(crate::types::view_entries(h@), j as int) && i < j
            <= input@.len(),
        r matches Parsed::Fail(e) ==> spec_hash_entries(input@, i as int, Seq::empty())
            == SpecParsed::<Seq<(Seq<char>, SpecValue)>>::Fail(e@),
        !(r is NoMatch),
    decreases input@.len() - i, 3int,
{
    let ghost s0 = input@;
    let mut acc: Vec<(Vec<char>, Value)> = Vec::new();
    let mut cur: usize = i;
    proof {
        crate::types::lemma_view_entries_index(acc@);
        assert(crate::types::view_entries(acc@) =~= Seq::<(Seq<char>, SpecValue)>::empty());
    }
    loop
        invariant
            i <= cur <= input@.len(),
            spec_hash_entries(s0, i as int, Seq::empty()) == spec_hash_entries(
                s0,
                cur as int,
                crate::types::view_entries(acc@),
            ),
        decreases input@.len() - cur,
    {
        let j = sp(input, cur);
        if j >= input.len() {
            return Parsed::Fail(ParseError::Syntax { pos: j });
        }
        if input[j] == '}' {
            return Parsed::Found(acc, j + 1);
        }
        match string(input, j) {
            Parsed::Fail(e) => {
                return Parsed::Fail(e);
            },
            Parsed::NoMatch => {
                return Parsed::Fail(ParseError::Syntax { pos: j });
            },
            Parsed::Found(k, pr) => {
                let p2 = sp(input, pr);
                if !(input.len() - p2 >= 2 && input[p2] == '=' && input[p2 + 1] == '>') {
                    return Parsed::Fail(ParseError::Syntax { pos: p2 });
                }
                match value(input, p2 + 2) {
                    Parsed::Fail(e) => {
                        return Parsed::Fail(e);
                    },
                    Parsed::NoMatch => {
                        let z = sp(input, p2 + 2);
                        return Parsed::Fail(ParseError::Syntax { pos: z });
                    },
                    Parsed::Found(v, qr) => {
                        let ghost kview = k@;
                        let ghost vview = v@;
                        insert_entry(&mut acc, k, v);
                        cur = qr;
                    },
                }
            },
        }
    }
}

/// Recognizes a list literal.
pub fn list(input: &[char], i: usize) -> (r: Parsed<Vec<Value>>)
    requires
        i <= input@.len(),
    ensures
        r matches Parsed::Found(v, j) ==> spec_list(input@, i as int) == SpecParsed::Found(
            crate::types::view_values(v@),
            j as int,
        ) && i < j <= input@.len(),
        r matches Parsed::Fail(e) ==> spec_list(input@, i as int)
            == SpecParsed::<Seq<SpecValue>>::Fail(e@),
        r is NoMatch ==> spec_list(input@, i as int) is NoMatch,
{
    if i < input.len() && input[i] == '[' {
        list_elems(input, i + 1)
    } else {
        Parsed::NoMatch
    }
}

/// Recognizes a hash literal.
pub fn hash(input: &[char], i: usize) -> (r: Parsed<Vec<(Vec<char>, Value)>>)
    requires
        i <= input@.len(),
    ensures
        r matches Parsed::Found(h, j) ==> spec_hash(input@, i as int) == SpecParsed::Found(
            crate::types::view_entries(h@),
            j as int,
        ) && i < j <= input@.len(),
        r matches Parsed::Fail(e) ==> spec_hash(input@, i as int)
            == SpecParsed::<Seq<(Seq<char>, SpecValue)>>::Fail(e@),
        r is NoMatch ==> spec_hash(input@, i as int) is NoMatch,
{
    if i < input.len() && input[i] == '{' {
        hash_entries(input, i + 1)
    } else {
        Parsed::NoMatch
    }
}


/// How rendering writes one string character: the five characters the
/// string grammar cannot hold bare are escaped, every other character
/// stands for itself.
pub open spec fn spec_escape_char(c: char) -> Seq<char> {
    if c == '"' {
        seq!['\\', '"']
    } else if c == '\\' {
        seq!['\\', '\\']
    } else if c == '\r' {
        seq!['\\', 'r']
    } else if c == '\n' {
        seq!['\\', 'n']
    } else if c == '\t' {
        seq!['\\', 't']
    } else {
        seq![c]
    }
}

/// A whole string body, escaped for rendering.
pub open spec fn spec_escape(sq: Seq<char>) -> Seq<char>
    decreases sq.len(),
{
    if sq.len() == 0 {
        Seq::empty()
    } else {
        spec_escape_char(sq[0]) + spec_escape(sq.drop_first())
    }
}

/// The decimal digit character for `d`.
pub open spec fn digit_char(d: int) -> char {
    if d == 0 { '0' }
    else if d == 1 { '1' }
    else if d == 2 { '2' }
    else if d == 3 { '3' }
    else if d == 4 { '4' }
    else if d == 5 { '5' }
    else if d == 6 { '6' }
    else if d == 7 { '7' }
    else if d == 8 { '8' }
    else { '9' }
}

/// The decimal digit string of a nonnegative number, most significant
/// digit first.
pub open spec fn spec_digits(m: int) -> Seq<char>
    decreases m,
{
    if m < 10 {
        seq![digit_char(if m < 0 { 0 } else { m })]
    } else {
        spec_digits(m / 10).push(digit_char(m % 10))
    }
}

/// How a canonical number renders: plain digits where the exponent is
/// zero, a decimal point where a small negative exponent allows one, and
/// `e` notation otherwise.
pub open spec fn spec_render_num(n: crate::types::Num) -> Seq<char> {
    let ds = spec_digits(n.mantissa as int);
    let sign: Seq<char> = if n.neg {
        seq!['-']
    } else {
        Seq::empty()
    };
    if n.mantissa == 0 {
        seq!['0']
    } else if n.exp == 0 {
        sign + ds
    } else if n.exp > 0 {
        sign + ds + seq!['e'] + spec_digits(n.exp as int)
    } else if -(n.exp as int) < ds.len() {
        sign + ds.subrange(0, ds.len() + n.exp) + seq!['.'] + ds.subrange(
            ds.len() + n.exp,
            ds.len() as int,
        )
    } else if -(n.exp as int) == ds.len() {
        sign + seq!['0', '.'] + ds
    } else {
        sign + ds + seq!['e', '-'] + spec_digits(-(n.exp as int))
    }
}

/// How a value renders to literal syntax: the canonical text that parses
/// back to the same value.
pub open spec fn spec_render(v: SpecValue) -> Seq<char>
    decreases v, 0int,
{
    match v {
        SpecValue::Str(sq) => seq!['"'] + spec_escape(sq) + seq!['"'],
        SpecValue::Boolean(b) => {
            if b {
                seq!['t', 'r', 'u', 'e']
            } else {
                seq!['f', 'a', 'l', 's', 'e']
            }
        },
        SpecValue::Number(n) => spec_render_num(n),
        SpecValue::List(l) => seq!['['] + spec_render_list(l) + seq![']'],
        SpecValue::Hash(h) => seq!['{'] + spec_render_hash(h) + seq!['}'],
    }
}

/// List elements rendered with comma separators.
pub open spec fn spec_render_list(l: Seq<SpecValue>) -> Seq<char>
    decreases l, 1int,
{
    if l.len() == 0 {
        Seq::empty()
    } else if l.len() == 1 {
        spec_render(l[0])
    } else {
        spec_render(l[0]) + seq![','] + spec_render_list(l.drop_first())
    }
}

/// Hash entries rendered as `"key"=>value`, one after another.
pub open spec fn spec_render_hash(h: Seq<(Seq<char>, SpecValue)>) -> Seq<char>
    decreases h, 1int,
{
    if h.len() == 0 {
        Seq::empty()
    } else {
        seq!['"'] + spec_escape(h[0].0) + seq!['"', '=', '>'] + spec_render(h[0].1)
            + spec_render_hash(h.drop_first())
    }
}

/// A well-formed value: numbers canonical and within the literal bounds,
/// hash keys unique, recursively.
pub open spec fn wf_value(v: SpecValue) -> bool
    decreases v, 0int,
{
    match v {
        SpecValue::Str(_) => true,
        SpecValue::Boolean(_) => true,
        SpecValue::Number(n) => n.wf() && n.mantissa as int <= max_mantissa() && -max_exp()
            <= n.exp as int <= max_exp(),
        SpecValue::List(l) => wf_values(l),
        SpecValue::Hash(h) => wf_entries(h) && (forall|a: int, b: int|
            0 <= a < b < h.len() ==> h[a].0 != h[b].0),
    }
}

/// Every element of a value sequence is well formed.
pub open spec fn wf_values(l: Seq<SpecValue>) -> bool
    decreases l, 1int,
{
    if l.len() == 0 {
        true
    } else {
        wf_value(l[0]) && wf_values(l.drop_first())
    }
}

/// Every value of an entry sequence is well formed.
pub open spec fn wf_entries(h: Seq<(Seq<char>, SpecValue)>) -> bool
    decreases h, 1int,
{
    if h.len() == 0 {
        true
    } else {
        wf_value(h[0].1) && wf_entries(h.drop_first())
    }
}


/// A character after which no literal continues: what may follow a
/// rendered value inside a composite, or the end of the text.
pub open spec fn is_stopper(c: char) -> bool {
    c == ',' || c == ']' || c == '}' || c == '"'
}

/// Skipping does nothing on a meaningful character.
proof fn lemma_skip_at(s: Seq<char>, i: int)
    requires
        0 <= i < s.len(),
        !is_space(s[i]),
        s[i] != '#',
    ensures
        spec_skip(s, i) == i,
        skip_ge(s, i) == i,
{
}

/// The digit string of `m`: nonempty decimal digits, no leading zero
/// unless `m` is zero, reading back to `m`, with its length tied to the
/// size of `m`.
proof fn lemma_digits_props(m: int)
    requires
        0 <= m,
    ensures
        spec_digits(m).len() >= 1,
        forall|t: int| 0 <= t < spec_digits(m).len() ==> is_digit(spec_digits(m)[t]),
        digits_val(spec_digits(m)) == m,
        m > 0 ==> spec_digits(m)[0] != '0',
        m < pow10(spec_digits(m).len() as nat),
        m > 0 ==> pow10((spec_digits(m).len() - 1) as nat) <= m,
    decreases m,
{
    if m < 10 {
        let ds = seq![digit_char(m)];
        assert(spec_digits(m) == ds);
        assert(ds.drop_last() =~= Seq::<char>::empty());
        assert(digits_val(ds) == digits_val(ds.drop_last()) * 10 + digit_val(ds.last()));
        assert(digit_val(digit_char(m)) == m);
        assert(pow10(1) == 10) by {
            reveal_with_fuel(pow10, 3);
        }
        assert(pow10(0) == 1) by {
            reveal_with_fuel(pow10, 2);
        }
    } else {
        lemma_digits_props(m / 10);
        let pre = spec_digits(m / 10);
        let ds = pre.push(digit_char(m % 10));
        assert(spec_digits(m) == ds);
        assert(ds.drop_last() =~= pre);
        assert(digit_val(digit_char(m % 10)) == m % 10);
        assert(digits_val(ds) == digits_val(pre) * 10 + m % 10);
        assert(digits_val(pre) == m / 10);
        assert(m / 10 * 10 + m % 10 == m);
        assert(ds[0] == pre[0]);
        assert(forall|t: int| 0 <= t < ds.len() ==> is_digit(ds[t])) by {
            assert(forall|t: int| 0 <= t < pre.len() ==> ds[t] == pre[t]);
            assert(is_digit(ds[ds.len() - 1]));
        }
        assert(pow10((pre.len() + 1) as nat) == 10 * pow10(pre.len() as nat));
        assert(m <= 10 * (m / 10) + 9);
        assert(m / 10 < pow10(pre.len() as nat));
        assert(10 * (m / 10) + 9 < 10 * pow10(pre.len() as nat));
        assert(pow10((pre.len() - 1) as nat) <= m / 10);
        assert(pow10(pre.len() as nat) == 10 * pow10((pre.len() - 1) as nat));
        assert(10 * pow10((pre.len() - 1) as nat) <= 10 * (m / 10));
        assert(10 * (m / 10) <= m);
    }
}

/// A digit string shorter than `k` digits when `m` is below `10^k`.
proof fn lemma_digits_len_le(m: int, k: nat)
    requires
        0 <= m,
        m < pow10(k),
    ensures
        spec_digits(m).len() <= k || m == 0,
    decreases m,
{
    lemma_digits_props(m);
    if m > 0 {
        if spec_digits(m).len() > k {
            lemma_pow10_increases(k, (spec_digits(m).len() - 1) as nat);
            assert(pow10(k) <= pow10((spec_digits(m).len() - 1) as nat));
            assert(false);
        }
    }
}

/// The digit run over an exact digit region ends exactly at its end.
proof fn lemma_digits_end_region(s: Seq<char>, a: int, b: int)
    requires
        0 <= a <= b <= s.len(),
        forall|t: int| a <= t < b ==> is_digit(s[t]),
        b == s.len() || !is_digit(s[b]),
    ensures
        spec_digits_end(s, a) == b,
    decreases b - a,
{
    if a < b {
        lemma_digits_end_region(s, a + 1, b);
    }
}

/// Stripping does nothing without a leading zero.
proof fn lemma_strip_id(ds: Seq<char>)
    requires
        ds.len() == 0 || ds[0] != '0',
    ensures
        strip_zeros(ds) == ds,
{
}

/// Stripping drops one leading zero.
proof fn lemma_strip_cons0(ds: Seq<char>)
    ensures
        strip_zeros(seq!['0'] + ds) == strip_zeros(ds),
{
    let u = seq!['0'] + ds;
    assert(u[0] == '0');
    assert(u.len() > 0);
    assert(u.drop_first() =~= ds);
}

/// Reading an escaped string body back: the rendered escapes decode to the
/// original characters, up to the closing quote.
proof fn lemma_string_round(sq: Seq<char>, s: Seq<char>, a: int, b: int)
    requires
        0 <= a <= b < s.len(),
        s.subrange(a, b) == spec_escape(sq),
        s[b] == '"',
    ensures
        spec_string_body(s, a) == SpecParsed::<Seq<char>>::Found(sq, b + 1),
    decreases sq.len(),
{
    if sq.len() == 0 {
        assert(b - a == 0);
        assert(spec_string_body(s, a) == SpecParsed::<Seq<char>>::Found(Seq::empty(), a + 1));
        assert(sq =~= Seq::<char>::empty());
    } else {
        let c = sq[0];
        let e = spec_escape_char(c);
        let rest = spec_escape(sq.drop_first());
        assert(s.subrange(a, b) == e + rest);
        assert(b - a == e.len() + rest.len());
        assert(forall|t: int| 0 <= t < e.len() ==> s[a + t] == e[t]) by {
            assert(forall|t: int| 0 <= t < e.len() ==> s.subrange(a, b)[t] == e[t]);
            assert(forall|t: int| 0 <= t < b - a ==> s.subrange(a, b)[t] == s[a + t]);
        }
        let a2 = a + e.len();
        assert(s.subrange(a2, b) =~= rest) by {
            assert(forall|t: int| 0 <= t < rest.len() ==> s.subrange(a, b)[e.len() + t] == rest[t]);
            assert(forall|t: int| 0 <= t < b - a2 ==> s.subrange(a2, b)[t] == s[a2 + t]);
            assert(forall|t: int| 0 <= t < b - a ==> s.subrange(a, b)[t] == s[a + t]);
        }
        lemma_string_round(sq.drop_first(), s, a2, b);
        if c == '"' || c == '\\' || c == '\r' || c == '\n' || c == '\t' {
            assert(e.len() == 2);
            assert(s[a] == '\\');
            let ec = s[a + 1];
            assert(esc_expand(ec) == Some(seq![c]));
            assert(spec_string_body(s, a) == prepend_chars(seq![c], spec_string_body(s, a + 2)));
            assert(seq![c] + sq.drop_first() =~= sq);
        } else {
            assert(e.len() == 1);
            assert(e[0] == c);
            assert(s.subrange(a, b)[0] == s[a]);
            assert(s[a] == c);
            assert(c != '"' && c != '\\' && c != '\t' && c != '\r' && c != '\n');
            assert(spec_string_body(s, a) == prepend_chars(seq![c], spec_string_body(s, a + 1)));
            assert(seq![c] + sq.drop_first() =~= sq);
        }
    }
}


/// Indexing through an equal region.
proof fn lemma_region_index(s: Seq<char>, i: int, j: int, r: Seq<char>)
    requires
        0 <= i <= j <= s.len(),
        s.subrange(i, j) == r,
    ensures
        r.len() == j - i,
        forall|t: int| 0 <= t < j - i ==> s[i + t] == r[t],
{
    assert(forall|t: int| 0 <= t < j - i ==> s.subrange(i, j)[t] == s[i + t]);
}

/// A sub-slice of an equal region equals the matching sub-slice.
proof fn lemma_region_sub(s: Seq<char>, i: int, j: int, r: Seq<char>, a: int, b: int)
    requires
        0 <= i <= j <= s.len(),
        s.subrange(i, j) == r,
        0 <= a <= b <= r.len(),
    ensures
        s.subrange(i + a, i + b) == r.subrange(a, b),
{
    lemma_region_index(s, i, j, r);
    assert(s.subrange(i + a, i + b) =~= r.subrange(a, b));
}

/// Reading a rendered number back gives the same canonical number.
proof fn lemma_number_round(n: Num, s: Seq<char>, i: int, j: int)
    requires
        n.wf(),
        n.mantissa as int <= max_mantissa(),
        -max_exp() <= n.exp as int <= max_exp(),
        0 <= i <= j <= s.len(),
        s.subrange(i, j) == spec_render_num(n),
        j == s.len() || is_stopper(s[j]),
    ensures
        spec_number(s, i) == SpecParsed::<crate::types::SpecValue>::Found(
            crate::types::SpecValue::Number(n),
            j,
        ),
{
    if n.mantissa == 0 {
        lemma_number_round_zero(n, s, i, j);
    } else if n.exp == 0 {
        lemma_number_round_int(n, s, i, j);
    } else if n.exp > 0 {
        lemma_number_round_exp(n, s, i, j);
    } else if -(n.exp as int) < spec_digits(n.mantissa as int).len() {
        lemma_number_round_point(n, s, i, j);
    } else if -(n.exp as int) == spec_digits(n.mantissa as int).len() {
        lemma_number_round_zp(n, s, i, j);
    } else {
        lemma_number_round_eneg(n, s, i, j);
    }
}

#[verifier::rlimit(100)]
proof fn lemma_number_round_zero(n: Num, s: Seq<char>, i: int, j: int)
    requires
        n.wf(),
        n.mantissa as int <= max_mantissa(),
        -max_exp() <= n.exp as int <= max_exp(),
        0 <= i <= j <= s.len(),
        s.subrange(i, j) == spec_render_num(n),
        j == s.len() || is_stopper(s[j]),
        n.mantissa == 0,
    ensures
        spec_number(s, i) == SpecParsed::<crate::types::SpecValue>::Found(
            crate::types::SpecValue::Number(n),
            j,
        ),
{
    let r = spec_render_num(n);
    lemma_region_index(s, i, j, r);
    assert(pow10(18) == 1_000_000_000_000_000_000) by {
        reveal_with_fuel(pow10, 19);
    }
    assert(pow10(9) == 1_000_000_000) by {
        reveal_with_fuel(pow10, 10);
    }
    let m = n.mantissa as int;
    let ex = n.exp as int;
    lemma_digits_props(m);
    let ds = spec_digits(m);
    let dl = ds.len() as int;
    lemma_digits_len_le(m, 18);
    let sign: Seq<char> = if n.neg {
        seq!['-']
    } else {
        Seq::empty()
    };
    let sg = sign.len() as int;
    let p = i + sg;
    if n.neg {
        assert(r[0] == '-');
        assert(s[i] == '-');
    }
    assert(r == seq!['0']);
    assert(s[i] == '0');
    assert(j == i + 1);
    assert(is_digit(s[i]));
    lemma_digits_end_region(s, i, j);
    assert(spec_digits_end(s, i) == j);
    let di = s.subrange(i, j);
    assert(di =~= seq!['0']);
    assert(strip_zeros(seq!['0'] + Seq::<char>::empty()) == strip_zeros(
        Seq::<char>::empty(),
    )) by {
        lemma_strip_cons0(Seq::<char>::empty());
    }
    assert(di + Seq::<char>::empty() =~= seq!['0'] + Seq::<char>::empty());
    assert(digits_val(Seq::<char>::empty()) == 0);
    assert(spec_norm(0, 0) == (0int, 0int));
}

#[verifier::rlimit(100)]
proof fn lemma_number_round_int(n: Num, s: Seq<char>, i: int, j: int)
    requires
        n.wf(),
        n.mantissa as int <= max_mantissa(),
        -max_exp() <= n.exp as int <= max_exp(),
        0 <= i <= j <= s.len(),
        s.subrange(i, j) == spec_render_num(n),
        j == s.len() || is_stopper(s[j]),
        n.mantissa != 0 && n.exp == 0,
    ensures
        spec_number(s, i) == SpecParsed::<crate::types::SpecValue>::Found(
            crate::types::SpecValue::Number(n),
            j,
        ),
{
    let r = spec_render_num(n);
    lemma_region_index(s, i, j, r);
    assert(pow10(18) == 1_000_000_000_000_000_000) by {
        reveal_with_fuel(pow10, 19);
    }
    assert(pow10(9) == 1_000_000_000) by {
        reveal_with_fuel(pow10, 10);
    }
    let m = n.mantissa as int;
    let ex = n.exp as int;
    lemma_digits_props(m);
    let ds = spec_digits(m);
    let dl = ds.len() as int;
    lemma_digits_len_le(m, 18);
    let sign: Seq<char> = if n.neg {
        seq!['-']
    } else {
        Seq::empty()
    };
    let sg = sign.len() as int;
    let p = i + sg;
    if n.neg {
        assert(r[0] == '-');
        assert(s[i] == '-');
    }
    assert(r =~= sign + ds);
    assert(forall|t: int| 0 <= t < dl ==> r[sg + t] == ds[t]);
    assert(forall|t: int| p <= t < j ==> is_digit(s[t])) by {
        assert(forall|t: int| p <= t < j ==> s[t] == r[t - i] && r[t - i] == ds[t - p]);
    }
    if !n.neg {
        assert(s[i] == ds[0]);
        assert(is_digit(s[i]));
        assert(s[i] != '-' && s[i] != '+');
    }
    lemma_digits_end_region(s, p, j);
    assert(s.subrange(p, j) =~= ds);
    lemma_strip_id(ds);
    assert(s.subrange(p, j) + Seq::<char>::empty() =~= ds);
    assert(spec_norm(m, 0) == (m, 0int));
}

#[verifier::rlimit(100)]
proof fn lemma_number_round_exp(n: Num, s: Seq<char>, i: int, j: int)
    requires
        n.wf(),
        n.mantissa as int <= max_mantissa(),
        -max_exp() <= n.exp as int <= max_exp(),
        0 <= i <= j <= s.len(),
        s.subrange(i, j) == spec_render_num(n),
        j == s.len() || is_stopper(s[j]),
        n.mantissa != 0 && n.exp > 0,
    ensures
        spec_number(s, i) == SpecParsed::<crate::types::SpecValue>::Found(
            crate::types::SpecValue::Number(n),
            j,
        ),
{
    let r = spec_render_num(n);
    lemma_region_index(s, i, j, r);
    assert(pow10(18) == 1_000_000_000_000_000_000) by {
        reveal_with_fuel(pow10, 19);
    }
    assert(pow10(9) == 1_000_000_000) by {
        reveal_with_fuel(pow10, 10);
    }
    let m = n.mantissa as int;
    let ex = n.exp as int;
    lemma_digits_props(m);
    let ds = spec_digits(m);
    let dl = ds.len() as int;
    lemma_digits_len_le(m, 18);
    let sign: Seq<char> = if n.neg {
        seq!['-']
    } else {
        Seq::empty()
    };
    let sg = sign.len() as int;
    let p = i + sg;
    if n.neg {
        assert(r[0] == '-');
        assert(s[i] == '-');
    }
    lemma_digits_props(ex);
    let es = spec_digits(ex);
    let el = es.len() as int;
    lemma_digits_len_le(ex, 9);
    assert(r =~= sign + ds + seq!['e'] + es);
    assert(forall|t: int| 0 <= t < dl ==> r[sg + t] == ds[t]);
    assert(r[sg + dl] == 'e');
    assert(forall|t: int| 0 <= t < el ==> r[sg + dl + 1 + t] == es[t]);
    let e1 = p + dl;
    assert(forall|t: int| p <= t < e1 ==> is_digit(s[t])) by {
        assert(forall|t: int| p <= t < e1 ==> s[t] == r[t - i] && r[t - i] == ds[t - p]);
    }
    assert(s[e1] == 'e');
    assert(!is_digit('e'));
    lemma_digits_end_region(s, p, e1);
    if !n.neg {
        assert(s[i] == ds[0]);
        assert(is_digit(s[i]));
    }
    let q2 = e1 + 1;
    assert(s[q2] == es[0]);
    assert(is_digit(s[q2]));
    assert(s[q2] != '+' && s[q2] != '-');
    assert(forall|t: int| q2 <= t < j ==> is_digit(s[t])) by {
        assert(forall|t: int|
            q2 <= t < j ==> s[t] == r[t - i] && r[t - i] == es[t - q2]);
    }
    lemma_digits_end_region(s, q2, j);
    assert(s.subrange(p, e1) =~= ds);
    assert(s.subrange(q2, j) =~= es);
    lemma_strip_id(ds);
    assert(s.subrange(p, e1) + Seq::<char>::empty() =~= ds);
    assert(spec_norm(m, ex) == (m, ex));
}

#[verifier::rlimit(100)]
proof fn lemma_number_round_point(n: Num, s: Seq<char>, i: int, j: int)
    requires
        n.wf(),
        n.mantissa as int <= max_mantissa(),
        -max_exp() <= n.exp as int <= max_exp(),
        0 <= i <= j <= s.len(),
        s.subrange(i, j) == spec_render_num(n),
        j == s.len() || is_stopper(s[j]),
        n.mantissa != 0 && n.exp < 0 && -(n.exp as int) < spec_digits(n.mantissa as int).len(),
    ensures
        spec_number(s, i) == SpecParsed::<crate::types::SpecValue>::Found(
            crate::types::SpecValue::Number(n),
            j,
        ),
{
    let r = spec_render_num(n);
    lemma_region_index(s, i, j, r);
    assert(pow10(18) == 1_000_000_000_000_000_000) by {
        reveal_with_fuel(pow10, 19);
    }
    assert(pow10(9) == 1_000_000_000) by {
        reveal_with_fuel(pow10, 10);
    }
    let m = n.mantissa as int;
    let ex = n.exp as int;
    lemma_digits_props(m);
    let ds = spec_digits(m);
    let dl = ds.len() as int;
    lemma_digits_len_le(m, 18);
    let sign: Seq<char> = if n.neg {
        seq!['-']
    } else {
        Seq::empty()
    };
    let sg = sign.len() as int;
    let p = i + sg;
    if n.neg {
        assert(r[0] == '-');
        assert(s[i] == '-');
    }
    let cut = dl + ex;
    assert(r =~= sign + ds.subrange(0, cut) + seq!['.'] + ds.subrange(cut, dl));
    assert(forall|t: int| 0 <= t < cut ==> r[sg + t] == ds[t]);
    assert(r[sg + cut] == '.');
    assert(forall|t: int| cut <= t < dl ==> r[sg + t + 1] == ds[t]);
    let e1 = p + cut;
    assert(forall|t: int| p <= t < e1 ==> is_digit(s[t])) by {
        assert(forall|t: int| p <= t < e1 ==> s[t] == r[t - i] && r[t - i] == ds[t - p]);
    }
    assert(s[e1] == '.');
    assert(!is_digit('.'));
    lemma_digits_end_region(s, p, e1);
    if !n.neg {
        assert(s[i] == ds[0]);
        assert(is_digit(s[i]));
    }
    assert(forall|t: int| e1 + 1 <= t < j ==> is_digit(s[t])) by {
        assert(forall|t: int|
            e1 + 1 <= t < j ==> s[t] == r[t - i] && r[t - i] == ds[t - i - sg - 1]);
    }
    lemma_digits_end_region(s, e1 + 1, j);
    let di = s.subrange(p, e1);
    let fr = s.subrange(e1 + 1, j);
    assert(di =~= ds.subrange(0, cut));
    assert(fr =~= ds.subrange(cut, dl));
    assert(di + fr =~= ds);
    lemma_strip_id(ds);
    assert(fr.len() == -ex);
    assert(spec_norm(m, ex) == (m, ex));
}

#[verifier::rlimit(100)]
proof fn lemma_number_round_zp(n: Num, s: Seq<char>, i: int, j: int)
    requires
        n.wf(),
        n.mantissa as int <= max_mantissa(),
        -max_exp() <= n.exp as int <= max_exp(),
        0 <= i <= j <= s.len(),
        s.subrange(i, j) == spec_render_num(n),
        j == s.len() || is_stopper(s[j]),
        n.mantissa != 0 && n.exp < 0 && -(n.exp as int) == spec_digits(n.mantissa as int).len(),
    ensures
        spec_number(s, i) == SpecParsed::<crate::types::SpecValue>::Found(
            crate::types::SpecValue::Number(n),
            j,
        ),
{
    let r = spec_render_num(n);
    lemma_region_index(s, i, j, r);
    assert(pow10(18) == 1_000_000_000_000_000_000) by {
        reveal_with_fuel(pow10, 19);
    }
    assert(pow10(9) == 1_000_000_000) by {
        reveal_with_fuel(pow10, 10);
    }
    let m = n.mantissa as int;
    let ex = n.exp as int;
    lemma_digits_props(m);
    let ds = spec_digits(m);
    let dl = ds.len() as int;
    lemma_digits_len_le(m, 18);
    let sign: Seq<char> = if n.neg {
        seq!['-']
    } else {
        Seq::empty()
    };
    let sg = sign.len() as int;
    let p = i + sg;
    if n.neg {
        assert(r[0] == '-');
        assert(s[i] == '-');
    }
    assert(r =~= sign + seq!['0', '.'] + ds);
    assert(r[sg] == '0');
    assert(r[sg + 1] == '.');
    assert(forall|t: int| 0 <= t < dl ==> r[sg + 2 + t] == ds[t]);
    assert(s[p] == '0');
    assert(is_digit(s[p]));
    assert(s[p + 1] == '.');
    assert(!is_digit('.'));
    lemma_digits_end_region(s, p, p + 1);
    if !n.neg {
        assert(s[i] == '0');
    }
    assert(forall|t: int| p + 2 <= t < j ==> is_digit(s[t])) by {
        assert(forall|t: int|
            p + 2 <= t < j ==> s[t] == r[t - i] && r[t - i] == ds[t - p - 2]);
    }
    lemma_digits_end_region(s, p + 2, j);
    let di = s.subrange(p, p + 1);
    let fr = s.subrange(p + 2, j);
    assert(di =~= seq!['0']);
    assert(fr =~= ds);
    assert(di + fr =~= seq!['0'] + ds);
    lemma_strip_cons0(ds);
    lemma_strip_id(ds);
    assert(fr.len() == -ex);
    assert(spec_norm(m, ex) == (m, ex));
}

#[verifier::rlimit(100)]
proof fn lemma_number_round_eneg(n: Num, s: Seq<char>, i: int, j: int)
    requires
        n.wf(),
        n.mantissa as int <= max_mantissa(),
        -max_exp() <= n.exp as int <= max_exp(),
        0 <= i <= j <= s.len(),
        s.subrange(i, j) == spec_render_num(n),
        j == s.len() || is_stopper(s[j]),
        n.mantissa != 0 && n.exp < 0 && -(n.exp as int) > spec_digits(n.mantissa as int).len(),
    ensures
        spec_number(s, i) == SpecParsed::<crate::types::SpecValue>::Found(
            crate::types::SpecValue::Number(n),
            j,
        ),
{
    let r = spec_render_num(n);
    lemma_region_index(s, i, j, r);
    assert(pow10(18) == 1_000_000_000_000_000_000) by {
        reveal_with_fuel(pow10, 19);
    }
    assert(pow10(9) == 1_000_000_000) by {
        reveal_with_fuel(pow10, 10);
    }
    let m = n.mantissa as int;
    let ex = n.exp as int;
    lemma_digits_props(m);
    let ds = spec_digits(m);
    let dl = ds.len() as int;
    lemma_digits_len_le(m, 18);
    let sign: Seq<char> = if n.neg {
        seq!['-']
    } else {
        Seq::empty()
    };
    let sg = sign.len() as int;
    let p = i + sg;
    if n.neg {
        assert(r[0] == '-');
        assert(s[i] == '-');
    }
    let nx = -ex;
    lemma_digits_props(nx);
    let es = spec_digits(nx);
    let el = es.len() as int;
    lemma_digits_len_le(nx, 9);
    assert(r =~= sign + ds + seq!['e', '-'] + es);
    assert(forall|t: int| 0 <= t < dl ==> r[sg + t] == ds[t]);
    assert(r[sg + dl] == 'e');
    assert(r[sg + dl + 1] == '-');
    assert(forall|t: int| 0 <= t < el ==> r[sg + dl + 2 + t] == es[t]);
    let e1 = p + dl;
    assert(forall|t: int| p <= t < e1 ==> is_digit(s[t])) by {
        assert(forall|t: int| p <= t < e1 ==> s[t] == r[t - i] && r[t - i] == ds[t - p]);
    }
    assert(s[e1] == 'e');
    assert(!is_digit('e'));
    lemma_digits_end_region(s, p, e1);
    if !n.neg {
        assert(s[i] == ds[0]);
        assert(is_digit(s[i]));
    }
    assert(s[e1 + 1] == '-');
    let q2 = e1 + 2;
    assert(forall|t: int| q2 <= t < j ==> is_digit(s[t])) by {
        assert(forall|t: int|
            q2 <= t < j ==> s[t] == r[t - i] && r[t - i] == es[t - q2]);
    }
    lemma_digits_end_region(s, q2, j);
    assert(s.subrange(p, e1) =~= ds);
    assert(s.subrange(q2, j) =~= es);
    lemma_strip_id(ds);
    assert(s.subrange(p, e1) + Seq::<char>::empty() =~= ds);
    assert(spec_norm(m, ex) == (m, ex));
}

/// The characters a rendered value can begin with.
pub open spec fn is_value_start(c: char) -> bool {
    c == '"' || c == '[' || c == '{' || c == 't' || c == 'f' || c == '-' || is_digit(c)
}

/// A rendered value is nonempty and begins with a value-start character.
proof fn lemma_render_first(v: SpecValue)
    requires
        wf_value(v),
    ensures
        spec_render(v).len() >= 1,
        is_value_start(spec_render(v)[0]),
        v is Str ==> spec_render(v)[0] == '"',
        v is List ==> spec_render(v)[0] == '[',
        v is Hash ==> spec_render(v)[0] == '{',
        v is Boolean ==> spec_render(v)[0] == 't' || spec_render(v)[0] == 'f',
        v is Number ==> spec_render(v)[0] == '-' || is_digit(spec_render(v)[0]),
{
    match v {
        SpecValue::Str(sq) => {
            assert(spec_render(v)[0] == '"');
        },
        SpecValue::Boolean(b) => {},
        SpecValue::Number(n) => {
            let ds = spec_digits(n.mantissa as int);
            lemma_digits_props(n.mantissa as int);
            if n.mantissa == 0 {
            } else if n.neg {
                assert(spec_render_num(n)[0] == '-');
            } else {
                let ex = n.exp as int;
                if ex == 0 {
                    assert(spec_render_num(n)[0] == ds[0]);
                } else if ex > 0 {
                    assert(spec_render_num(n)[0] == ds[0]);
                } else if -ex < ds.len() {
                    assert(spec_render_num(n)[0] == ds.subrange(0, ds.len() + ex)[0]);
                    assert(ds.subrange(0, ds.len() + ex)[0] == ds[0]);
                } else if -ex == ds.len() {
                    assert(spec_render_num(n)[0] == '0');
                } else {
                    assert(spec_render_num(n)[0] == ds[0]);
                }
            }
        },
        SpecValue::List(l) => {
            assert(spec_render(v)[0] == '[');
        },
        SpecValue::Hash(h) => {
            assert(spec_render(v)[0] == '{');
        },
    }
}

/// Round trip of one value written at `[i, j)` with a stopper (or the end
/// of the text) after it.
proof fn lemma_value_round(v: SpecValue, s: Seq<char>, i: int, j: int)
    requires
        wf_value(v),
        0 <= i <= j <= s.len(),
        s.subrange(i, j) == spec_render(v),
        j == s.len() || is_stopper(s[j]),
    ensures
        spec_value(s, i) == SpecParsed::<SpecValue>::Found(v, j),
    decreases v, 1int,
{
    match v {
        SpecValue::Str(_) => lemma_value_round_str(v, s, i, j),
        SpecValue::Boolean(_) => lemma_value_round_bool(v, s, i, j),
        SpecValue::Number(_) => lemma_value_round_num(v, s, i, j),
        SpecValue::List(_) => lemma_value_round_list(v, s, i, j),
        SpecValue::Hash(_) => lemma_value_round_hash(v, s, i, j),
    }
}

#[verifier::rlimit(100)]
proof fn lemma_value_round_str(v: SpecValue, s: Seq<char>, i: int, j: int)
    requires
        wf_value(v),
        0 <= i <= j <= s.len(),
        s.subrange(i, j) == spec_render(v),
        j == s.len() || is_stopper(s[j]),
        v is Str,
    ensures
        spec_value(s, i) == SpecParsed::<SpecValue>::Found(v, j),
    decreases v, 0int,
{
    let r = spec_render(v);
    lemma_render_first(v);
    lemma_region_index(s, i, j, r);
    assert(s[i] == r[0]);
    lemma_skip_at(s, i);
    let sq = v->Str_0;
    assert(s[i] == '"');
    let esc = spec_escape(sq);
    assert(r =~= seq!['"'] + esc + seq!['"']);
    assert(r[r.len() - 1] == '"');
    assert(s[j - 1] == '"');
    assert(s.subrange(i + 1, j - 1) =~= esc) by {
        assert(forall|t: int| 0 <= t < esc.len() ==> r[1 + t] == esc[t]);
    }
    lemma_string_round(sq, s, i + 1, j - 1);
}

#[verifier::rlimit(100)]
proof fn lemma_value_round_bool(v: SpecValue, s: Seq<char>, i: int, j: int)
    requires
        wf_value(v),
        0 <= i <= j <= s.len(),
        s.subrange(i, j) == spec_render(v),
        j == s.len() || is_stopper(s[j]),
        v is Boolean,
    ensures
        spec_value(s, i) == SpecParsed::<SpecValue>::Found(v, j),
    decreases v, 0int,
{
    let r = spec_render(v);
    lemma_render_first(v);
    lemma_region_index(s, i, j, r);
    assert(s[i] == r[0]);
    lemma_skip_at(s, i);
    let b = v->Boolean_0;
    if b {
        assert(s[i] == 't' && s[i + 1] == 'r' && s[i + 2] == 'u' && s[i + 3] == 'e');
        assert(lit_true(s, i));
        assert(j == i + 4);
    } else {
        assert(s[i] == 'f' && s[i + 1] == 'a' && s[i + 2] == 'l' && s[i + 3] == 's'
            && s[i + 4] == 'e');
        assert(lit_false(s, i));
        assert(j == i + 5);
        assert(!lit_true(s, i));
    }
}

#[verifier::rlimit(100)]
proof fn lemma_value_round_num(v: SpecValue, s: Seq<char>, i: int, j: int)
    requires
        wf_value(v),
        0 <= i <= j <= s.len(),
        s.subrange(i, j) == spec_render(v),
        j == s.len() || is_stopper(s[j]),
        v is Number,
    ensures
        spec_value(s, i) == SpecParsed::<SpecValue>::Found(v, j),
    decreases v, 0int,
{
    let r = spec_render(v);
    lemma_render_first(v);
    lemma_region_index(s, i, j, r);
    assert(s[i] == r[0]);
    lemma_skip_at(s, i);
    let n = v->Number_0;
    assert(s[i] == '-' || is_digit(s[i]));
    assert(s[i] != '"' && s[i] != '[' && s[i] != '{');
    assert(!lit_true(s, i) && !lit_false(s, i)) by {
        assert(s[i] != 't' && s[i] != 'f');
    }
    lemma_number_round(n, s, i, j);
}

#[verifier::rlimit(100)]
proof fn lemma_value_round_list(v: SpecValue, s: Seq<char>, i: int, j: int)
    requires
        wf_value(v),
        0 <= i <= j <= s.len(),
        s.subrange(i, j) == spec_render(v),
        j == s.len() || is_stopper(s[j]),
        v is List,
    ensures
        spec_value(s, i) == SpecParsed::<SpecValue>::Found(v, j),
    decreases v, 0int,
{
    let r = spec_render(v);
    lemma_render_first(v);
    lemma_region_index(s, i, j, r);
    assert(s[i] == r[0]);
    lemma_skip_at(s, i);
    let l = v->List_0;
    assert(s[i] == '[');
    assert(r[r.len() - 1] == ']');
    assert(s[j - 1] == ']');
    assert(s.subrange(i + 1, j - 1) =~= spec_render_list(l)) by {
        assert(forall|t: int|
            0 <= t < spec_render_list(l).len() ==> r[1 + t] == spec_render_list(l)[t]);
    }
    if l.len() == 0 {
        assert(j == i + 2);
        assert(s[i + 1] == ']');
        lemma_skip_at(s, i + 1);
        assert(spec_list_elems(s, i + 1, Seq::empty())
            == SpecParsed::<Seq<SpecValue>>::Found(Seq::empty(), i + 2));
    } else {
        lemma_list_round(l, s, i + 1, j - 1, Seq::empty());
        assert(Seq::empty() + l =~= l);
    }
}

#[verifier::rlimit(100)]
proof fn lemma_value_round_hash(v: SpecValue, s: Seq<char>, i: int, j: int)
    requires
        wf_value(v),
        0 <= i <= j <= s.len(),
        s.subrange(i, j) == spec_render(v),
        j == s.len() || is_stopper(s[j]),
        v is Hash,
    ensures
        spec_value(s, i) == SpecParsed::<SpecValue>::Found(v, j),
    decreases v, 0int,
{
    let r = spec_render(v);
    lemma_render_first(v);
    lemma_region_index(s, i, j, r);
    assert(s[i] == r[0]);
    lemma_skip_at(s, i);
    let h = v->Hash_0;
    assert(s[i] == '{');
    assert(r[r.len() - 1] == '}');
    assert(s[j - 1] == '}');
    assert(s.subrange(i + 1, j - 1) =~= spec_render_hash(h)) by {
        assert(forall|t: int|
            0 <= t < spec_render_hash(h).len() ==> r[1 + t] == spec_render_hash(h)[t]);
    }
    if h.len() == 0 {
        assert(j == i + 2);
        assert(s[i + 1] == '}');
        lemma_skip_at(s, i + 1);
        assert(spec_hash_entries(s, i + 1, Seq::empty())
            == SpecParsed::<Seq<(Seq<char>, SpecValue)>>::Found(Seq::empty(), i + 2));
    } else {
        lemma_hash_round(h, s, i + 1, j - 1, Seq::empty());
        assert(Seq::empty() + h =~= h);
    }
}

/// Round trip of one or more list elements written at `[a, b)` with the
/// closing `]` at `b`.
#[verifier::rlimit(100)]
proof fn lemma_list_round(
    l: Seq<SpecValue>,
    s: Seq<char>,
    a: int,
    b: int,
    acc: Seq<SpecValue>,
)
    requires
        wf_values(l),
        l.len() >= 1,
        0 <= a <= b < s.len(),
        s.subrange(a, b) == spec_render_list(l),
        s[b] == ']',
    ensures
        spec_list_elems(s, a, acc) == SpecParsed::<Seq<SpecValue>>::Found(acc + l, b + 1),
    decreases l, 1int,
{
    let r = spec_render_list(l);
    lemma_region_index(s, a, b, r);
    let v0 = l[0];
    let r0 = spec_render(v0);
    lemma_render_first(v0);
    assert(wf_value(v0));
    if l.len() == 1 {
        assert(r == r0);
        assert(s[a] == r0[0]);
        lemma_skip_at(s, a);
        assert(s[a] != ']');
        lemma_value_round(v0, s, a, b);
        lemma_skip_at(s, b);
        assert(acc.push(v0) =~= acc + l);
    } else {
        let mid = a + r0.len();
        assert(r =~= r0 + seq![','] + spec_render_list(l.drop_first()));
        assert(forall|t: int| 0 <= t < r0.len() ==> r[t] == r0[t]);
        assert(s[a] == r0[0]);
        lemma_skip_at(s, a);
        assert(s[a] != ']');
        assert(r[r0.len() as int] == ',');
        assert(s[mid] == ',');
        assert(s.subrange(a, mid) =~= r0);
        lemma_value_round(v0, s, a, mid);
        lemma_skip_at(s, mid);
        assert(s.subrange(mid + 1, b) =~= spec_render_list(l.drop_first())) by {
            assert(forall|t: int|
                0 <= t < spec_render_list(l.drop_first()).len() ==> r[r0.len() + 1 + t]
                    == spec_render_list(l.drop_first())[t]);
        }
        assert(wf_values(l.drop_first()));
        lemma_list_round(l.drop_first(), s, mid + 1, b, acc.push(v0));
        assert(acc.push(v0) + l.drop_first() =~= acc + l);
    }
}

/// Round trip of one or more hash entries written at `[a, b)` with the
/// closing `}` at `b`; the keys are distinct and fresh to `acc`.
#[verifier::rlimit(100)]
proof fn lemma_hash_round(
    h: Seq<(Seq<char>, SpecValue)>,
    s: Seq<char>,
    a: int,
    b: int,
    acc: Seq<(Seq<char>, SpecValue)>,
)
    requires
        wf_entries(h),
        forall|x: int, y: int| 0 <= x < y < h.len() ==> h[x].0 != h[y].0,
        forall|x: int, u: int| 0 <= x < h.len() && 0 <= u < acc.len() ==> acc[u].0 != h[x].0,
        h.len() >= 1,
        0 <= a <= b < s.len(),
        s.subrange(a, b) == spec_render_hash(h),
        s[b] == '}',
    ensures
        spec_hash_entries(s, a, acc) == SpecParsed::<Seq<(Seq<char>, SpecValue)>>::Found(
            acc + h,
            b + 1,
        ),
    decreases h, 1int,
{
    let r = spec_render_hash(h);
    lemma_region_index(s, a, b, r);
    let k0 = h[0].0;
    let v0 = h[0].1;
    let esc = spec_escape(k0);
    let rest = spec_render_hash(h.drop_first());
    let rv = spec_render(v0);
    assert(r =~= seq!['"'] + esc + seq!['"', '=', '>'] + rv + rest);
    let q1 = seq!['"'] + esc;
    let q2 = q1 + seq!['"', '=', '>'];
    let q3 = q2 + rv;
    assert(r =~= q3 + rest);
    assert(q1[0] == '"');
    assert(q2[0] == q1[0]);
    assert(q3[0] == q2[0]);
    assert(r[0] == q3[0]);
    assert(s[a] == '"');
    lemma_skip_at(s, a);
    assert(s[a] != '}');
    let qp = a + 1 + esc.len();
    assert(forall|t: int| 0 <= t < esc.len() ==> r[1 + t] == esc[t]);
    assert(r[1 + esc.len() as int] == '"');
    assert(s[qp] == '"');
    assert(s.subrange(a + 1, qp) =~= esc);
    lemma_string_round(k0, s, a + 1, qp);
    let p = qp + 1;
    assert(r[1 + esc.len() as int + 1] == '=');
    assert(r[1 + esc.len() as int + 2] == '>');
    assert(s[p] == '=');
    assert(s[p + 1] == '>');
    lemma_skip_at(s, p);
    let vs = p + 2;
    let vend = vs + rv.len();
    assert(s.subrange(vs, vend) =~= rv) by {
        assert(forall|t: int| 0 <= t < rv.len() ==> r[1 + esc.len() + 3 + t] == rv[t]);
    }
    assert(wf_value(v0));
    lemma_render_first(v0);
    if h.len() == 1 {
        assert(rest =~= Seq::<char>::empty());
        assert(vend == b);
        lemma_value_round(v0, s, vs, vend);
        lemma_upsert_append(acc, k0, v0);
        lemma_skip_at(s, b);
        assert(spec_hash_entries(s, b, acc.push((k0, v0)))
            == SpecParsed::<Seq<(Seq<char>, SpecValue)>>::Found(acc.push((k0, v0)), b + 1));
        assert(acc.push((k0, v0)) =~= acc + h);
    } else {
        assert(rest.len() >= 1);
        assert(rest[0] == '"') by {
            assert(rest =~= seq!['"'] + spec_escape(h.drop_first()[0].0) + seq!['"', '=', '>']
                + spec_render(h.drop_first()[0].1) + spec_render_hash(
                h.drop_first().drop_first(),
            ));
        }
        assert(r[1 + esc.len() as int + 3 + rv.len() as int] == rest[0]);
        assert(s[vend] == '"');
        lemma_value_round(v0, s, vs, vend);
        lemma_upsert_append(acc, k0, v0);
        assert(s.subrange(vend, b) =~= rest) by {
            assert(forall|t: int|
                0 <= t < rest.len() ==> r[1 + esc.len() + 3 + rv.len() + t] == rest[t]);
        }
        assert(wf_entries(h.drop_first()));
        lemma_hash_round(h.drop_first(), s, vend, b, acc.push((k0, v0)));
        assert(acc.push((k0, v0)) + h.drop_first() =~= acc + h);
    }
}

/// Round trip: rendering any well-formed value to literal syntax and
/// parsing the text back yields the same value, consuming the whole text.
pub proof fn lemma_render_parse_round_trip(v: SpecValue)
    requires
        wf_value(v),
    ensures
        spec_value(spec_render(v), 0) == SpecParsed::<SpecValue>::Found(
            v,
            spec_render(v).len() as int,
        ),
{
    let s = spec_render(v);
    lemma_render_first(v);
    assert(s.subrange(0, s.len() as int) =~= s);
    lemma_value_round(v, s, 0, s.len() as int);
}


/// Escaping distributes over appending one character.
proof fn lemma_escape_push(sq: Seq<char>, c: char)
    ensures
        spec_escape(sq.push(c)) == spec_escape(sq) + spec_escape_char(c),
    decreases sq.len(),
{
    if sq.len() == 0 {
        assert(sq.push(c)[0] == c);
        assert(sq.push(c).drop_first() =~= Seq::<char>::empty());
        assert(spec_escape(sq.push(c)) == spec_escape_char(c) + spec_escape(
            Seq::<char>::empty(),
        ));
        assert(spec_escape_char(c) + Seq::<char>::empty() =~= spec_escape_char(c));
        assert(spec_escape(sq) + spec_escape_char(c) =~= spec_escape_char(c));
    } else {
        assert(sq.push(c)[0] == sq[0]);
        assert(sq.push(c).drop_first() =~= sq.drop_first().push(c));
        lemma_escape_push(sq.drop_first(), c);
        assert(spec_escape_char(sq[0]) + (spec_escape(sq.drop_first()) + spec_escape_char(c))
            =~= (spec_escape_char(sq[0]) + spec_escape(sq.drop_first())) + spec_escape_char(c));
    }
}

/// A rendered list splits at any element boundary.
proof fn lemma_render_list_split(l: Seq<SpecValue>, k: int)
    requires
        1 <= k < l.len(),
    ensures
        spec_render_list(l) == spec_render_list(l.subrange(0, k)) + seq![','] + spec_render_list(
            l.subrange(k, l.len() as int),
        ),
    decreases k,
{
    if k == 1 {
        assert(l.subrange(0, 1) =~= seq![l[0]]);
        assert(spec_render_list(seq![l[0]]) == spec_render(l[0]));
        assert(l.subrange(1, l.len() as int) =~= l.drop_first());
    } else {
        lemma_render_list_split(l.drop_first(), k - 1);
        assert(l.drop_first().subrange(0, k - 1) =~= l.subrange(1, k));
        assert(l.drop_first().subrange(k - 1, l.drop_first().len() as int) =~= l.subrange(
            k,
            l.len() as int,
        ));
        let a = spec_render(l[0]);
        let b = spec_render_list(l.subrange(1, k));
        let c = spec_render_list(l.subrange(k, l.len() as int));
        assert(spec_render_list(l) == a + seq![','] + (b + seq![','] + c));
        assert(l.subrange(0, k).len() > 1);
        assert(l.subrange(0, k)[0] == l[0]);
        assert(l.subrange(0, k).drop_first() =~= l.subrange(1, k));
        assert(spec_render_list(l.subrange(0, k)) == a + seq![','] + b);
        assert(a + seq![','] + (b + seq![','] + c) =~= (a + seq![','] + b) + seq![','] + c);
    }
}

/// A rendered hash splits at any entry boundary.
proof fn lemma_render_hash_split(h: Seq<(Seq<char>, SpecValue)>, k: int)
    requires
        0 <= k <= h.len(),
    ensures
        spec_render_hash(h) == spec_render_hash(h.subrange(0, k)) + spec_render_hash(
            h.subrange(k, h.len() as int),
        ),
    decreases k,
{
    if k == 0 {
        assert(h.subrange(0, 0) =~= Seq::<(Seq<char>, SpecValue)>::empty());
        assert(h.subrange(0, h.len() as int) =~= h);
        assert(spec_render_hash(Seq::empty()) + spec_render_hash(h) =~= spec_render_hash(h));
    } else {
        lemma_render_hash_split(h.drop_first(), k - 1);
        assert(h.drop_first().subrange(0, k - 1) =~= h.subrange(1, k));
        assert(h.drop_first().subrange(k - 1, h.drop_first().len() as int) =~= h.subrange(
            k,
            h.len() as int,
        ));
        let e0 = seq!['"'] + spec_escape(h[0].0) + seq!['"', '=', '>'] + spec_render(h[0].1);
        let b = spec_render_hash(h.subrange(1, k));
        let c = spec_render_hash(h.subrange(k, h.len() as int));
        assert(spec_render_hash(h) == e0 + (b + c));
        assert(h.subrange(0, k).len() > 0);
        assert(h.subrange(0, k)[0] == h[0]);
        assert(h.subrange(0, k).drop_first() =~= h.subrange(1, k));
        assert(spec_render_hash(h.subrange(0, k)) == e0 + b);
        assert(e0 + (b + c) =~= (e0 + b) + c);
    }
}

/// Appends the decimal digits of `m`.
fn push_digits(m: u64, out: &mut Vec<char>)
    ensures
        final(out)@ == old(out)@ + spec_digits(m as int),
    decreases m,
{
    if m >= 10 {
        push_digits(m / 10, out);
    }
    let d = m % 10;
    let c: char = if d == 0 { '0' }
    else if d == 1 { '1' }
    else if d == 2 { '2' }
    else if d == 3 { '3' }
    else if d == 4 { '4' }
    else if d == 5 { '5' }
    else if d == 6 { '6' }
    else if d == 7 { '7' }
    else { if d == 8 { '8' } else { '9' } };
    let ghost pre = out@;
    out.push(c);
    proof {
        if m < 10 {
            assert(spec_digits(m as int) =~= seq![digit_char(m as int)]);
            assert(out@ =~= old(out)@ + spec_digits(m as int));
        } else {
            assert(spec_digits(m as int) == spec_digits(m as int / 10).push(
                digit_char(m as int % 10),
            ));
            assert(out@ =~= old(out)@ + spec_digits(m as int));
        }
    }
}


/// Appends `dv[a..b]`.
fn push_range(dv: &Vec<char>, a: usize, b: usize, out: &mut Vec<char>)
    requires
        a <= b <= dv@.len(),
    ensures
        final(out)@ == old(out)@ + dv@.subrange(a as int, b as int),
{
    let ghost base = out@;
    let mut k: usize = a;
    proof {
        assert(base + dv@.subrange(a as int, a as int) =~= base);
    }
    while k < b
        invariant
            a <= k <= b <= dv@.len(),
            out@ == base + dv@.subrange(a as int, k as int),
        decreases b - k,
    {
        out.push(dv[k]);
        proof {
            assert(base + dv@.subrange(a as int, k as int) + seq![dv@[k as int]] =~= base
                + dv@.subrange(a as int, k + 1));
        }
        k = k + 1;
    }
}

/// Appends the canonical rendering of a number.
#[verifier::loop_isolation(false)]
#[verifier::rlimit(100)]
fn push_num(n: &Num, out: &mut Vec<char>)
    ensures
        final(out)@ == old(out)@ + spec_render_num(*n),
{
    if n.mantissa == 0 {
        out.push('0');
        proof {
            assert(out@ =~= old(out)@ + spec_render_num(*n));
        }
        return;
    }
    let ghost base = out@;
    if n.neg {
        out.push('-');
    }
    let ghost sign: Seq<char> = if n.neg { seq!['-'] } else { Seq::<char>::empty() };
    proof {
        assert(out@ =~= base + sign);
    }
    let mut dv: Vec<char> = Vec::new();
    push_digits(n.mantissa, &mut dv);
    let ghost ds = spec_digits(n.mantissa as int);
    proof {
        assert(dv@ =~= ds);
    }
    let dl = dv.len();
    if n.exp == 0 {
        push_range(&dv, 0, dl, out);
        proof {
            assert(dv@.subrange(0, dl as int) =~= ds);
            assert(out@ =~= old(out)@ + spec_render_num(*n));
        }
    } else if n.exp > 0 {
        push_range(&dv, 0, dl, out);
        out.push('e');
        push_digits(n.exp as u64, out);
        proof {
            assert(dv@.subrange(0, dl as int) =~= ds);
            assert(spec_digits(n.exp as u64 as int) == spec_digits(n.exp as int));
            assert(out@ =~= old(out)@ + spec_render_num(*n));
        }
    } else {
        let nx: u64 = -(n.exp as i64) as u64;
        proof {
            assert(nx as int == -(n.exp as int));
        }
        if (nx as usize) < dl {
            let cut = dl - (nx as usize);
            push_range(&dv, 0, cut, out);
            out.push('.');
            push_range(&dv, cut, dl, out);
            proof {
                assert(ds.len() + n.exp == cut as int);
                assert(out@ =~= old(out)@ + spec_render_num(*n));
            }
        } else if (nx as usize) == dl {
            out.push('0');
            out.push('.');
            push_range(&dv, 0, dl, out);
            proof {
                assert(dv@.subrange(0, dl as int) =~= ds);
                assert(out@ =~= old(out)@ + spec_render_num(*n));
            }
        } else {
            push_range(&dv, 0, dl, out);
            out.push('e');
            out.push('-');
            push_digits(nx, out);
            proof {
                assert(dv@.subrange(0, dl as int) =~= ds);
                assert(out@ =~= old(out)@ + spec_render_num(*n));
            }
        }
    }
}

/// Appends the escaped form of a string body.
#[verifier::loop_isolation(false)]
fn push_escaped(sq: &Vec<char>, out: &mut Vec<char>)
    ensures
        final(out)@ == old(out)@ + spec_escape(sq@),
{
    let ghost base = out@;
    let mut k: usize = 0;
    proof {
        assert(sq@.subrange(0, 0) =~= Seq::<char>::empty());
        assert(base + spec_escape(sq@.subrange(0, 0)) =~= base);
    }
    while k < sq.len()
        invariant
            0 <= k <= sq@.len(),
            out@ == base + spec_escape(sq@.subrange(0, k as int)),
        decreases sq@.len() - k,
    {
        let c = sq[k];
        let ghost pre = out@;
        if c == '"' || c == '\\' {
            out.push('\\');
            out.push(c);
        } else if c == '\r' {
            out.push('\\');
            out.push('r');
        } else if c == '\n' {
            out.push('\\');
            out.push('n');
        } else if c == '\t' {
            out.push('\\');
            out.push('t');
        } else {
            out.push(c);
        }
        proof {
            assert(out@ =~= pre + spec_escape_char(sq@[k as int]));
            lemma_escape_push(sq@.subrange(0, k as int), sq@[k as int]);
            assert(sq@.subrange(0, k as int).push(sq@[k as int]) =~= sq@.subrange(0, k + 1));
            assert(out@ =~= base + spec_escape(sq@.subrange(0, k + 1)));
        }
        k = k + 1;
    }
    proof {
        assert(sq@.subrange(0, sq@.len() as int) =~= sq@);
    }
}

/// Appends the canonical rendering of a value.
#[verifier::loop_isolation(false)]
#[verifier::rlimit(100)]
fn push_value(v: &Value, out: &mut Vec<char>)
    ensures
        final(out)@ == old(out)@ + spec_render(v@),
    decreases v,
{
    match v {
        Value::Str(sq) => {
            out.push('"');
            push_escaped(sq, out);
            out.push('"');
            proof {
                assert(out@ =~= old(out)@ + spec_render(v@));
            }
        },
        Value::Boolean(b) => {
            if *b {
                out.push('t');
                out.push('r');
                out.push('u');
                out.push('e');
            } else {
                out.push('f');
                out.push('a');
                out.push('l');
                out.push('s');
                out.push('e');
            }
            proof {
                assert(out@ =~= old(out)@ + spec_render(v@));
            }
        },
        Value::Number(n) => {
            push_num(n, out);
        },
        Value::List(l) => {
            let ghost lv = crate::types::view_values(l@);
            proof {
                crate::types::lemma_view_values_index(l@);
            }
            out.push('[');
            let ghost base = out@;
            let mut k: usize = 0;
            while k < l.len()
                invariant
                    0 <= k <= l@.len(),
                    lv.len() == l@.len(),
                    forall|t: int| 0 <= t < l@.len() ==> lv[t] == l@[t]@,
                    out@ == base + spec_render_list(lv.subrange(0, k as int)),
                decreases l@.len() - k,
            {
                if k > 0 {
                    out.push(',');
                }
                let ghost pre = out@;
                proof {
                    assert(decreases_to!(*v => l@[k as int]));
                }
                push_value(&l[k], out);
                proof {
                    assert(out@ == pre + spec_render(lv[k as int]));
                    if k == 0 {
                        assert(lv.subrange(0, 1) =~= seq![lv[0]]);
                        assert(spec_render_list(seq![lv[0]]) == spec_render(lv[0]));
                        assert(spec_render_list(lv.subrange(0, 0)) =~= Seq::<char>::empty());
                        assert(out@ =~= base + spec_render_list(lv.subrange(0, 1)));
                    } else {
                        lemma_render_list_split(lv.subrange(0, k + 1), k as int);
                        assert(lv.subrange(0, k + 1).subrange(0, k as int) =~= lv.subrange(
                            0,
                            k as int,
                        ));
                        assert(lv.subrange(0, k + 1).subrange(k as int, k + 1) =~= seq![
                            lv[k as int],
                        ]);
                        assert(spec_render_list(seq![lv[k as int]]) == spec_render(lv[k as int]));
                        assert(out@ =~= base + spec_render_list(lv.subrange(0, k + 1)));
                    }
                }
                k = k + 1;
            }
            out.push(']');
            proof {
                assert(lv.subrange(0, lv.len() as int) =~= lv);
                assert(out@ =~= old(out)@ + spec_render(v@));
            }
        },
        Value::Hash(h) => {
            let ghost hv = crate::types::view_entries(h@);
            proof {
                crate::types::lemma_view_entries_index(h@);
            }
            out.push('{');
            let ghost base = out@;
            let mut k: usize = 0;
            while k < h.len()
                invariant
                    0 <= k <= h@.len(),
                    hv.len() == h@.len(),
                    forall|t: int| 0 <= t < h@.len() ==> hv[t] == (h@[t].0@, h@[t].1@),
                    out@ == base + spec_render_hash(hv.subrange(0, k as int)),
                decreases h@.len() - k,
            {
                let ghost pre = out@;
                out.push('"');
                push_escaped(&h[k].0, out);
                out.push('"');
                out.push('=');
                out.push('>');
                let ghost pre2 = out@;
                proof {
                    assert(decreases_to!(*v => h@[k as int].1));
                    assert(pre2 =~= pre + seq!['"'] + spec_escape(hv[k as int].0) + seq![
                        '"',
                        '=',
                        '>',
                    ]);
                }
                push_value(&h[k].1, out);
                proof {
                    assert(out@ == pre2 + spec_render(hv[k as int].1));
                    lemma_render_hash_split(hv.subrange(0, k + 1), k as int);
                    assert(hv.subrange(0, k + 1).subrange(0, k as int) =~= hv.subrange(
                        0,
                        k as int,
                    ));
                    assert(hv.subrange(0, k + 1).subrange(k as int, k + 1) =~= seq![
                        hv[k as int],
                    ]);
                    let single = seq![hv[k as int]];
                    assert(single[0] == hv[k as int]);
                    assert(single.drop_first() =~= Seq::<(Seq<char>, SpecValue)>::empty());
                    assert(spec_render_hash(single.drop_first()) == Seq::<char>::empty());
                    assert(spec_render_hash(single) == seq!['"'] + spec_escape(hv[k as int].0)
                        + seq!['"', '=', '>'] + spec_render(hv[k as int].1) + spec_render_hash(
                        single.drop_first(),
                    ));
                    assert(spec_render_hash(single) =~= seq!['"'] + spec_escape(hv[k as int].0)
                        + seq!['"', '=', '>'] + spec_render(hv[k as int].1));
                    assert(out@ =~= base + spec_render_hash(hv.subrange(0, k + 1)));
                }
                k = k + 1;
            }
            out.push('}');
            proof {
                assert(hv.subrange(0, hv.len() as int) =~= hv);
                assert(out@ =~= old(out)@ + spec_render(v@));
            }
        },
    }
}

/// Renders a value to its canonical literal text; parsing that text back
/// yields the same value.
pub fn render_value(v: &Value) -> (r: Vec<char>)
    ensures
        r@ == spec_render(v@),
{
    let mut out: Vec<char> = Vec::new();
    push_value(v, &mut out);
    proof {
        assert(Seq::<char>::empty() + spec_render(v@) =~= spec_render(v@));
    }
    out
}

} // verus!









