//! The structural config grammar and its pipeline representation: plugin
//! statements, nested if/else-if/else conditionals, and `input`/`filter`/
//! `output` sections folded into one ordered pipeline.
//!
//! Guard compilation is deliberately lazy: the grammar captures each guard's
//! text verbatim, and `ConditionExpression::compile` turns it into postfix
//! form in a separate pass. A malformed guard inside a branch therefore
//! surfaces when that guard is compiled, not at config-parse time.

use vstd::prelude::*;
use crate::types::{ParseError, SpecParseError, Value, SpecValue, view_entries};
use crate::parsers::{
    Parsed, SpecParsed, skip_ge, spec_snake_case, spec_value, sp, snake_case, value,
};
use crate::registry::{Registry, reg_lookup};

verus! {

/// A parameter of a plugin invocation: a `snake_case` name and its value.
pub type Param = (Vec<char>, Value);

/// A named, parameterized plugin instance, constructed through the registry
/// at parse time. Its `kind` identity is its name.
#[derive(Debug, PartialEq)]
pub struct Plugin {
    params: Vec<Param>,
    name: Vec<char>,
}

/// The model of a `Plugin`.
pub struct SpecPlugin {
    pub name: Seq<char>,
    pub params: Seq<(Seq<char>, SpecValue)>,
}

impl View for Plugin {
    type V = SpecPlugin;

    closed spec fn view(&self) -> SpecPlugin {
        SpecPlugin { name: self.name@, params: view_entries(self.params@) }
    }
}

impl Plugin {
    /// A plugin instance with the given name and parameter list.
    pub fn new(name: Vec<char>, params: Vec<Param>) -> (r: Self)
        ensures
            r@.name == name@,
            r@.params == view_entries(params@),
    {
        Plugin { name, params }
    }

    /// The plugin's kind identity: its registered name.
    pub fn kind(&self) -> (r: &Vec<char>)
        ensures
            r@ == self@.name,
    {
        &self.name
    }

    /// The ordered parameter list.
    pub fn params(&self) -> (r: &Vec<Param>)
        ensures
            view_entries(r@) == self@.params,
    {
        &self.params
    }
}

/// The raw guard text of a conditional, captured verbatim between `if` (or
/// `else if`) and the following `{`; compiled separately by the expression
/// engine.
#[derive(Debug, PartialEq)]
pub struct ConditionExpression {
    raw_condition: Vec<char>,
}

impl View for ConditionExpression {
    type V = Seq<char>;

    closed spec fn view(&self) -> Seq<char> {
        self.raw_condition@
    }
}

impl ConditionExpression {
    /// Wraps raw guard text.
    pub fn new(raw_condition: Vec<char>) -> (r: Self)
        ensures
            r@ == raw_condition@,
    {
        ConditionExpression { raw_condition }
    }

    /// The guard text, verbatim.
    pub fn raw(&self) -> (r: &Vec<char>)
        ensures
            r@ == self@,
    {
        &self.raw_condition
    }

    /// Compiles the guard text to a postfix token sequence: tokenize, then
    /// the shunting-yard pass. Pure in the text: equal guard texts compile
    /// to equal postfix sequences.
    pub fn compile(&self) -> (r: Result<Vec<crate::eval::Token>, ParseError>)
        ensures
            r matches Ok(ts) ==> spec_compile(self@) == Ok::<_, SpecParseError>(
                crate::eval::view_tokens(ts@),
            ),
            r matches Err(e) ==> spec_compile(self@) == Err::<Seq<crate::eval::SpecToken>, _>(e@),
    {
        match crate::eval::tokenize(self.raw_condition.as_slice()) {
            Err(e) => Err(e),
            Ok(toks) => crate::eval::to_postfix(&toks),
        }
    }
}

/// What compiling a guard text yields: the postfix form of its tokens.
pub open spec fn spec_compile(raw: Seq<char>) -> Result<
    Seq<crate::eval::SpecToken>,
    SpecParseError,
> {
    match crate::eval::spec_tokenize(raw, 0, Seq::empty()) {
        Err(e) => Err(e),
        Ok(ts) => crate::eval::spec_to_postfix(ts),
    }
}

/// An `else if` arm: its guard and its block.
#[derive(Debug, PartialEq)]
pub struct ElseIf {
    condition: ConditionExpression,
    block: Block,
}

/// A conditional statement: the `if` guard and block, the ordered `else if`
/// arms, and the (possibly empty) `else` block.
#[derive(Debug, PartialEq)]
pub struct Condition {
    condition: ConditionExpression,
    block_if: Block,
    block_else_if: Vec<ElseIf>,
    block_else: Block,
}

/// One statement of a block: a plugin invocation or a conditional.
#[derive(Debug, PartialEq)]
pub enum Statement {
    Plugin(Plugin),
    Condition(Condition),
}

/// An ordered sequence of statements; order is execution order.
pub type Block = Vec<Statement>;

/// One section of config text: a block destined for the input, filter or
/// output chain.
#[derive(Debug, PartialEq)]
pub enum Section {
    Input(Block),
    Filter(Block),
    Output(Block),
}

/// The parse result: the pipeline's input, filter and output chains,
/// concatenated in file order from every section of matching kind.
#[derive(Debug, PartialEq)]
pub struct Parser {
    input: Block,
    output: Block,
    filter: Block,
}

/// The model of an `ElseIf`.
pub struct SpecElseIf {
    pub condition: Seq<char>,
    pub block: Seq<SpecStatement>,
}

/// The model of a `Condition`.
pub struct SpecCondition {
    pub condition: Seq<char>,
    pub block_if: Seq<SpecStatement>,
    pub block_else_if: Seq<SpecElseIf>,
    pub block_else: Seq<SpecStatement>,
}

/// The model of a `Statement`.
pub enum SpecStatement {
    Plugin(SpecPlugin),
    Condition(SpecCondition),
}

/// The model of a `Section`.
pub enum SpecSection {
    Input(Seq<SpecStatement>),
    Filter(Seq<SpecStatement>),
    Output(Seq<SpecStatement>),
}

/// The model of a `Parser`: the three chains.
pub struct SpecPipeline {
    pub input: Seq<SpecStatement>,
    pub filter: Seq<SpecStatement>,
    pub output: Seq<SpecStatement>,
}

/// The model of a statement sequence, element by element.
pub open spec fn view_statements(l: Seq<Statement>) -> Seq<SpecStatement>
    decreases l, 1int,
{
    if l.len() == 0 {
        Seq::empty()
    } else {
        seq![l[0]@] + view_statements(l.drop_first())
    }
}

/// The model of an else-if sequence, element by element.
pub open spec fn view_elseifs(l: Seq<ElseIf>) -> Seq<SpecElseIf>
    decreases l, 1int,
{
    if l.len() == 0 {
        Seq::empty()
    } else {
        seq![l[0]@] + view_elseifs(l.drop_first())
    }
}

impl View for ElseIf {
    type V = SpecElseIf;

    closed spec fn view(&self) -> SpecElseIf
        decreases self, 0int,
    {
        SpecElseIf { condition: self.condition@, block: view_statements(self.block@) }
    }
}

impl View for Condition {
    type V = SpecCondition;

    closed spec fn view(&self) -> SpecCondition
        decreases self, 0int,
    {
        SpecCondition {
            condition: self.condition@,
            block_if: view_statements(self.block_if@),
            block_else_if: view_elseifs(self.block_else_if@),
            block_else: view_statements(self.block_else@),
        }
    }
}

impl View for Statement {
    type V = SpecStatement;

    open spec fn view(&self) -> SpecStatement
        decreases self, 0int,
    {
        match self {
            Statement::Plugin(p) => SpecStatement::Plugin(p@),
            Statement::Condition(c) => SpecStatement::Condition(c@),
        }
    }
}

impl View for Section {
    type V = SpecSection;

    open spec fn view(&self) -> SpecSection {
        match self {
            Section::Input(b) => SpecSection::Input(view_statements(b@)),
            Section::Filter(b) => SpecSection::Filter(view_statements(b@)),
            Section::Output(b) => SpecSection::Output(view_statements(b@)),
        }
    }
}

impl View for Parser {
    type V = SpecPipeline;

    closed spec fn view(&self) -> SpecPipeline {
        SpecPipeline {
            input: view_statements(self.input@),
            filter: view_statements(self.filter@),
            output: view_statements(self.output@),
        }
    }
}

/// `view_statements` agrees with pointwise indexing.
pub proof fn lemma_view_statements_index(l: Seq<Statement>)
    ensures
        view_statements(l).len() == l.len(),
        forall|i: int| 0 <= i < l.len() ==> view_statements(l)[i] == l[i]@,
    decreases l.len(),
{
    if l.len() > 0 {
        lemma_view_statements_index(l.drop_first());
        assert(view_statements(l) == seq![l[0]@] + view_statements(l.drop_first()));
        assert forall|i: int| 0 <= i < l.len() implies view_statements(l)[i] == l[i]@ by {
            if i > 0 {
                assert(view_statements(l)[i] == view_statements(l.drop_first())[i - 1]);
                assert(l.drop_first()[i - 1] == l[i]);
            }
        }
    }
}

/// Viewing commutes with appending one statement.
pub proof fn lemma_view_statements_push(l: Seq<Statement>, st: Statement)
    ensures
        view_statements(l.push(st)) == view_statements(l).push(st@),
{
    lemma_view_statements_index(l);
    lemma_view_statements_index(l.push(st));
    assert(view_statements(l.push(st)) =~= view_statements(l).push(st@));
}

/// Viewing commutes with concatenation of statement sequences.
pub proof fn lemma_view_statements_concat(a: Seq<Statement>, b: Seq<Statement>)
    ensures
        view_statements(a + b) == view_statements(a) + view_statements(b),
{
    lemma_view_statements_index(a);
    lemma_view_statements_index(b);
    lemma_view_statements_index(a + b);
    assert(view_statements(a + b) =~= view_statements(a) + view_statements(b));
}

/// `view_elseifs` agrees with pointwise indexing.
pub proof fn lemma_view_elseifs_index(l: Seq<ElseIf>)
    ensures
        view_elseifs(l).len() == l.len(),
        forall|i: int| 0 <= i < l.len() ==> view_elseifs(l)[i] == l[i]@,
    decreases l.len(),
{
    if l.len() > 0 {
        lemma_view_elseifs_index(l.drop_first());
        assert(view_elseifs(l) == seq![l[0]@] + view_elseifs(l.drop_first()));
        assert forall|i: int| 0 <= i < l.len() implies view_elseifs(l)[i] == l[i]@ by {
            if i > 0 {
                assert(view_elseifs(l)[i] == view_elseifs(l.drop_first())[i - 1]);
                assert(l.drop_first()[i - 1] == l[i]);
            }
        }
    }
}

/// Viewing commutes with appending one else-if arm.
pub proof fn lemma_view_elseifs_push(l: Seq<ElseIf>, e: ElseIf)
    ensures
        view_elseifs(l.push(e)) == view_elseifs(l).push(e@),
{
    lemma_view_elseifs_index(l);
    lemma_view_elseifs_index(l.push(e));
    assert(view_elseifs(l.push(e)) =~= view_elseifs(l).push(e@));
}

impl Condition {
    /// A conditional from its guard text and blocks.
    pub fn new(
        condition_string: Vec<char>,
        block_if: Block,
        block_else_if: Vec<ElseIf>,
        block_else: Block,
    ) -> (r: Self)
        ensures
            r@ == (SpecCondition {
                condition: condition_string@,
                block_if: view_statements(block_if@),
                block_else_if: view_elseifs(block_else_if@),
                block_else: view_statements(block_else@),
            }),
    {
        Condition {
            condition: ConditionExpression { raw_condition: condition_string },
            block_if,
            block_else,
            block_else_if,
        }
    }

    /// The guard expression.
    pub fn condition(&self) -> (r: &ConditionExpression)
        ensures
            r@ == self@.condition,
    {
        &self.condition
    }
}

impl ElseIf {
    /// An `else if` arm from its guard text and block.
    pub fn new(condition_string: Vec<char>, block: Block) -> (r: Self)
        ensures
            r@ == (SpecElseIf {
                condition: condition_string@,
                block: view_statements(block@),
            }),
    {
        ElseIf { condition: ConditionExpression { raw_condition: condition_string }, block }
    }
}

impl Parser {
    /// An empty pipeline.
    pub fn new() -> (r: Self)
        ensures
            r@.input == Seq::<SpecStatement>::empty(),
            r@.filter == Seq::<SpecStatement>::empty(),
            r@.output == Seq::<SpecStatement>::empty(),
    {
        let r = Parser { input: Vec::new(), output: Vec::new(), filter: Vec::new() };
        proof {
            lemma_view_statements_index(r.input@);
            lemma_view_statements_index(r.filter@);
            lemma_view_statements_index(r.output@);
            assert(view_statements(r.input@) =~= Seq::<SpecStatement>::empty());
            assert(view_statements(r.filter@) =~= Seq::<SpecStatement>::empty());
            assert(view_statements(r.output@) =~= Seq::<SpecStatement>::empty());
        }
        r
    }

    /// Appends a section's block to the chain of its kind, preserving
    /// arrival order.
    pub fn add_section(&mut self, section: Section)
        ensures
            final(self)@ == spec_add_section(old(self)@, section@),
    {
        let ghost old_view = old(self)@;
        let ghost sec_view = section@;
        match section {
            Section::Input(mut i) => {
                proof {
                    lemma_view_statements_concat(self.input@, i@);
                }
                self.input.append(&mut i);
            },
            Section::Output(mut o) => {
                proof {
                    lemma_view_statements_concat(self.output@, o@);
                }
                self.output.append(&mut o);
            },
            Section::Filter(mut f) => {
                proof {
                    lemma_view_statements_concat(self.filter@, f@);
                }
                self.filter.append(&mut f);
            },
        }
    }

    /// The input chain.
    pub fn input(&self) -> (r: &Block)
        ensures
            view_statements(r@) == self@.input,
    {
        &self.input
    }

    /// The filter chain.
    pub fn filter(&self) -> (r: &Block)
        ensures
            view_statements(r@) == self@.filter,
    {
        &self.filter
    }

    /// The output chain.
    pub fn output(&self) -> (r: &Block)
        ensures
            view_statements(r@) == self@.output,
    {
        &self.output
    }
}

/// Folding one section into a pipeline: its block goes to the end of the
/// chain of its kind.
pub open spec fn spec_add_section(p: SpecPipeline, s: SpecSection) -> SpecPipeline {
    match s {
        SpecSection::Input(b) => SpecPipeline { input: p.input + b, ..p },
        SpecSection::Filter(b) => SpecPipeline { filter: p.filter + b, ..p },
        SpecSection::Output(b) => SpecPipeline { output: p.output + b, ..p },
    }
}

/// Character-for-character equality of two names.
pub fn eq_names(a: &Vec<char>, b: &Vec<char>) -> (r: bool)
    ensures
        r == (a@ == b@),
{
    let mut k: usize = 0;
    if a.len() != b.len() {
        return false;
    }
    while k < a.len()
        invariant
            0 <= k <= a@.len(),
            a@.len() == b@.len(),
            forall|t: int| 0 <= t < k ==> a@[t] == b@[t],
        decreases a@.len() - k,
    {
        if a[k] != b[k] {
            return false;
        }
        k = k + 1;
    }
    proof {
        assert(a@ =~= b@);
    }
    true
}


/// The keyword `if` at `i`, not running into a longer identifier.
pub open spec fn kw_if(s: Seq<char>, i: int) -> bool {
    &&& i + 2 <= s.len()
    &&& s[i] == 'i'
    &&& s[i + 1] == 'f'
    &&& (i + 2 == s.len() || !crate::parsers::is_ident_char(s[i + 2]))
}

/// The keyword `else` at `i`, not running into a longer identifier.
pub open spec fn kw_else(s: Seq<char>, i: int) -> bool {
    &&& i + 4 <= s.len()
    &&& s[i] == 'e'
    &&& s[i + 1] == 'l'
    &&& s[i + 2] == 's'
    &&& s[i + 3] == 'e'
    &&& (i + 4 == s.len() || !crate::parsers::is_ident_char(s[i + 4]))
}

/// The keyword `input` at `i`, not running into a longer identifier.
pub open spec fn kw_input(s: Seq<char>, i: int) -> bool {
    &&& i + 5 <= s.len()
    &&& s[i] == 'i'
    &&& s[i + 1] == 'n'
    &&& s[i + 2] == 'p'
    &&& s[i + 3] == 'u'
    &&& s[i + 4] == 't'
    &&& (i + 5 == s.len() || !crate::parsers::is_ident_char(s[i + 5]))
}

/// The keyword `filter` at `i`, not running into a longer identifier.
pub open spec fn kw_filter(s: Seq<char>, i: int) -> bool {
    &&& i + 6 <= s.len()
    &&& s[i] == 'f'
    &&& s[i + 1] == 'i'
    &&& s[i + 2] == 'l'
    &&& s[i + 3] == 't'
    &&& s[i + 4] == 'e'
    &&& s[i + 5] == 'r'
    &&& (i + 6 == s.len() || !crate::parsers::is_ident_char(s[i + 6]))
}

/// The keyword `output` at `i`, not running into a longer identifier.
pub open spec fn kw_output(s: Seq<char>, i: int) -> bool {
    &&& i + 6 <= s.len()
    &&& s[i] == 'o'
    &&& s[i + 1] == 'u'
    &&& s[i + 2] == 't'
    &&& s[i + 3] == 'p'
    &&& s[i + 4] == 'u'
    &&& s[i + 5] == 't'
    &&& (i + 6 == s.len() || !crate::parsers::is_ident_char(s[i + 6]))
}

/// Position of the next `{` at or after `i`; the text's length when there
/// is none.
pub open spec fn spec_find_brace(s: Seq<char>, i: int) -> int
    decreases s.len() - i,
{
    if i < 0 || i >= s.len() {
        s.len() as int
    } else if s[i] == '{' {
        i
    } else {
        spec_find_brace(s, i + 1)
    }
}

/// A parameter entry: `snake_case => value`.
pub open spec fn spec_param_entry(s: Seq<char>, i: int) -> SpecParsed<(Seq<char>, SpecValue)> {
    let j = skip_ge(s, i);
    match spec_snake_case(s, j) {
        SpecParsed::NoMatch => SpecParsed::NoMatch,
        SpecParsed::Fail(e) => SpecParsed::Fail(e),
        SpecParsed::Found(name, e) => {
            let p = skip_ge(s, e);
            if p + 2 <= s.len() && s[p] == '=' && s[p + 1] == '>' {
                match spec_value(s, p + 2) {
                    SpecParsed::Found(v, q) => SpecParsed::Found((name, v), q),
                    SpecParsed::NoMatch => SpecParsed::Fail(
                        SpecParseError::Syntax { pos: skip_ge(s, p + 2) },
                    ),
                    SpecParsed::Fail(e) => SpecParsed::Fail(e),
                }
            } else {
                SpecParsed::Fail(SpecParseError::Syntax { pos: p })
            }
        },
    }
}

/// Parameter entries up to the closing `}`, in written order, duplicates
/// kept.
pub open spec fn spec_params_loop(
    s: Seq<char>,
    i: int,
    acc: Seq<(Seq<char>, SpecValue)>,
) -> SpecParsed<Seq<(Seq<char>, SpecValue)>>
    decreases s.len() - i,
{
    let j = skip_ge(s, i);
    if j >= s.len() {
        SpecParsed::Fail(SpecParseError::Syntax { pos: j })
    } else if s[j] == '}' {
        SpecParsed::Found(acc, j + 1)
    } else {
        match spec_param_entry(s, i) {
            SpecParsed::NoMatch => SpecParsed::Fail(SpecParseError::Syntax { pos: j }),
            SpecParsed::Fail(e) => SpecParsed::Fail(e),
            SpecParsed::Found(pv, q) => {
                let q2 = if q > i && q <= s.len() {
                    q
                } else {
                    i + 1
                };
                spec_params_loop(s, q2, acc.push(pv))
            },
        }
    }
}

/// A parameter list: `{`, entries, `}`.
pub open spec fn spec_params(s: Seq<char>, i: int) -> SpecParsed<Seq<(Seq<char>, SpecValue)>> {
    let j = skip_ge(s, i);
    if j < s.len() && s[j] == '{' {
        spec_params_loop(s, j + 1, Seq::empty())
    } else {
        SpecParsed::NoMatch
    }
}

/// A plugin invocation: a name and its parameter list. The name must
/// resolve in the registry at parse time; an unknown name is a fatal
/// `UnknownPlugin` error, never skipped.
pub open spec fn spec_plugin(s: Seq<char>, i: int, reg: Seq<(Seq<char>, u64)>) -> SpecParsed<
    SpecPlugin,
> {
    let j = skip_ge(s, i);
    match spec_snake_case(s, j) {
        SpecParsed::NoMatch => SpecParsed::NoMatch,
        SpecParsed::Fail(e) => SpecParsed::Fail(e),
        SpecParsed::Found(name, e) => {
            match spec_params(s, e) {
                SpecParsed::NoMatch => SpecParsed::Fail(
                    SpecParseError::Syntax { pos: skip_ge(s, e) },
                ),
                SpecParsed::Fail(er) => SpecParsed::Fail(er),
                SpecParsed::Found(ps, q) => {
                    if reg_lookup(reg, name) is Some {
                        SpecParsed::Found(SpecPlugin { name, params: ps }, q)
                    } else {
                        SpecParsed::Fail(SpecParseError::UnknownPlugin(name))
                    }
                },
            }
        },
    }
}

/// A conditional: `if`, guard text up to `{`, a block, `else if` arms, an
/// optional `else` block.
pub open spec fn spec_condition(s: Seq<char>, i: int, reg: Seq<(Seq<char>, u64)>) -> SpecParsed<
    SpecCondition,
>
    decreases s.len() - i, 1int,
{
    let j = skip_ge(s, i);
    if !kw_if(s, j) {
        SpecParsed::NoMatch
    } else {
        let g0 = skip_ge(s, j + 2);
        let b = spec_find_brace(s, g0);
        let b2 = if b >= g0 {
            b
        } else {
            g0
        };
        if b2 >= s.len() {
            SpecParsed::Fail(SpecParseError::Syntax { pos: b2 })
        } else {
            let guard = s.subrange(g0, b2);
            match spec_block_stmts(s, b2 + 1, reg, Seq::empty()) {
                SpecParsed::NoMatch => SpecParsed::NoMatch,
                SpecParsed::Fail(e) => SpecParsed::Fail(e),
                SpecParsed::Found(blk_if, p) => {
                    let p2 = if p > i && p <= s.len() {
                        p
                    } else {
                        i + 1
                    };
                    match spec_else_chain(s, p2, reg, Seq::empty()) {
                        SpecParsed::NoMatch => SpecParsed::NoMatch,
                        SpecParsed::Fail(e) => SpecParsed::Fail(e),
                        SpecParsed::Found(tail, p3) => SpecParsed::Found(
                            SpecCondition {
                                condition: guard,
                                block_if: blk_if,
                                block_else_if: tail.0,
                                block_else: tail.1,
                            },
                            p3,
                        ),
                    }
                },
            }
        }
    }
}

/// The `else if` arms and optional `else` block after a conditional's
/// first block. Ends, without consuming, at the first text that is no
/// `else`; an `else` followed by neither `if` nor a block is a syntax
/// error.
pub open spec fn spec_else_chain(
    s: Seq<char>,
    i: int,
    reg: Seq<(Seq<char>, u64)>,
    acc: Seq<SpecElseIf>,
) -> SpecParsed<(Seq<SpecElseIf>, Seq<SpecStatement>)>
    decreases s.len() - i, 0int,
{
    let j = skip_ge(s, i);
    if !kw_else(s, j) {
        SpecParsed::Found((acc, Seq::empty()), i)
    } else {
        let k = skip_ge(s, j + 4);
        if kw_if(s, k) {
            let g1 = skip_ge(s, k + 2);
            let b = spec_find_brace(s, g1);
            let b2 = if b >= g1 {
                b
            } else {
                g1
            };
            if b2 >= s.len() {
                SpecParsed::Fail(SpecParseError::Syntax { pos: b2 })
            } else {
                let guard = s.subrange(g1, b2);
                match spec_block_stmts(s, b2 + 1, reg, Seq::empty()) {
                    SpecParsed::NoMatch => SpecParsed::NoMatch,
                    SpecParsed::Fail(e) => SpecParsed::Fail(e),
                    SpecParsed::Found(blk, p) => {
                        let p2 = if p > i && p <= s.len() {
                            p
                        } else {
                            i + 1
                        };
                        spec_else_chain(
                            s,
                            p2,
                            reg,
                            acc.push(SpecElseIf { condition: guard, block: blk }),
                        )
                    },
                }
            }
        } else {
            match spec_block(s, j + 4, reg) {
                SpecParsed::NoMatch => SpecParsed::Fail(SpecParseError::Syntax { pos: k }),
                SpecParsed::Fail(e) => SpecParsed::Fail(e),
                SpecParsed::Found(blk, p) => SpecParsed::Found((acc, blk), p),
            }
        }
    }
}

/// One statement: a conditional where the next keyword is `if`, else a
/// plugin invocation.
pub open spec fn spec_statement(s: Seq<char>, i: int, reg: Seq<(Seq<char>, u64)>) -> SpecParsed<
    SpecStatement,
>
    decreases s.len() - i, 2int,
{
    let j = skip_ge(s, i);
    if kw_if(s, j) {
        match spec_condition(s, i, reg) {
            SpecParsed::Found(c, p) => SpecParsed::Found(SpecStatement::Condition(c), p),
            SpecParsed::NoMatch => SpecParsed::NoMatch,
            SpecParsed::Fail(e) => SpecParsed::Fail(e),
        }
    } else {
        match spec_plugin(s, i, reg) {
            SpecParsed::Found(pl, p) => SpecParsed::Found(SpecStatement::Plugin(pl), p),
            SpecParsed::NoMatch => SpecParsed::NoMatch,
            SpecParsed::Fail(e) => SpecParsed::Fail(e),
        }
    }
}

/// The statements of a block up to the closing `}`.
pub open spec fn spec_block_stmts(
    s: Seq<char>,
    i: int,
    reg: Seq<(Seq<char>, u64)>,
    acc: Seq<SpecStatement>,
) -> SpecParsed<Seq<SpecStatement>>
    decreases s.len() - i, 3int,
{
    let j = skip_ge(s, i);
    if j >= s.len() {
        SpecParsed::Fail(SpecParseError::Syntax { pos: j })
    } else if s[j] == '}' {
        SpecParsed::Found(acc, j + 1)
    } else {
        match spec_statement(s, i, reg) {
            SpecParsed::NoMatch => SpecParsed::Fail(SpecParseError::Syntax { pos: j }),
            SpecParsed::Fail(e) => SpecParsed::Fail(e),
            SpecParsed::Found(st, p) => {
                let p2 = if p > i && p <= s.len() {
                    p
                } else {
                    i + 1
                };
                spec_block_stmts(s, p2, reg, acc.push(st))
            },
        }
    }
}

/// A block: `{`, statements, `}`.
pub open spec fn spec_block(s: Seq<char>, i: int, reg: Seq<(Seq<char>, u64)>) -> SpecParsed<
    Seq<SpecStatement>,
>
    decreases s.len() - i, 4int,
{
    let j = skip_ge(s, i);
    if j < s.len() && s[j] == '{' {
        spec_block_stmts(s, j + 1, reg, Seq::empty())
    } else {
        SpecParsed::NoMatch
    }
}

/// A section: `input`, `filter` or `output`, then a block.
pub open spec fn spec_read_section(s: Seq<char>, i: int, reg: Seq<(Seq<char>, u64)>) -> SpecParsed<
    SpecSection,
> {
    let j = skip_ge(s, i);
    if kw_input(s, j) {
        match spec_block(s, j + 5, reg) {
            SpecParsed::Found(b, p) => SpecParsed::Found(SpecSection::Input(b), p),
            SpecParsed::NoMatch => SpecParsed::Fail(
                SpecParseError::Syntax { pos: skip_ge(s, j + 5) },
            ),
            SpecParsed::Fail(e) => SpecParsed::Fail(e),
        }
    } else if kw_filter(s, j) {
        match spec_block(s, j + 6, reg) {
            SpecParsed::Found(b, p) => SpecParsed::Found(SpecSection::Filter(b), p),
            SpecParsed::NoMatch => SpecParsed::Fail(
                SpecParseError::Syntax { pos: skip_ge(s, j + 6) },
            ),
            SpecParsed::Fail(e) => SpecParsed::Fail(e),
        }
    } else if kw_output(s, j) {
        match spec_block(s, j + 6, reg) {
            SpecParsed::Found(b, p) => SpecParsed::Found(SpecSection::Output(b), p),
            SpecParsed::NoMatch => SpecParsed::Fail(
                SpecParseError::Syntax { pos: skip_ge(s, j + 6) },
            ),
            SpecParsed::Fail(e) => SpecParsed::Fail(e),
        }
    } else {
        SpecParsed::NoMatch
    }
}

/// The whole config text: sections folded in file order into one pipeline.
/// All-or-nothing: any failure, unknown plugin included, aborts the parse;
/// leftover text that is no section is a syntax error.
pub open spec fn spec_read_config(
    s: Seq<char>,
    i: int,
    reg: Seq<(Seq<char>, u64)>,
    acc: SpecPipeline,
) -> Result<SpecPipeline, SpecParseError>
    decreases s.len() - i,
{
    match spec_read_section(s, i, reg) {
        SpecParsed::Fail(e) => Err(e),
        SpecParsed::NoMatch => {
            let j = skip_ge(s, i);
            if j >= s.len() {
                Ok(acc)
            } else {
                Err(SpecParseError::Syntax { pos: j })
            }
        },
        SpecParsed::Found(sec, p) => {
            let p2 = if p > i && p <= s.len() {
                p
            } else {
                i + 1
            };
            spec_read_config(s, p2, reg, spec_add_section(acc, sec))
        },
    }
}

/// The empty pipeline, where every parse starts.
pub open spec fn spec_empty_pipeline() -> SpecPipeline {
    SpecPipeline {
        input: Seq::empty(),
        filter: Seq::empty(),
        output: Seq::empty(),
    }
}


/// Finds the next `{` at or after `i`.
pub fn find_brace(input: &[char], i: usize) -> (r: usize)
    requires
        i <= input@.len(),
    ensures
        r as int == spec_find_brace(input@, i as int),
        i <= r <= input@.len(),
        r < input@.len() ==> input@[r as int] == '{',
{
    let mut j: usize = i;
    loop
        invariant
            i <= j <= input@.len(),
            spec_find_brace(input@, i as int) == spec_find_brace(input@, j as int),
        ensures
            i <= j <= input@.len(),
            j as int == spec_find_brace(input@, i as int) || (j == input@.len()
                && spec_find_brace(input@, i as int) == input@.len()),
            j < input@.len() ==> input@[j as int] == '{',
        decreases input@.len() - j,
    {
        if j >= input.len() {
            break;
        }
        if input[j] == '{' {
            break;
        }
        j = j + 1;
    }
    j
}

/// Whether the keyword `if` is written at `j`.
fn at_kw_if(input: &[char], j: usize) -> (r: bool)
    requires
        j <= input@.len(),
    ensures
        r == kw_if(input@, j as int),
{
    input.len() - j >= 2 && input[j] == 'i' && input[j + 1] == 'f' && (input.len() - j == 2
        || !is_ident_char_exec(input[j + 2]))
}

/// Whether the keyword `else` is written at `j`.
fn at_kw_else(input: &[char], j: usize) -> (r: bool)
    requires
        j <= input@.len(),
    ensures
        r == kw_else(input@, j as int),
{
    input.len() - j >= 4 && input[j] == 'e' && input[j + 1] == 'l' && input[j + 2] == 's'
        && input[j + 3] == 'e' && (input.len() - j == 4 || !is_ident_char_exec(input[j + 4]))
}

/// Whether `is_ident_char` holds of `c`.
fn is_ident_char_exec(c: char) -> (r: bool)
    ensures
        r == crate::parsers::is_ident_char(c),
{
    c == '_' || ('a' <= c && c <= 'z') || ('A' <= c && c <= 'Z') || ('0' <= c && c <= '9')
}

/// Recognizes a parameter entry: `snake_case => value`.
pub fn param_entry(input: &[char], i: usize) -> (r: Parsed<Param>)
    requires
        i <= input@.len(),
    ensures
        r matches Parsed::Found(pv, j) ==> spec_param_entry(input@, i as int) == SpecParsed::Found(
            (pv.0@, pv.1@),
            j as int,
        ) && i < j <= input@.len(),
        r matches Parsed::Fail(e) ==> spec_param_entry(input@, i as int) == SpecParsed::<(
            Seq<char>,
            SpecValue,
        )>::Fail(e@),
        r is NoMatch ==> spec_param_entry(input@, i as int) is NoMatch,
{
    let j = sp(input, i);
    match snake_case(input, j) {
        Parsed::NoMatch => Parsed::NoMatch,
        Parsed::Fail(e) => Parsed::Fail(e),
        Parsed::Found(name, e) => {
            let p = sp(input, e);
            if input.len() - p >= 2 && input[p] == '=' && input[p + 1] == '>' {
                match value(input, p + 2) {
                    Parsed::Found(v, q) => Parsed::Found((name, v), q),
                    Parsed::NoMatch => {
                        let z = sp(input, p + 2);
                        Parsed::Fail(ParseError::Syntax { pos: z })
                    },
                    Parsed::Fail(e) => Parsed::Fail(e),
                }
            } else {
                Parsed::Fail(ParseError::Syntax { pos: p })
            }
        },
    }
}

/// Recognizes a parameter list: `{`, entries, `}`.
#[verifier::loop_isolation(false)]
pub fn params(input: &[char], i: usize) -> (r: Parsed<Vec<Param>>)
    requires
        i <= input@.len(),
    ensures
        r matches Parsed::Found(ps, j) ==> spec_params(input@, i as int) == SpecParsed::Found(
            view_entries(ps@),
            j as int,
        ) && i < j <= input@.len(),
        r matches Parsed::Fail(e) ==> spec_params(input@, i as int) == SpecParsed::<Seq<(
            Seq<char>,
            SpecValue,
        )>>::Fail(e@),
        r is NoMatch ==> spec_params(input@, i as int) is NoMatch,
{
    let j = sp(input, i);
    if !(j < input.len() && input[j] == '{') {
        return Parsed::NoMatch;
    }
    let ghost s0 = input@;
    let start = j + 1;
    let mut acc: Vec<Param> = Vec::new();
    let mut cur: usize = start;
    proof {
        crate::types::lemma_view_entries_index(acc@);
        assert(view_entries(acc@) =~= Seq::<(Seq<char>, SpecValue)>::empty());
    }
    loop
        invariant
            start <= cur <= input@.len(),
            spec_params_loop(s0, start as int, Seq::empty()) == spec_params_loop(
                s0,
                cur as int,
                view_entries(acc@),
            ),
        decreases input@.len() - cur,
    {
        let j2 = sp(input, cur);
        if j2 >= input.len() {
            return Parsed::Fail(ParseError::Syntax { pos: j2 });
        }
        if input[j2] == '}' {
            return Parsed::Found(acc, j2 + 1);
        }
        match param_entry(input, cur) {
            Parsed::NoMatch => {
                return Parsed::Fail(ParseError::Syntax { pos: j2 });
            },
            Parsed::Fail(e) => {
                return Parsed::Fail(e);
            },
            Parsed::Found(pv, q) => {
                proof {
                    crate::types::lemma_view_entries_index(acc@);
                    crate::types::lemma_view_entries_index(acc@.push(pv));
                    assert(view_entries(acc@.push(pv)) =~= view_entries(acc@).push(
                        (pv.0@, pv.1@),
                    ));
                }
                acc.push(pv);
                cur = q;
            },
        }
    }
}

/// Recognizes a plugin invocation and resolves its name in the registry;
/// an unresolved name fails the parse with `UnknownPlugin`.
pub fn plugin(input: &[char], i: usize, reg: &Registry) -> (r: Parsed<Plugin>)
    requires
        i <= input@.len(),
    ensures
        r matches Parsed::Found(pl, j) ==> spec_plugin(input@, i as int, reg@)
            == SpecParsed::Found(pl@, j as int) && i < j <= input@.len(),
        r matches Parsed::Fail(e) ==> spec_plugin(input@, i as int, reg@)
            == SpecParsed::<SpecPlugin>::Fail(e@),
        r is NoMatch ==> spec_plugin(input@, i as int, reg@) is NoMatch,
{
    let j = sp(input, i);
    match snake_case(input, j) {
        Parsed::NoMatch => Parsed::NoMatch,
        Parsed::Fail(e) => Parsed::Fail(e),
        Parsed::Found(name, e) => {
            match params(input, e) {
                Parsed::NoMatch => {
                    let z = sp(input, e);
                    Parsed::Fail(ParseError::Syntax { pos: z })
                },
                Parsed::Fail(er) => Parsed::Fail(er),
                Parsed::Found(ps, q) => {
                    if reg.contains(&name) {
                        Parsed::Found(Plugin::new(name, ps), q)
                    } else {
                        Parsed::Fail(ParseError::UnknownPlugin(name))
                    }
                },
            }
        },
    }
}

/// Recognizes one statement: a conditional when the next keyword is `if`,
/// else a plugin invocation.
pub fn statement(input: &[char], i: usize, reg: &Registry) -> (r: Parsed<Statement>)
    requires
        i <= input@.len(),
    ensures
        r matches Parsed::Found(st, j) ==> spec_statement(input@, i as int, reg@)
            == SpecParsed::Found(st@, j as int) && i < j <= input@.len(),
        r matches Parsed::Fail(e) ==> spec_statement(input@, i as int, reg@)
            == SpecParsed::<SpecStatement>::Fail(e@),
        r is NoMatch ==> spec_statement(input@, i as int, reg@) is NoMatch,
    decreases input@.len() - i, 2int,
{
    let j = sp(input, i);
    if at_kw_if(input, j) {
        match condition(input, i, reg) {
            Parsed::Found(c, p) => Parsed::Found(Statement::Condition(c), p),
            Parsed::NoMatch => Parsed::NoMatch,
            Parsed::Fail(e) => Parsed::Fail(e),
        }
    } else {
        match plugin(input, i, reg) {
            Parsed::Found(pl, p) => Parsed::Found(Statement::Plugin(pl), p),
            Parsed::NoMatch => Parsed::NoMatch,
            Parsed::Fail(e) => Parsed::Fail(e),
        }
    }
}

/// Recognizes a conditional: `if`, guard text up to `{`, a block, `else
/// if` arms, and an optional `else` block.
#[verifier::loop_isolation(false)]
pub fn condition(input: &[char], i: usize, reg: &Registry) -> (r: Parsed<Condition>)
    requires
        i <= input@.len(),
    ensures
        r matches Parsed::Found(c, j) ==> spec_condition(input@, i as int, reg@)
            == SpecParsed::Found(c@, j as int) && i < j <= input@.len(),
        r matches Parsed::Fail(e) ==> spec_condition(input@, i as int, reg@)
            == SpecParsed::<SpecCondition>::Fail(e@),
        r is NoMatch ==> spec_condition(input@, i as int, reg@) is NoMatch,
    decreases input@.len() - i, 1int,
{
    let ghost s0 = input@;
    let n = input.len();
    proof {
        assert(input@.len() == n as int);
    }
    let j = sp(input, i);
    if !at_kw_if(input, j) {
        return Parsed::NoMatch;
    }
    let g0 = sp(input, j + 2);
    let b = find_brace(input, g0);
    if b >= input.len() {
        return Parsed::Fail(ParseError::Syntax { pos: b });
    }
    let guard = crate::parsers::copy_range(input, g0, b);
    match block_stmts(input, b + 1, reg) {
        Parsed::NoMatch => Parsed::NoMatch,
        Parsed::Fail(e) => Parsed::Fail(e),
        Parsed::Found(blk_if, p) => {
            let ghost p0 = p as int;
            let mut eifs: Vec<ElseIf> = Vec::new();
            let mut cur: usize = p;
            proof {
                lemma_view_elseifs_index(eifs@);
                assert(view_elseifs(eifs@) =~= Seq::<SpecElseIf>::empty());
            }
            loop
                invariant
                    i < cur <= input@.len(),
                    spec_else_chain(s0, p0, reg@, Seq::empty()) == spec_else_chain(
                        s0,
                        cur as int,
                        reg@,
                        view_elseifs(eifs@),
                    ),
                decreases input@.len() - cur,
            {
                let j2 = sp(input, cur);
                if !at_kw_else(input, j2) {
                    return Parsed::Found(
                        Condition::new(guard, blk_if, eifs, Vec::new()),
                        cur,
                    );
                }
                let k = sp(input, j2 + 4);
                if at_kw_if(input, k) {
                    let g1 = sp(input, k + 2);
                    let b1 = find_brace(input, g1);
                    if b1 >= input.len() {
                        return Parsed::Fail(ParseError::Syntax { pos: b1 });
                    }
                    match block_stmts(input, b1 + 1, reg) {
                        Parsed::NoMatch => {
                            return Parsed::NoMatch;
                        },
                        Parsed::Fail(e) => {
                            return Parsed::Fail(e);
                        },
                        Parsed::Found(bs2, p2) => {
                            let guard2 = crate::parsers::copy_range(input, g1, b1);
                            let arm = ElseIf::new(guard2, bs2);
                            proof {
                                lemma_view_elseifs_push(eifs@, arm);
                            }
                            eifs.push(arm);
                            cur = p2;
                        },
                    }
                } else {
                    match block(input, j2 + 4, reg) {
                        Parsed::Found(eblk, p3) => {
                            return Parsed::Found(
                                Condition::new(guard, blk_if, eifs, eblk),
                                p3,
                            );
                        },
                        Parsed::NoMatch => {
                            return Parsed::Fail(ParseError::Syntax { pos: k });
                        },
                        Parsed::Fail(e) => {
                            return Parsed::Fail(e);
                        },
                    }
                }
            }
        },
    }
}

/// Parses block statements from just after `{`, through the closing `}`.
#[verifier::loop_isolation(false)]
fn block_stmts(input: &[char], i: usize, reg: &Registry) -> (r: Parsed<Block>)
    requires
        i <= input@.len(),
    ensures
        r matches Parsed::Found(b, j) ==> spec_block_stmts(input@, i as int, reg@, Seq::empty())
            == SpecParsed::Found(view_statements(b@), j as int) && i < j <= input@.len(),
        r matches Parsed::Fail(e) ==> spec_block_stmts(input@, i as int, reg@, Seq::empty())
            == SpecParsed::<Seq<SpecStatement>>::Fail(e@),
        !(r is NoMatch),
    decreases input@.len() - i, 3int,
{
    let ghost s0 = input@;
    let mut acc: Vec<Statement> = Vec::new();
    let mut cur: usize = i;
    proof {
        lemma_view_statements_index(acc@);
        assert(view_statements(acc@) =~= Seq::<SpecStatement>::empty());
    }
    loop
        invariant
            i <= cur <= input@.len(),
            spec_block_stmts(s0, i as int, reg@, Seq::empty()) == spec_block_stmts(
                s0,
                cur as int,
                reg@,
                view_statements(acc@),
            ),
        decreases input@.len() - cur,
    {
        let j = sp(input, cur);
        if j >= input.len() {
            return Parsed::Fail(ParseError::Syntax { pos: j });
        }
        if input[j] == '}' {
            return Parsed::Found(acc, j + 1);
        }
        match statement(input, cur, reg) {
            Parsed::NoMatch => {
                return Parsed::Fail(ParseError::Syntax { pos: j });
            },
            Parsed::Fail(e) => {
                return Parsed::Fail(e);
            },
            Parsed::Found(st, p) => {
                proof {
                    lemma_view_statements_push(acc@, st);
                }
                acc.push(st);
                cur = p;
            },
        }
    }
}

/// Recognizes a block: `{`, statements, `}`.
pub fn block(input: &[char], i: usize, reg: &Registry) -> (r: Parsed<Block>)
    requires
        i <= input@.len(),
    ensures
        r matches Parsed::Found(b, j) ==> spec_block(input@, i as int, reg@) == SpecParsed::Found(
            view_statements(b@),
            j as int,
        ) && i < j <= input@.len(),
        r matches Parsed::Fail(e) ==> spec_block(input@, i as int, reg@)
            == SpecParsed::<Seq<SpecStatement>>::Fail(e@),
        r is NoMatch ==> spec_block(input@, i as int, reg@) is NoMatch,
    decreases input@.len() - i, 4int,
{
    let j = sp(input, i);
    if j < input.len() && input[j] == '{' {
        block_stmts(input, j + 1, reg)
    } else {
        Parsed::NoMatch
    }
}

/// Recognizes a section: `input`, `filter` or `output`, then a block.
pub fn read_section(input: &[char], i: usize, reg: &Registry) -> (r: Parsed<Section>)
    requires
        i <= input@.len(),
    ensures
        r matches Parsed::Found(sec, j) ==> spec_read_section(input@, i as int, reg@)
            == SpecParsed::Found(sec@, j as int) && i < j <= input@.len(),
        r matches Parsed::Fail(e) ==> spec_read_section(input@, i as int, reg@)
            == SpecParsed::<SpecSection>::Fail(e@),
        r is NoMatch ==> spec_read_section(input@, i as int, reg@) is NoMatch,
{
    let j = sp(input, i);
    let n = input.len();
    let is_input = n - j >= 5 && input[j] == 'i' && input[j + 1] == 'n' && input[j + 2] == 'p'
        && input[j + 3] == 'u' && input[j + 4] == 't' && (n - j == 5 || !is_ident_char_exec(
        input[j + 5],
    ));
    let is_filter = n - j >= 6 && input[j] == 'f' && input[j + 1] == 'i' && input[j + 2] == 'l'
        && input[j + 3] == 't' && input[j + 4] == 'e' && input[j + 5] == 'r' && (n - j == 6
        || !is_ident_char_exec(input[j + 6]));
    let is_output = n - j >= 6 && input[j] == 'o' && input[j + 1] == 'u' && input[j + 2] == 't'
        && input[j + 3] == 'p' && input[j + 4] == 'u' && input[j + 5] == 't' && (n - j == 6
        || !is_ident_char_exec(input[j + 6]));
    if is_input {
        match block(input, j + 5, reg) {
            Parsed::Found(b, p) => Parsed::Found(Section::Input(b), p),
            Parsed::NoMatch => {
                let z = sp(input, j + 5);
                Parsed::Fail(ParseError::Syntax { pos: z })
            },
            Parsed::Fail(e) => Parsed::Fail(e),
        }
    } else if is_filter {
        match block(input, j + 6, reg) {
            Parsed::Found(b, p) => Parsed::Found(Section::Filter(b), p),
            Parsed::NoMatch => {
                let z = sp(input, j + 6);
                Parsed::Fail(ParseError::Syntax { pos: z })
            },
            Parsed::Fail(e) => Parsed::Fail(e),
        }
    } else if is_output {
        match block(input, j + 6, reg) {
            Parsed::Found(b, p) => Parsed::Found(Section::Output(b), p),
            Parsed::NoMatch => {
                let z = sp(input, j + 6);
                Parsed::Fail(ParseError::Syntax { pos: z })
            },
            Parsed::Fail(e) => Parsed::Fail(e),
        }
    } else {
        Parsed::NoMatch
    }
}

/// Parses a whole config text against a registry into one pipeline.
/// All-or-nothing: any failure, an unknown plugin included, aborts the
/// whole parse, and leftover text that is no section is a syntax error.
#[verifier::loop_isolation(false)]
pub fn read_config(input: &[char], reg: &Registry) -> (r: Result<Parser, ParseError>)
    ensures
        r matches Ok(p) ==> spec_read_config(input@, 0, reg@, spec_empty_pipeline()) == Ok::<
            _,
            SpecParseError,
        >(p@),
        r matches Err(e) ==> spec_read_config(input@, 0, reg@, spec_empty_pipeline())
            == Err::<SpecPipeline, _>(e@),
{
    let mut pipeline = Parser::new();
    let mut cur: usize = 0;
    proof {
        assert(pipeline@ =~= spec_empty_pipeline());
    }
    loop
        invariant
            cur <= input@.len(),
            spec_read_config(input@, 0, reg@, spec_empty_pipeline()) == spec_read_config(
                input@,
                cur as int,
                reg@,
                pipeline@,
            ),
        decreases input@.len() - cur,
    {
        match read_section(input, cur, reg) {
            Parsed::Fail(e) => {
                return Err(e);
            },
            Parsed::NoMatch => {
                let j = sp(input, cur);
                if j >= input.len() {
                    return Ok(pipeline);
                }
                return Err(ParseError::Syntax { pos: j });
            },
            Parsed::Found(sec, p) => {
                pipeline.add_section(sec);
                cur = p;
            },
        }
    }
}


/// Idempotence: parsing identical config text against an unchanged
/// registry twice yields structurally equal pipelines. Each parse result
/// is pinned by `read_config`'s contract to `spec_read_config` of the text
/// and registry alone, so two runs cannot differ.
pub proof fn lemma_parse_idempotent(
    s: Seq<char>,
    reg: Seq<(Seq<char>, u64)>,
    r1: Result<SpecPipeline, SpecParseError>,
    r2: Result<SpecPipeline, SpecParseError>,
)
    requires
        r1 == spec_read_config(s, 0, reg, spec_empty_pipeline()),
        r2 == spec_read_config(s, 0, reg, spec_empty_pipeline()),
    ensures
        r1 == r2,
{
}

/// Plugin resolution: a statement that reads as a plugin invocation whose
/// name the registry does not know fails with `UnknownPlugin` carrying
/// that name — it is never skipped and never read as anything else.
pub proof fn lemma_unknown_plugin_fails(s: Seq<char>, i: int, reg: Seq<(Seq<char>, u64)>)
    requires
        !kw_if(s, skip_ge(s, i)),
        spec_snake_case(s, skip_ge(s, i)) matches SpecParsed::Found(name, e) && (spec_params(s, e)
            is Found) && reg_lookup(reg, name) is None,
    ensures
        ({
            let name = spec_snake_case(s, skip_ge(s, i))->Found_0;
            spec_statement(s, i, reg) == SpecParsed::<SpecStatement>::Fail(
                SpecParseError::UnknownPlugin(name),
            )
        }),
{
}

} // verus!



