//! What a rule reports: a match with the offset where it stopped, or a
//! failure that says where, inside which rules, and what was missing.

use vstd::prelude::*;
use crate::model::Modeled;

verus! {

/// The named rules of the grammar.
#[derive(Debug, PartialEq, Eq, Clone, Copy)]
pub enum Rule {
    Identifier,
    Number,
    Variable,
    Arguments,
    Call,
    Expression,
    Prototype,
    Extern,
    Function,
    Statement,
    Statements,
    Program,
}

/// The expectation that a failing rule found violated.
#[derive(Debug, PartialEq, Eq, Clone, Copy)]
pub enum Expected {
    /// A letter, or an underscore followed by a letter.
    IdentifierStart,
    /// Anything but a word that begins with `def` or `extern`.
    NonKeyword,
    /// A digit, after an optional minus sign.
    Digit,
    /// A literal that the number converter accepts whole.
    NumericValue,
    /// At least one space or newline.
    Whitespace,
    /// `(`.
    OpenParen,
    /// `)`.
    CloseParen,
    /// The keyword `extern`.
    ExternKeyword,
    /// The keyword `def`.
    DefKeyword,
    /// The end of the input.
    EndOfInput,
}

/// The three families of failure.
#[derive(Debug, PartialEq, Eq, Clone, Copy)]
pub enum Category {
    /// A character of an expected class was not there.
    LexicalMismatch,
    /// A keyword or a punctuation mark was not there.
    StructuralMismatch,
    /// Input was left over after the program.
    IncompleteConsumption,
}

/// What a failure stands for.
pub struct Fault {
    pub offset: int,
    pub rules: Seq<Rule>,
    pub expected: Expected,
}

/// What the outcome of a rule stands for.
pub enum Outcome<M> {
    /// The rule matched, produced a value and stopped at an offset.
    Match(M, int),
    /// The rule does not apply here; an alternative may still be tried.
    Soft(Fault),
    /// The rule had committed and then failed; nothing else is tried.
    Hard(Fault),
}

/// A failure: the byte offset, the rules that were active there, innermost
/// first, and the expectation that was violated.
#[derive(Debug, PartialEq, Eq)]
pub struct Failure {
    pub offset: usize,
    pub rules: Vec<Rule>,
    pub expected: Expected,
}

/// The outcome of a rule.
#[derive(Debug, PartialEq, Eq)]
pub enum Parsed<T> {
    /// The value and the byte offset just behind what the rule consumed.
    Matched(T, usize),
    /// A recoverable failure.
    Soft(Failure),
    /// An unrecoverable failure.
    Hard(Failure),
}

impl Modeled for Failure {
    type Model = Fault;

    open spec fn model(&self) -> Fault {
        Fault { offset: self.offset as int, rules: self.rules@, expected: self.expected }
    }
}

impl<T: Modeled> Modeled for Parsed<T> {
    type Model = Outcome<T::Model>;

    open spec fn model(&self) -> Outcome<T::Model> {
        match self {
            Parsed::Matched(value, end) => Outcome::Match(value.model(), *end as int),
            Parsed::Soft(failure) => Outcome::Soft(failure.model()),
            Parsed::Hard(failure) => Outcome::Hard(failure.model()),
        }
    }
}

/// The fault of a rule that fails by itself.
pub open spec fn fault(offset: int, rule: Rule, expected: Expected) -> Fault {
    Fault { offset, rules: seq![rule], expected }
}

/// A fault seen from the rule that encloses the failing one.
pub open spec fn fault_within(inner: Fault, rule: Rule) -> Fault {
    Fault { offset: inner.offset, rules: inner.rules.push(rule), expected: inner.expected }
}

/// An outcome seen from the enclosing rule: its faults name that rule too.
pub open spec fn within<M>(outcome: Outcome<M>, rule: Rule) -> Outcome<M> {
    match outcome {
        Outcome::Match(value, end) => Outcome::Match(value, end),
        Outcome::Soft(f) => Outcome::Soft(fault_within(f, rule)),
        Outcome::Hard(f) => Outcome::Hard(fault_within(f, rule)),
    }
}

/// The family that an expectation belongs to.
pub open spec fn category_of(expected: Expected) -> Category {
    match expected {
        Expected::IdentifierStart => Category::LexicalMismatch,
        Expected::NonKeyword => Category::LexicalMismatch,
        Expected::Digit => Category::LexicalMismatch,
        Expected::NumericValue => Category::LexicalMismatch,
        Expected::Whitespace => Category::LexicalMismatch,
        Expected::OpenParen => Category::StructuralMismatch,
        Expected::CloseParen => Category::StructuralMismatch,
        Expected::ExternKeyword => Category::StructuralMismatch,
        Expected::DefKeyword => Category::StructuralMismatch,
        Expected::EndOfInput => Category::IncompleteConsumption,
    }
}

/// The name of a rule, as diagnostics show it.
pub open spec fn rule_name(rule: Rule) -> Seq<char> {
    match rule {
        Rule::Identifier => "identifier"@,
        Rule::Number => "number"@,
        Rule::Variable => "variable"@,
        Rule::Arguments => "arguments"@,
        Rule::Call => "call"@,
        Rule::Expression => "expression"@,
        Rule::Prototype => "prototype"@,
        Rule::Extern => "extern"@,
        Rule::Function => "function"@,
        Rule::Statement => "statement"@,
        Rule::Statements => "one or more statements"@,
        Rule::Program => "program"@,
    }
}

/// What was expected, in words.
pub open spec fn expectation_text(expected: Expected) -> Seq<char> {
    match expected {
        Expected::IdentifierStart => "expected one of the known identifier start characters"@,
        Expected::NonKeyword => "expected a word that begins with no keyword"@,
        Expected::Digit => "expected a digit"@,
        Expected::NumericValue => "expected a literal that denotes a number"@,
        Expected::Whitespace => "expected whitespace"@,
        Expected::OpenParen => "expected an opening parenthesis"@,
        Expected::CloseParen => "expected a closing parenthesis"@,
        Expected::ExternKeyword => "expected the keyword extern"@,
        Expected::DefKeyword => "expected the keyword def"@,
        Expected::EndOfInput => "expected the end of the input"@,
    }
}

impl Rule {
    /// The name of this rule.
    pub fn name(&self) -> (r: &'static str)
        ensures
            r@ == rule_name(*self),
    {
        match self {
            Rule::Identifier => "identifier",
            Rule::Number => "number",
            Rule::Variable => "variable",
            Rule::Arguments => "arguments",
            Rule::Call => "call",
            Rule::Expression => "expression",
            Rule::Prototype => "prototype",
            Rule::Extern => "extern",
            Rule::Function => "function",
            Rule::Statement => "statement",
            Rule::Statements => "one or more statements",
            Rule::Program => "program",
        }
    }
}

impl Expected {
    /// This expectation in words.
    pub fn description(&self) -> (r: &'static str)
        ensures
            r@ == expectation_text(*self),
    {
        match self {
            Expected::IdentifierStart => "expected one of the known identifier start characters",
            Expected::NonKeyword => "expected a word that begins with no keyword",
            Expected::Digit => "expected a digit",
            Expected::NumericValue => "expected a literal that denotes a number",
            Expected::Whitespace => "expected whitespace",
            Expected::OpenParen => "expected an opening parenthesis",
            Expected::CloseParen => "expected a closing parenthesis",
            Expected::ExternKeyword => "expected the keyword extern",
            Expected::DefKeyword => "expected the keyword def",
            Expected::EndOfInput => "expected the end of the input",
        }
    }
}

impl Failure {
    /// A failure of `rule` alone at `offset`.
    pub fn new(offset: usize, rule: Rule, expected: Expected) -> (r: Failure)
        ensures
            r.model() == fault(offset as int, rule, expected),
    {
        let mut rules: Vec<Rule> = Vec::new();
        rules.push(rule);
        assert(rules@ =~= seq![rule]);
        Failure { offset, rules, expected }
    }

    /// The same failure, seen from the enclosing `rule`.
    pub fn within(self, rule: Rule) -> (r: Failure)
        ensures
            r.model() == fault_within(self.model(), rule),
    {
        let Failure { offset, rules, expected } = self;
        let mut rules = rules;
        rules.push(rule);
        Failure { offset, rules, expected }
    }

    /// The family of this failure.
    pub fn category(&self) -> (r: Category)
        ensures
            r == category_of(self.expected),
    {
        match self.expected {
            Expected::IdentifierStart => Category::LexicalMismatch,
            Expected::NonKeyword => Category::LexicalMismatch,
            Expected::Digit => Category::LexicalMismatch,
            Expected::NumericValue => Category::LexicalMismatch,
            Expected::Whitespace => Category::LexicalMismatch,
            Expected::OpenParen => Category::StructuralMismatch,
            Expected::CloseParen => Category::StructuralMismatch,
            Expected::ExternKeyword => Category::StructuralMismatch,
            Expected::DefKeyword => Category::StructuralMismatch,
            Expected::EndOfInput => Category::IncompleteConsumption,
        }
    }
}

impl<T: Modeled> Parsed<T> {
    /// The same outcome, seen from the enclosing `rule`.
    pub fn within(self, rule: Rule) -> (r: Parsed<T>)
        ensures
            r.model() == within(self.model(), rule),
    {
        match self {
            Parsed::Matched(value, end) => Parsed::Matched(value, end),
            Parsed::Soft(failure) => Parsed::Soft(failure.within(rule)),
            Parsed::Hard(failure) => Parsed::Hard(failure.within(rule)),
        }
    }
}

} // verus!
