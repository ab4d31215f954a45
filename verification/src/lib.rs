//! Translates formulas of an extended set-theory notation (subset, power set,
//! unions, intersections, pair sets, comprehension, constants for the empty
//! set and the first infinite ordinal) into equivalent formulas over the
//! primitive vocabulary of first-order logic with membership: variables, the
//! equality and membership relations, the five connectives and the two
//! quantifiers.
//!
//! The pipeline is text -> tokens -> syntax tree -> rewritten tree -> text:
//! a lexer, a parser, a switch-driven desugaring engine, and a printer.

use vstd::prelude::*;

pub mod display;
pub mod lexer;
pub mod parser;
pub mod transformer;

verus! {

/// A lexical or syntactic fault, located where the pipeline found it.
#[derive(Debug, Clone, Copy, PartialEq, Eq, Structural)]
pub enum Error {
    /// A character no token class recognizes, and its position in the
    /// whitespace-stripped input.
    UnexpectedChar { found: char, position: usize },
    /// The input ended before the formula was complete.
    UnexpectedEnd,
    /// A quantifier was not followed by a variable.
    ExpectedVariable,
    /// The middle of a parenthesized pair was not a binary connective.
    ExpectedConnective,
    /// An operand position held something other than a set expression.
    ExpectedSetOperand,
    /// A closing bracket was missing.
    ExpectedClose,
    /// A braced form held neither a comma nor a comprehension bar.
    ExpectedSeparator,
    /// A comprehension began with something other than an element relation.
    ExpectedElementRelation,
    /// A token that cannot begin a formula stood at a formula position.
    MisplacedToken,
    /// Tokens remained after a complete formula.
    TrailingTokens,
    /// A recognized but unsupported symbol spelling.
    UnknownSymbol,
    /// A variable index beyond the identifier space.
    IndexTooLarge,
}

/// Switches selecting which sugared constructs the transformer eliminates.
/// Each switch is independent; the record is immutable during one call.
#[derive(Clone, Copy)]
pub struct SetConfig {
    pub variables: bool,
    pub empty_set: bool,
    pub omega: bool,
    pub negated_relations: bool,
    pub subset: bool,
    pub singleton: bool,
    pub comprehension: bool,
    pub power_set: bool,
    pub big_intersection: bool,
    pub big_union: bool,
    pub intersection: bool,
    pub difference: bool,
    pub union: bool,
    pub pair_set: bool,
}

impl SetConfig {
    /// The configuration with every elimination switched on.
    pub fn all_enabled() -> (c: SetConfig)
        ensures
            c.variables && c.empty_set && c.omega && c.negated_relations && c.subset
                && c.singleton && c.comprehension && c.power_set && c.big_intersection
                && c.big_union && c.intersection && c.difference && c.union && c.pair_set,
    {
        SetConfig {
            variables: true,
            empty_set: true,
            omega: true,
            negated_relations: true,
            subset: true,
            singleton: true,
            comprehension: true,
            power_set: true,
            big_intersection: true,
            big_union: true,
            intersection: true,
            difference: true,
            union: true,
            pair_set: true,
        }
    }
}

/// The displayable text of an error.
pub open spec fn message_text(e: Error) -> Seq<char> {
    match e {
        Error::UnexpectedChar { found, position } => "Unexpected character '"@ + seq![found]
            + "' at position "@ + crate::display::dec_chars(position as int) + "."@,
        Error::UnexpectedEnd => "Unexpected end of input."@,
        Error::ExpectedVariable => "Expected a variable after the quantifier."@,
        Error::ExpectedConnective => "Expected a binary connective."@,
        Error::ExpectedSetOperand => "Expected a constant, variable, operation or comprehension."@,
        Error::ExpectedClose => "Missing closing bracket."@,
        Error::ExpectedSeparator => "Expected ',' or '|'."@,
        Error::ExpectedElementRelation => "The first part of a comprehension must be an element relation."@,
        Error::MisplacedToken => "Unexpected token."@,
        Error::TrailingTokens => "Unexpected token, expected end of input."@,
        Error::UnknownSymbol => "Unrecognized symbol."@,
        Error::IndexTooLarge => "Variable index too large."@,
    }
}

impl Error {
    /// Renders the error as a human-readable message.
    pub fn message(&self) -> (r: String)
        ensures
            r@ == message_text(*self),
    {
        match self {
            Error::UnexpectedChar { found, position } => {
                let mut out: Vec<char> = Vec::new();
                proof {
                    assert(out@ =~= Seq::<char>::empty() + Seq::<char>::empty());
                }
                crate::display::push_str_chars(&mut out, "Unexpected character '");
                out.push(*found);
                crate::display::push_str_chars(&mut out, "' at position ");
                crate::display::push_decimals(&mut out, *position);
                crate::display::push_str_chars(&mut out, ".");
                proof {
                    assert(out@ =~= message_text(*self));
                }
                crate::lexer::chars_to_string(&out)
            },
            Error::UnexpectedEnd => String::from_str("Unexpected end of input."),
            Error::ExpectedVariable => String::from_str(
                "Expected a variable after the quantifier.",
            ),
            Error::ExpectedConnective => String::from_str("Expected a binary connective."),
            Error::ExpectedSetOperand => String::from_str(
                "Expected a constant, variable, operation or comprehension.",
            ),
            Error::ExpectedClose => String::from_str("Missing closing bracket."),
            Error::ExpectedSeparator => String::from_str("Expected ',' or '|'."),
            Error::ExpectedElementRelation => String::from_str(
                "The first part of a comprehension must be an element relation.",
            ),
            Error::MisplacedToken => String::from_str("Unexpected token."),
            Error::TrailingTokens => String::from_str("Unexpected token, expected end of input."),
            Error::UnknownSymbol => String::from_str("Unrecognized symbol."),
            Error::IndexTooLarge => String::from_str("Variable index too large."),
        }
    }
}

/// The text the pipeline hands back for this input and configuration: the
/// printed transformed tree, or the message of the lexical or parse error
/// that stopped it.
pub open spec fn run_text(s: Seq<char>, c: SetConfig) -> Seq<char> {
    match crate::lexer::lex_spec(crate::lexer::stripped(s), 0) {
        Err(e) => message_text(e),
        Ok(ts) => match crate::parser::parse_spec(ts) {
            Err(e) => message_text(e),
            Ok(t) => crate::display::print_spec(
                crate::transformer::transform_spec(t, c),
            ),
        },
    }
}

/// The single entry point of the pipeline: lexes, parses, transforms and
/// prints, collapsing failures to their display form.
pub fn run(input: &str, config: SetConfig) -> (r: String)
    ensures
        r@ == run_text(input@, config),
{
    match crate::lexer::tokanize(String::from_str(input)) {
        Err(e) => e.message(),
        Ok(tokens) => match crate::parser::parse(tokens) {
            Err(e) => e.message(),
            Ok(tree) => tree.transform(config).render(),
        },
    }
}

} // verus!
