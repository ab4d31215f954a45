//! The printer: renders any tree back into concrete syntax, purely as a
//! function of tag and children. Infix notation for binary relations,
//! connectives and operators; prefix notation for negation, quantifiers and
//! the unary operators; brace notation for comprehension, pair and
//! singleton. Low-range variable identifiers print as `v` with subscript
//! digits, high-range ones as the single letter they encode.

use vstd::prelude::*;

use crate::lexer::chars_to_string;
use crate::parser::{Connective, Constant, Node, NodeType, Operator, Quantifier, Relation,
    SyntaxNode, views_of, lemma_views_of};
use crate::transformer::letter_id;

verus! {

/// The decimal digit character of a value below ten.
pub open spec fn dec_digit(d: int) -> char {
    if d == 0 { '0' } else if d == 1 { '1' } else if d == 2 { '2' } else if d == 3 { '3' }
    else if d == 4 { '4' } else if d == 5 { '5' } else if d == 6 { '6' } else if d == 7 { '7' }
    else if d == 8 { '8' } else { '9' }
}

/// The decimal rendering of a number.
pub open spec fn dec_chars(n: int) -> Seq<char>
    decreases n,
{
    if n < 10 {
        seq![dec_digit(n)]
    } else {
        dec_chars(n / 10).push(dec_digit(n % 10))
    }
}

/// The subscript digit character of a value below ten.
pub open spec fn sub_digit(d: int) -> char {
    if d == 0 { '\u{2080}' } else if d == 1 { '\u{2081}' } else if d == 2 { '\u{2082}' }
    else if d == 3 { '\u{2083}' } else if d == 4 { '\u{2084}' } else if d == 5 { '\u{2085}' }
    else if d == 6 { '\u{2086}' } else if d == 7 { '\u{2087}' } else if d == 8 { '\u{2088}' }
    else { '\u{2089}' }
}

/// The subscript-digit rendering of a number.
pub open spec fn sub_chars(n: int) -> Seq<char>
    decreases n,
{
    if n < 10 {
        seq![sub_digit(n)]
    } else {
        sub_chars(n / 10).push(sub_digit(n % 10))
    }
}

/// The rendering of a variable identifier: high-range identifiers print as
/// the letter they encode, the rest as `v` with subscript digits.
pub open spec fn print_var(v: u32) -> Seq<char> {
    if letter_id(v) {
        seq![(u32::MAX - v) as char]
    } else {
        seq!['v'] + sub_chars(v as int)
    }
}

/// The rendering of the i-th child, empty when the child is missing.
pub open spec fn pc(n: Node, i: int) -> Seq<char>
    decreases n, 0int,
{
    if 0 <= i < n.children.len() {
        print_spec(n.children[i])
    } else {
        Seq::empty()
    }
}

/// A form whose rendering already carries its own parentheses.
pub open spec fn paren_form(t: NodeType) -> bool {
    match t {
        NodeType::Connective(Connective::Negation) => false,
        NodeType::Connective(_) => true,
        _ => false,
    }
}

/// The rendering of a quantifier body: parenthesized unless the body is a
/// binary connective, whose rendering brings parentheses of its own.
pub open spec fn qbody(n: Node) -> Seq<char>
    decreases n, 1int,
{
    if n.children.len() == 2 && paren_form(n.children[1].tag) {
        pc(n, 1)
    } else {
        "("@ + pc(n, 1) + ")"@
    }
}

/// The concrete-syntax rendering of a tree.
pub open spec fn print_spec(n: Node) -> Seq<char>
    decreases n, 2int,
{
    match n.tag {
        NodeType::Constant(Constant::EmptySet) => "∅"@,
        NodeType::Constant(Constant::Omega) => "ω"@,
        NodeType::Variable(v) => print_var(v),
        NodeType::Comprehension => "{"@ + pc(n, 0) + " | "@ + pc(n, 1) + "}"@,
        NodeType::Relation(Relation::Equality) => pc(n, 0) + " = "@ + pc(n, 1),
        NodeType::Relation(Relation::Element) => pc(n, 0) + " ∈ "@ + pc(n, 1),
        NodeType::Relation(Relation::Subset) => pc(n, 0) + " ⊆ "@ + pc(n, 1),
        NodeType::Relation(Relation::NotEqual) => pc(n, 0) + " ≠ "@ + pc(n, 1),
        NodeType::Relation(Relation::NotElement) => pc(n, 0) + " ∉ "@ + pc(n, 1),
        NodeType::Relation(Relation::NotSubset) => pc(n, 0) + " ⊈ "@ + pc(n, 1),
        NodeType::Operator(Operator::Singleton) => "{"@ + pc(n, 0) + "}"@,
        NodeType::Operator(Operator::PowerSet) => "Pot("@ + pc(n, 0) + ")"@,
        NodeType::Operator(Operator::BigUnion) => "Vereinigung("@ + pc(n, 0) + ")"@,
        NodeType::Operator(Operator::BigIntersection) => "Durchschnitt("@ + pc(n, 0) + ")"@,
        NodeType::Operator(Operator::Union) => pc(n, 0) + " ∪ "@ + pc(n, 1),
        NodeType::Operator(Operator::Intersection) => pc(n, 0) + " ∩ "@ + pc(n, 1),
        NodeType::Operator(Operator::Difference) => pc(n, 0) + " \\ "@ + pc(n, 1),
        NodeType::Operator(Operator::PairSet) => "{"@ + pc(n, 0) + " , "@ + pc(n, 1) + "}"@,
        NodeType::Connective(Connective::Negation) => "¬"@ + pc(n, 0),
        NodeType::Connective(Connective::Conjunction) => "("@ + pc(n, 0) + " ∧ "@ + pc(n, 1)
            + ")"@,
        NodeType::Connective(Connective::Disjunction) => "("@ + pc(n, 0) + " ∨ "@ + pc(n, 1)
            + ")"@,
        NodeType::Connective(Connective::Implication) => "("@ + pc(n, 0) + " → "@ + pc(n, 1)
            + ")"@,
        NodeType::Connective(Connective::Biconditional) => "("@ + pc(n, 0) + " ↔ "@ + pc(n, 1)
            + ")"@,
        NodeType::Quantifier(Quantifier::Universal) => "∀"@ + pc(n, 0) + " "@ + qbody(n),
        NodeType::Quantifier(Quantifier::Existential) => "∃"@ + pc(n, 0) + " "@ + qbody(n),
    }
}

/// Appends the characters of a literal.
pub(crate) fn push_str_chars(out: &mut Vec<char>, s: &str)
    ensures
        final(out)@ == old(out)@ + s@,
{
    let n = s.unicode_len();
    let mut i: usize = 0;
    proof {
        assert(out@ =~= old(out)@ + s@.take(0));
    }
    while i < n
        invariant
            n == s@.len(),
            i <= n,
            out@ == old(out)@ + s@.take(i as int),
        decreases n - i,
    {
        out.push(s.get_char(i));
        proof {
            assert(s@.take(i + 1) =~= s@.take(i as int).push(s@[i as int]));
            assert(out@ =~= old(out)@ + s@.take(i + 1));
        }
        i = i + 1;
    }
    proof {
        assert(s@.take(n as int) =~= s@);
    }
}

/// In-range values cast through a byte unchanged.
proof fn lemma_u8_roundtrip(x: u32)
    requires
        x < 256,
    ensures
        (x as u8) as u32 == x,
{
    assert(x < 256 ==> (x as u8) as u32 == x) by (bit_vector);
}

/// Appends the subscript-digit rendering of a number.
fn push_subscripts(out: &mut Vec<char>, n: u32)
    ensures
        final(out)@ == old(out)@ + sub_chars(n as int),
    decreases n,
{
    if n < 10 {
        let c: char = match n {
            0 => '\u{2080}',
            1 => '\u{2081}',
            2 => '\u{2082}',
            3 => '\u{2083}',
            4 => '\u{2084}',
            5 => '\u{2085}',
            6 => '\u{2086}',
            7 => '\u{2087}',
            8 => '\u{2088}',
            _ => '\u{2089}',
        };
        out.push(c);
        proof {
            assert(out@ =~= old(out)@ + seq![sub_digit(n as int)]);
        }
    } else {
        push_subscripts(out, n / 10);
        let c: char = match n % 10 {
            0 => '\u{2080}',
            1 => '\u{2081}',
            2 => '\u{2082}',
            3 => '\u{2083}',
            4 => '\u{2084}',
            5 => '\u{2085}',
            6 => '\u{2086}',
            7 => '\u{2087}',
            8 => '\u{2088}',
            _ => '\u{2089}',
        };
        out.push(c);
        proof {
            assert(out@ =~= old(out)@ + sub_chars(n as int));
        }
    }
}

/// Appends the decimal rendering of a number.
pub(crate) fn push_decimals(out: &mut Vec<char>, n: usize)
    ensures
        final(out)@ == old(out)@ + dec_chars(n as int),
    decreases n,
{
    if n < 10 {
        let c: char = match n {
            0 => '0',
            1 => '1',
            2 => '2',
            3 => '3',
            4 => '4',
            5 => '5',
            6 => '6',
            7 => '7',
            8 => '8',
            _ => '9',
        };
        out.push(c);
        proof {
            assert(out@ =~= old(out)@ + seq![dec_digit(n as int)]);
        }
    } else {
        push_decimals(out, n / 10);
        let c: char = match n % 10 {
            0 => '0',
            1 => '1',
            2 => '2',
            3 => '3',
            4 => '4',
            5 => '5',
            6 => '6',
            7 => '7',
            8 => '8',
            _ => '9',
        };
        out.push(c);
        proof {
            assert(out@ =~= old(out)@ + dec_chars(n as int));
        }
    }
}

/// Appends the rendering of a variable identifier.
fn push_var(out: &mut Vec<char>, v: u32)
    ensures
        final(out)@ == old(out)@ + print_var(v),
{
    let letter = (v < u32::MAX - 55 && v > u32::MAX - 91) || (v < u32::MAX - 96 && v > u32::MAX
        - 123);
    if letter {
        let code = u32::MAX - v;
        proof {
            lemma_u8_roundtrip(code);
        }
        let c = (code as u8) as char;
        out.push(c);
        proof {
            assert(c == (u32::MAX - v) as char);
            assert(out@ =~= old(out)@ + print_var(v));
        }
    } else {
        out.push('v');
        push_subscripts(out, v);
        proof {
            assert(out@ =~= old(out)@ + print_var(v));
        }
    }
}

/// Appends the rendering of a tree.
#[verifier::rlimit(60)]
fn write_node(n: &SyntaxNode, out: &mut Vec<char>)
    ensures
        final(out)@ == old(out)@ + print_spec(n@),
    decreases *n,
{
    proof {
        lemma_views_of(n.children@);
    }
    match n.entry {
        NodeType::Constant(Constant::EmptySet) => {
            push_str_chars(out, "∅");
        },
        NodeType::Constant(Constant::Omega) => {
            push_str_chars(out, "ω");
        },
        NodeType::Variable(v) => {
            push_var(out, v);
        },
        NodeType::Comprehension => {
            push_str_chars(out, "{");
            write_child(n, 0, out);
            push_str_chars(out, " | ");
            write_child(n, 1, out);
            push_str_chars(out, "}");
        },
        NodeType::Relation(r) => {
            write_child(n, 0, out);
            match r {
                Relation::Equality => push_str_chars(out, " = "),
                Relation::Element => push_str_chars(out, " ∈ "),
                Relation::Subset => push_str_chars(out, " ⊆ "),
                Relation::NotEqual => push_str_chars(out, " ≠ "),
                Relation::NotElement => push_str_chars(out, " ∉ "),
                Relation::NotSubset => push_str_chars(out, " ⊈ "),
            }
            write_child(n, 1, out);
        },
        NodeType::Operator(Operator::Singleton) => {
            push_str_chars(out, "{");
            write_child(n, 0, out);
            push_str_chars(out, "}");
        },
        NodeType::Operator(Operator::PowerSet) => {
            push_str_chars(out, "Pot(");
            write_child(n, 0, out);
            push_str_chars(out, ")");
        },
        NodeType::Operator(Operator::BigUnion) => {
            push_str_chars(out, "Vereinigung(");
            write_child(n, 0, out);
            push_str_chars(out, ")");
        },
        NodeType::Operator(Operator::BigIntersection) => {
            push_str_chars(out, "Durchschnitt(");
            write_child(n, 0, out);
            push_str_chars(out, ")");
        },
        NodeType::Operator(Operator::PairSet) => {
            push_str_chars(out, "{");
            write_child(n, 0, out);
            push_str_chars(out, " , ");
            write_child(n, 1, out);
            push_str_chars(out, "}");
        },
        NodeType::Operator(o) => {
            write_child(n, 0, out);
            match o {
                Operator::Union => push_str_chars(out, " ∪ "),
                Operator::Intersection => push_str_chars(out, " ∩ "),
                _ => push_str_chars(out, " \\ "),
            }
            write_child(n, 1, out);
        },
        NodeType::Connective(Connective::Negation) => {
            push_str_chars(out, "¬");
            write_child(n, 0, out);
        },
        NodeType::Connective(c) => {
            push_str_chars(out, "(");
            write_child(n, 0, out);
            match c {
                Connective::Conjunction => push_str_chars(out, " ∧ "),
                Connective::Disjunction => push_str_chars(out, " ∨ "),
                Connective::Implication => push_str_chars(out, " → "),
                _ => push_str_chars(out, " ↔ "),
            }
            write_child(n, 1, out);
            push_str_chars(out, ")");
        },
        NodeType::Quantifier(q) => {
            match q {
                Quantifier::Universal => push_str_chars(out, "∀"),
                Quantifier::Existential => push_str_chars(out, "∃"),
            }
            write_child(n, 0, out);
            push_str_chars(out, " ");
            let plain = n.children.len() == 2 && match n.children[1].entry {
                NodeType::Connective(Connective::Negation) => false,
                NodeType::Connective(_) => true,
                _ => false,
            };
            if plain {
                write_child(n, 1, out);
            } else {
                push_str_chars(out, "(");
                write_child(n, 1, out);
                push_str_chars(out, ")");
            }
        },
    }
    proof {
        assert(out@ =~= old(out)@ + print_spec(n@));
    }
}

/// Appends the rendering of the i-th child, nothing when missing.
fn write_child(n: &SyntaxNode, i: usize, out: &mut Vec<char>)
    ensures
        final(out)@ == old(out)@ + pc(n@, i as int),
    decreases *n, 3int,
{
    proof {
        lemma_views_of(n.children@);
    }
    if i < n.children.len() {
        write_node(&n.children[i], out);
    } else {
        proof {
            assert(out@ =~= old(out)@ + pc(n@, i as int));
        }
    }
}

impl SyntaxNode {
    /// The concrete-syntax text of this tree. Rendering is total: it never
    /// fails, whatever the tree holds.
    pub fn render(&self) -> (r: String)
        ensures
            r@ == print_spec(self@),
    {
        let mut out: Vec<char> = Vec::new();
        proof {
            assert(out@ =~= Seq::<char>::empty() + Seq::<char>::empty());
        }
        write_node(self, &mut out);
        proof {
            assert(out@ =~= print_spec(self@));
        }
        chars_to_string(&out)
    }
}

} // verus!
