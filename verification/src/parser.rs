//! The syntax tree shared by parser, transformer and printer, its
//! mathematical model, and the parser from tokens to trees.

use vstd::prelude::*;

use crate::lexer::{tok_views, Token, TokenModel};
use crate::transformer::{bin, leaf, mk1, mk2, mk_leaf, nvar, un};
use crate::Error;

verus! {

/// Kinds of binary relations between set expressions.
#[derive(Debug, Clone, Copy, PartialEq, Eq, Structural)]
pub enum Relation {
    Element,
    Equality,
    Subset,
    NotElement,
    NotEqual,
    NotSubset,
}

/// Logical connectives; `Negation` has one operand, the rest two.
#[derive(Debug, Clone, Copy, PartialEq, Eq, Structural)]
pub enum Connective {
    Negation,
    Conjunction,
    Disjunction,
    Implication,
    Biconditional,
}

/// The two quantifiers.
#[derive(Debug, Clone, Copy, PartialEq, Eq, Structural)]
pub enum Quantifier {
    Universal,
    Existential,
}

/// Set-building operators; `Singleton`, `PowerSet`, `BigUnion` and
/// `BigIntersection` have one operand, the rest two.
#[derive(Debug, Clone, Copy, PartialEq, Eq, Structural)]
pub enum Operator {
    Singleton,
    PowerSet,
    BigUnion,
    BigIntersection,
    Union,
    Intersection,
    Difference,
    PairSet,
}

/// The two constant set symbols.
#[derive(Debug, Clone, Copy, PartialEq, Eq, Structural)]
pub enum Constant {
    EmptySet,
    Omega,
}

/// The tag of a syntax-tree node. A `Variable` carries its numeric
/// identifier; a `Comprehension` node has a membership-form child and a
/// predicate child.
#[derive(Debug, Clone, Copy, PartialEq, Eq, Structural)]
pub enum NodeType {
    Relation(Relation),
    Connective(Connective),
    Quantifier(Quantifier),
    Operator(Operator),
    Variable(u32),
    Constant(Constant),
    Comprehension,
}

/// A node of the syntax tree: a tag and an ordered list of children whose
/// length must match the tag's arity (see [`arity`]).
pub struct SyntaxNode {
    pub entry: NodeType,
    pub children: Vec<SyntaxNode>,
}

/// The mathematical model of a syntax tree: the same shape with a `Seq` of
/// children, used by every contract of this crate.
pub struct Node {
    pub tag: NodeType,
    pub children: Seq<Node>,
}

/// The number of children a node with this tag must have.
pub open spec fn arity(t: NodeType) -> nat {
    match t {
        NodeType::Relation(_) => 2,
        NodeType::Connective(Connective::Negation) => 1,
        NodeType::Connective(_) => 2,
        NodeType::Quantifier(_) => 2,
        NodeType::Operator(Operator::Singleton) => 1,
        NodeType::Operator(Operator::PowerSet) => 1,
        NodeType::Operator(Operator::BigUnion) => 1,
        NodeType::Operator(Operator::BigIntersection) => 1,
        NodeType::Operator(_) => 2,
        NodeType::Variable(_) => 0,
        NodeType::Constant(_) => 0,
        NodeType::Comprehension => 2,
    }
}

impl Node {
    /// Well-formedness: every node's child count equals its tag's arity,
    /// throughout the tree.
    pub open spec fn wf(self) -> bool
        decreases self,
    {
        self.children.len() == arity(self.tag) && wf_seq(self.children)
    }
}

/// Well-formedness of every tree of a forest.
pub open spec fn wf_seq(s: Seq<Node>) -> bool
    decreases s,
{
    if s.len() == 0 {
        true
    } else {
        s[0].wf() && wf_seq(s.drop_first())
    }
}

/// A forest is well formed exactly when each of its trees is.
pub broadcast proof fn lemma_wf_seq(s: Seq<Node>)
    ensures
        #[trigger] wf_seq(s) == (forall|i: int| 0 <= i < s.len() ==> (#[trigger] s[i]).wf()),
    decreases s,
{
    lemma_wf_seq_aux(s);
    if wf_seq(s) {
    } else {
        if forall|i: int| 0 <= i < s.len() ==> (#[trigger] s[i]).wf() {
            assert(false);
        }
    }
}

proof fn lemma_wf_seq_aux(s: Seq<Node>)
    ensures
        wf_seq(s) ==> (forall|i: int| 0 <= i < s.len() ==> (#[trigger] s[i]).wf()),
        (forall|i: int| 0 <= i < s.len() ==> (#[trigger] s[i]).wf()) ==> wf_seq(s),
    decreases s,
{
    if s.len() > 0 {
        lemma_wf_seq_aux(s.drop_first());
        if wf_seq(s) {
            assert forall|i: int| 0 <= i < s.len() implies (#[trigger] s[i]).wf() by {
                if i > 0 {
                    assert(s.drop_first()[i - 1].wf());
                }
            }
        }
        if forall|i: int| 0 <= i < s.len() ==> (#[trigger] s[i]).wf() {
            assert forall|i: int|
                0 <= i < s.drop_first().len() implies (#[trigger] s.drop_first()[i]).wf() by {
                assert(s[i + 1].wf());
            }
            assert(s[0].wf());
        }
    }
}

impl SyntaxNode {
    /// The model of this tree.
    pub open spec fn deep_view(&self) -> Node
        decreases self,
    {
        Node { tag: self.entry, children: views_of(self.children@) }
    }
}

/// The models of a sequence of trees, elementwise.
pub open spec fn views_of(s: Seq<SyntaxNode>) -> Seq<Node>
    decreases s,
{
    if s.len() == 0 {
        Seq::empty()
    } else {
        seq![s[0].deep_view()] + views_of(s.drop_first())
    }
}

/// `views_of` maps the model over the sequence elementwise.
pub broadcast proof fn lemma_views_of(s: Seq<SyntaxNode>)
    ensures
        (#[trigger] views_of(s)).len() == s.len(),
        forall|i: int| 0 <= i < s.len() ==> views_of(s)[i] == s[i].deep_view(),
    decreases s,
{
    if s.len() > 0 {
        lemma_views_of(s.drop_first());
    }
}

impl View for SyntaxNode {
    type V = Node;

    open spec fn view(&self) -> Node {
        self.deep_view()
    }
}

impl Clone for SyntaxNode {
    fn clone(&self) -> (r: Self)
        ensures
            r@ == self@,
        decreases *self,
    {
        let mut children: Vec<SyntaxNode> = Vec::new();
        let mut i: usize = 0;
        while i < self.children.len()
            invariant
                i <= self.children.len(),
                children@.len() == i as nat,
                forall|j: int| 0 <= j < i ==> children@[j]@ == self.children@[j]@,
            decreases self.children.len() - i,
        {
            children.push(self.children[i].clone());
            i = i + 1;
        }
        let r = SyntaxNode { entry: self.entry, children };
        proof {
            lemma_views_of(r.children@);
            lemma_views_of(self.children@);
            assert(r@.children =~= self@.children);
            assert(r@ =~= self@);
        }
        r
    }
}

// ---------------------------------------------------------------------------
// The grammar, at the model level: a recursive-descent parse over the token
// sequence with an explicit cursor, returning the cursor after the parsed
// form together with the tree built for it.
// ---------------------------------------------------------------------------

/// A set-like tag: what may stand as a relation or operator operand.
pub open spec fn is_set_tag(t: NodeType) -> bool {
    match t {
        NodeType::Variable(_) => true,
        NodeType::Constant(_) => true,
        NodeType::Operator(_) => true,
        NodeType::Comprehension => true,
        _ => false,
    }
}

/// The numeric value of a decimal or subscript digit.
pub open spec fn digit_val(c: char) -> Option<int> {
    if '0' <= c && c <= '9' {
        Some(c as int - '0' as int)
    } else if '\u{2080}' <= c && c <= '\u{2089}' {
        Some(c as int - '\u{2080}' as int)
    } else {
        None
    }
}

/// The value of a digit string, accumulated left to right.
pub open spec fn digits_acc(s: Seq<char>, acc: int) -> Option<int>
    decreases s.len(),
{
    if s.len() == 0 {
        Some(acc)
    } else {
        match digit_val(s[0]) {
            Some(d) => digits_acc(s.drop_first(), acc * 10 + d),
            None => None,
        }
    }
}

/// The identifier a variable token's text denotes: `v` and digits give the
/// written index; a single character gives the letter encoding.
pub open spec fn var_id_of(text: Seq<char>) -> Result<u32, Error> {
    if text.len() > 1 && text[0] == 'v' {
        match digits_acc(text.drop_first(), 0) {
            Some(n) => if n <= u32::MAX {
                Ok(n as u32)
            } else {
                Err(Error::IndexTooLarge)
            },
            None => Err(Error::UnknownSymbol),
        }
    } else if text.len() == 1 {
        Ok((u32::MAX - text[0] as u32) as u32)
    } else {
        Err(Error::UnknownSymbol)
    }
}

/// The constant a constant token's text denotes.
pub open spec fn const_of(text: Seq<char>) -> Result<Constant, Error> {
    if text == "0"@ || text == "∅"@ || text == "\\emptyset"@ {
        Ok(Constant::EmptySet)
    } else if text == "ω"@ || text == "\\omega"@ {
        Ok(Constant::Omega)
    } else {
        Err(Error::UnknownSymbol)
    }
}

/// The relation a relation token's text denotes.
pub open spec fn rel_of(text: Seq<char>) -> Result<Relation, Error> {
    if text == "="@ {
        Ok(Relation::Equality)
    } else if text == "∈"@ || text == "\\in"@ {
        Ok(Relation::Element)
    } else if text == "⊆"@ || text == "\\subseteq"@ {
        Ok(Relation::Subset)
    } else if text == "≠"@ || text == "!="@ || text == "\\neq"@ {
        Ok(Relation::NotEqual)
    } else if text == "∉"@ || text == "\\notin"@ {
        Ok(Relation::NotElement)
    } else if text == "⊈"@ || text == "\\nsubseteq"@ {
        Ok(Relation::NotSubset)
    } else {
        Err(Error::UnknownSymbol)
    }
}

/// Whether a connective token's text is a negation spelling.
pub open spec fn is_neg_text(text: Seq<char>) -> bool {
    text == "¬"@ || text == "!"@ || text == "\\lnot"@
}

/// The binary connective a connective token's text denotes.
pub open spec fn conn_of(text: Seq<char>) -> Result<Connective, Error> {
    if text == "∧"@ || text == "&&"@ || text == "\\land"@ {
        Ok(Connective::Conjunction)
    } else if text == "∨"@ || text == "||"@ || text == "\\lor"@ {
        Ok(Connective::Disjunction)
    } else if text == "→"@ || text == "->"@ || text == "\\rightarrow"@ {
        Ok(Connective::Implication)
    } else if text == "↔"@ || text == "<->"@ || text == "\\leftrightarrow"@ {
        Ok(Connective::Biconditional)
    } else {
        Err(Error::ExpectedConnective)
    }
}

/// The quantifier a quantifier token's text denotes.
pub open spec fn quan_of(text: Seq<char>) -> Result<Quantifier, Error> {
    if text == "∀"@ || text == "\\forall"@ {
        Ok(Quantifier::Universal)
    } else if text == "∃"@ || text == "\\exists"@ {
        Ok(Quantifier::Existential)
    } else {
        Err(Error::UnknownSymbol)
    }
}

/// The operator a unary-operator keyword denotes.
pub open spec fn unop_of(text: Seq<char>) -> Result<Operator, Error> {
    if text == "Pot"@ {
        Ok(Operator::PowerSet)
    } else if text == "Vereinigung"@ || text == "\\bigcup"@ {
        Ok(Operator::BigUnion)
    } else if text == "Durchschnitt"@ || text == "\\bigcap"@ {
        Ok(Operator::BigIntersection)
    } else {
        Err(Error::UnknownSymbol)
    }
}

/// The operator a binary-operator symbol denotes.
pub open spec fn binop_of(text: Seq<char>) -> Result<Operator, Error> {
    if text == "∪"@ || text == "\\cup"@ {
        Ok(Operator::Union)
    } else if text == "∩"@ || text == "\\cap"@ {
        Ok(Operator::Intersection)
    } else if text == "\\"@ {
        Ok(Operator::Difference)
    } else {
        Err(Error::UnknownSymbol)
    }
}

/// Parses the formula starting at `i`: quantified forms, parenthesized
/// connective pairs, prefix negation, braced forms, unary-operator forms,
/// and set expressions continued by relations or binary operators.
pub open spec fn pf_spec(ts: Seq<TokenModel>, i: int) -> Result<(int, Node), Error>
    decreases ts.len() - i, 3int,
{
    if i < 0 || i >= ts.len() {
        Err(Error::UnexpectedEnd)
    } else {
        match ts[i] {
            TokenModel::Var(t) => match var_id_of(t) {
                Ok(v) => set_cont_spec(ts, i + 1, nvar(v)),
                Err(e) => Err(e),
            },
            TokenModel::Const(t) => match const_of(t) {
                Ok(k) => set_cont_spec(ts, i + 1, leaf(NodeType::Constant(k))),
                Err(e) => Err(e),
            },
            TokenModel::Quan(t) => match quan_of(t) {
                Ok(q) => if i + 1 < ts.len() {
                    match ts[i + 1] {
                        TokenModel::Var(vt) => match var_id_of(vt) {
                            Ok(v) => match pf_spec(ts, i + 2) {
                                Ok((j, body)) => Ok(
                                    (j, bin(NodeType::Quantifier(q), nvar(v), body)),
                                ),
                                Err(e) => Err(e),
                            },
                            Err(e) => Err(e),
                        },
                        _ => Err(Error::ExpectedVariable),
                    }
                } else {
                    Err(Error::UnexpectedEnd)
                },
                Err(e) => Err(e),
            },
            TokenModel::Conn(t) => if is_neg_text(t) {
                match pf_spec(ts, i + 1) {
                    Ok((j, x)) => Ok((j, un(NodeType::Connective(Connective::Negation), x))),
                    Err(e) => Err(e),
                }
            } else {
                Err(Error::MisplacedToken)
            },
            TokenModel::Brack(t) => if t == "("@ {
                match pf_spec(ts, i + 1) {
                    Ok((j, l)) => if i < j && j < ts.len() {
                        if ts[j] == TokenModel::Brack(")"@) {
                            Ok((j + 1, l))
                        } else {
                        match ts[j] {
                            TokenModel::Conn(ct) => match conn_of(ct) {
                                Ok(c) => match pf_spec(ts, j + 1) {
                                    Ok((k, r)) => if k < ts.len() && ts[k]
                                        == TokenModel::Brack(")"@) {
                                        Ok((k + 1, bin(NodeType::Connective(c), l, r)))
                                    } else {
                                        Err(Error::ExpectedClose)
                                    },
                                    Err(e) => Err(e),
                                },
                                Err(e) => Err(e),
                            },
                            _ => Err(Error::ExpectedConnective),
                        }
                        }
                    } else {
                        Err(Error::UnexpectedEnd)
                    },
                    Err(e) => Err(e),
                }
            } else if t == "{"@ {
                match curly_spec(ts, i) {
                    Ok((j, n)) => if i < j && j <= ts.len() {
                        set_cont_spec(ts, j, n)
                    } else {
                        Err(Error::UnexpectedEnd)
                    },
                    Err(e) => Err(e),
                }
            } else {
                Err(Error::MisplacedToken)
            },
            TokenModel::UnOp(t) => match unop_spec(ts, i) {
                Ok((j, n)) => if i < j && j <= ts.len() {
                    set_cont_spec(ts, j, n)
                } else {
                    Err(Error::UnexpectedEnd)
                },
                Err(e) => Err(e),
            },
            _ => Err(Error::MisplacedToken),
        }
    }
}

/// Parses a braced form at `i` (which holds `{`): a pair set or a
/// comprehension, split by the separator after the first operand.
pub open spec fn curly_spec(ts: Seq<TokenModel>, i: int) -> Result<(int, Node), Error>
    decreases ts.len() - i, 2int,
{
    if i < 0 || i >= ts.len() {
        Err(Error::UnexpectedEnd)
    } else {
        match pf_spec(ts, i + 1) {
        Ok((j, a)) => if i < j && j < ts.len() {
            if ts[j] == TokenModel::Brack(","@) {
                match pf_spec(ts, j + 1) {
                    Ok((k, b)) => if k < ts.len() && ts[k] == TokenModel::Brack("}"@) {
                        if is_set_tag(a.tag) && is_set_tag(b.tag) {
                            Ok((k + 1, bin(NodeType::Operator(Operator::PairSet), a, b)))
                        } else {
                            Err(Error::ExpectedSetOperand)
                        }
                    } else {
                        Err(Error::ExpectedClose)
                    },
                    Err(e) => Err(e),
                }
            } else if ts[j] == TokenModel::Brack("|"@) {
                if a.tag == NodeType::Relation(Relation::Element) {
                    match pf_spec(ts, j + 1) {
                        Ok((k, p)) => if k < ts.len() && ts[k] == TokenModel::Brack("}"@) {
                            Ok((k + 1, bin(NodeType::Comprehension, a, p)))
                        } else {
                            Err(Error::ExpectedClose)
                        },
                        Err(e) => Err(e),
                    }
                } else {
                    Err(Error::ExpectedElementRelation)
                }
            } else {
                Err(Error::ExpectedSeparator)
            }
        } else {
            Err(Error::UnexpectedEnd)
        },
        Err(e) => Err(e),
        }
    }
}

/// Parses a unary-operator form at `i`: the keyword, `(`, a set operand,
/// `)`.
pub open spec fn unop_spec(ts: Seq<TokenModel>, i: int) -> Result<(int, Node), Error>
    decreases ts.len() - i, 2int,
{
    if 0 <= i < ts.len() {
        match ts[i] {
            TokenModel::UnOp(t) => match unop_of(t) {
                Ok(op) => if i + 1 < ts.len() && ts[i + 1] == TokenModel::Brack("("@) {
                    match ps_spec(ts, i + 2) {
                        Ok((j, x)) => if is_set_tag(x.tag) {
                            if j < ts.len() && ts[j] == TokenModel::Brack(")"@) {
                                Ok((j + 1, un(NodeType::Operator(op), x)))
                            } else {
                                Err(Error::ExpectedClose)
                            }
                        } else {
                            Err(Error::ExpectedSetOperand)
                        },
                        Err(e) => Err(e),
                    }
                } else {
                    Err(Error::MisplacedToken)
                },
                Err(e) => Err(e),
            },
            _ => Err(Error::MisplacedToken),
        }
    } else {
        Err(Error::UnexpectedEnd)
    }
}

/// Continues a completed set expression: a relation builds the atom and
/// stops; a binary operator extends the set expression and continues.
pub open spec fn set_cont_spec(ts: Seq<TokenModel>, j: int, node: Node) -> Result<
    (int, Node),
    Error,
>
    decreases ts.len() - j, 1int,
{
    if 0 <= j < ts.len() {
        match ts[j] {
            TokenModel::Rel(t) => match rel_of(t) {
                Ok(r) => match pf_spec(ts, j + 1) {
                    Ok((k, rhs)) => if is_set_tag(rhs.tag) {
                        Ok((k, bin(NodeType::Relation(r), node, rhs)))
                    } else {
                        Err(Error::ExpectedSetOperand)
                    },
                    Err(e) => Err(e),
                },
                Err(e) => Err(e),
            },
            TokenModel::BinOp(t) => match binop_of(t) {
                Ok(o) => match ps_spec(ts, j + 1) {
                    Ok((k, rhs)) => if is_set_tag(rhs.tag) {
                        if j < k && k <= ts.len() {
                            set_cont_spec(ts, k, bin(NodeType::Operator(o), node, rhs))
                        } else {
                            Err(Error::UnexpectedEnd)
                        }
                    } else {
                        Err(Error::ExpectedSetOperand)
                    },
                    Err(e) => Err(e),
                },
                Err(e) => Err(e),
            },
            _ => Ok((j, node)),
        }
    } else {
        Ok((j, node))
    }
}

/// Parses a set operand at `i`: a braced form, a unary-operator form, a
/// variable or constant, each continued by binary operators only.
pub open spec fn ps_spec(ts: Seq<TokenModel>, i: int) -> Result<(int, Node), Error>
    decreases ts.len() - i, 3int,
{
    if i < 0 || i >= ts.len() {
        Err(Error::UnexpectedEnd)
    } else {
        match ts[i] {
            TokenModel::Var(t) => match var_id_of(t) {
                Ok(v) => bin_cont_spec(ts, i + 1, nvar(v)),
                Err(e) => Err(e),
            },
            TokenModel::Const(t) => match const_of(t) {
                Ok(k) => bin_cont_spec(ts, i + 1, leaf(NodeType::Constant(k))),
                Err(e) => Err(e),
            },
            TokenModel::Brack(t) => if t == "{"@ {
                match curly_spec(ts, i) {
                    Ok((j, n)) => if i < j && j <= ts.len() {
                        bin_cont_spec(ts, j, n)
                    } else {
                        Err(Error::UnexpectedEnd)
                    },
                    Err(e) => Err(e),
                }
            } else {
                Err(Error::ExpectedSetOperand)
            },
            TokenModel::UnOp(_) => match unop_spec(ts, i) {
                Ok((j, n)) => if i < j && j <= ts.len() {
                    bin_cont_spec(ts, j, n)
                } else {
                    Err(Error::UnexpectedEnd)
                },
                Err(e) => Err(e),
            },
            _ => Err(Error::ExpectedSetOperand),
        }
    }
}

/// Continues a completed set operand with binary operators only.
pub open spec fn bin_cont_spec(ts: Seq<TokenModel>, j: int, node: Node) -> Result<
    (int, Node),
    Error,
>
    decreases ts.len() - j, 0int,
{
    if 0 <= j < ts.len() {
        match ts[j] {
            TokenModel::BinOp(t) => match binop_of(t) {
                Ok(o) => match ps_spec(ts, j + 1) {
                    Ok((k, rhs)) => if is_set_tag(rhs.tag) {
                        if j < k && k <= ts.len() {
                            bin_cont_spec(ts, k, bin(NodeType::Operator(o), node, rhs))
                        } else {
                            Err(Error::UnexpectedEnd)
                        }
                    } else {
                        Err(Error::ExpectedSetOperand)
                    },
                    Err(e) => Err(e),
                },
                Err(e) => Err(e),
            },
            _ => Ok((j, node)),
        }
    } else {
        Ok((j, node))
    }
}

/// Parses a whole token sequence: one formula, then the end of input.
pub open spec fn parse_spec(ts: Seq<TokenModel>) -> Result<Node, Error> {
    match pf_spec(ts, 0) {
        Ok((j, n)) => if j == ts.len() {
            Ok(n)
        } else {
            Err(Error::TrailingTokens)
        },
        Err(e) => Err(e),
    }
}

/// Character-wise equality of two text slices.
fn str_eq(a: &str, b: &str) -> (r: bool)
    ensures
        r == (a@ == b@),
{
    let na = a.unicode_len();
    let nb = b.unicode_len();
    if na != nb {
        proof {
            assert(a@ != b@);
        }
        return false;
    }
    let mut i: usize = 0;
    while i < na
        invariant
            na == a@.len(),
            na == b@.len(),
            i <= na,
            forall|k: int| 0 <= k < i ==> a@[k] == b@[k],
        decreases na - i,
    {
        if a.get_char(i) != b.get_char(i) {
            proof {
                assert(a@[i as int] != b@[i as int]);
            }
            return false;
        }
        i = i + 1;
    }
    proof {
        assert(a@ =~= b@);
    }
    true
}

fn const_x(t: &String) -> (r: Result<Constant, Error>)
    ensures
        r == const_of(t@),
{
    let s = t.as_str();
    if str_eq(s, "0") || str_eq(s, "∅") || str_eq(s, "\\emptyset") {
        Ok(Constant::EmptySet)
    } else if str_eq(s, "ω") || str_eq(s, "\\omega") {
        Ok(Constant::Omega)
    } else {
        Err(Error::UnknownSymbol)
    }
}

fn rel_x(t: &String) -> (r: Result<Relation, Error>)
    ensures
        r == rel_of(t@),
{
    let s = t.as_str();
    if str_eq(s, "=") {
        Ok(Relation::Equality)
    } else if str_eq(s, "∈") || str_eq(s, "\\in") {
        Ok(Relation::Element)
    } else if str_eq(s, "⊆") || str_eq(s, "\\subseteq") {
        Ok(Relation::Subset)
    } else if str_eq(s, "≠") || str_eq(s, "!=") || str_eq(s, "\\neq") {
        Ok(Relation::NotEqual)
    } else if str_eq(s, "∉") || str_eq(s, "\\notin") {
        Ok(Relation::NotElement)
    } else if str_eq(s, "⊈") || str_eq(s, "\\nsubseteq") {
        Ok(Relation::NotSubset)
    } else {
        Err(Error::UnknownSymbol)
    }
}

fn neg_x(t: &String) -> (r: bool)
    ensures
        r == is_neg_text(t@),
{
    let s = t.as_str();
    str_eq(s, "¬") || str_eq(s, "!") || str_eq(s, "\\lnot")
}

fn conn_x(t: &String) -> (r: Result<Connective, Error>)
    ensures
        r == conn_of(t@),
{
    let s = t.as_str();
    if str_eq(s, "∧") || str_eq(s, "&&") || str_eq(s, "\\land") {
        Ok(Connective::Conjunction)
    } else if str_eq(s, "∨") || str_eq(s, "||") || str_eq(s, "\\lor") {
        Ok(Connective::Disjunction)
    } else if str_eq(s, "→") || str_eq(s, "->") || str_eq(s, "\\rightarrow") {
        Ok(Connective::Implication)
    } else if str_eq(s, "↔") || str_eq(s, "<->") || str_eq(s, "\\leftrightarrow") {
        Ok(Connective::Biconditional)
    } else {
        Err(Error::ExpectedConnective)
    }
}

fn quan_x(t: &String) -> (r: Result<Quantifier, Error>)
    ensures
        r == quan_of(t@),
{
    let s = t.as_str();
    if str_eq(s, "∀") || str_eq(s, "\\forall") {
        Ok(Quantifier::Universal)
    } else if str_eq(s, "∃") || str_eq(s, "\\exists") {
        Ok(Quantifier::Existential)
    } else {
        Err(Error::UnknownSymbol)
    }
}

fn unop_x(t: &String) -> (r: Result<Operator, Error>)
    ensures
        r == unop_of(t@),
{
    let s = t.as_str();
    if str_eq(s, "Pot") {
        Ok(Operator::PowerSet)
    } else if str_eq(s, "Vereinigung") || str_eq(s, "\\bigcup") {
        Ok(Operator::BigUnion)
    } else if str_eq(s, "Durchschnitt") || str_eq(s, "\\bigcap") {
        Ok(Operator::BigIntersection)
    } else {
        Err(Error::UnknownSymbol)
    }
}

fn binop_x(t: &String) -> (r: Result<Operator, Error>)
    ensures
        r == binop_of(t@),
{
    let s = t.as_str();
    if str_eq(s, "∪") || str_eq(s, "\\cup") {
        Ok(Operator::Union)
    } else if str_eq(s, "∩") || str_eq(s, "\\cap") {
        Ok(Operator::Intersection)
    } else if str_eq(s, "\\") {
        Ok(Operator::Difference)
    } else {
        Err(Error::UnknownSymbol)
    }
}

fn brack_is(t: &String, lit: &str) -> (r: bool)
    ensures
        r == (t@ == lit@),
{
    str_eq(t.as_str(), lit)
}

/// The identifier a variable token denotes, executable. Index values
/// beyond the identifier space are rejected rather than wrapped.
fn var_id_x(t: &String) -> (r: Result<u32, Error>)
    ensures
        r == var_id_of(t@),
{
    let s = t.as_str();
    let n = s.unicode_len();
    if n > 1 && s.get_char(0) == 'v' {
        let mut acc: u64 = 0;
        let ghost mut gacc: int = 0;
        let mut j: usize = 1;
        proof {
            assert(s@.drop_first() =~= s@.skip(1));
        }
        while j < n
            invariant
                n == s@.len(),
                s@ == t@,
                n > 1,
                s@[0] == 'v',
                1 <= j <= n,
                digits_acc(s@.drop_first(), 0) == digits_acc(s@.skip(j as int), gacc),
                gacc >= 0,
                gacc <= u32::MAX ==> acc == gacc,
                gacc > u32::MAX ==> acc == 0x1_0000_0000u64,
            decreases n - j,
        {
            let c = s.get_char(j);
            let dv: u64 = if '0' <= c && c <= '9' {
                (c as u32 - '0' as u32) as u64
            } else if '\u{2080}' <= c && c <= '\u{2089}' {
                (c as u32 - '\u{2080}' as u32) as u64
            } else {
                proof {
                    assert(s@.skip(j as int)[0] == s@[j as int]);
                    assert(digit_val(s@[j as int]) is None);
                    assert(digits_acc(s@.skip(j as int), gacc) is None);
                }
                return Err(Error::UnknownSymbol);
            };
            proof {
                assert(s@.skip(j as int)[0] == s@[j as int]);
                assert(digit_val(s@[j as int]) == Some(dv as int));
                assert(s@.skip(j as int).drop_first() =~= s@.skip(j + 1));
            }
            let ghost g2 = gacc * 10 + dv as int;
            if acc > u32::MAX as u64 {
                proof {
                    assert(g2 > u32::MAX);
                }
            } else {
                acc = acc * 10 + dv;
                if acc > u32::MAX as u64 {
                    acc = 0x1_0000_0000u64;
                }
            }
            proof {
                gacc = g2;
            }
            j = j + 1;
        }
        proof {
            assert(s@.skip(n as int) =~= Seq::<char>::empty());
            assert(digits_acc(s@.drop_first(), 0) == Some(gacc));
        }
        if acc <= u32::MAX as u64 {
            Ok(acc as u32)
        } else {
            Err(Error::IndexTooLarge)
        }
    } else if n == 1 {
        let c = s.get_char(0);
        Ok(u32::MAX - c as u32)
    } else {
        Err(Error::UnknownSymbol)
    }
}

/// Parses the formula starting at `i`, executable.
fn pf_x(ts: &Vec<Token>, i: usize) -> (r: Result<(usize, SyntaxNode), Error>)
    ensures
        ({
            let sp = pf_spec(tok_views(ts@), i as int);
            match r {
                Ok(p) => i < p.0 && p.0 <= ts@.len() && sp == Ok::<(int, Node), Error>(
                    (p.0 as int, p.1@),
                ),
                Err(e) => sp == Err::<(int, Node), Error>(e),
            }
        }),
    decreases ts@.len() - i, 3int,
{
    proof {
        crate::lexer::lemma_tok_views(ts@);
    }
    if i >= ts.len() {
        return Err(Error::UnexpectedEnd);
    }
    match &ts[i] {
        Token::Var(t) => match var_id_x(t) {
            Ok(v) => set_cont_x(ts, i + 1, mk_leaf(NodeType::Variable(v))),
            Err(e) => Err(e),
        },
        Token::Const(t) => match const_x(t) {
            Ok(k) => set_cont_x(ts, i + 1, mk_leaf(NodeType::Constant(k))),
            Err(e) => Err(e),
        },
        Token::Quan(t) => match quan_x(t) {
            Ok(q) => {
                if i + 1 >= ts.len() {
                    return Err(Error::UnexpectedEnd);
                }
                match &ts[i + 1] {
                    Token::Var(vt) => match var_id_x(vt) {
                        Ok(v) => match pf_x(ts, i + 2) {
                            Ok((j, body)) => Ok(
                                (
                                    j,
                                    mk2(
                                        NodeType::Quantifier(q),
                                        mk_leaf(NodeType::Variable(v)),
                                        body,
                                    ),
                                ),
                            ),
                            Err(e) => Err(e),
                        },
                        Err(e) => Err(e),
                    },
                    _ => Err(Error::ExpectedVariable),
                }
            },
            Err(e) => Err(e),
        },
        Token::Conn(t) => {
            if neg_x(t) {
                match pf_x(ts, i + 1) {
                    Ok((j, x)) => Ok(
                        (j, mk1(NodeType::Connective(Connective::Negation), x)),
                    ),
                    Err(e) => Err(e),
                }
            } else {
                Err(Error::MisplacedToken)
            }
        },
        Token::Brack(t) => {
            if brack_is(t, "(") {
                match pf_x(ts, i + 1) {
                    Ok((j, l)) => {
                        if j >= ts.len() {
                            return Err(Error::UnexpectedEnd);
                        }
                        if matches!(&ts[j], Token::Brack(b) if brack_is(b, ")")) {
                            return Ok((j + 1, l));
                        }
                        proof {
                            assert(tok_views(ts@)[j as int] != TokenModel::Brack(")"@));
                        }
                        match &ts[j] {
                            Token::Conn(ct) => match conn_x(ct) {
                                Ok(c) => match pf_x(ts, j + 1) {
                                    Ok((k, rr)) => {
                                        if k < ts.len() && matches!(&ts[k], Token::Brack(b) if brack_is(b, ")")) {
                                            Ok((k + 1, mk2(NodeType::Connective(c), l, rr)))
                                        } else {
                                            proof {
                                                if k < ts@.len() {
                                                    assert(tok_views(ts@)[k as int] != TokenModel::Brack(")"@));
                                                }
                                            }
                                            Err(Error::ExpectedClose)
                                        }
                                    },
                                    Err(e) => Err(e),
                                },
                                Err(e) => Err(e),
                            },
                            _ => Err(Error::ExpectedConnective),
                        }
                    },
                    Err(e) => Err(e),
                }
            } else if brack_is(t, "{") {
                match curly_x(ts, i) {
                    Ok((j, n)) => set_cont_x(ts, j, n),
                    Err(e) => Err(e),
                }
            } else {
                Err(Error::MisplacedToken)
            }
        },
        Token::UnOp(_) => match unop_xf(ts, i) {
            Ok((j, n)) => set_cont_x(ts, j, n),
            Err(e) => Err(e),
        },
        _ => Err(Error::MisplacedToken),
    }
}

/// Parses a braced form at `i`, executable.
fn curly_x(ts: &Vec<Token>, i: usize) -> (r: Result<(usize, SyntaxNode), Error>)
    ensures
        ({
            let sp = curly_spec(tok_views(ts@), i as int);
            match r {
                Ok(p) => i < p.0 && p.0 <= ts@.len() && sp == Ok::<(int, Node), Error>(
                    (p.0 as int, p.1@),
                ),
                Err(e) => sp == Err::<(int, Node), Error>(e),
            }
        }),
    decreases ts@.len() - i, 2int,
{
    proof {
        crate::lexer::lemma_tok_views(ts@);
    }
    if i >= ts.len() {
        return Err(Error::UnexpectedEnd);
    }
    match pf_x(ts, i + 1) {
        Ok((j, a)) => {
            if j >= ts.len() {
                return Err(Error::UnexpectedEnd);
            }
            let comma = matches!(&ts[j], Token::Brack(b) if brack_is(b, ","));
            let bar = matches!(&ts[j], Token::Brack(b) if brack_is(b, "|"));
            proof {
                assert(comma == (tok_views(ts@)[j as int] == TokenModel::Brack(","@)));
                assert(bar == (tok_views(ts@)[j as int] == TokenModel::Brack("|"@)));
            }
            if comma {
                match pf_x(ts, j + 1) {
                    Ok((k, b)) => {
                        if k < ts.len() && matches!(&ts[k], Token::Brack(c) if brack_is(c, "}")) {
                            if is_set_x(&a) && is_set_x(&b) {
                                Ok((k + 1, mk2(NodeType::Operator(Operator::PairSet), a, b)))
                            } else {
                                Err(Error::ExpectedSetOperand)
                            }
                        } else {
                            proof {
                                if k < ts@.len() {
                                    assert(tok_views(ts@)[k as int] != TokenModel::Brack("}"@));
                                }
                            }
                            Err(Error::ExpectedClose)
                        }
                    },
                    Err(e) => Err(e),
                }
            } else if bar {
                if matches!(a.entry, NodeType::Relation(Relation::Element)) {
                    match pf_x(ts, j + 1) {
                        Ok((k, p)) => {
                            if k < ts.len() && matches!(&ts[k], Token::Brack(c) if brack_is(c, "}")) {
                                Ok((k + 1, mk2(NodeType::Comprehension, a, p)))
                            } else {
                                proof {
                                    if k < ts@.len() {
                                        assert(tok_views(ts@)[k as int] != TokenModel::Brack("}"@));
                                    }
                                }
                                Err(Error::ExpectedClose)
                            }
                        },
                        Err(e) => Err(e),
                    }
                } else {
                    Err(Error::ExpectedElementRelation)
                }
            } else {
                Err(Error::ExpectedSeparator)
            }
        },
        Err(e) => Err(e),
    }
}

/// Set-likeness test, executable.
fn is_set_x(n: &SyntaxNode) -> (r: bool)
    ensures
        r == is_set_tag(n@.tag),
{
    matches!(
        n.entry,
        NodeType::Variable(_) | NodeType::Constant(_) | NodeType::Operator(_)
            | NodeType::Comprehension
    )
}

/// Parses a unary-operator form at `i`, executable.
fn unop_xf(ts: &Vec<Token>, i: usize) -> (r: Result<(usize, SyntaxNode), Error>)
    ensures
        ({
            let sp = unop_spec(tok_views(ts@), i as int);
            match r {
                Ok(p) => i < p.0 && p.0 <= ts@.len() && sp == Ok::<(int, Node), Error>(
                    (p.0 as int, p.1@),
                ),
                Err(e) => sp == Err::<(int, Node), Error>(e),
            }
        }),
    decreases ts@.len() - i, 2int,
{
    proof {
        crate::lexer::lemma_tok_views(ts@);
    }
    if i >= ts.len() {
        return Err(Error::UnexpectedEnd);
    }
    match &ts[i] {
        Token::UnOp(t) => match unop_x(t) {
            Ok(op) => {
                if i + 1 < ts.len() && matches!(&ts[i + 1], Token::Brack(b) if brack_is(b, "(")) {
                    match ps_x(ts, i + 2) {
                        Ok((j, x)) => {
                            if is_set_x(&x) {
                                if j < ts.len() && matches!(&ts[j], Token::Brack(b) if brack_is(b, ")")) {
                                    Ok((j + 1, mk1(NodeType::Operator(op), x)))
                                } else {
                                    proof {
                                        if j < ts@.len() {
                                            assert(tok_views(ts@)[j as int] != TokenModel::Brack(
                                                ")"@,
                                            ));
                                        }
                                    }
                                    Err(Error::ExpectedClose)
                                }
                            } else {
                                Err(Error::ExpectedSetOperand)
                            }
                        },
                        Err(e) => Err(e),
                    }
                } else {
                    proof {
                        if i + 1 < ts@.len() {
                            assert(tok_views(ts@)[i + 1] == ts@[i + 1]@);
                        }
                    }
                    Err(Error::MisplacedToken)
                }
            },
            Err(e) => Err(e),
        },
        _ => Err(Error::MisplacedToken),
    }
}

/// Continues a completed set expression, executable.
fn set_cont_x(ts: &Vec<Token>, j: usize, node: SyntaxNode) -> (r: Result<
    (usize, SyntaxNode),
    Error,
>)
    requires
        j <= ts@.len(),
    ensures
        ({
            let sp = set_cont_spec(tok_views(ts@), j as int, node@);
            match r {
                Ok(p) => j <= p.0 && p.0 <= ts@.len() && sp == Ok::<(int, Node), Error>(
                    (p.0 as int, p.1@),
                ),
                Err(e) => sp == Err::<(int, Node), Error>(e),
            }
        }),
    decreases ts@.len() - j, 1int,
{
    proof {
        crate::lexer::lemma_tok_views(ts@);
    }
    if j >= ts.len() {
        return Ok((j, node));
    }
    match &ts[j] {
        Token::Rel(t) => match rel_x(t) {
            Ok(rl) => match pf_x(ts, j + 1) {
                Ok((k, rhs)) => {
                    if is_set_x(&rhs) {
                        Ok((k, mk2(NodeType::Relation(rl), node, rhs)))
                    } else {
                        Err(Error::ExpectedSetOperand)
                    }
                },
                Err(e) => Err(e),
            },
            Err(e) => Err(e),
        },
        Token::BinOp(t) => match binop_x(t) {
            Ok(o) => match ps_x(ts, j + 1) {
                Ok((k, rhs)) => {
                    if is_set_x(&rhs) {
                        set_cont_x(ts, k, mk2(NodeType::Operator(o), node, rhs))
                    } else {
                        Err(Error::ExpectedSetOperand)
                    }
                },
                Err(e) => Err(e),
            },
            Err(e) => Err(e),
        },
        _ => Ok((j, node)),
    }
}

/// Parses a set operand at `i`, executable.
fn ps_x(ts: &Vec<Token>, i: usize) -> (r: Result<(usize, SyntaxNode), Error>)
    ensures
        ({
            let sp = ps_spec(tok_views(ts@), i as int);
            match r {
                Ok(p) => i < p.0 && p.0 <= ts@.len() && sp == Ok::<(int, Node), Error>(
                    (p.0 as int, p.1@),
                ),
                Err(e) => sp == Err::<(int, Node), Error>(e),
            }
        }),
    decreases ts@.len() - i, 3int,
{
    proof {
        crate::lexer::lemma_tok_views(ts@);
    }
    if i >= ts.len() {
        return Err(Error::UnexpectedEnd);
    }
    match &ts[i] {
        Token::Var(t) => match var_id_x(t) {
            Ok(v) => bin_cont_x(ts, i + 1, mk_leaf(NodeType::Variable(v))),
            Err(e) => Err(e),
        },
        Token::Const(t) => match const_x(t) {
            Ok(k) => bin_cont_x(ts, i + 1, mk_leaf(NodeType::Constant(k))),
            Err(e) => Err(e),
        },
        Token::Brack(t) => {
            if brack_is(t, "{") {
                match curly_x(ts, i) {
                    Ok((j, n)) => bin_cont_x(ts, j, n),
                    Err(e) => Err(e),
                }
            } else {
                Err(Error::ExpectedSetOperand)
            }
        },
        Token::UnOp(_) => match unop_xf(ts, i) {
            Ok((j, n)) => bin_cont_x(ts, j, n),
            Err(e) => Err(e),
        },
        _ => Err(Error::ExpectedSetOperand),
    }
}

/// Continues a completed set operand with binary operators, executable.
fn bin_cont_x(ts: &Vec<Token>, j: usize, node: SyntaxNode) -> (r: Result<
    (usize, SyntaxNode),
    Error,
>)
    requires
        j <= ts@.len(),
    ensures
        ({
            let sp = bin_cont_spec(tok_views(ts@), j as int, node@);
            match r {
                Ok(p) => j <= p.0 && p.0 <= ts@.len() && sp == Ok::<(int, Node), Error>(
                    (p.0 as int, p.1@),
                ),
                Err(e) => sp == Err::<(int, Node), Error>(e),
            }
        }),
    decreases ts@.len() - j, 0int,
{
    proof {
        crate::lexer::lemma_tok_views(ts@);
    }
    if j >= ts.len() {
        return Ok((j, node));
    }
    match &ts[j] {
        Token::BinOp(t) => match binop_x(t) {
            Ok(o) => match ps_x(ts, j + 1) {
                Ok((k, rhs)) => {
                    if is_set_x(&rhs) {
                        bin_cont_x(ts, k, mk2(NodeType::Operator(o), node, rhs))
                    } else {
                        Err(Error::ExpectedSetOperand)
                    }
                },
                Err(e) => Err(e),
            },
            Err(e) => Err(e),
        },
        _ => Ok((j, node)),
    }
}

/// Consumes a token sequence and builds the one tree it denotes, or
/// reports the grammar fault that stopped the parse.
pub fn parse(tokens: Vec<Token>) -> (r: Result<SyntaxNode, Error>)
    ensures
        ({
            let sp = parse_spec(tok_views(tokens@));
            match r {
                Ok(t) => sp == Ok::<Node, Error>(t@),
                Err(e) => sp == Err::<Node, Error>(e),
            }
        }),
{
    proof {
        crate::lexer::lemma_tok_views(tokens@);
    }
    match pf_x(&tokens, 0) {
        Ok((j, n)) => {
            if j == tokens.len() {
                Ok(n)
            } else {
                Err(Error::TrailingTokens)
            }
        },
        Err(e) => Err(e),
    }
}

// ---------------------------------------------------------------------------
// The arity invariant holds of every tree the parser builds.
// ---------------------------------------------------------------------------

/// A parsed formula is well formed.
pub proof fn lemma_pf_wf(ts: Seq<TokenModel>, i: int)
    ensures
        pf_spec(ts, i) matches Ok(p) ==> p.1.wf(),
    decreases ts.len() - i, 3int,
{
    broadcast use crate::parser::lemma_wf_seq;
    broadcast use crate::transformer::lemma_wf_leaf, crate::transformer::lemma_wf_nvar,
        crate::transformer::lemma_wf_un, crate::transformer::lemma_wf_bin;

    if 0 <= i < ts.len() {
        match ts[i] {
            TokenModel::Var(t) => {
                if var_id_of(t) is Ok {
                    lemma_set_cont_wf(ts, i + 1, nvar(var_id_of(t).unwrap()));
                }
            },
            TokenModel::Const(t) => {
                if const_of(t) is Ok {
                    lemma_set_cont_wf(ts, i + 1, leaf(NodeType::Constant(const_of(t).unwrap())));
                }
            },
            TokenModel::Quan(t) => {
                if i + 1 < ts.len() {
                    lemma_pf_wf(ts, i + 2);
                }
            },
            TokenModel::Conn(t) => {
                lemma_pf_wf(ts, i + 1);
            },
            TokenModel::Brack(t) => {
                if t == "("@ {
                    lemma_pf_wf(ts, i + 1);
                    if pf_spec(ts, i + 1) matches Ok((j, l)) && i < j && j < ts.len() {
                        let (j, l) = pf_spec(ts, i + 1).unwrap();
                        lemma_pf_wf(ts, j + 1);
                    }
                } else if t == "{"@ {
                    lemma_curly_wf(ts, i);
                    if curly_spec(ts, i) matches Ok((j, n)) && i < j && j <= ts.len() {
                        let (j, n) = curly_spec(ts, i).unwrap();
                        lemma_set_cont_wf(ts, j, n);
                    }
                }
            },
            TokenModel::UnOp(t) => {
                lemma_unop_wf(ts, i);
                if unop_spec(ts, i) matches Ok((j, n)) && i < j && j <= ts.len() {
                    let (j, n) = unop_spec(ts, i).unwrap();
                    lemma_set_cont_wf(ts, j, n);
                }
            },
            _ => {},
        }
    }
}

/// A parsed braced form is well formed.
pub proof fn lemma_curly_wf(ts: Seq<TokenModel>, i: int)
    ensures
        curly_spec(ts, i) matches Ok(p) ==> p.1.wf(),
    decreases ts.len() - i, 2int,
{
    broadcast use crate::parser::lemma_wf_seq;
    broadcast use crate::transformer::lemma_wf_bin;

    if 0 <= i < ts.len() {
        lemma_pf_wf(ts, i + 1);
        if pf_spec(ts, i + 1) matches Ok((j, a)) && i < j && j < ts.len() {
            let (j, a) = pf_spec(ts, i + 1).unwrap();
            lemma_pf_wf(ts, j + 1);
        }
    }
}

/// A parsed unary-operator form is well formed.
pub proof fn lemma_unop_wf(ts: Seq<TokenModel>, i: int)
    ensures
        unop_spec(ts, i) matches Ok(p) ==> p.1.wf(),
    decreases ts.len() - i, 2int,
{
    broadcast use crate::parser::lemma_wf_seq;
    broadcast use crate::transformer::lemma_wf_un;

    if 0 <= i < ts.len() {
        if i + 1 < ts.len() && ts[i + 1] == TokenModel::Brack("("@) {
            lemma_ps_wf(ts, i + 2);
        }
    }
}

/// A continued set expression stays well formed.
pub proof fn lemma_set_cont_wf(ts: Seq<TokenModel>, j: int, node: Node)
    requires
        node.wf(),
    ensures
        set_cont_spec(ts, j, node) matches Ok(p) ==> p.1.wf(),
    decreases ts.len() - j, 1int,
{
    broadcast use crate::parser::lemma_wf_seq;
    broadcast use crate::transformer::lemma_wf_bin;

    if 0 <= j < ts.len() {
        match ts[j] {
            TokenModel::Rel(t) => {
                lemma_pf_wf(ts, j + 1);
            },
            TokenModel::BinOp(t) => {
                lemma_ps_wf(ts, j + 1);
                if binop_of(t) matches Ok(o) {
                    let o = binop_of(t).unwrap();
                    if ps_spec(ts, j + 1) matches Ok((k, rhs)) {
                        let (k, rhs) = ps_spec(ts, j + 1).unwrap();
                        if is_set_tag(rhs.tag) && j < k && k <= ts.len() {
                            lemma_set_cont_wf(ts, k, bin(NodeType::Operator(o), node, rhs));
                        }
                    }
                }
            },
            _ => {},
        }
    }
}

/// A parsed set operand is well formed.
pub proof fn lemma_ps_wf(ts: Seq<TokenModel>, i: int)
    ensures
        ps_spec(ts, i) matches Ok(p) ==> p.1.wf(),
    decreases ts.len() - i, 3int,
{
    broadcast use crate::parser::lemma_wf_seq;
    broadcast use crate::transformer::lemma_wf_leaf, crate::transformer::lemma_wf_nvar;

    if 0 <= i < ts.len() {
        match ts[i] {
            TokenModel::Var(t) => {
                if var_id_of(t) is Ok {
                    lemma_bin_cont_wf(ts, i + 1, nvar(var_id_of(t).unwrap()));
                }
            },
            TokenModel::Const(t) => {
                if const_of(t) is Ok {
                    lemma_bin_cont_wf(ts, i + 1, leaf(NodeType::Constant(const_of(t).unwrap())));
                }
            },
            TokenModel::Brack(t) => {
                if t == "{"@ {
                    lemma_curly_wf(ts, i);
                    if curly_spec(ts, i) matches Ok((j, n)) && i < j && j <= ts.len() {
                        let (j, n) = curly_spec(ts, i).unwrap();
                        lemma_bin_cont_wf(ts, j, n);
                    }
                }
            },
            TokenModel::UnOp(t) => {
                lemma_unop_wf(ts, i);
                if unop_spec(ts, i) matches Ok((j, n)) && i < j && j <= ts.len() {
                    let (j, n) = unop_spec(ts, i).unwrap();
                    lemma_bin_cont_wf(ts, j, n);
                }
            },
            _ => {},
        }
    }
}

/// A continued set operand stays well formed.
pub proof fn lemma_bin_cont_wf(ts: Seq<TokenModel>, j: int, node: Node)
    requires
        node.wf(),
    ensures
        bin_cont_spec(ts, j, node) matches Ok(p) ==> p.1.wf(),
    decreases ts.len() - j, 0int,
{
    broadcast use crate::parser::lemma_wf_seq;
    broadcast use crate::transformer::lemma_wf_bin;

    if 0 <= j < ts.len() {
        match ts[j] {
            TokenModel::BinOp(t) => {
                lemma_ps_wf(ts, j + 1);
                if binop_of(t) matches Ok(o) {
                    let o = binop_of(t).unwrap();
                    if ps_spec(ts, j + 1) matches Ok((k, rhs)) {
                        let (k, rhs) = ps_spec(ts, j + 1).unwrap();
                        if is_set_tag(rhs.tag) && j < k && k <= ts.len() {
                            lemma_bin_cont_wf(ts, k, bin(NodeType::Operator(o), node, rhs));
                        }
                    }
                }
            },
            _ => {},
        }
    }
}

/// The arity invariant at the parser: every tree a successful parse hands
/// on has each node's child count equal to its tag's arity.
pub proof fn lemma_parse_wf(ts: Seq<TokenModel>)
    ensures
        parse_spec(ts) matches Ok(n) ==> n.wf(),
{
    lemma_pf_wf(ts, 0);
}

} // verus!
